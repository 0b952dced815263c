//! Building the file tree of a backup profile: scanning its sources and
//! keeping only the files with the profile's extensions.
use vstd::prelude::*;
use crate::adb::client::RemoteEntry;
use crate::error::{AppError, AppResult};
use crate::profile::{ProfileSpec, SourceSpec};
use crate::scanner::tree::{
    node_of_entry, selection_set, totals_computed, tree_files, tree_files_seq, tree_total,
    tree_total_seq, FileNode, Scanner,
};
use crate::scanner::walk::{
    checked_totals, depths_consistent, entries_bytes_fit, fresh_partly_walked, fresh_walked,
    lemma_failure_lifts, lemma_fresh_walked_partly, lemma_fresh_walked_shape, lemma_in_tree_self,
    lemma_partly_fresh, lemma_partly_refl, lemma_partly_same_node, lemma_same_shape_refl,
    lemma_totals_computed_shape, lemma_walked_fresh, lemma_walked_partly, lemma_walked_same_node,
    list_failed_at, listed_by, overflow_at, partly_walked, same_node, same_shape, totals_hold,
    totals_overflow, walk_failure, walked,
};
use crate::text::{
    chars_of, eq_ignore_ascii_case, eq_ignore_ascii_case_exec, last_piece, last_piece_vec, owned,
};

verus! {

/// The texts of a list of strings.
pub open spec fn ext_texts(v: Seq<String>) -> Seq<Seq<char>> {
    v.map_values(|s: String| s@)
}

/// Whether a file name's extension (the text after its last dot, or the
/// whole name without one) is one of `exts`, ignoring ASCII case.
pub open spec fn ext_matches(name: Seq<char>, exts: Seq<Seq<char>>) -> bool {
    exists|i: int| 0 <= i < exts.len() && eq_ignore_ascii_case(#[trigger] exts[i], last_piece(name, '.'))
}

/// Whether pruning keeps a node: every directory, and the matching files.
pub open spec fn keeps(n: FileNode, exts: Seq<Seq<char>>) -> bool {
    n.is_dir || ext_matches(n.name@, exts)
}

/// `b` is `a` pruned to the extensions `exts`: a file is selected exactly
/// when its extension matches; a directory keeps its subdirectories and its
/// matching files, each pruned in turn; totals are those of the pruned tree.
pub open spec fn pruned(a: FileNode, b: FileNode, exts: Seq<Seq<char>>) -> bool
    decreases a, 1nat,
{
    &&& b.name == a.name
    &&& b.path == a.path
    &&& b.is_dir == a.is_dir
    &&& b.size == a.size
    &&& b.mtime == a.mtime
    &&& b.expanded == a.expanded
    &&& b.loaded == a.loaded
    &&& b.depth == a.depth
    &&& b.selected == if a.is_dir {
        a.selected
    } else {
        ext_matches(a.name@, exts)
    }
    &&& b.total_size == tree_total(b)
    &&& b.file_count == tree_files(b)
    &&& if a.is_dir {
        pruned_seq(a.children@, b.children@, exts)
    } else {
        b.children == a.children
    }
}

/// `bs` is `as_` with the nodes that pruning drops left out and the others pruned.
pub open spec fn pruned_seq(as_: Seq<FileNode>, bs: Seq<FileNode>, exts: Seq<Seq<char>>) -> bool
    decreases as_, 0nat,
{
    if as_.len() == 0 {
        bs.len() == 0
    } else if keeps(as_.last(), exts) {
        &&& bs.len() > 0
        &&& pruned(as_.last(), bs.last(), exts)
        &&& pruned_seq(as_.drop_last(), bs.drop_last(), exts)
    } else {
        pruned_seq(as_.drop_last(), bs, exts)
    }
}

/// Pruning never adds bytes or files.
pub proof fn lemma_pruned_le(a: FileNode, b: FileNode, exts: Seq<Seq<char>>)
    requires
        pruned(a, b, exts),
    ensures
        tree_total(b) <= tree_total(a),
        tree_files(b) <= tree_files(a),
    decreases a, 1nat,
{
    if a.is_dir {
        lemma_pruned_seq_le(a.children@, b.children@, exts);
    }
}

proof fn lemma_pruned_seq_le(as_: Seq<FileNode>, bs: Seq<FileNode>, exts: Seq<Seq<char>>)
    requires
        pruned_seq(as_, bs, exts),
    ensures
        tree_total_seq(bs) <= tree_total_seq(as_),
        tree_files_seq(bs) <= tree_files_seq(as_),
    decreases as_, 0nat,
{
    if as_.len() > 0 {
        assert(decreases_to!(as_ => as_.last()));
        if keeps(as_.last(), exts) {
            lemma_pruned_seq_le(as_.drop_last(), bs.drop_last(), exts);
            lemma_pruned_le(as_.last(), bs.last(), exts);
        } else {
            lemma_pruned_seq_le(as_.drop_last(), bs, exts);
        }
    }
}

proof fn lemma_child_total_le(cs: Seq<FileNode>, k: int)
    requires
        0 <= k < cs.len(),
    ensures
        tree_total(cs[k]) <= tree_total_seq(cs),
        tree_files(cs[k]) <= tree_files_seq(cs),
{
    crate::scanner::tree::lemma_tree_total_prefix(cs, k + 1);
    crate::scanner::tree::lemma_tree_files_prefix(cs, k + 1);
    assert(cs.take(k + 1).drop_last() =~= cs.take(k));
    assert(cs.take(k + 1).last() == cs[k]);
}

/// Whether a file name's extension is one of `exts`, ignoring ASCII case.
pub fn matches_extension(name: &str, exts: &Vec<String>) -> (b: bool)
    ensures
        b == ext_matches(name@, ext_texts(exts@)),
{
    let ext = last_piece_vec(&chars_of(name), '.');
    let ghost es = ext_texts(exts@);
    let mut i: usize = 0;
    while i < exts.len()
        invariant
            i <= exts@.len(),
            es == ext_texts(exts@),
            ext@ == last_piece(name@, '.'),
            forall|k: int| 0 <= k < i ==> !eq_ignore_ascii_case(#[trigger] es[k], ext@),
        decreases exts@.len() - i,
    {
        if eq_ignore_ascii_case_exec(&chars_of(exts[i].as_str()), &ext) {
            assert(es[i as int] == exts@[i as int]@);
            return true;
        }
        i = i + 1;
    }
    false
}

/// Recursively prune non-matching files from a scanned subtree: files are
/// selected by extension, directories drop the files that do not match, and
/// the totals are recomputed.
pub fn keep_extensions(node: &mut FileNode, extensions: &Vec<String>)
    requires
        tree_total(*old(node)) <= u64::MAX,
        tree_files(*old(node)) <= u64::MAX,
    ensures
        pruned(*old(node), *final(node), ext_texts(extensions@)),
    decreases *old(node),
{
    let ghost exts = ext_texts(extensions@);
    let ghost orig = *node;
    if node.is_dir {
        let mut cs: Vec<FileNode> = Vec::new();
        std::mem::swap(&mut cs, &mut node.children);
        let ghost old_cs = cs@;
        let mut out: Vec<FileNode> = Vec::new();
        let mut total: u64 = 0;
        let mut count: u64 = 0;
        for c in it: cs
            invariant
                it.seq() == old_cs,
                old_cs == orig.children@,
                orig == *old(node),
                orig.is_dir,
                exts == ext_texts(extensions@),
                tree_total_seq(old_cs) <= u64::MAX,
                tree_files_seq(old_cs) <= u64::MAX,
                pruned_seq(old_cs.take(it.index() as int), out@, exts),
                total == tree_total_seq(out@),
                count == tree_files_seq(out@),
        {
            let ghost k = it.index() as int;
            proof {
                assert(c == old_cs[k]);
                assert(decreases_to!(orig => orig.children));
                assert(decreases_to!(orig.children => orig.children@));
                assert(decreases_to!(*old(node) => c));
                lemma_child_total_le(old_cs, k);
                assert(old_cs.take(k + 1).drop_last() =~= old_cs.take(k));
                assert(old_cs.take(k + 1).last() == c);
            }
            let mut c = c;
            let ghost before = c;
            keep_extensions(&mut c, extensions);
            if c.is_dir || c.selected {
                proof {
                    assert(keeps(before, exts));
                    assert(out@.push(c).drop_last() =~= out@);
                    assert(pruned_seq(old_cs.take(k + 1), out@.push(c), exts));
                    lemma_pruned_seq_le(old_cs.take(k + 1), out@.push(c), exts);
                    lemma_pruned_seq_le(old_cs.take(k), out@, exts);
                    lemma_pruned_le(before, c, exts);
                    crate::scanner::tree::lemma_tree_total_prefix(old_cs, k + 1);
                    crate::scanner::tree::lemma_tree_files_prefix(old_cs, k + 1);
                }
                total = total + c.total_size;
                count = count + c.file_count;
                let ghost prev = out@;
                out.push(c);
                assert(out@.drop_last() =~= prev);
            } else {
                assert(!keeps(before, exts));
                assert(pruned_seq(old_cs.take(k + 1), out@, exts));
            }
        }
        proof {
            assert(old_cs.take(old_cs.len() as int) =~= old_cs);
        }
        node.children = out;
        node.total_size = total;
        node.file_count = count;
    } else {
        let m = matches_extension(node.name.as_str(), extensions);
        node.selected = m;
        node.total_size = node.size;
        node.file_count = 1;
    }
}

/// Max recursion depth when scanning profile sources.
pub const MAX_SCAN_DEPTH: usize = 4;

/// Every node of the tree is selected.
pub open spec fn all_selected(n: FileNode) -> bool
    decreases n,
{
    n.selected && forall|i: int|
        0 <= i < n.children@.len() ==> all_selected(#[trigger] n.children@[i])
}

/// Every file below the directory `n` has one of the extensions `exts`.
pub open spec fn files_match(n: FileNode, exts: Seq<Seq<char>>) -> bool
    decreases n,
{
    forall|i: int|
        0 <= i < n.children@.len() ==> if (#[trigger] n.children@[i]).is_dir {
            files_match(n.children@[i], exts)
        } else {
            ext_matches(n.children@[i].name@, exts)
        }
}

proof fn lemma_pruned_files_match(a: FileNode, b: FileNode, exts: Seq<Seq<char>>)
    requires
        pruned(a, b, exts),
        a.is_dir,
    ensures
        files_match(b, exts),
    decreases a, 1nat,
{
    lemma_pruned_seq_files_match(a.children@, b.children@, exts);
}

proof fn lemma_pruned_seq_files_match(as_: Seq<FileNode>, bs: Seq<FileNode>, exts: Seq<Seq<char>>)
    requires
        pruned_seq(as_, bs, exts),
    ensures
        forall|i: int|
            0 <= i < bs.len() ==> if (#[trigger] bs[i]).is_dir {
                files_match(bs[i], exts)
            } else {
                ext_matches(bs[i].name@, exts)
            },
    decreases as_, 0nat,
{
    if as_.len() > 0 {
        assert(decreases_to!(as_ => as_.last()));
        if keeps(as_.last(), exts) {
            assert(pruned(as_.last(), bs.last(), exts));
            assert(bs.last().name == as_.last().name);
            assert(bs.last().is_dir == as_.last().is_dir);
            lemma_pruned_seq_files_match(as_.drop_last(), bs.drop_last(), exts);
            if as_.last().is_dir {
                lemma_pruned_files_match(as_.last(), bs.last(), exts);
            }
            assert forall|i: int| 0 <= i < bs.len() implies if (#[trigger] bs[i]).is_dir {
                files_match(bs[i], exts)
            } else {
                ext_matches(bs[i].name@, exts)
            } by {
                if i < bs.len() - 1 {
                    assert(bs[i] == bs.drop_last()[i]);
                } else {
                    assert(bs[i] == bs.last());
                    assert(bs.last().name == as_.last().name);
                }
            }
        } else {
            lemma_pruned_seq_files_match(as_.drop_last(), bs, exts);
        }
    }
}

proof fn lemma_selection_keeps(a: FileNode, b: FileNode, sel: bool, exts: Seq<Seq<char>>)
    requires
        selection_set(a, b, sel),
    ensures
        sel ==> all_selected(b),
        files_match(a, exts) ==> files_match(b, exts),
        depths_consistent(a) ==> depths_consistent(b),
    decreases a,
{
    assert forall|i: int| 0 <= i < b.children@.len() implies {
        &&& (sel ==> all_selected(#[trigger] b.children@[i]))
        &&& (files_match(a, exts) ==> if b.children@[i].is_dir {
            files_match(b.children@[i], exts)
        } else {
            ext_matches(b.children@[i].name@, exts)
        })
        &&& (depths_consistent(a) ==> b.children@[i].depth == b.depth + 1 && depths_consistent(
            b.children@[i],
        ))
    } by {
        assert(selection_set(a.children@[i], b.children@[i], sel));
        lemma_selection_keeps(a.children@[i], b.children@[i], sel, exts);
    }
}

proof fn lemma_totals_keep(a: FileNode, b: FileNode, exts: Seq<Seq<char>>)
    requires
        totals_computed(a, b),
    ensures
        all_selected(a) ==> all_selected(b),
        files_match(a, exts) ==> files_match(b, exts),
    decreases a,
{
    if a.is_dir {
        assert forall|i: int| 0 <= i < b.children@.len() implies {
            &&& (all_selected(a) ==> all_selected(#[trigger] b.children@[i]))
            &&& (files_match(a, exts) ==> if b.children@[i].is_dir {
                files_match(b.children@[i], exts)
            } else {
                ext_matches(b.children@[i].name@, exts)
            })
        } by {
            assert(totals_computed(a.children@[i], b.children@[i]));
            lemma_totals_keep(a.children@[i], b.children@[i], exts);
        }
    } else {
        assert(b.children == a.children);
    }
}


/// `made` are the nodes made from the listing `es` one level down at
/// `depth`, and `cs` are, up to what happened below them, those nodes in
/// listing order.
pub open spec fn made_in_order(made: Seq<FileNode>, es: Seq<RemoteEntry>, depth: int, cs: Seq<FileNode>) -> bool {
    &&& made.len() == es.len()
    &&& forall|i: int| 0 <= i < made.len() ==> node_of_entry(#[trigger] made[i], es[i], depth)
    &&& cs.len() == made.len()
    &&& forall|i: int| 0 <= i < cs.len() ==> same_node(#[trigger] made[i], cs[i])
}

/// What scanning a profile source that needs root makes of its directory
/// `a`: when the rooted listing of `a` fails, a plain walk down to
/// [`MAX_SCAN_DEPTH`]; otherwise the nodes of the rooted listing, in listing
/// order, each walked in turn with the plain lister.
pub open spec fn source_scanned<F, G>(a: FileNode, b: FileNode, plain: F, rooted: G) -> bool where
    F: Fn(&str) -> AppResult<Vec<RemoteEntry>>,
    G: Fn(&str) -> AppResult<Vec<RemoteEntry>>,
 {
    ||| list_failed_at(rooted, a.path@) && walked(a, b, MAX_SCAN_DEPTH as int, plain)
    ||| {
        &&& same_node(a, b)
        &&& b.loaded
        &&& exists|es: Seq<RemoteEntry>, made: Seq<FileNode>|
            #[trigger] listed_by(rooted, a.path@, es) && #[trigger] made_in_order(
                made,
                es,
                a.depth + 1,
                b.children@,
            )
        &&& forall|i: int|
            0 <= i < b.children@.len() ==> fresh_walked(
                #[trigger] b.children@[i],
                MAX_SCAN_DEPTH as int,
                plain,
            )
    }
}

/// What scanning a profile source that needs root may have made of its
/// directory `a` when it stopped part way: as in [`source_scanned`], except
/// that the plain walks may have stopped part way.
pub open spec fn source_partly_scanned<F, G>(a: FileNode, b: FileNode, plain: F, rooted: G) -> bool where
    F: Fn(&str) -> AppResult<Vec<RemoteEntry>>,
    G: Fn(&str) -> AppResult<Vec<RemoteEntry>>,
 {
    ||| list_failed_at(rooted, a.path@) && partly_walked(a, b, MAX_SCAN_DEPTH as int, plain)
    ||| {
        &&& same_node(a, b)
        &&& b.loaded
        &&& exists|es: Seq<RemoteEntry>, made: Seq<FileNode>|
            #[trigger] listed_by(rooted, a.path@, es) && #[trigger] made_in_order(
                made,
                es,
                a.depth + 1,
                b.children@,
            )
        &&& forall|i: int|
            0 <= i < b.children@.len() ==> fresh_partly_walked(
                #[trigger] b.children@[i],
                MAX_SCAN_DEPTH as int,
                plain,
            )
    }
}

impl Scanner {
    /// Scans a source directory with a rooted listing of its top level
    /// (entries kept in listing order); each listed directory is then loaded
    /// with plain listings down to [`MAX_SCAN_DEPTH`]. When the rooted listing
    /// fails, the whole source is loaded with plain listings instead.
    pub fn scan_source_rooted<F, G>(node: &mut FileNode, plain: &F, rooted: &G) -> (r: AppResult<
        (),
    >) where
        F: Fn(&str) -> AppResult<Vec<RemoteEntry>>,
        G: Fn(&str) -> AppResult<Vec<RemoteEntry>>,
        requires
            forall|p: &str| plain.requires((p,)),
            forall|p: &str| rooted.requires((p,)),
            depths_consistent(*old(node)),
            old(node).depth < MAX_SCAN_DEPTH,
        ensures
            crate::scanner::walk::same_node(*old(node), *final(node)),
            depths_consistent(*final(node)),
            r is Ok ==> totals_hold(*final(node)),
            r is Ok ==> source_scanned(*old(node), *final(node), *plain, *rooted),
            r is Err ==> source_partly_scanned(*old(node), *final(node), *plain, *rooted),
            r matches Err(e) ==> walk_failure(*final(node), *plain, e, false),
    {
        let ghost pre = *node;
        let arg = node.path.as_str();
        let answer = rooted(arg);
        let entries = match answer {
            Ok(es) => es,
            Err(e) => {
                proof {
                    assert(call_ensures(*rooted, (arg,), Err::<Vec<RemoteEntry>, AppError>(e)));
                    assert(list_failed_at(*rooted, pre.path@));
                }
                return Scanner::load_recursive(node, MAX_SCAN_DEPTH, plain);
            },
        };
        proof {
            assert(call_ensures(*rooted, (arg,), Ok::<Vec<RemoteEntry>, AppError>(entries)));
            assert(listed_by(*rooted, pre.path@, entries@));
        }
        let depth = node.depth + 1;
        let mut kids: Vec<FileNode> = Vec::new();
        let mut i: usize = 0;
        while i < entries.len()
            invariant
                i <= entries@.len(),
                kids@.len() == i,
                depth < MAX_SCAN_DEPTH + 1,
                depth == pre.depth + 1,
                forall|k: int|
                    0 <= k < i ==> (#[trigger] kids@[k]).depth == depth && kids@[k].children@.len()
                        == 0 && node_of_entry(kids@[k], entries@[k], depth as int),
            decreases entries@.len() - i,
        {
            kids.push(FileNode::from_entry(&entries[i], depth));
            i = i + 1;
        }
        let ghost mid0 = *node;
        node.children = Vec::new();
        node.loaded = true;
        let mut out: Vec<FileNode> = Vec::new();
        let mut failure: Option<crate::error::AppError> = None;
        let ghost ks = kids@;
        for c in it: kids
            invariant
                it.seq() == ks,
                forall|p: &str| plain.requires((p,)),
                depth == node.depth + 1,
                node.depth < MAX_SCAN_DEPTH,
                forall|k: int|
                    0 <= k < ks.len() ==> (#[trigger] ks[k]).depth == depth && ks[k].children@.len()
                        == 0,
                out@.len() == it.index(),
                forall|k: int|
                    0 <= k < out@.len() ==> (#[trigger] out@[k]).depth == depth
                        && depths_consistent(out@[k]),
                forall|k: int|
                    0 <= k < ks.len() ==> node_of_entry(#[trigger] ks[k], entries@[k], depth as int),
                failure is None ==> forall|k: int|
                    0 <= k < out@.len() ==> same_node(ks[k], #[trigger] out@[k]) && fresh_walked(
                        out@[k],
                        MAX_SCAN_DEPTH as int,
                        *plain,
                    ),
                failure matches Some(e) ==> exists|j: int|
                    0 <= j < out@.len() && walk_failure(#[trigger] out@[j], *plain, e, false),
                forall|j: int|
                    0 <= j < out@.len() ==> same_node(ks[j], #[trigger] out@[j])
                        && fresh_partly_walked(out@[j], MAX_SCAN_DEPTH as int, *plain),
        {
            let ghost k = it.index() as int;
            assert(c == ks[k]);
            let mut c = c;
            assert(depths_consistent(c));
            let ghost fresh = c;
            let ghost before_out = out@;
            let ghost before_failure = failure;
            if failure.is_none() && c.is_dir {
                match Scanner::load_recursive(&mut c, MAX_SCAN_DEPTH, plain) {
                    Ok(()) => {
                        proof {
                            lemma_walked_same_node(fresh, c, MAX_SCAN_DEPTH as int, *plain);
                            lemma_walked_partly(fresh, c, MAX_SCAN_DEPTH as int, *plain);
                        }
                    },
                    Err(e) => {
                        failure = Some(e);
                        proof {
                            lemma_partly_same_node(fresh, c, MAX_SCAN_DEPTH as int, *plain);
                        }
                    },
                }
            } else {
                proof {
                    if c.is_dir {
                        lemma_partly_refl(c, MAX_SCAN_DEPTH as int, *plain);
                    }
                }
            }
            proof {
                if !fresh.is_dir {
                    lemma_same_shape_refl(fresh);
                }
                if failure is None {
                    lemma_walked_fresh(fresh, c, MAX_SCAN_DEPTH as int, *plain);
                }
                lemma_partly_fresh(fresh, c, MAX_SCAN_DEPTH as int, *plain);
            }
            out.push(c);
            proof {
                assert(out@[k] == c);
                assert forall|j: int| 0 <= j < k implies out@[j] == before_out[j] by {}
                if let Some(e0) = before_failure {
                    let j0 = choose|j: int|
                        0 <= j < before_out.len() && walk_failure(#[trigger] before_out[j], *plain, e0, false);
                    assert(out@[j0] == before_out[j0]);
                }
            }
        }
        node.children = out;
        match failure {
            Some(e) => {
                proof {
                    let j0 = choose|j: int|
                        0 <= j < out@.len() && walk_failure(#[trigger] out@[j], *plain, e, false);
                    assert(node.children@[j0] == out@[j0]);
                    lemma_failure_lifts(*node, j0, *plain, e, false);
                    assert(made_in_order(ks, entries@, pre.depth + 1, node.children@));
                }
                return Err(e);
            },
            None => {},
        }
        match checked_totals(node) {
            None => {
                let e = totals_overflow(node.path.as_str());
                proof {
                    lemma_in_tree_self(*node);
                    assert(made_in_order(ks, entries@, pre.depth + 1, node.children@));
                }
                return Err(e);
            },
            Some(_) => {},
        }
        let ghost before = *node;
        node.compute_totals();
        proof {
            crate::scanner::walk::lemma_totals_keep_shape(before, *node, 0);
            crate::scanner::tree::lemma_totals_stable(before, *node);
            lemma_totals_computed_shape(before, *node);
            let fin = *node;
            assert forall|k: int|
                #![trigger fin.children@[k]]
                #![trigger ks[k]]
                0 <= k < fin.children@.len() implies same_node(ks[k], fin.children@[k])
                    && fresh_walked(fin.children@[k], MAX_SCAN_DEPTH as int, *plain) by {
                assert(same_shape(before.children@[k], fin.children@[k]));
                lemma_fresh_walked_shape(before.children@[k], fin.children@[k], MAX_SCAN_DEPTH as int, *plain);
            }
            assert(made_in_order(ks, entries@, pre.depth + 1, fin.children@));
        }
        Ok(())
    }
}


/// `r` is a fresh root node for the directory `path`, as a scan starts from.
pub open spec fn fresh_root(r: FileNode, path: Seq<char>) -> bool {
    &&& r.name@ == last_piece(path, '/')
    &&& r.path@ == path
    &&& r.is_dir
    &&& r.size == 0
    &&& r.mtime == 0
    &&& r.children@.len() == 0
    &&& !r.selected
    &&& r.expanded
    &&& !r.loaded
    &&& r.depth == 0
}

/// How a profile scans one source from the fresh root `a` into `b`: with the
/// rooted listing first when the profile needs root, else a plain walk down
/// to [`MAX_SCAN_DEPTH`] for a recursive source and one level for another.
pub open spec fn source_scan<F, G>(
    a: FileNode,
    b: FileNode,
    source: SourceSpec,
    requires_root: bool,
    plain: F,
    rooted: G,
) -> bool where
    F: Fn(&str) -> AppResult<Vec<RemoteEntry>>,
    G: Fn(&str) -> AppResult<Vec<RemoteEntry>>,
 {
    if requires_root {
        source_scanned(a, b, plain, rooted)
    } else if source.recursive {
        walked(a, b, MAX_SCAN_DEPTH as int, plain)
    } else {
        walked(a, b, 1, plain)
    }
}

/// `t` is the scanned tree `b` pruned to the extensions `exts` when there
/// are any, then wholly selected, up to the totals.
pub open spec fn settled(b: FileNode, t: FileNode, exts: Option<Seq<Seq<char>>>) -> bool {
    match exts {
        Some(x) => exists|p: FileNode, q: FileNode|
            #[trigger] pruned(b, p, x) && #[trigger] selection_set(p, q, true) && same_shape(q, t),
        None => exists|q: FileNode| #[trigger] selection_set(b, q, true) && same_shape(q, t),
    }
}

/// The extensions that a source names, as texts.
pub open spec fn named_exts(source: SourceSpec) -> Option<Seq<Seq<char>>> {
    match source.extensions {
        Some(es) => Some(ext_texts(es@)),
        None => None,
    }
}

/// `t` is the tree that a profile builds for `source` from what the listers
/// answered: a fresh root at the source's path, scanned, then settled.
pub open spec fn source_built<F, G>(
    t: FileNode,
    source: SourceSpec,
    requires_root: bool,
    plain: F,
    rooted: G,
) -> bool where
    F: Fn(&str) -> AppResult<Vec<RemoteEntry>>,
    G: Fn(&str) -> AppResult<Vec<RemoteEntry>>,
 {
    exists|a: FileNode, b: FileNode|
        #![trigger source_scan(a, b, source, requires_root, plain, rooted)]
        fresh_root(a, source.device_path@) && source_scan(a, b, source, requires_root, plain, rooted)
            && settled(b, t, named_exts(source))
}

proof fn lemma_settled_shape(b: FileNode, t: FileNode, u: FileNode, exts: Option<Seq<Seq<char>>>)
    requires
        settled(b, t, exts),
        same_shape(t, u),
    ensures
        settled(b, u, exts),
{
    match exts {
        Some(x) => {
            let (p, q) = choose|p: FileNode, q: FileNode|
                #[trigger] pruned(b, p, x) && #[trigger] selection_set(p, q, true) && same_shape(q, t);
            crate::scanner::walk::lemma_same_shape_trans(q, t, u);
        },
        None => {
            let q = choose|q: FileNode| #[trigger] selection_set(b, q, true) && same_shape(q, t);
            crate::scanner::walk::lemma_same_shape_trans(q, t, u);
        },
    }
}

/// How a profile's scan of one source from the fresh root `a` may have left
/// `b` when it stopped part way: as in [`source_scan`], with each walk
/// possibly stopped part way.
pub open spec fn source_stopped<F, G>(
    a: FileNode,
    b: FileNode,
    source: SourceSpec,
    requires_root: bool,
    plain: F,
    rooted: G,
) -> bool where
    F: Fn(&str) -> AppResult<Vec<RemoteEntry>>,
    G: Fn(&str) -> AppResult<Vec<RemoteEntry>>,
 {
    if requires_root {
        source_partly_scanned(a, b, plain, rooted)
    } else if source.recursive {
        partly_walked(a, b, MAX_SCAN_DEPTH as int, plain)
    } else {
        partly_walked(a, b, 1, plain)
    }
}

/// `ts` are, in order, the trees that a profile builds for its sources.
pub open spec fn sources_built<F, G>(ts: Seq<FileNode>, profile: ProfileSpec, plain: F, rooted: G) -> bool where
    F: Fn(&str) -> AppResult<Vec<RemoteEntry>>,
    G: Fn(&str) -> AppResult<Vec<RemoteEntry>>,
 {
    &&& ts.len() == profile.sources@.len()
    &&& forall|k: int|
        0 <= k < ts.len() ==> source_tree(#[trigger] ts[k], profile.sources@[k]) && source_built(
            ts[k],
            profile.sources@[k],
            profile.requires_root,
            plain,
            rooted,
        )
}

/// What building a profile's tree may stop with: a failure of the scan of
/// one of its sources; the overflow error naming a source whose settled
/// tree's totals do not fit in 64 bits; or the overflow error naming the
/// profile's base when the totals of all its sources' trees do not.
pub open spec fn profile_failure<F, G>(profile: ProfileSpec, plain: F, rooted: G, e: AppError) -> bool where
    F: Fn(&str) -> AppResult<Vec<RemoteEntry>>,
    G: Fn(&str) -> AppResult<Vec<RemoteEntry>>,
 {
    ||| exists|i: int, a: FileNode, b: FileNode|
        #![trigger source_stopped(a, b, profile.sources@[i], profile.requires_root, plain, rooted)]
        0 <= i < profile.sources@.len() && fresh_root(a, profile.sources@[i].device_path@)
            && source_stopped(a, b, profile.sources@[i], profile.requires_root, plain, rooted)
            && walk_failure(b, plain, e, false)
    ||| exists|i: int, t: FileNode|
        #![trigger source_built(t, profile.sources@[i], profile.requires_root, plain, rooted)]
        0 <= i < profile.sources@.len() && source_built(
            t,
            profile.sources@[i],
            profile.requires_root,
            plain,
            rooted,
        ) && overflow_at(e, profile.sources@[i].device_path@) && (tree_total(t) > u64::MAX
            || tree_files(t) > u64::MAX)
    ||| exists|ts: Seq<FileNode>|
        #[trigger] sources_built(ts, profile, plain, rooted) && overflow_at(e, profile_base(profile))
            && (tree_total_seq(ts) > u64::MAX || tree_files_seq(ts) > u64::MAX)
}

/// The directory that a profile's transfer is rooted at: its first source,
/// or `/sdcard` when it has none.
pub open spec fn profile_base(profile: ProfileSpec) -> Seq<char> {
    if profile.sources@.len() > 0 {
        profile.sources@[0].device_path@
    } else {
        "/sdcard"@
    }
}

/// `t` is the tree of one source: rooted at its path, wholly selected, and
/// holding only matching files when the source names extensions.
pub open spec fn source_tree(t: FileNode, source: SourceSpec) -> bool {
    &&& t.path@ == source.device_path@
    &&& t.is_dir
    &&& all_selected(t)
    &&& totals_hold(t)
    &&& (source.extensions matches Some(es) ==> files_match(t, ext_texts(es@)))
}

/// The extensions a source keeps (none named: the empty list).
pub open spec fn source_exts(source: SourceSpec) -> Seq<Seq<char>> {
    match source.extensions {
        Some(es) => ext_texts(es@),
        None => seq![],
    }
}

/// The device path a profile's transfer is rooted at.
pub fn profile_base_path(profile: &ProfileSpec) -> (p: String)
    ensures
        p@ == profile_base(*profile),
{
    if profile.sources.len() > 0 {
        owned(profile.sources[0].device_path.as_str())
    } else {
        owned("/sdcard")
    }
}

/// Builds the device-side tree of a profile: one wholly selected subtree per
/// source, in order, under a root at the profile's base path. Sources of a
/// profile that needs root are scanned with [`Scanner::scan_source_rooted`];
/// recursive sources down to [`MAX_SCAN_DEPTH`]; others one level deep.
/// Sources that name extensions keep only the matching files.
pub fn profile_tree<F, G>(profile: &ProfileSpec, plain: &F, rooted: &G) -> (r: AppResult<FileNode>) where
    F: Fn(&str) -> AppResult<Vec<RemoteEntry>>,
    G: Fn(&str) -> AppResult<Vec<RemoteEntry>>,
    requires
        forall|p: &str| plain.requires((p,)),
        forall|p: &str| rooted.requires((p,)),
    ensures
        r matches Ok(t) ==> {
            &&& t.path@ == profile_base(*profile)
            &&& t.is_dir
            &&& totals_hold(t)
            &&& t.children@.len() == profile.sources@.len()
            &&& forall|i: int|
                0 <= i < t.children@.len() ==> source_tree(
                    #[trigger] t.children@[i],
                    profile.sources@[i],
                ) && source_built(
                    t.children@[i],
                    profile.sources@[i],
                    profile.requires_root,
                    *plain,
                    *rooted,
                )
        },
        r matches Err(e) ==> profile_failure(*profile, *plain, *rooted, e),
{
    let base = profile_base_path(profile);
    let mut tree = FileNode::root(base.as_str());
    let mut i: usize = 0;
    while i < profile.sources.len()
        invariant
            i <= profile.sources@.len(),
            tree.path@ == profile_base(*profile),
            tree.is_dir,
            tree.children@.len() == i,
            forall|p: &str| plain.requires((p,)),
            forall|p: &str| rooted.requires((p,)),
            forall|k: int|
                0 <= k < i ==> source_tree(#[trigger] tree.children@[k], profile.sources@[k])
                    && source_built(
                    tree.children@[k],
                    profile.sources@[k],
                    profile.requires_root,
                    *plain,
                    *rooted,
                ),
        decreases profile.sources@.len() - i,
    {
        let source = &profile.sources[i];
        let mut root = FileNode::root(source.device_path.as_str());
        let ghost start = root;
        let scanned = if profile.requires_root {
            Scanner::scan_source_rooted(&mut root, plain, rooted)
        } else if source.recursive {
            Scanner::load_recursive(&mut root, MAX_SCAN_DEPTH, plain)
        } else {
            Scanner::load_recursive(&mut root, 1, plain)
        };
        match scanned {
            Err(e) => {
                proof {
                    assert(source_stopped(
                        start,
                        root,
                        profile.sources@[i as int],
                        profile.requires_root,
                        *plain,
                        *rooted,
                    ));
                }
                return Err(e);
            },
            Ok(()) => {},
        }
        let ghost scanned_tree = root;
        let ghost before_prune = root;
        match &source.extensions {
            Some(exts) => {
                keep_extensions(&mut root, exts);
                proof {
                    lemma_pruned_files_match(before_prune, root, ext_texts(exts@));
                }
            },
            None => {},
        }
        let ghost after_prune = root;
        root.set_selected_recursive(true);
        let ghost after_select = root;
        proof {
            lemma_selection_keeps(after_prune, after_select, true, source_exts(*source));
        }
        match checked_totals(&root) {
            None => {
                let e = totals_overflow(root.path.as_str());
                proof {
                    lemma_same_shape_refl(after_select);
                    match named_exts(*source) {
                        Some(x) => {
                            assert(pruned(scanned_tree, after_prune, x));
                            assert(selection_set(after_prune, after_select, true));
                        },
                        None => {
                            assert(after_prune == scanned_tree);
                            assert(selection_set(scanned_tree, after_select, true));
                        },
                    }
                    assert(settled(scanned_tree, after_select, named_exts(*source)));
                    assert(source_scan(start, scanned_tree, *source, profile.requires_root, *plain, *rooted));
                    assert(source_built(
                        after_select,
                        profile.sources@[i as int],
                        profile.requires_root,
                        *plain,
                        *rooted,
                    ));
                }
                return Err(e);
            },
            Some(_) => {},
        }
        root.compute_totals();
        proof {
            crate::scanner::tree::lemma_totals_stable(after_select, root);
            lemma_totals_keep(after_select, root, source_exts(*source));
            lemma_totals_computed_shape(after_select, root);
            match named_exts(*source) {
                Some(x) => {
                    assert(pruned(scanned_tree, after_prune, x));
                    assert(selection_set(after_prune, after_select, true));
                },
                None => {
                    assert(after_prune == scanned_tree);
                    assert(selection_set(scanned_tree, after_select, true));
                },
            }
            assert(settled(scanned_tree, root, named_exts(*source)));
            assert(source_scan(start, scanned_tree, *source, profile.requires_root, *plain, *rooted));
        }
        let ghost prev = tree.children@;
        tree.children.push(root);
        assert(tree.children@[i as int] == root);
        assert forall|k: int| 0 <= k < i implies tree.children@[k] == prev[k] by {}
        i = i + 1;
    }
    match checked_totals(&tree) {
        None => {
            let e = totals_overflow(tree.path.as_str());
            proof {
                assert(sources_built(tree.children@, *profile, *plain, *rooted));
            }
            return Err(e);
        },
        Some(_) => {},
    }
    let ghost before = tree;
    tree.compute_totals();
    proof {
        crate::scanner::tree::lemma_totals_stable(before, tree);
        assert forall|k: int| 0 <= k < tree.children@.len() implies source_tree(
            #[trigger] tree.children@[k],
            profile.sources@[k],
        ) && source_built(
            tree.children@[k],
            profile.sources@[k],
            profile.requires_root,
            *plain,
            *rooted,
        ) by {
            let a = before.children@[k];
            let b = tree.children@[k];
            assert(totals_computed(a, b));
            crate::scanner::tree::lemma_totals_stable(a, b);
            lemma_totals_keep(a, b, source_exts(profile.sources@[k]));
            lemma_totals_computed_shape(a, b);
            let source = profile.sources@[k];
            let (s0, s1) = choose|s0: FileNode, s1: FileNode|
                #![trigger source_scan(s0, s1, source, profile.requires_root, *plain, *rooted)]
                fresh_root(s0, source.device_path@) && source_scan(
                    s0,
                    s1,
                    source,
                    profile.requires_root,
                    *plain,
                    *rooted,
                ) && settled(s1, a, named_exts(source));
            lemma_settled_shape(s1, a, b, named_exts(source));
        }
    }
    Ok(tree)
}

} // verus!
