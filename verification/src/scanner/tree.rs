//! The device file tree: selection, totals and the visible flattening.
use vstd::prelude::*;
use crate::adb::client::RemoteEntry;
use crate::error::AppResult;
use crate::text::{
    append_vec, chars_of, eq_str, last_piece, last_piece_vec, lines, lines_vec, lowercase, owned,
    string_of, text_order, text_order_exec, to_lowercase, trim, trim_vec, utf8_len,
    utf8_len_exec, vec_eq, views,
};

verus! {

/// A node in the device file tree.
#[derive(Debug)]
pub struct FileNode {
    pub name: String,
    pub path: String,
    pub is_dir: bool,
    pub size: u64,
    pub mtime: u64,
    pub children: Vec<FileNode>,
    pub selected: bool,
    pub expanded: bool,
    /// Whether the children have been fetched.
    pub loaded: bool,
    pub depth: usize,
    /// Aggregate size including children.
    pub total_size: u64,
    /// Number of files below (recursively).
    pub file_count: u64,
}

// ---------------------------------------------------------------------------
// Aggregates over a tree
// ---------------------------------------------------------------------------

pub open spec fn is_selected_file(n: FileNode) -> bool {
    n.selected && !n.is_dir
}

/// Number of selected files in the tree (the node itself included).
pub open spec fn sel_count(n: FileNode) -> nat
    decreases n,
{
    (if is_selected_file(n) {
        1nat
    } else {
        0nat
    }) + sel_count_seq(n.children@)
}

pub open spec fn sel_count_seq(cs: Seq<FileNode>) -> nat
    decreases cs,
{
    if cs.len() == 0 {
        0
    } else {
        sel_count_seq(cs.drop_last()) + sel_count(cs.last())
    }
}

/// Total size of the selected files in the tree.
pub open spec fn sel_size(n: FileNode) -> nat
    decreases n,
{
    (if is_selected_file(n) {
        n.size as nat
    } else {
        0nat
    }) + sel_size_seq(n.children@)
}

pub open spec fn sel_size_seq(cs: Seq<FileNode>) -> nat
    decreases cs,
{
    if cs.len() == 0 {
        0
    } else {
        sel_size_seq(cs.drop_last()) + sel_size(cs.last())
    }
}

/// The aggregate size that `compute_totals` stores: a directory sums its
/// children, a file counts its own size.
pub open spec fn tree_total(n: FileNode) -> nat
    decreases n,
{
    if n.is_dir {
        tree_total_seq(n.children@)
    } else {
        n.size as nat
    }
}

pub open spec fn tree_total_seq(cs: Seq<FileNode>) -> nat
    decreases cs,
{
    if cs.len() == 0 {
        0
    } else {
        tree_total_seq(cs.drop_last()) + tree_total(cs.last())
    }
}

/// The file count that `compute_totals` stores.
pub open spec fn tree_files(n: FileNode) -> nat
    decreases n,
{
    if n.is_dir {
        tree_files_seq(n.children@)
    } else {
        1
    }
}

pub open spec fn tree_files_seq(cs: Seq<FileNode>) -> nat
    decreases cs,
{
    if cs.len() == 0 {
        0
    } else {
        tree_files_seq(cs.drop_last()) + tree_files(cs.last())
    }
}

/// The selected files in pre-order.
pub open spec fn sel_files(n: FileNode) -> Seq<FileNode>
    decreases n,
{
    (if is_selected_file(n) {
        seq![n]
    } else {
        seq![]
    }) + sel_files_seq(n.children@)
}

pub open spec fn sel_files_seq(cs: Seq<FileNode>) -> Seq<FileNode>
    decreases cs,
{
    if cs.len() == 0 {
        seq![]
    } else {
        sel_files_seq(cs.drop_last()) + sel_files(cs.last())
    }
}

/// The selected directories in pre-order.
pub open spec fn sel_dirs(n: FileNode) -> Seq<FileNode>
    decreases n,
{
    (if n.selected && n.is_dir {
        seq![n]
    } else {
        seq![]
    }) + sel_dirs_seq(n.children@)
}

pub open spec fn sel_dirs_seq(cs: Seq<FileNode>) -> Seq<FileNode>
    decreases cs,
{
    if cs.len() == 0 {
        seq![]
    } else {
        sel_dirs_seq(cs.drop_last()) + sel_dirs(cs.last())
    }
}

/// The nodes that a vector of node references points at.
pub open spec fn derefs(s: Seq<&FileNode>) -> Seq<FileNode> {
    s.map_values(|r: &FileNode| *r)
}

// ---------------------------------------------------------------------------
// Relations describing in-place updates
// ---------------------------------------------------------------------------

/// `b` is `a` with every fields but the totals unchanged.
pub open spec fn same_but_totals(a: FileNode, b: FileNode) -> bool {
    &&& b.name == a.name
    &&& b.path == a.path
    &&& b.is_dir == a.is_dir
    &&& b.size == a.size
    &&& b.mtime == a.mtime
    &&& b.selected == a.selected
    &&& b.expanded == a.expanded
    &&& b.loaded == a.loaded
    &&& b.depth == a.depth
}

/// `b` is a copy of the tree `a`.
pub open spec fn same_tree(a: FileNode, b: FileNode) -> bool
    decreases a,
{
    &&& same_but_totals(a, b)
    &&& b.total_size == a.total_size
    &&& b.file_count == a.file_count
    &&& b.children@.len() == a.children@.len()
    &&& forall|i: int|
        0 <= i < a.children@.len() ==> same_tree(#[trigger] a.children@[i], b.children@[i])
}

/// `b` is `a` with the selection flag of every node set to `s`.
pub open spec fn selection_set(a: FileNode, b: FileNode, s: bool) -> bool
    decreases a,
{
    &&& b.selected == s
    &&& b.name == a.name
    &&& b.path == a.path
    &&& b.is_dir == a.is_dir
    &&& b.size == a.size
    &&& b.mtime == a.mtime
    &&& b.expanded == a.expanded
    &&& b.loaded == a.loaded
    &&& b.depth == a.depth
    &&& b.total_size == a.total_size
    &&& b.file_count == a.file_count
    &&& b.children@.len() == a.children@.len()
    &&& forall|i: int|
        0 <= i < a.children@.len() ==> selection_set(
            #[trigger] a.children@[i],
            b.children@[i],
            s,
        )
}

/// `b` is `a` with the totals of every directory recomputed from its
/// children (and a file's totals set from its own size).
pub open spec fn totals_computed(a: FileNode, b: FileNode) -> bool
    decreases a,
{
    &&& same_but_totals(a, b)
    &&& b.total_size == tree_total(a)
    &&& b.file_count == tree_files(a)
    &&& if a.is_dir {
        &&& b.children@.len() == a.children@.len()
        &&& forall|i: int|
            0 <= i < a.children@.len() ==> totals_computed(
                #[trigger] a.children@[i],
                b.children@[i],
            )
    } else {
        b.children == a.children
    }
}

/// Lower-case extensions of files that the media filter shows.
pub open spec fn is_media_ext(e: Seq<char>) -> bool {
    ||| e == "jpg"@ || e == "jpeg"@ || e == "png"@ || e == "gif"@ || e == "bmp"@ || e == "webp"@
    ||| e == "heic"@ || e == "heif"@ || e == "raw"@ || e == "cr2"@ || e == "nef"@ || e == "arw"@
    ||| e == "dng"@ || e == "svg"@ || e == "tiff"@ || e == "tif"@
    ||| e == "mp4"@ || e == "mkv"@ || e == "avi"@ || e == "mov"@ || e == "wmv"@ || e == "flv"@
    ||| e == "webm"@ || e == "m4v"@ || e == "3gp"@ || e == "ts"@
    ||| e == "mp3"@ || e == "wav"@ || e == "flac"@ || e == "aac"@ || e == "ogg"@ || e == "wma"@
    ||| e == "m4a"@ || e == "opus"@
    ||| e == "pdf"@
}

/// The media filter shows a file exactly when its lower-cased extension is
/// one of the picture, video, audio and document extensions below.
pub proof fn lemma_media_extensions(e: Seq<char>)
    ensures
        is_media_ext(e) <==> seq![
            "jpg"@, "jpeg"@, "png"@, "gif"@, "bmp"@, "webp"@, "heic"@, "heif"@, "raw"@,
            "cr2"@, "nef"@, "arw"@, "dng"@, "svg"@, "tiff"@, "tif"@,
            "mp4"@, "mkv"@, "avi"@, "mov"@, "wmv"@, "flv"@, "webm"@, "m4v"@, "3gp"@, "ts"@,
            "mp3"@, "wav"@, "flac"@, "aac"@, "ogg"@, "wma"@, "m4a"@, "opus"@,
            "pdf"@,
        ].contains(e),
{
    let l = seq![
        "jpg"@, "jpeg"@, "png"@, "gif"@, "bmp"@, "webp"@, "heic"@, "heif"@, "raw"@,
        "cr2"@, "nef"@, "arw"@, "dng"@, "svg"@, "tiff"@, "tif"@,
        "mp4"@, "mkv"@, "avi"@, "mov"@, "wmv"@, "flv"@, "webm"@, "m4v"@, "3gp"@, "ts"@,
        "mp3"@, "wav"@, "flac"@, "aac"@, "ogg"@, "wma"@, "m4a"@, "opus"@,
        "pdf"@,
    ];
    if is_media_ext(e) {
        assert(exists|i: int| 0 <= i < l.len() && l[i] == e) by {
            if e == l[0] { assert(l[0] == e); }
            else if e == l[1] { assert(l[1] == e); }
            else if e == l[2] { assert(l[2] == e); }
            else if e == l[3] { assert(l[3] == e); }
            else if e == l[4] { assert(l[4] == e); }
            else if e == l[5] { assert(l[5] == e); }
            else if e == l[6] { assert(l[6] == e); }
            else if e == l[7] { assert(l[7] == e); }
            else if e == l[8] { assert(l[8] == e); }
            else if e == l[9] { assert(l[9] == e); }
            else if e == l[10] { assert(l[10] == e); }
            else if e == l[11] { assert(l[11] == e); }
            else if e == l[12] { assert(l[12] == e); }
            else if e == l[13] { assert(l[13] == e); }
            else if e == l[14] { assert(l[14] == e); }
            else if e == l[15] { assert(l[15] == e); }
            else if e == l[16] { assert(l[16] == e); }
            else if e == l[17] { assert(l[17] == e); }
            else if e == l[18] { assert(l[18] == e); }
            else if e == l[19] { assert(l[19] == e); }
            else if e == l[20] { assert(l[20] == e); }
            else if e == l[21] { assert(l[21] == e); }
            else if e == l[22] { assert(l[22] == e); }
            else if e == l[23] { assert(l[23] == e); }
            else if e == l[24] { assert(l[24] == e); }
            else if e == l[25] { assert(l[25] == e); }
            else if e == l[26] { assert(l[26] == e); }
            else if e == l[27] { assert(l[27] == e); }
            else if e == l[28] { assert(l[28] == e); }
            else if e == l[29] { assert(l[29] == e); }
            else if e == l[30] { assert(l[30] == e); }
            else if e == l[31] { assert(l[31] == e); }
            else if e == l[32] { assert(l[32] == e); }
            else if e == l[33] { assert(l[33] == e); }
            else { assert(l[34] == e); }
        }
    }
}

pub fn is_media_ext_exec(e: &Vec<char>) -> (b: bool)
    ensures
        b == is_media_ext(e@),
{
    eq_str(e, "jpg") || eq_str(e, "jpeg") || eq_str(e, "png") || eq_str(e, "gif") || eq_str(
        e,
        "bmp",
    ) || eq_str(e, "webp") || eq_str(e, "heic") || eq_str(e, "heif") || eq_str(e, "raw")
        || eq_str(e, "cr2") || eq_str(e, "nef") || eq_str(e, "arw") || eq_str(e, "dng")
        || eq_str(e, "svg") || eq_str(e, "tiff") || eq_str(e, "tif") || eq_str(e, "mp4")
        || eq_str(e, "mkv") || eq_str(e, "avi") || eq_str(e, "mov") || eq_str(e, "wmv")
        || eq_str(e, "flv") || eq_str(e, "webm") || eq_str(e, "m4v") || eq_str(e, "3gp")
        || eq_str(e, "ts") || eq_str(e, "mp3") || eq_str(e, "wav") || eq_str(e, "flac")
        || eq_str(e, "aac") || eq_str(e, "ogg") || eq_str(e, "wma") || eq_str(e, "m4a")
        || eq_str(e, "opus") || eq_str(e, "pdf")
}

/// Whether the media filter shows `n`: directories always, files by extension.
pub open spec fn is_media_node(n: FileNode) -> bool {
    n.is_dir || is_media_ext(lowercase(last_piece(n.name@, '.')))
}

/// The nodes that the browser shows, in pre-order: children only below
/// expanded directories, and with the media filter only media files.
pub open spec fn flat(n: FileNode, media_filter: bool) -> Seq<FileNode>
    decreases n,
{
    if media_filter && !is_media_node(n) {
        seq![]
    } else if n.is_dir && n.expanded {
        seq![n] + flat_seq(n.children@, media_filter)
    } else {
        seq![n]
    }
}

pub open spec fn flat_seq(cs: Seq<FileNode>, media_filter: bool) -> Seq<FileNode>
    decreases cs,
{
    if cs.len() == 0 {
        seq![]
    } else {
        flat_seq(cs.drop_last(), media_filter) + flat(cs.last(), media_filter)
    }
}

// ---------------------------------------------------------------------------
// Prefix lemmas: partial sums never exceed the whole
// ---------------------------------------------------------------------------

proof fn lemma_sel_count_prefix(cs: Seq<FileNode>, i: int)
    requires
        0 <= i <= cs.len(),
    ensures
        sel_count_seq(cs.take(i)) <= sel_count_seq(cs),
    decreases cs.len(),
{
    if i < cs.len() {
        assert(cs.drop_last().take(i) =~= cs.take(i));
        lemma_sel_count_prefix(cs.drop_last(), i);
    } else {
        assert(cs.take(i) =~= cs);
    }
}

proof fn lemma_sel_size_prefix(cs: Seq<FileNode>, i: int)
    requires
        0 <= i <= cs.len(),
    ensures
        sel_size_seq(cs.take(i)) <= sel_size_seq(cs),
    decreases cs.len(),
{
    if i < cs.len() {
        assert(cs.drop_last().take(i) =~= cs.take(i));
        lemma_sel_size_prefix(cs.drop_last(), i);
    } else {
        assert(cs.take(i) =~= cs);
    }
}

pub(crate) proof fn lemma_tree_total_prefix(cs: Seq<FileNode>, i: int)
    requires
        0 <= i <= cs.len(),
    ensures
        tree_total_seq(cs.take(i)) <= tree_total_seq(cs),
    decreases cs.len(),
{
    if i < cs.len() {
        assert(cs.drop_last().take(i) =~= cs.take(i));
        lemma_tree_total_prefix(cs.drop_last(), i);
    } else {
        assert(cs.take(i) =~= cs);
    }
}

pub(crate) proof fn lemma_tree_files_prefix(cs: Seq<FileNode>, i: int)
    requires
        0 <= i <= cs.len(),
    ensures
        tree_files_seq(cs.take(i)) <= tree_files_seq(cs),
    decreases cs.len(),
{
    if i < cs.len() {
        assert(cs.drop_last().take(i) =~= cs.take(i));
        lemma_tree_files_prefix(cs.drop_last(), i);
    } else {
        assert(cs.take(i) =~= cs);
    }
}

impl FileNode {
    /// A fresh, unselected and collapsed node for a listed entry.
    pub fn from_entry(entry: &RemoteEntry, depth: usize) -> (n: Self)
        ensures
            n.name@ == entry.name@,
            n.path@ == entry.path@,
            n.is_dir == entry.is_dir,
            n.size == entry.size,
            n.mtime == entry.mtime,
            n.children@.len() == 0,
            !n.selected,
            !n.expanded,
            !n.loaded,
            n.depth == depth,
            n.total_size == entry.size,
            n.file_count == if entry.is_dir {
                0u64
            } else {
                1u64
            },
    {
        FileNode {
            name: owned(entry.name.as_str()),
            path: owned(entry.path.as_str()),
            is_dir: entry.is_dir,
            size: entry.size,
            mtime: entry.mtime,
            children: Vec::new(),
            selected: false,
            expanded: false,
            loaded: false,
            depth,
            total_size: entry.size,
            file_count: if entry.is_dir {
                0
            } else {
                1
            },
        }
    }

    /// Create an expanded, empty root directory node for a given path; its
    /// name is the last `/`-separated piece of the path.
    pub fn root(path: &str) -> (n: Self)
        ensures
            n.name@ == last_piece(path@, '/'),
            n.path@ == path@,
            n.is_dir,
            n.size == 0,
            n.mtime == 0,
            n.children@.len() == 0,
            !n.selected,
            n.expanded,
            !n.loaded,
            n.depth == 0,
            n.total_size == 0,
            n.file_count == 0,
    {
        let v = chars_of(path);
        let name = last_piece_vec(&v, '/');
        FileNode {
            name: string_of(&name),
            path: owned(path),
            is_dir: true,
            size: 0,
            mtime: 0,
            children: Vec::new(),
            selected: false,
            expanded: true,
            loaded: false,
            depth: 0,
            total_size: 0,
            file_count: 0,
        }
    }

    /// An independent copy of this subtree.
    pub fn copy_tree(&self) -> (r: FileNode)
        ensures
            same_tree(*self, r),
        decreases self,
    {
        let mut children: Vec<FileNode> = Vec::new();
        let mut i: usize = 0;
        while i < self.children.len()
            invariant
                i <= self.children@.len(),
                children@.len() == i,
                forall|k: int| 0 <= k < i ==> same_tree(#[trigger] self.children@[k], children@[k]),
            decreases self.children@.len() - i,
        {
            proof {
                assert(decreases_to!(*self => self.children));
                assert(decreases_to!(self.children => self.children@));
                assert(decreases_to!(*self => self.children@[i as int]));
            }
            let c = self.children[i].copy_tree();
            children.push(c);
            i = i + 1;
        }
        FileNode {
            name: self.name.clone(),
            path: self.path.clone(),
            is_dir: self.is_dir,
            size: self.size,
            mtime: self.mtime,
            children,
            selected: self.selected,
            expanded: self.expanded,
            loaded: self.loaded,
            depth: self.depth,
            total_size: self.total_size,
            file_count: self.file_count,
        }
    }

    /// Check if a file has a media extension (directories always count).
    pub fn is_media(&self) -> (b: bool)
        ensures
            b == is_media_node(*self),
    {
        if self.is_dir {
            return true;
        }
        let ext = last_piece_vec(&chars_of(self.name.as_str()), '.');
        let ext_s = string_of(&ext);
        let lower = to_lowercase(ext_s.as_str());
        is_media_ext_exec(&chars_of(lower.as_str()))
    }

    /// Flatten the tree into the visible list for the browser.
    pub fn flatten_visible(&self, media_filter: bool) -> (r: Vec<&FileNode>)
        ensures
            derefs(r@) == flat(*self, media_filter),
    {
        let mut result: Vec<&FileNode> = Vec::new();
        self.flatten_into(&mut result, media_filter);
        assert(derefs(result@) =~= derefs(Seq::<&FileNode>::empty()) + flat(*self, media_filter));
        result
    }

    /// Appends the visible nodes of this subtree to `result`.
    pub fn flatten_into<'a>(&'a self, result: &mut Vec<&'a FileNode>, media_filter: bool)
        ensures
            derefs(final(result)@) == derefs(old(result)@) + flat(*self, media_filter),
        decreases self,
    {
        if media_filter && !self.is_media() {
            assert(derefs(result@) =~= derefs(old(result)@) + flat(*self, media_filter));
            return;
        }
        let ghost start = derefs(result@);
        result.push(self);
        assert(derefs(result@) =~= start + seq![*self]);
        if self.is_dir && self.expanded {
            let mut i: usize = 0;
            while i < self.children.len()
                invariant
                    i <= self.children@.len(),
                    derefs(result@) == start + seq![*self] + flat_seq(
                        self.children@.take(i as int),
                        media_filter,
                    ),
                decreases self.children@.len() - i,
            {
                proof {
                    let cs = self.children@;
                    assert(cs.take(i + 1).drop_last() =~= cs.take(i as int));
                    assert(cs.take(i + 1).last() == cs[i as int]);
                    assert(decreases_to!(*self => self.children));
                    assert(decreases_to!(self.children => self.children@));
                    assert(decreases_to!(*self => cs[i as int]));
                }
                let ghost before = derefs(result@);
                self.children[i].flatten_into(result, media_filter);
                assert(derefs(result@) =~= start + seq![*self] + flat_seq(
                    self.children@.take(i + 1),
                    media_filter,
                ));
                i = i + 1;
            }
            assert(self.children@.take(i as int) =~= self.children@);
            assert(derefs(result@) =~= derefs(old(result)@) + flat(*self, media_filter));
        } else {
            assert(derefs(result@) =~= derefs(old(result)@) + flat(*self, media_filter));
        }
    }

    /// Recursively select/deselect this node and all children.
    pub fn set_selected_recursive(&mut self, selected: bool)
        ensures
            selection_set(*old(self), *final(self), selected),
        decreases *old(self),
    {
        let ghost orig = *self;
        self.selected = selected;
        let mut cs: Vec<FileNode> = Vec::new();
        std::mem::swap(&mut cs, &mut self.children);
        let ghost old_cs = cs@;
        let mut out: Vec<FileNode> = Vec::new();
        for c in it: cs
            invariant
                out@.len() == it.index(),
                it.seq() == old_cs,
                old_cs == orig.children@,
                orig == *old(self),
                forall|k: int|
                    0 <= k < out@.len() ==> selection_set(#[trigger] old_cs[k], out@[k], selected),
        {
            proof {
                assert(c == old_cs[out@.len() as int]);
                assert(decreases_to!(orig => orig.children));
                assert(decreases_to!(orig.children => orig.children@));
                assert(decreases_to!(*old(self) => c));
            }
            let mut c = c;
            c.set_selected_recursive(selected);
            out.push(c);
        }
        self.children = out;
    }

    /// Recompute `total_size` and `file_count` for this subtree.
    pub fn compute_totals(&mut self)
        requires
            tree_total(*old(self)) <= u64::MAX,
            tree_files(*old(self)) <= u64::MAX,
        ensures
            totals_computed(*old(self), *final(self)),
        decreases *old(self),
    {
        let ghost orig = *self;
        if self.is_dir {
            let mut cs: Vec<FileNode> = Vec::new();
            std::mem::swap(&mut cs, &mut self.children);
            let ghost old_cs = cs@;
            let mut out: Vec<FileNode> = Vec::new();
            let mut total: u64 = 0;
            let mut count: u64 = 0;
            for c in it: cs
                invariant
                    out@.len() == it.index(),
                    it.seq() == old_cs,
                    old_cs == orig.children@,
                    orig == *old(self),
                    orig.is_dir,
                    tree_total_seq(old_cs) <= u64::MAX,
                    tree_files_seq(old_cs) <= u64::MAX,
                    total == tree_total_seq(old_cs.take(out@.len() as int)),
                    count == tree_files_seq(old_cs.take(out@.len() as int)),
                    forall|k: int|
                        0 <= k < out@.len() ==> totals_computed(#[trigger] old_cs[k], out@[k]),
            {
                let ghost k = out@.len() as int;
                proof {
                    assert(c == old_cs[k]);
                    assert(decreases_to!(orig => orig.children));
                    assert(decreases_to!(orig.children => orig.children@));
                    assert(decreases_to!(*old(self) => c));
                    assert(old_cs.take(k + 1).drop_last() =~= old_cs.take(k));
                    assert(old_cs.take(k + 1).last() == c);
                    lemma_tree_total_prefix(old_cs, k + 1);
                    lemma_tree_files_prefix(old_cs, k + 1);
                }
                let mut c = c;
                c.compute_totals();
                total = total + c.total_size;
                count = count + c.file_count;
                out.push(c);
            }
            proof {
                assert(old_cs.take(old_cs.len() as int) =~= old_cs);
            }
            self.children = out;
            self.total_size = total;
            self.file_count = count;
        } else {
            self.total_size = self.size;
            self.file_count = 1;
        }
    }

    /// Number of selected files in this subtree.
    pub fn selected_file_count(&self) -> (n: u64)
        requires
            sel_count(*self) <= u64::MAX,
        ensures
            n == sel_count(*self),
        decreases self,
    {
        let mut count: u64 = 0;
        if self.selected && !self.is_dir {
            count = count + 1;
        }
        let mut i: usize = 0;
        while i < self.children.len()
            invariant
                i <= self.children@.len(),
                sel_count(*self) <= u64::MAX,
                count == (if is_selected_file(*self) {
                    1nat
                } else {
                    0nat
                }) + sel_count_seq(self.children@.take(i as int)),
            decreases self.children@.len() - i,
        {
            proof {
                let cs = self.children@;
                assert(cs.take(i + 1).drop_last() =~= cs.take(i as int));
                assert(cs.take(i + 1).last() == cs[i as int]);
                lemma_sel_count_prefix(cs, i + 1);
                assert(decreases_to!(*self => self.children));
                assert(decreases_to!(self.children => self.children@));
                assert(decreases_to!(*self => cs[i as int]));
            }
            count = count + self.children[i].selected_file_count();
            i = i + 1;
        }
        proof {
            assert(self.children@.take(i as int) =~= self.children@);
        }
        count
    }

    /// Total size of the selected files in this subtree.
    pub fn selected_total_size(&self) -> (n: u64)
        requires
            sel_size(*self) <= u64::MAX,
        ensures
            n == sel_size(*self),
        decreases self,
    {
        let mut total: u64 = 0;
        if self.selected && !self.is_dir {
            total = total + self.size;
        }
        let mut i: usize = 0;
        while i < self.children.len()
            invariant
                i <= self.children@.len(),
                sel_size(*self) <= u64::MAX,
                total == (if is_selected_file(*self) {
                    self.size as nat
                } else {
                    0nat
                }) + sel_size_seq(self.children@.take(i as int)),
            decreases self.children@.len() - i,
        {
            proof {
                let cs = self.children@;
                assert(cs.take(i + 1).drop_last() =~= cs.take(i as int));
                assert(cs.take(i + 1).last() == cs[i as int]);
                lemma_sel_size_prefix(cs, i + 1);
                assert(decreases_to!(*self => self.children));
                assert(decreases_to!(self.children => self.children@));
                assert(decreases_to!(*self => cs[i as int]));
            }
            total = total + self.children[i].selected_total_size();
            i = i + 1;
        }
        proof {
            assert(self.children@.take(i as int) =~= self.children@);
        }
        total
    }

    /// All selected files (not directories) in pre-order.
    pub fn selected_files(&self) -> (r: Vec<&FileNode>)
        ensures
            derefs(r@) == sel_files(*self),
        decreases self,
    {
        let mut result: Vec<&FileNode> = Vec::new();
        if self.selected && !self.is_dir {
            result.push(self);
        }
        let mut i: usize = 0;
        while i < self.children.len()
            invariant
                i <= self.children@.len(),
                derefs(result@) == (if is_selected_file(*self) {
                    seq![*self]
                } else {
                    seq![]
                }) + sel_files_seq(self.children@.take(i as int)),
            decreases self.children@.len() - i,
        {
            proof {
                let cs = self.children@;
                assert(cs.take(i + 1).drop_last() =~= cs.take(i as int));
                assert(cs.take(i + 1).last() == cs[i as int]);
                assert(decreases_to!(*self => self.children));
                assert(decreases_to!(self.children => self.children@));
                assert(decreases_to!(*self => cs[i as int]));
            }
            let mut sub = self.children[i].selected_files();
            let ghost before = result@;
            let ghost subv = sub@;
            result.append(&mut sub);
            assert(derefs(result@) =~= derefs(before) + derefs(subv));
            proof {
                let cs = self.children@;
                assert(sel_files_seq(cs.take(i + 1)) == sel_files_seq(cs.take(i as int))
                    + sel_files(cs[i as int]));
                assert(derefs(result@) =~= (if is_selected_file(*self) {
                    seq![*self]
                } else {
                    seq![]
                }) + sel_files_seq(cs.take(i + 1)));
            }
            i = i + 1;
        }
        proof {
            assert(self.children@.take(i as int) =~= self.children@);
        }
        result
    }

    /// All selected directories in pre-order.
    pub fn selected_dirs(&self) -> (r: Vec<&FileNode>)
        ensures
            derefs(r@) == sel_dirs(*self),
        decreases self,
    {
        let mut result: Vec<&FileNode> = Vec::new();
        if self.selected && self.is_dir {
            result.push(self);
        }
        let mut i: usize = 0;
        while i < self.children.len()
            invariant
                i <= self.children@.len(),
                derefs(result@) == (if self.selected && self.is_dir {
                    seq![*self]
                } else {
                    seq![]
                }) + sel_dirs_seq(self.children@.take(i as int)),
            decreases self.children@.len() - i,
        {
            proof {
                let cs = self.children@;
                assert(cs.take(i + 1).drop_last() =~= cs.take(i as int));
                assert(cs.take(i + 1).last() == cs[i as int]);
                assert(decreases_to!(*self => self.children));
                assert(decreases_to!(self.children => self.children@));
                assert(decreases_to!(*self => cs[i as int]));
            }
            let mut sub = self.children[i].selected_dirs();
            let ghost before = result@;
            let ghost subv = sub@;
            result.append(&mut sub);
            assert(derefs(result@) =~= derefs(before) + derefs(subv));
            proof {
                let cs = self.children@;
                assert(derefs(result@) =~= (if self.selected && self.is_dir {
                    seq![*self]
                } else {
                    seq![]
                }) + sel_dirs_seq(cs.take(i + 1)));
            }
            i = i + 1;
        }
        proof {
            assert(self.children@.take(i as int) =~= self.children@);
        }
        result
    }
}

} // verus!

verus! {

// ---------------------------------------------------------------------------
// Laws of the tree
// ---------------------------------------------------------------------------

/// Every file node of the tree is a leaf.
pub open spec fn files_are_leaves(n: FileNode) -> bool
    decreases n,
{
    &&& (!n.is_dir ==> n.children@.len() == 0)
    &&& forall|i: int|
        0 <= i < n.children@.len() ==> files_are_leaves(#[trigger] n.children@[i])
}

/// Sum of the sizes of a sequence of nodes.
pub open spec fn sizes_sum(s: Seq<FileNode>) -> nat
    decreases s.len(),
{
    if s.len() == 0 {
        0
    } else {
        sizes_sum(s.drop_last()) + s.last().size as nat
    }
}

proof fn lemma_sizes_sum_concat(a: Seq<FileNode>, b: Seq<FileNode>)
    ensures
        sizes_sum(a + b) == sizes_sum(a) + sizes_sum(b),
    decreases b.len(),
{
    if b.len() > 0 {
        assert((a + b).drop_last() =~= a + b.drop_last());
        lemma_sizes_sum_concat(a, b.drop_last());
    } else {
        assert(a + b =~= a);
    }
}

/// The selected files are exactly as many as `selected_file_count` reports,
/// and their sizes add up to `selected_total_size`.
pub proof fn lemma_selected_files_agree(n: FileNode)
    ensures
        sel_files(n).len() == sel_count(n),
        sizes_sum(sel_files(n)) == sel_size(n),
    decreases n, 1nat,
{
    lemma_selected_files_agree_seq(n.children@);
    let own = if is_selected_file(n) {
        seq![n]
    } else {
        seq![]
    };
    lemma_sizes_sum_concat(own, sel_files_seq(n.children@));
    if is_selected_file(n) {
        assert(sizes_sum(own) == n.size) by {
            assert(own.drop_last() =~= Seq::<FileNode>::empty());
            assert(own.last() == n);
            assert(sizes_sum(Seq::<FileNode>::empty()) == 0);
        }
    }
}

proof fn lemma_selected_files_agree_seq(cs: Seq<FileNode>)
    ensures
        sel_files_seq(cs).len() == sel_count_seq(cs),
        sizes_sum(sel_files_seq(cs)) == sel_size_seq(cs),
    decreases cs, 0nat,
{
    if cs.len() > 0 {
        lemma_selected_files_agree_seq(cs.drop_last());
        assert(decreases_to!(cs => cs.last()));
        lemma_selected_files_agree(cs.last());
        lemma_sizes_sum_concat(sel_files_seq(cs.drop_last()), sel_files(cs.last()));
    }
}

/// After deselecting a whole tree nothing in it is selected.
pub proof fn lemma_deselect_all(a: FileNode, b: FileNode)
    requires
        selection_set(a, b, false),
    ensures
        sel_count(b) == 0,
        sel_size(b) == 0,
        sel_files(b).len() == 0,
        sel_dirs(b).len() == 0,
    decreases a, 1nat,
{
    lemma_deselect_all_seq(a.children@, b.children@);
}

proof fn lemma_deselect_all_seq(as_: Seq<FileNode>, bs: Seq<FileNode>)
    requires
        as_.len() == bs.len(),
        forall|i: int| 0 <= i < as_.len() ==> selection_set(#[trigger] as_[i], bs[i], false),
    ensures
        sel_count_seq(bs) == 0,
        sel_size_seq(bs) == 0,
        sel_files_seq(bs).len() == 0,
        sel_dirs_seq(bs).len() == 0,
    decreases as_, 0nat,
{
    if as_.len() > 0 {
        let k = as_.len() - 1;
        assert(selection_set(as_[k], bs[k], false));
        lemma_deselect_all_seq(as_.drop_last(), bs.drop_last());
        assert(decreases_to!(as_ => as_.last()));
        lemma_deselect_all(as_.last(), bs.last());
    }
}

/// Selecting a whole tree whose files are leaves selects exactly what
/// `compute_totals` counts: as many files, and as many bytes.
pub proof fn lemma_select_all_matches_totals(a: FileNode, b: FileNode)
    requires
        selection_set(a, b, true),
        files_are_leaves(a),
    ensures
        sel_count(b) == tree_files(a),
        sel_size(b) == tree_total(a),
    decreases a, 1nat,
{
    lemma_select_all_matches_totals_seq(a.children@, b.children@);
    if !a.is_dir {
        assert(b.children@.len() == 0);
        assert(sel_count_seq(b.children@) == 0);
        assert(sel_size_seq(b.children@) == 0);
    }
}

proof fn lemma_select_all_matches_totals_seq(as_: Seq<FileNode>, bs: Seq<FileNode>)
    requires
        as_.len() == bs.len(),
        forall|i: int| 0 <= i < as_.len() ==> selection_set(#[trigger] as_[i], bs[i], true),
        forall|i: int| 0 <= i < as_.len() ==> files_are_leaves(#[trigger] as_[i]),
    ensures
        sel_count_seq(bs) == tree_files_seq(as_),
        sel_size_seq(bs) == tree_total_seq(as_),
    decreases as_, 0nat,
{
    if as_.len() > 0 {
        let k = as_.len() - 1;
        assert(selection_set(as_[k], bs[k], true));
        assert(files_are_leaves(as_[k]));
        lemma_select_all_matches_totals_seq(as_.drop_last(), bs.drop_last());
        assert(decreases_to!(as_ => as_.last()));
        lemma_select_all_matches_totals(as_.last(), bs.last());
    }
}

/// Recomputing totals does not change what they are computed from.
pub proof fn lemma_totals_stable(a: FileNode, b: FileNode)
    requires
        totals_computed(a, b),
    ensures
        tree_total(b) == tree_total(a),
        tree_files(b) == tree_files(a),
        b.total_size == tree_total(b),
        b.file_count == tree_files(b),
    decreases a, 1nat,
{
    if a.is_dir {
        lemma_totals_stable_seq(a.children@, b.children@);
    }
}

pub(crate) proof fn lemma_totals_stable_seq(as_: Seq<FileNode>, bs: Seq<FileNode>)
    requires
        as_.len() == bs.len(),
        forall|i: int| 0 <= i < as_.len() ==> totals_computed(#[trigger] as_[i], bs[i]),
    ensures
        tree_total_seq(bs) == tree_total_seq(as_),
        tree_files_seq(bs) == tree_files_seq(as_),
    decreases as_, 0nat,
{
    if as_.len() > 0 {
        let k = as_.len() - 1;
        assert(totals_computed(as_[k], bs[k]));
        lemma_totals_stable_seq(as_.drop_last(), bs.drop_last());
        assert(decreases_to!(as_ => as_.last()));
        lemma_totals_stable(as_.last(), bs.last());
    }
}

/// The sum of the totals that the nodes `cs` hold.
pub open spec fn stored_total_seq(cs: Seq<FileNode>) -> nat
    decreases cs.len(),
{
    if cs.len() == 0 {
        0
    } else {
        stored_total_seq(cs.drop_last()) + cs.last().total_size as nat
    }
}

/// The sum of the file counts that the nodes `cs` hold.
pub open spec fn stored_files_seq(cs: Seq<FileNode>) -> nat
    decreases cs.len(),
{
    if cs.len() == 0 {
        0
    } else {
        stored_files_seq(cs.drop_last()) + cs.last().file_count as nat
    }
}

/// Every node of the tree `n` holds its own totals: a file its size and a
/// count of one, a directory the sums of what its children hold (so an empty
/// directory holds zero and zero).
pub open spec fn totals_consistent(n: FileNode) -> bool
    decreases n,
{
    if n.is_dir {
        &&& n.total_size == stored_total_seq(n.children@)
        &&& n.file_count == stored_files_seq(n.children@)
        &&& forall|i: int|
            0 <= i < n.children@.len() ==> totals_consistent(#[trigger] n.children@[i])
    } else {
        n.total_size == n.size && n.file_count == 1
    }
}

proof fn lemma_stored_sums(cs: Seq<FileNode>)
    requires
        forall|i: int|
            0 <= i < cs.len() ==> (#[trigger] cs[i]).total_size == tree_total(cs[i])
                && cs[i].file_count == tree_files(cs[i]),
    ensures
        stored_total_seq(cs) == tree_total_seq(cs),
        stored_files_seq(cs) == tree_files_seq(cs),
    decreases cs.len(),
{
    if cs.len() > 0 {
        let d = cs.drop_last();
        assert forall|i: int| 0 <= i < d.len() implies (#[trigger] d[i]).total_size == tree_total(
            d[i],
        ) && d[i].file_count == tree_files(d[i]) by {
            assert(d[i] == cs[i]);
        }
        lemma_stored_sums(d);
        assert(cs.last() == cs[cs.len() - 1]);
    }
}

proof fn lemma_same_tree_refl(a: FileNode)
    ensures
        same_tree(a, a),
    decreases a,
{
    assert forall|i: int| 0 <= i < a.children@.len() implies same_tree(
        #[trigger] a.children@[i],
        a.children@[i],
    ) by {
        lemma_same_tree_refl(a.children@[i]);
    }
}

/// What `compute_totals` leaves holds at every node: each file holds its
/// size and a count of one, each directory the sums over its children; and
/// computing the totals once more changes nothing.
pub proof fn lemma_compute_totals_law(a: FileNode, b: FileNode, c: FileNode)
    requires
        totals_computed(a, b),
        totals_computed(b, c),
    ensures
        totals_consistent(b),
        same_tree(b, c),
    decreases a,
{
    lemma_totals_stable(a, b);
    if a.is_dir {
        assert forall|i: int| 0 <= i < b.children@.len() implies totals_consistent(
            #[trigger] b.children@[i],
        ) && same_tree(b.children@[i], c.children@[i]) && b.children@[i].total_size == tree_total(
            b.children@[i],
        ) && b.children@[i].file_count == tree_files(b.children@[i]) by {
            assert(totals_computed(a.children@[i], b.children@[i]));
            assert(totals_computed(b.children@[i], c.children@[i]));
            lemma_compute_totals_law(a.children@[i], b.children@[i], c.children@[i]);
            lemma_totals_stable(a.children@[i], b.children@[i]);
        }
        lemma_stored_sums(b.children@);
    } else {
        assert(b.children == c.children);
        assert forall|i: int| 0 <= i < b.children@.len() implies same_tree(
            #[trigger] b.children@[i],
            c.children@[i],
        ) by {
            lemma_same_tree_refl(b.children@[i]);
        }
    }
}

} // verus!

verus! {

// ---------------------------------------------------------------------------
// Ordering of listed children
// ---------------------------------------------------------------------------

/// Sorting rank: the `..` entry first (in local listings), then directories, then files.
pub open spec fn node_rank(n: FileNode, parent_first: bool) -> int {
    if parent_first && n.name@ == ".."@ {
        0
    } else if n.is_dir {
        1
    } else {
        2
    }
}

/// Whether `a` sorts strictly after `b`: by rank, then by lower-cased name.
pub open spec fn sorts_after(a: FileNode, b: FileNode, parent_first: bool) -> bool {
    ||| node_rank(a, parent_first) > node_rank(b, parent_first)
    ||| (node_rank(a, parent_first) == node_rank(b, parent_first) && text_order(
        lowercase(a.name@),
        lowercase(b.name@),
    ) > 0)
}

/// Index of the first node at or after `i` that sorts strictly after `x`.
pub open spec fn insert_pos(s: Seq<FileNode>, x: FileNode, parent_first: bool, i: int) -> int
    decreases s.len() - i,
{
    if i < 0 || i >= s.len() {
        s.len() as int
    } else if sorts_after(s[i], x, parent_first) {
        i
    } else {
        insert_pos(s, x, parent_first, i + 1)
    }
}

/// `s` sorted stably: each node goes behind every earlier node it does not sort before.
pub open spec fn sorted_children(s: Seq<FileNode>, parent_first: bool) -> Seq<FileNode>
    decreases s.len(),
{
    if s.len() == 0 {
        seq![]
    } else {
        let t = sorted_children(s.drop_last(), parent_first);
        t.insert(insert_pos(t, s.last(), parent_first, 0), s.last())
    }
}

pub(crate) proof fn lemma_insert_pos_bounds(s: Seq<FileNode>, x: FileNode, pf: bool, i: int)
    requires
        0 <= i <= s.len(),
    ensures
        i <= insert_pos(s, x, pf, i) <= s.len(),
    decreases s.len() - i,
{
    if i < s.len() && !sorts_after(s[i], x, pf) {
        lemma_insert_pos_bounds(s, x, pf, i + 1);
    }
}

pub(crate) proof fn lemma_sorted_children_len(s: Seq<FileNode>, pf: bool)
    ensures
        sorted_children(s, pf).len() == s.len(),
    decreases s.len(),
{
    if s.len() > 0 {
        lemma_sorted_children_len(s.drop_last(), pf);
        let t = sorted_children(s.drop_last(), pf);
        lemma_insert_pos_bounds(t, s.last(), pf, 0);
    }
}

/// The lower-cased name of a node, the secondary sort key.
fn lowered_name(n: &FileNode) -> (r: Vec<char>)
    ensures
        r@ == lowercase(n.name@),
{
    let l = to_lowercase(n.name.as_str());
    chars_of(l.as_str())
}

fn rank_of(n: &FileNode, parent_first: bool) -> (r: u8)
    ensures
        r == node_rank(*n, parent_first),
{
    if parent_first && eq_str(&chars_of(n.name.as_str()), "..") {
        0
    } else if n.is_dir {
        1
    } else {
        2
    }
}

fn insert_position(
    out: &Vec<FileNode>,
    keys: &Vec<Vec<char>>,
    ranks: &Vec<u8>,
    x: &FileNode,
    xk: &Vec<char>,
    xr: u8,
    parent_first: bool,
) -> (p: usize)
    requires
        keys@.len() == out@.len(),
        ranks@.len() == out@.len(),
        forall|k: int| 0 <= k < out@.len() ==> (#[trigger] keys@[k])@ == lowercase(out@[k].name@),
        forall|k: int| 0 <= k < out@.len() ==> #[trigger] ranks@[k] == node_rank(out@[k], parent_first),
        xk@ == lowercase(x.name@),
        xr == node_rank(*x, parent_first),
    ensures
        p == insert_pos(out@, *x, parent_first, 0),
        p <= out@.len(),
{
    let mut p: usize = 0;
    while p < out.len()
        invariant
            p <= out@.len(),
            keys@.len() == out@.len(),
            ranks@.len() == out@.len(),
            forall|k: int| 0 <= k < out@.len() ==> (#[trigger] keys@[k])@ == lowercase(out@[k].name@),
            forall|k: int| 0 <= k < out@.len() ==> #[trigger] ranks@[k] == node_rank(out@[k], parent_first),
            xk@ == lowercase(x.name@),
            xr == node_rank(*x, parent_first),
            insert_pos(out@, *x, parent_first, 0) == insert_pos(out@, *x, parent_first, p as int),
        decreases out@.len() - p,
    {
        let r = ranks[p];
        assert(keys@[p as int]@ == lowercase(out@[p as int].name@));
        if r > xr || (r == xr && text_order_exec(&keys[p], xk) > 0) {
            return p;
        }
        p = p + 1;
    }
    p
}

/// Sorts listed children: directories first, then by lower-cased name, keeping
/// the listing order of equal keys (and, for local listings, `..` first).
pub fn sort_children(nodes: Vec<FileNode>, parent_first: bool) -> (r: Vec<FileNode>)
    ensures
        r@ == sorted_children(nodes@, parent_first),
{
    let ghost input = nodes@;
    let mut out: Vec<FileNode> = Vec::new();
    let mut keys: Vec<Vec<char>> = Vec::new();
    let mut ranks: Vec<u8> = Vec::new();
    for x in it: nodes
        invariant
            it.seq() == input,
            out@ == sorted_children(input.take(it.index() as int), parent_first),
            keys@.len() == out@.len(),
            ranks@.len() == out@.len(),
            forall|k: int| 0 <= k < out@.len() ==> (#[trigger] keys@[k])@ == lowercase(out@[k].name@),
            forall|k: int| 0 <= k < out@.len() ==> #[trigger] ranks@[k] == node_rank(out@[k], parent_first),
    {
        let ghost i = it.index() as int;
        proof {
            assert(input.take(i + 1).drop_last() =~= input.take(i));
            assert(input.take(i + 1).last() == x);
        }
        let xk = lowered_name(&x);
        let xr = rank_of(&x, parent_first);
        let p = insert_position(&out, &keys, &ranks, &x, &xk, xr, parent_first);
        proof {
            lemma_insert_pos_bounds(out@, x, parent_first, p as int);
        }
        out.insert(p, x);
        keys.insert(p, xk);
        ranks.insert(p, xr);
        proof {
            assert forall|k: int| 0 <= k < out@.len() implies (#[trigger] keys@[k])@ == lowercase(
                out@[k].name@,
            ) by {
                if k < p {
                } else if k > p {
                }
            }
            assert forall|k: int| 0 <= k < out@.len() implies #[trigger] ranks@[k] == node_rank(
                out@[k],
                parent_first,
            ) by {
                if k < p {
                } else if k > p {
                }
            }
        }
    }
    proof {
        assert(input.take(input.len() as int) =~= input);
    }
    out
}

} // verus!

verus! {

proof fn lemma_tree_sums_insert(t: Seq<FileNode>, p: int, x: FileNode)
    requires
        0 <= p <= t.len(),
    ensures
        tree_total_seq(t.insert(p, x)) == tree_total_seq(t) + tree_total(x),
        tree_files_seq(t.insert(p, x)) == tree_files_seq(t) + tree_files(x),
    decreases t.len(),
{
    if p == t.len() {
        assert(t.insert(p, x).drop_last() =~= t);
        assert(t.insert(p, x).last() == x);
    } else {
        assert(t.insert(p, x).drop_last() =~= t.drop_last().insert(p, x));
        assert(t.insert(p, x).last() == t.last());
        lemma_tree_sums_insert(t.drop_last(), p, x);
    }
}

pub(crate) proof fn lemma_sorted_children_sums(s: Seq<FileNode>, pf: bool)
    ensures
        tree_total_seq(sorted_children(s, pf)) == tree_total_seq(s),
        tree_files_seq(sorted_children(s, pf)) == tree_files_seq(s),
    decreases s.len(),
{
    if s.len() > 0 {
        lemma_sorted_children_sums(s.drop_last(), pf);
        let t = sorted_children(s.drop_last(), pf);
        lemma_insert_pos_bounds(t, s.last(), pf, 0);
        lemma_tree_sums_insert(t, insert_pos(t, s.last(), pf, 0), s.last());
    }
}

/// `n` is the fresh node that `FileNode::from_entry(e, depth)` makes.
pub open spec fn node_of_entry(n: FileNode, e: RemoteEntry, depth: int) -> bool {
    &&& n.name@ == e.name@
    &&& n.path@ == e.path@
    &&& n.is_dir == e.is_dir
    &&& n.size == e.size
    &&& n.mtime == e.mtime
    &&& n.children@.len() == 0
    &&& !n.selected
    &&& !n.expanded
    &&& !n.loaded
    &&& n.depth == depth
    &&& n.total_size == e.size
    &&& n.file_count == if e.is_dir {
        0u64
    } else {
        1u64
    }
}

/// Bytes of the files among listed entries.
pub open spec fn entries_file_bytes(es: Seq<RemoteEntry>) -> nat
    decreases es.len(),
{
    if es.len() == 0 {
        0
    } else {
        entries_file_bytes(es.drop_last()) + if es.last().is_dir {
            0nat
        } else {
            es.last().size as nat
        }
    }
}

/// `b` is `a` marked loaded, with children `kids` installed and the totals of
/// `b` and of every child recomputed.
pub open spec fn children_installed(a: FileNode, b: FileNode, kids: Seq<FileNode>) -> bool {
    &&& b.name == a.name
    &&& b.path == a.path
    &&& b.is_dir == a.is_dir
    &&& b.size == a.size
    &&& b.mtime == a.mtime
    &&& b.selected == a.selected
    &&& b.expanded == a.expanded
    &&& b.loaded
    &&& b.depth == a.depth
    &&& b.total_size == tree_total_seq(kids)
    &&& b.file_count == tree_files_seq(kids)
    &&& b.children@.len() == kids.len()
    &&& forall|i: int|
        0 <= i < kids.len() ==> totals_computed(#[trigger] kids[i], b.children@[i])
}

/// Scanner that turns device listings into the file tree.
pub struct Scanner;

impl Scanner {
    /// Installs the listed `entries` as the children of a directory node that
    /// has not been loaded yet: one fresh node per entry, sorted directories
    /// first and then by lower-cased name, with the totals recomputed. Files
    /// and loaded directories are left as they are.
    pub fn load_children(node: &mut FileNode, entries: Vec<RemoteEntry>)
        requires
            old(node).is_dir && !old(node).loaded ==> old(node).depth < usize::MAX,
            entries_file_bytes(entries@) <= u64::MAX,
        ensures
            !old(node).is_dir || old(node).loaded ==> *final(node) == *old(node),
            old(node).is_dir && !old(node).loaded ==> exists|made: Seq<FileNode>|
                #![trigger sorted_children(made, false)]
                made.len() == entries@.len() && (forall|i: int|
                    0 <= i < made.len() ==> node_of_entry(
                        #[trigger] made[i],
                        entries@[i],
                        old(node).depth + 1,
                    )) && children_installed(
                    *old(node),
                    *final(node),
                    sorted_children(made, false),
                ),
    {
        if !node.is_dir || node.loaded {
            return;
        }
        let depth = node.depth + 1;
        let mut made: Vec<FileNode> = Vec::new();
        let mut i: usize = 0;
        while i < entries.len()
            invariant
                i <= entries@.len(),
                made@.len() == i,
                forall|k: int| 0 <= k < i ==> node_of_entry(#[trigger] made@[k], entries@[k], depth as int),
                tree_total_seq(made@) == entries_file_bytes(entries@.take(i as int)),
                tree_files_seq(made@) <= i,
            decreases entries@.len() - i,
        {
            let n = FileNode::from_entry(&entries[i], depth);
            let ghost before = made@;
            made.push(n);
            proof {
                assert(made@.drop_last() =~= before);
                assert(entries@.take(i + 1).drop_last() =~= entries@.take(i as int));
                assert(tree_total(n) == if n.is_dir { 0nat } else { n.size as nat }) by {
                    if n.is_dir {
                        assert(n.children@ =~= Seq::<FileNode>::empty());
                    }
                }
                assert(tree_files(n) <= 1) by {
                    if n.is_dir {
                        assert(n.children@ =~= Seq::<FileNode>::empty());
                    }
                }
            }
            i = i + 1;
        }
        proof {
            assert(entries@.take(i as int) =~= entries@);
        }
        let ghost made_v = made@;
        let sorted = sort_children(made, false);
        proof {
            lemma_sorted_children_sums(made_v, false);
        }
        let ghost pre_parent = *node;
        node.children = sorted;
        node.loaded = true;
        node.compute_totals();
        proof {
            lemma_sorted_children_len(made_v, false);
            let kids = sorted_children(made_v, false);
            assert(children_installed(pre_parent, *node, kids));
        }
    }

    /// The top-level storage nodes of the media tree: internal storage, then
    /// one node per SD card that `ls -1 /storage` listed (names like `ABCD-1234`).
    pub fn media_roots(storage_listing: &AppResult<String>) -> (r: Vec<FileNode>)
        ensures
            r@.len() >= 1,
            r@[0].path@ == "/sdcard"@,
            r@[0].name@ == "Internal Storage"@,
            forall|i: int| 0 <= i < r@.len() ==> (#[trigger] r@[i]).is_dir && r@[i].depth == 1
                && !r@[i].expanded && !r@[i].loaded && r@[i].children@.len() == 0,
            storage_listing is Err ==> r@.len() == 1,
            storage_listing matches Ok(out) ==> sd_card_paths(lines(out@), lines(out@).len() as int)
                == r@.skip(1).map_values(|n: FileNode| n.path@),
            storage_listing matches Ok(out) ==> sd_card_labels(lines(out@), lines(out@).len() as int)
                == r@.skip(1).map_values(|n: FileNode| n.name@),
    {
        let mut internal = FileNode::root("/sdcard");
        internal.name = owned("Internal Storage");
        internal.depth = 1;
        internal.expanded = false;
        let mut r: Vec<FileNode> = Vec::new();
        r.push(internal);
        match storage_listing {
            Ok(out) => {
                let ls = lines_vec(&chars_of(out.as_str()));
                let ghost lsv = views(ls@);
                let mut i: usize = 0;
                while i < ls.len()
                    invariant
                        i <= ls@.len(),
                        lsv == views(ls@),
                        lsv == lines(out@),
                        r@.len() >= 1,
                        r@[0].path@ == "/sdcard"@,
                        r@[0].name@ == "Internal Storage"@,
                        forall|k: int| 0 <= k < r@.len() ==> (#[trigger] r@[k]).is_dir && r@[k].depth == 1
                            && !r@[k].expanded && !r@[k].loaded && r@[k].children@.len() == 0,
                        sd_card_paths(lsv, i as int) == r@.skip(1).map_values(|n: FileNode| n.path@),
                        sd_card_labels(lsv, i as int) == r@.skip(1).map_values(|n: FileNode| n.name@),
                    decreases ls@.len() - i,
                {
                    assert(lsv[i as int] == ls@[i as int]@);
                    let name = trim_vec(&ls[i]);
                    let ghost before = r@;
                    if is_sd_card_name_exec(&name) {
                        let mut path = chars_of("/storage/");
                        append_vec(&mut path, &name);
                        let mut card = FileNode::root(string_of(&path).as_str());
                        let mut label = chars_of("SD Card (");
                        append_vec(&mut label, &name);
                        append_vec(&mut label, &chars_of(")"));
                        card.name = string_of(&label);
                        card.depth = 1;
                        card.expanded = false;
                        r.push(card);
                        assert(r@.skip(1) =~= before.skip(1).push(card));
                    }
                    i = i + 1;
                }
            },
            Err(_) => {},
        }
        r
    }

    /// The media tree: a loaded "Device Root" directory over the given storage nodes.
    pub fn media_tree(children: Vec<FileNode>) -> (root: FileNode)
        requires
            tree_total_seq(children@) <= u64::MAX,
            tree_files_seq(children@) <= u64::MAX,
        ensures
            root.name@ == "Device Root"@,
            root.path@ == "/"@,
            root.is_dir,
            root.loaded,
            root.expanded,
            root.depth == 0,
            !root.selected,
            root.total_size == tree_total_seq(children@),
            root.file_count == tree_files_seq(children@),
            root.children@.len() == children@.len(),
            forall|i: int|
                0 <= i < children@.len() ==> totals_computed(
                    #[trigger] children@[i],
                    root.children@[i],
                ),
    {
        let mut root = FileNode::root("/");
        root.name = owned("Device Root");
        root.depth = 0;
        root.children = children;
        root.loaded = true;
        root.compute_totals();
        root
    }
}

/// An SD card volume name such as `ABCD-1234`: nine bytes with a dash as fifth character.
pub open spec fn is_sd_card_name(name: Seq<char>) -> bool {
    utf8_len(name) == 9 && name.len() > 4 && name[4] == '-'
}

fn is_sd_card_name_exec(name: &Vec<char>) -> (b: bool)
    ensures
        b == is_sd_card_name(name@),
{
    if name.len() > 9 {
        proof {
            crate::text::lemma_utf8_len_ge(name@);
        }
        return false;
    }
    utf8_len_exec(name) == 9 && name.len() > 4 && name[4] == '-'
}

/// Device paths of the SD cards among the first `n` lines of a `/storage` listing.
pub open spec fn sd_card_paths(ls: Seq<Seq<char>>, n: int) -> Seq<Seq<char>>
    decreases n,
{
    if n <= 0 || n > ls.len() {
        seq![]
    } else if is_sd_card_name(trim(ls[n - 1])) {
        sd_card_paths(ls, n - 1).push("/storage/"@ + trim(ls[n - 1]))
    } else {
        sd_card_paths(ls, n - 1)
    }
}

/// Labels of the SD cards among the first `n` lines of a `/storage` listing.
pub open spec fn sd_card_labels(ls: Seq<Seq<char>>, n: int) -> Seq<Seq<char>>
    decreases n,
{
    if n <= 0 || n > ls.len() {
        seq![]
    } else if is_sd_card_name(trim(ls[n - 1])) {
        sd_card_labels(ls, n - 1).push("SD Card ("@ + trim(ls[n - 1]) + ")"@)
    } else {
        sd_card_labels(ls, n - 1)
    }
}

// ---------------------------------------------------------------------------
// Finding a node by its path
// ---------------------------------------------------------------------------

/// The first node of the tree, in pre-order, whose path is `p`.
pub open spec fn first_at(n: FileNode, p: Seq<char>) -> Option<FileNode>
    decreases n,
{
    if n.path@ == p {
        Some(n)
    } else {
        first_at_seq(n.children@, p)
    }
}

/// The first node, in pre-order over the trees `cs` in turn, whose path is `p`.
pub open spec fn first_at_seq(cs: Seq<FileNode>, p: Seq<char>) -> Option<FileNode>
    decreases cs,
{
    if cs.len() == 0 {
        None
    } else {
        match first_at_seq(cs.drop_last(), p) {
            Some(x) => Some(x),
            None => first_at(cs.last(), p),
        }
    }
}

/// `b` is `a` with its first node at path `p` (in pre-order) replaced by `t`
/// and everything else unchanged.
pub open spec fn replaced_at(a: FileNode, b: FileNode, p: Seq<char>, t: FileNode) -> bool
    decreases a,
{
    if a.path@ == p {
        b == t
    } else {
        &&& same_but_totals(a, b)
        &&& b.total_size == a.total_size
        &&& b.file_count == a.file_count
        &&& b.children@.len() == a.children@.len()
        &&& forall|i: int|
            0 <= i < a.children@.len() ==> if first_at_seq(a.children@.take(i), p) is None
                && first_at(#[trigger] a.children@[i], p) is Some {
                replaced_at(a.children@[i], b.children@[i], p, t)
            } else {
                b.children@[i] == a.children@[i]
            }
    }
}

/// Once a match is found among the first `k + 1` trees, the first match over
/// any longer prefix is that same node.
proof fn lemma_first_at_prefix(cs: Seq<FileNode>, p: Seq<char>, k: int, m: int)
    requires
        0 <= k < m <= cs.len(),
        first_at_seq(cs.take(k), p) is None,
        first_at(cs[k], p) is Some,
    ensures
        first_at_seq(cs.take(m), p) == first_at(cs[k], p),
    decreases m,
{
    if m == k + 1 {
        assert(cs.take(m).drop_last() =~= cs.take(k));
    } else {
        lemma_first_at_prefix(cs, p, k, m - 1);
        assert(cs.take(m).drop_last() =~= cs.take(m - 1));
    }
}

impl FileNode {
    /// Whether a node of this tree has the path `p`.
    fn has_path(&self, p: &Vec<char>) -> (b: bool)
        ensures
            b == (first_at(*self, p@) is Some),
        decreases *self,
    {
        let own = chars_of(self.path.as_str());
        if vec_eq(&own, p) {
            return true;
        }
        match first_child_with(&self.children, p) {
            Some(_) => true,
            None => false,
        }
    }
}

/// The index of the first of the trees `cs` that holds a node with path `p`.
fn first_child_with(cs: &Vec<FileNode>, p: &Vec<char>) -> (r: Option<usize>)
    ensures
        r is None <==> first_at_seq(cs@, p@) is None,
        r matches Some(k) ==> {
            &&& k < cs@.len()
            &&& first_at_seq(cs@.take(k as int), p@) is None
            &&& first_at(cs@[k as int], p@) is Some
            &&& first_at_seq(cs@, p@) == first_at(cs@[k as int], p@)
        },
    decreases cs@,
{
    let mut i: usize = 0;
    while i < cs.len()
        invariant
            i <= cs@.len(),
            first_at_seq(cs@.take(i as int), p@) is None,
        decreases cs@.len() - i,
    {
        proof {
            assert(decreases_to!(cs@ => cs@[i as int]));
        }
        if cs[i].has_path(p) {
            proof {
                lemma_first_at_prefix(cs@, p@, i as int, cs@.len() as int);
                assert(cs@.take(cs@.len() as int) =~= cs@);
            }
            return Some(i);
        }
        assert(cs@.take(i + 1).drop_last() =~= cs@.take(i as int));
        i = i + 1;
    }
    assert(cs@.take(i as int) =~= cs@);
    None
}

/// The first node of the tree, in pre-order, whose path is `path`, for
/// changing in place; `None`, with the tree untouched, when no node has it.
pub fn find_node_mut<'a>(node: &'a mut FileNode, path: &str) -> (r: Option<&'a mut FileNode>)
    ensures
        (r is Some) == (first_at(*old(node), path@) is Some),
        r is Some ==> *r->0 == first_at(*old(node), path@)->0,
        r is Some ==> replaced_at(*old(node), *final(node), path@, *final(r->0)),
        r is None ==> *final(node) == *old(node),
{
    let p = chars_of(path);
    find_in(node, &p)
}

fn find_in<'a>(node: &'a mut FileNode, p: &Vec<char>) -> (r: Option<&'a mut FileNode>)
    ensures
        (r is Some) == (first_at(*old(node), p@) is Some),
        r is Some ==> *r->0 == first_at(*old(node), p@)->0,
        r is Some ==> replaced_at(*old(node), *final(node), p@, *final(r->0)),
        r is None ==> *final(node) == *old(node),
    decreases *old(node),
{
    let own = chars_of(node.path.as_str());
    if vec_eq(&own, p) {
        return Some(node);
    }
    match first_child_with(&node.children, p) {
        None => None,
        Some(k) => {
            proof {
                assert(decreases_to!(*old(node) => old(node).children));
                assert(decreases_to!(old(node).children => old(node).children@));
                assert(decreases_to!(old(node).children@ => old(node).children@[k as int]));
            }
            let ghost cs = old(node).children@;
            let r = find_in(&mut node.children[k], p);
            proof {
                assert forall|i: int|
                    0 <= i < cs.len() && i != k implies !(first_at_seq(cs.take(i), p@) is None
                        && first_at(#[trigger] cs[i], p@) is Some) by {
                    if i < k {
                        if first_at_seq(cs.take(i), p@) is None && first_at(cs[i], p@) is Some {
                            lemma_first_at_prefix(cs, p@, i, k as int);
                        }
                    } else {
                        lemma_first_at_prefix(cs, p@, k as int, i);
                    }
                }
            }
            r
        }
    }
}

} // verus!
