//! The dual-pane browser's model: views, rows, search and cursor movement.
use vstd::prelude::*;
use glob::Pattern;
use crate::scanner::tree::{derefs, flat, sel_dirs, FileNode};
use crate::text::{
    chars_of, contains_exec, contains_text, lowercase, owned, rscan, rscan_exec, slice_vec,
    string_of, to_lowercase, Stop,
};

verus! {

/// Which pane has the focus: the device (left) or the PC (right).
#[derive(Debug, Clone, Copy, PartialEq, Eq, Structural)]
pub enum Pane {
    Left,
    Right,
}

/// The current view state of the application.
#[derive(Debug, Clone, Copy, PartialEq, Eq, Structural)]
pub enum AppView {
    DeviceSelect,
    FileBrowser,
    FileBrowserSearch,
    DestinationBrowser,
    Transferring,
    Summary,
}

/// Flattened tree node for TUI rendering.
#[derive(Debug, Clone)]
pub struct FlatNode {
    pub name: String,
    pub path: String,
    pub is_dir: bool,
    pub size: u64,
    pub total_size: u64,
    pub selected: bool,
    pub expanded: bool,
    pub depth: usize,
    pub file_count: u64,
    /// Path of indices into the tree (left empty: rows are found by path).
    pub tree_index: Vec<usize>,
}

/// `row` shows the tree node `n`.
pub open spec fn row_of(row: FlatNode, n: FileNode) -> bool {
    &&& row.name@ == n.name@
    &&& row.path@ == n.path@
    &&& row.is_dir == n.is_dir
    &&& row.size == n.size
    &&& row.total_size == n.total_size
    &&& row.selected == n.selected
    &&& row.expanded == n.expanded
    &&& row.depth == n.depth
    &&& row.file_count == n.file_count
    &&& row.tree_index@.len() == 0
}

impl FlatNode {
    /// The row that shows a tree node.
    pub fn of(n: &FileNode) -> (row: Self)
        ensures
            row_of(row, *n),
    {
        FlatNode {
            name: owned(n.name.as_str()),
            path: owned(n.path.as_str()),
            is_dir: n.is_dir,
            size: n.size,
            total_size: n.total_size,
            selected: n.selected,
            expanded: n.expanded,
            depth: n.depth,
            file_count: n.file_count,
            tree_index: Vec::new(),
        }
    }
}

/// `glob::Pattern`, a compiled shell-style pattern.
#[verifier::external_type_specification]
#[verifier::external_body]
pub struct ExPattern(Pattern);

/// Whether `glob::Pattern::new` accepts a query.
pub uninterp spec fn glob_compiles(query: Seq<char>) -> bool;

/// The text that a pattern was compiled from (what `Pattern::as_str` gives).
pub uninterp spec fn glob_source(p: Pattern) -> Seq<char>;

/// Whether the pattern compiled from `query` matches `name` (default options).
pub uninterp spec fn glob_matches(query: Seq<char>, name: Seq<char>) -> bool;

/// `glob::Pattern::new`: the compiled pattern, or `None` where the crate
/// reports a `PatternError`. Which queries compile is named by
/// [`glob_compiles`]; a compiled pattern keeps its source text.
#[verifier::external_body]
fn compile_glob(query: &str) -> (r: Option<Pattern>)
    ensures
        r is Some <==> glob_compiles(query@),
        r matches Some(p) ==> glob_source(p) == query@,
{
    Pattern::new(query).ok()
}

/// `glob::Pattern::matches`: whether the pattern matches the whole name.
/// The answer is named by [`glob_matches`] of the pattern's source and the name.
#[verifier::external_body]
fn glob_match(p: &Pattern, name: &str) -> (b: bool)
    ensures
        b == glob_matches(glob_source(*p), name@),
{
    p.matches(name)
}

/// Whether the search `query` keeps a node named `name`: with a valid glob,
/// by glob match; otherwise by case-insensitive substring.
pub open spec fn search_keeps(query: Seq<char>, name: Seq<char>) -> bool {
    if glob_compiles(query) {
        glob_matches(query, name)
    } else {
        contains_text(lowercase(name), lowercase(query))
    }
}

/// The nodes that a search query leaves visible (all of them for an empty query).
pub open spec fn searched(nodes: Seq<FileNode>, query: Seq<char>) -> Seq<FileNode> {
    if query.len() == 0 {
        nodes
    } else {
        nodes.filter(|n: FileNode| search_keeps(query, n.name@))
    }
}

/// The rows of the browser: the visible nodes of `tree` (children only below
/// expanded directories, only media with the media filter), narrowed by the
/// search query, each as a row.
pub fn flat_rows(tree: &FileNode, media_filter: bool, query: &str) -> (rows: Vec<FlatNode>)
    ensures
        rows@.len() == searched(flat(*tree, media_filter), query@).len(),
        forall|i: int|
            0 <= i < rows@.len() ==> row_of(
                #[trigger] rows@[i],
                searched(flat(*tree, media_filter), query@)[i],
            ),
{
    let visible = tree.flatten_visible(media_filter);
    let ghost vs = derefs(visible@);
    let q = chars_of(query);
    let pattern = if q.len() > 0 {
        compile_glob(query)
    } else {
        None
    };
    let lower_q = chars_of(to_lowercase(query).as_str());
    let ghost keep = |n: FileNode| search_keeps(query@, n.name@);
    let mut rows: Vec<FlatNode> = Vec::new();
    let ghost kept: Seq<FileNode> = Seq::empty();
    let mut i: usize = 0;
    while i < visible.len()
        invariant
            i <= visible@.len(),
            vs == derefs(visible@),
            vs == flat(*tree, media_filter),
            q@ == query@,
            lower_q@ == lowercase(query@),
            q@.len() > 0 ==> (pattern is Some <==> glob_compiles(query@)),
            pattern matches Some(p) ==> glob_source(p) == query@,
            keep == (|n: FileNode| search_keeps(query@, n.name@)),
            kept == (if q@.len() == 0 {
                vs.take(i as int)
            } else {
                vs.take(i as int).filter(keep)
            }),
            rows@.len() == kept.len(),
            forall|k: int| 0 <= k < rows@.len() ==> row_of(#[trigger] rows@[k], kept[k]),
        decreases visible@.len() - i,
    {
        let n = visible[i];
        assert(vs[i as int] == *n);
        let keep_it = if q.len() == 0 {
            true
        } else {
            match &pattern {
                Some(p) => glob_match(p, n.name.as_str()),
                None => {
                    let lower_name = chars_of(to_lowercase(n.name.as_str()).as_str());
                    contains_exec(&lower_name, &lower_q)
                },
            }
        };
        proof {
            assert(vs.take(i + 1) =~= vs.take(i as int).push(vs[i as int]));
            vs.take(i as int).lemma_filter_push(vs[i as int], keep);
            if q@.len() > 0 {
                assert(keep_it == keep(*n));
            }
        }
        if keep_it {
            rows.push(FlatNode::of(n));
        }
        proof {
            kept = if q@.len() == 0 {
                vs.take(i + 1)
            } else {
                vs.take(i + 1).filter(keep)
            };
        }
        i = i + 1;
    }
    proof {
        assert(vs.take(i as int) =~= vs);
        assert(searched(flat(*tree, media_filter), query@) == kept);
    }
    rows
}

/// The cursor kept on a list of `len` rows: moved back to the last row when
/// it points past the end (0 for an empty list).
pub fn clamp_index(index: usize, len: usize) -> (r: usize)
    ensures
        r == if index >= len {
            if len == 0 {
                0
            } else {
                (len - 1) as usize
            }
        } else {
            index
        },
{
    if index >= len {
        if len == 0 {
            0
        } else {
            len - 1
        }
    } else {
        index
    }
}

/// The cursor moved one row down, stopping at the last row.
pub fn next_index(index: usize, len: usize) -> (r: usize)
    ensures
        len == 0 ==> r == index,
        len > 0 ==> r == if index + 1 < len {
            (index + 1) as usize
        } else {
            (len - 1) as usize
        },
{
    if len == 0 {
        return index;
    }
    if index < len - 1 {
        index + 1
    } else {
        len - 1
    }
}

/// The cursor moved one row up, stopping at the first row.
pub fn prev_index(index: usize) -> (r: usize)
    ensures
        r == if index == 0 {
            0
        } else {
            (index - 1) as usize
        },
{
    if index == 0 {
        0
    } else {
        index - 1
    }
}

/// The device cursor moved down, wrapping from the last device to the first.
pub fn cycle_next(index: usize, len: usize) -> (r: usize)
    requires
        len == 0 || index < len,
    ensures
        len == 0 ==> r == index,
        len > 0 ==> r == (index + 1) % (len as int),
{
    if len == 0 {
        return index;
    }
    if index + 1 == len {
        assert((index + 1) % (len as int) == 0) by (nonlinear_arith)
            requires
                index + 1 == len,
                len > 0,
        ;
        0
    } else {
        assert((index + 1) % (len as int) == index + 1) by (nonlinear_arith)
            requires
                index + 1 < len,
        ;
        index + 1
    }
}

/// The device cursor moved up, wrapping from the first device to the last.
pub fn cycle_prev(index: usize, len: usize) -> (r: usize)
    ensures
        len == 0 ==> r == index,
        len > 0 ==> r == if index == 0 {
            (len - 1) as usize
        } else {
            (index - 1) as usize
        },
{
    if len == 0 {
        return index;
    }
    if index == 0 {
        len - 1
    } else {
        index - 1
    }
}

/// The pane that takes the focus after a switch.
pub fn other_pane(p: Pane) -> (r: Pane)
    ensures
        r != p,
{
    match p {
        Pane::Left => Pane::Right,
        Pane::Right => Pane::Left,
    }
}

/// Where pushed files go on the device: the directory under the device
/// cursor, or the directory of the file under it; `/sdcard` when there is no
/// row, when the path has no slash, or when that directory is the root.
pub open spec fn push_target(row: Option<FlatNode>) -> Seq<char> {
    let p = match row {
        Some(r) => if r.is_dir {
            r.path@
        } else {
            let k = rscan(r.path@, r.path@.len() as int, Stop::Char('/'));
            if k == 0 {
                "/sdcard"@
            } else if k == 1 {
                "/"@
            } else {
                r.path@.take(k - 1)
            }
        },
        None => "/sdcard"@,
    };
    if p == "/"@ {
        "/sdcard"@
    } else {
        p
    }
}

/// The device directory that a push goes to, from the row under the device cursor.
pub fn push_destination(row: Option<&FlatNode>) -> (d: String)
    ensures
        d@ == push_target(match row {
            Some(r) => Some(*r),
            None => None,
        }),
{
    let p: String = match row {
        Some(r) => {
            if r.is_dir {
                owned(r.path.as_str())
            } else {
                let v = chars_of(r.path.as_str());
                let k = rscan_exec(&v, v.len(), Stop::Char('/'));
                if k == 0 {
                    owned("/sdcard")
                } else if k == 1 {
                    owned("/")
                } else {
                    let d = slice_vec(&v, 0, k - 1);
                    assert(d@ =~= v@.take(k - 1));
                    string_of(&d)
                }
            }
        },
        None => owned("/sdcard"),
    };
    if crate::text::eq_str(&chars_of(p.as_str()), "/") {
        owned("/sdcard")
    } else {
        p
    }
}

/// A key press, as the browser reads it.
#[derive(Debug, Clone, Copy, PartialEq, Eq, Structural)]
pub enum Key {
    Char(char),
    Up,
    Down,
    Enter,
    Esc,
    Tab,
    Backspace,
    Delete,
    /// Any other key; no view acts on it.
    Other,
}

/// What the application does in answer to a key press.
#[derive(Debug, Clone, Copy, PartialEq, Eq, Structural)]
pub enum UiCommand {
    Quit,
    DevicePrev,
    DeviceNext,
    SelectDevice,
    RefreshDevices,
    BrowserPrev,
    BrowserNext,
    ToggleExpand,
    ToggleSelect,
    SelectAll,
    SelectNone,
    StartTransfer,
    ResumeTransfer,
    ToggleMediaFilter,
    GoBack,
    OpenSearch,
    TogglePane,
    DeleteSelected,
    CloseSearch,
    /// Drop the last character of the search text.
    SearchPop,
    /// Append a character to the search text.
    SearchPush(char),
    CancelTransfer,
    CancelAndQuit,
    BackToBrowser,
    ScrollUp,
    ScrollDown,
    Nothing,
}

/// The key bindings of each view.
pub open spec fn binding(view: AppView, key: Key) -> UiCommand {
    match view {
        AppView::DeviceSelect => match key {
            Key::Char('q') | Key::Esc => UiCommand::Quit,
            Key::Up | Key::Char('k') => UiCommand::DevicePrev,
            Key::Down | Key::Char('j') => UiCommand::DeviceNext,
            Key::Enter => UiCommand::SelectDevice,
            Key::Char('r') => UiCommand::RefreshDevices,
            _ => UiCommand::Nothing,
        },
        AppView::FileBrowser => match key {
            Key::Char('q') | Key::Esc => UiCommand::Quit,
            Key::Up | Key::Char('k') => UiCommand::BrowserPrev,
            Key::Down | Key::Char('j') => UiCommand::BrowserNext,
            Key::Enter => UiCommand::ToggleExpand,
            Key::Char(' ') => UiCommand::ToggleSelect,
            Key::Char('a') => UiCommand::SelectAll,
            Key::Char('n') => UiCommand::SelectNone,
            Key::Char('s') => UiCommand::StartTransfer,
            Key::Char('r') => UiCommand::ResumeTransfer,
            Key::Char('f') => UiCommand::ToggleMediaFilter,
            Key::Char('b') | Key::Backspace => UiCommand::GoBack,
            Key::Char('/') => UiCommand::OpenSearch,
            Key::Tab => UiCommand::TogglePane,
            Key::Delete | Key::Char('x') => UiCommand::DeleteSelected,
            _ => UiCommand::Nothing,
        },
        AppView::FileBrowserSearch => match key {
            Key::Esc | Key::Enter => UiCommand::CloseSearch,
            Key::Backspace => UiCommand::SearchPop,
            Key::Char(c) => UiCommand::SearchPush(c),
            _ => UiCommand::Nothing,
        },
        AppView::DestinationBrowser => match key {
            Key::Char('q') | Key::Esc => UiCommand::Quit,
            Key::Backspace => UiCommand::GoBack,
            _ => UiCommand::Nothing,
        },
        AppView::Transferring => match key {
            Key::Char('q') | Key::Esc => UiCommand::CancelAndQuit,
            Key::Char('c') => UiCommand::CancelTransfer,
            _ => UiCommand::Nothing,
        },
        AppView::Summary => match key {
            Key::Char('q') | Key::Esc => UiCommand::Quit,
            Key::Char('b') => UiCommand::BackToBrowser,
            Key::Up | Key::Char('k') => UiCommand::ScrollUp,
            Key::Down | Key::Char('j') => UiCommand::ScrollDown,
            _ => UiCommand::Nothing,
        },
    }
}

/// The keys of the file browser, command by command: each command is
/// bound to exactly these keys (`a` selects all, `n` selects none, `s`
/// starts a transfer, `r` resumes one, `f` toggles the media filter, `x` or
/// Delete deletes), and no other key of the browser does anything.
pub proof fn lemma_browser_keys(k: Key)
    ensures
        binding(AppView::FileBrowser, k) == UiCommand::Quit <==> (k == Key::Char('q') || k
            == Key::Esc),
        binding(AppView::FileBrowser, k) == UiCommand::BrowserPrev <==> (k == Key::Up || k
            == Key::Char('k')),
        binding(AppView::FileBrowser, k) == UiCommand::BrowserNext <==> (k == Key::Down || k
            == Key::Char('j')),
        binding(AppView::FileBrowser, k) == UiCommand::ToggleExpand <==> k == Key::Enter,
        binding(AppView::FileBrowser, k) == UiCommand::ToggleSelect <==> k == Key::Char(' '),
        binding(AppView::FileBrowser, k) == UiCommand::SelectAll <==> k == Key::Char('a'),
        binding(AppView::FileBrowser, k) == UiCommand::SelectNone <==> k == Key::Char('n'),
        binding(AppView::FileBrowser, k) == UiCommand::StartTransfer <==> k == Key::Char('s'),
        binding(AppView::FileBrowser, k) == UiCommand::ResumeTransfer <==> k == Key::Char('r'),
        binding(AppView::FileBrowser, k) == UiCommand::ToggleMediaFilter <==> k == Key::Char(
            'f',
        ),
        binding(AppView::FileBrowser, k) == UiCommand::GoBack <==> (k == Key::Char('b') || k
            == Key::Backspace),
        binding(AppView::FileBrowser, k) == UiCommand::OpenSearch <==> k == Key::Char('/'),
        binding(AppView::FileBrowser, k) == UiCommand::TogglePane <==> k == Key::Tab,
        binding(AppView::FileBrowser, k) == UiCommand::DeleteSelected <==> (k == Key::Delete
            || k == Key::Char('x')),
{
}

/// The keys of the other views: in the device list `q`/Esc quit, Up/`k` and
/// Down/`j` move, Enter picks and `r` refreshes; during a transfer `c`
/// cancels and `q`/Esc cancel and quit; on the summary `b` goes back to the
/// browser and Up/`k`, Down/`j` scroll; in the search every character is
/// typed into the search text.
pub proof fn lemma_view_keys(k: Key, c: char)
    ensures
        binding(AppView::DeviceSelect, k) == UiCommand::Quit <==> (k == Key::Char('q') || k
            == Key::Esc),
        binding(AppView::DeviceSelect, k) == UiCommand::DevicePrev <==> (k == Key::Up || k
            == Key::Char('k')),
        binding(AppView::DeviceSelect, k) == UiCommand::DeviceNext <==> (k == Key::Down || k
            == Key::Char('j')),
        binding(AppView::DeviceSelect, k) == UiCommand::SelectDevice <==> k == Key::Enter,
        binding(AppView::DeviceSelect, k) == UiCommand::RefreshDevices <==> k == Key::Char('r'),
        binding(AppView::Transferring, k) == UiCommand::CancelTransfer <==> k == Key::Char('c'),
        binding(AppView::Transferring, k) == UiCommand::CancelAndQuit <==> (k == Key::Char('q')
            || k == Key::Esc),
        binding(AppView::Summary, k) == UiCommand::BackToBrowser <==> k == Key::Char('b'),
        binding(AppView::Summary, k) == UiCommand::ScrollUp <==> (k == Key::Up || k == Key::Char(
            'k',
        )),
        binding(AppView::Summary, k) == UiCommand::ScrollDown <==> (k == Key::Down || k
            == Key::Char('j')),
        binding(AppView::FileBrowserSearch, Key::Char(c)) == UiCommand::SearchPush(c),
{
}

/// The command that a key press stands for in the current view.
pub fn command_for(view: AppView, key: Key) -> (c: UiCommand)
    ensures
        c == binding(view, key),
{
    match view {
        AppView::DeviceSelect => match key {
            Key::Char('q') | Key::Esc => UiCommand::Quit,
            Key::Up | Key::Char('k') => UiCommand::DevicePrev,
            Key::Down | Key::Char('j') => UiCommand::DeviceNext,
            Key::Enter => UiCommand::SelectDevice,
            Key::Char('r') => UiCommand::RefreshDevices,
            _ => UiCommand::Nothing,
        },
        AppView::FileBrowser => match key {
            Key::Char('q') | Key::Esc => UiCommand::Quit,
            Key::Up | Key::Char('k') => UiCommand::BrowserPrev,
            Key::Down | Key::Char('j') => UiCommand::BrowserNext,
            Key::Enter => UiCommand::ToggleExpand,
            Key::Char(' ') => UiCommand::ToggleSelect,
            Key::Char('a') => UiCommand::SelectAll,
            Key::Char('n') => UiCommand::SelectNone,
            Key::Char('s') => UiCommand::StartTransfer,
            Key::Char('r') => UiCommand::ResumeTransfer,
            Key::Char('f') => UiCommand::ToggleMediaFilter,
            Key::Char('b') | Key::Backspace => UiCommand::GoBack,
            Key::Char('/') => UiCommand::OpenSearch,
            Key::Tab => UiCommand::TogglePane,
            Key::Delete | Key::Char('x') => UiCommand::DeleteSelected,
            _ => UiCommand::Nothing,
        },
        AppView::FileBrowserSearch => match key {
            Key::Esc | Key::Enter => UiCommand::CloseSearch,
            Key::Backspace => UiCommand::SearchPop,
            Key::Char(c) => UiCommand::SearchPush(c),
            _ => UiCommand::Nothing,
        },
        AppView::DestinationBrowser => match key {
            Key::Char('q') | Key::Esc => UiCommand::Quit,
            Key::Backspace => UiCommand::GoBack,
            _ => UiCommand::Nothing,
        },
        AppView::Transferring => match key {
            Key::Char('q') | Key::Esc => UiCommand::CancelAndQuit,
            Key::Char('c') => UiCommand::CancelTransfer,
            _ => UiCommand::Nothing,
        },
        AppView::Summary => match key {
            Key::Char('q') | Key::Esc => UiCommand::Quit,
            Key::Char('b') => UiCommand::BackToBrowser,
            Key::Up | Key::Char('k') => UiCommand::ScrollUp,
            Key::Down | Key::Char('j') => UiCommand::ScrollDown,
            _ => UiCommand::Nothing,
        },
    }
}

/// Index of the first node at or after `i` that lies strictly shallower than `x`.
pub open spec fn depth_slot(s: Seq<FileNode>, x: FileNode, i: int) -> int
    decreases s.len() - i,
{
    if i < 0 || i >= s.len() {
        s.len() as int
    } else if s[i].depth < x.depth {
        i
    } else {
        depth_slot(s, x, i + 1)
    }
}

/// `s` sorted stably by depth, deepest first: each node goes behind every
/// earlier node that is at least as deep.
pub open spec fn deepest_first(s: Seq<FileNode>) -> Seq<FileNode>
    decreases s.len(),
{
    if s.len() == 0 {
        seq![]
    } else {
        let t = deepest_first(s.drop_last());
        t.insert(depth_slot(t, s.last(), 0), s.last())
    }
}

proof fn lemma_depth_slot(s: Seq<FileNode>, x: FileNode, i: int)
    requires
        0 <= i <= s.len(),
    ensures
        i <= depth_slot(s, x, i) <= s.len(),
        forall|k: int| i <= k < depth_slot(s, x, i) ==> (#[trigger] s[k]).depth >= x.depth,
        depth_slot(s, x, i) < s.len() ==> s[depth_slot(s, x, i)].depth < x.depth,
    decreases s.len() - i,
{
    if i < s.len() && s[i].depth >= x.depth {
        lemma_depth_slot(s, x, i + 1);
    }
}

/// Ordering nodes deepest first keeps every node and never puts a node
/// before a deeper one.
pub proof fn lemma_deepest_first(s: Seq<FileNode>)
    ensures
        deepest_first(s).len() == s.len(),
        deepest_first(s).to_multiset() == s.to_multiset(),
        forall|i: int, j: int|
            0 <= i < j < s.len() ==> (#[trigger] deepest_first(s)[i]).depth >= (
            #[trigger] deepest_first(s)[j]).depth,
    decreases s.len(),
{
    if s.len() == 0 {
        assert(deepest_first(s) =~= s);
    } else {
        lemma_deepest_first(s.drop_last());
        let t = deepest_first(s.drop_last());
        let x = s.last();
        let p = depth_slot(t, x, 0);
        lemma_depth_slot(t, x, 0);
        let r = t.insert(p, x);
        assert(deepest_first(s) == r);
        assert forall|i: int, j: int| 0 <= i < j < r.len() implies (#[trigger] r[i]).depth >= (
        #[trigger] r[j]).depth by {
            if j < p {
                assert(r[i] == t[i] && r[j] == t[j]);
            } else if j == p {
                assert(r[i] == t[i] && r[j] == x);
            } else if i < p {
                assert(r[i] == t[i] && r[j] == t[j - 1]);
            } else if i == p {
                assert(r[i] == x && r[j] == t[j - 1]);
                assert(t[p].depth < x.depth);
                if p < j - 1 {
                    assert(t[p].depth >= t[j - 1].depth);
                }
            } else {
                assert(r[i] == t[i - 1] && r[j] == t[j - 1]);
            }
        }
        assert(r.to_multiset() =~= t.to_multiset().insert(x)) by {
            broadcast use vstd::seq_lib::group_to_multiset_ensures;
        }
        assert(s =~= s.drop_last().push(x));
        assert(s.to_multiset() =~= t.to_multiset().insert(x)) by {
            broadcast use vstd::seq_lib::group_to_multiset_ensures;
        }
    }
}

fn depth_slot_exec(out: &Vec<&FileNode>, x: &FileNode) -> (p: usize)
    ensures
        p == depth_slot(derefs(out@), *x, 0),
        p <= out@.len(),
{
    let ghost s = derefs(out@);
    let mut p: usize = 0;
    while p < out.len()
        invariant
            p <= out@.len(),
            s == derefs(out@),
            depth_slot(s, *x, 0) == depth_slot(s, *x, p as int),
        decreases out@.len() - p,
    {
        if out[p].depth < x.depth {
            return p;
        }
        p = p + 1;
    }
    p
}

/// The order in which selected local directories are removed: deepest
/// first, nodes of equal depth in their given order.
pub fn deletion_order<'a>(dirs: &Vec<&'a FileNode>) -> (r: Vec<&'a FileNode>)
    ensures
        derefs(r@) == deepest_first(derefs(dirs@)),
{
    let mut out: Vec<&FileNode> = Vec::new();
    let mut i: usize = 0;
    while i < dirs.len()
        invariant
            i <= dirs@.len(),
            derefs(out@) == deepest_first(derefs(dirs@).take(i as int)),
        decreases dirs@.len() - i,
    {
        let x = dirs[i];
        proof {
            assert(derefs(dirs@).take(i + 1).drop_last() =~= derefs(dirs@).take(i as int));
            assert(derefs(dirs@).take(i + 1).last() == *x);
        }
        let p = depth_slot_exec(&out, x);
        let ghost before = out@;
        out.insert(p, x);
        assert(derefs(out@) =~= derefs(before).insert(p as int, *x));
        i = i + 1;
    }
    assert(derefs(dirs@).take(i as int) =~= derefs(dirs@));
    out
}

/// The paths, in order, of the nodes of `s` whose children were never listed.
pub open spec fn unloaded_paths(s: Seq<FileNode>) -> Seq<Seq<char>>
    decreases s.len(),
{
    if s.len() == 0 {
        seq![]
    } else if !s.last().loaded {
        unloaded_paths(s.drop_last()).push(s.last().path@)
    } else {
        unloaded_paths(s.drop_last())
    }
}

/// The selected directories of the tree, in pre-order, whose contents were
/// never listed: a transfer lists them in full first.
pub fn unloaded_selection(tree: &FileNode) -> (r: Vec<String>)
    ensures
        r@.map_values(|p: String| p@) == unloaded_paths(sel_dirs(*tree)),
{
    let dirs = tree.selected_dirs();
    let mut out: Vec<String> = Vec::new();
    let mut i: usize = 0;
    while i < dirs.len()
        invariant
            i <= dirs@.len(),
            derefs(dirs@) == sel_dirs(*tree),
            out@.map_values(|p: String| p@) == unloaded_paths(derefs(dirs@).take(i as int)),
        decreases dirs@.len() - i,
    {
        proof {
            assert(derefs(dirs@).take(i + 1).drop_last() =~= derefs(dirs@).take(i as int));
            assert(derefs(dirs@).take(i + 1).last() == *dirs@[i as int]);
        }
        if !dirs[i].loaded {
            let ghost before = out@;
            out.push(dirs[i].path.clone());
            assert(out@.map_values(|p: String| p@) =~= before.map_values(|p: String| p@).push(
                dirs@[i as int].path@,
            ));
        }
        i = i + 1;
    }
    assert(derefs(dirs@).take(i as int) =~= derefs(dirs@));
    out
}

} // verus!
