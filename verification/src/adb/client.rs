//! The ADB client: device selection, command texts and output parsers.
use vstd::prelude::*;
use crate::error::{AppError, AppResult};
use crate::num::{parse_unsigned, parse_unsigned_exec};
use crate::text::{
    append_vec, chars_of, contains_str, contains_text, ends_with, eq_str, find_from,
    find_from_exec, has_char, has_char_exec, lines, lines_vec, owned, slice_vec,
    split_char, split_char_vec, split_ws_vec, starts_with, starts_with_str, string_of, trim,
    trim_vec, utf8_len, utf8_len_exec, views, ws_tokens,
};
use crate::adb::shell::{trimmed_number, trimmed_number_exec};

verus! {

/// Represents a connected Android device.
#[derive(Debug, Clone)]
pub struct DeviceInfo {
    pub serial: String,
    pub state: String,
    pub model: String,
    pub transport: String,
}

/// ADB client state: the device that commands are addressed to.
#[derive(Debug, Clone)]
pub struct AdbClient {
    pub selected_device: Option<DeviceInfo>,
}

/// A file or directory entry on the remote device.
#[derive(Debug, Clone)]
pub struct RemoteEntry {
    pub name: String,
    pub path: String,
    pub is_dir: bool,
    pub size: u64,
    pub mtime: u64,
}

/// Characters of `s` with each single quote written as `'\''`.
pub open spec fn quote_body(s: Seq<char>) -> Seq<char>
    decreases s.len(),
{
    if s.len() == 0 {
        seq![]
    } else if s.last() == '\'' {
        quote_body(s.drop_last()) + seq!['\'', '\\', '\'', '\'']
    } else {
        quote_body(s.drop_last()) + seq![s.last()]
    }
}

/// `s` as one single-quoted shell word.
pub open spec fn spec_quote_shell(s: Seq<char>) -> Seq<char> {
    seq!['\''] + quote_body(s) + seq!['\'']
}

/// Quotes `s` as one single-quoted POSIX shell word.
pub fn quote_shell(s: &str) -> (r: String)
    ensures
        r@ == spec_quote_shell(s@),
{
    let v = chars_of(s);
    let mut out: Vec<char> = Vec::new();
    out.push('\'');
    let mut i: usize = 0;
    while i < v.len()
        invariant
            i <= v@.len(),
            out@ == seq!['\''] + quote_body(v@.take(i as int)),
        decreases v@.len() - i,
    {
        assert(v@.take(i + 1).drop_last() =~= v@.take(i as int));
        if v[i] == '\'' {
            out.push('\'');
            out.push('\\');
            out.push('\'');
            out.push('\'');
        } else {
            out.push(v[i]);
        }
        i = i + 1;
        assert(out@ =~= seq!['\''] + quote_body(v@.take(i as int)));
    }
    out.push('\'');
    assert(v@.take(i as int) =~= v@);
    assert(out@ =~= spec_quote_shell(s@));
    string_of(&out)
}

/// Mathematical model of a [`RemoteEntry`].
pub struct EntryModel {
    pub name: Seq<char>,
    pub path: Seq<char>,
    pub is_dir: bool,
    pub size: u64,
    pub mtime: u64,
}

impl View for RemoteEntry {
    type V = EntryModel;

    open spec fn view(&self) -> EntryModel {
        EntryModel {
            name: self.name@,
            path: self.path@,
            is_dir: self.is_dir,
            size: self.size,
            mtime: self.mtime,
        }
    }
}

/// Number of occurrences of `c` in `s`.
pub open spec fn count_char(s: Seq<char>, c: char) -> int
    decreases s.len(),
{
    if s.len() == 0 {
        0
    } else {
        count_char(s.drop_last(), c) + if s.last() == c {
            1int
        } else {
            0int
        }
    }
}

fn count_char_exec(v: &Vec<char>, c: char) -> (n: usize)
    ensures
        n == count_char(v@, c),
{
    let mut n: usize = 0;
    let mut i: usize = 0;
    while i < v.len()
        invariant
            i <= v@.len(),
            n == count_char(v@.take(i as int), c),
            n <= i,
        decreases v@.len() - i,
    {
        assert(v@.take(i + 1).drop_last() =~= v@.take(i as int));
        if v[i] == c {
            n = n + 1;
        }
        i = i + 1;
    }
    assert(v@.take(i as int) =~= v@);
    n
}

/// An abbreviated English month name as `ls` prints it.
pub open spec fn is_month(s: Seq<char>) -> bool {
    s == "Jan"@ || s == "Feb"@ || s == "Mar"@ || s == "Apr"@ || s == "May"@ || s == "Jun"@ || s
        == "Jul"@ || s == "Aug"@ || s == "Sep"@ || s == "Oct"@ || s == "Nov"@ || s == "Dec"@
}

fn is_month_exec(v: &Vec<char>) -> (b: bool)
    ensures
        b == is_month(v@),
{
    eq_str(v, "Jan") || eq_str(v, "Feb") || eq_str(v, "Mar") || eq_str(v, "Apr") || eq_str(
        v,
        "May",
    ) || eq_str(v, "Jun") || eq_str(v, "Jul") || eq_str(v, "Aug") || eq_str(v, "Sep")
        || eq_str(v, "Oct") || eq_str(v, "Nov") || eq_str(v, "Dec")
}

/// An ISO date token such as `2024-01-31`: ten bytes holding two dashes.
pub open spec fn is_iso_date(s: Seq<char>) -> bool {
    utf8_len(s) == 10 && count_char(s, '-') == 2
}

/// Position of the date column at or after field `i`, with the index of the
/// name column that follows it (two fields later for ISO dates, three for
/// month-day-time dates).
pub open spec fn date_columns(parts: Seq<Seq<char>>, i: int) -> Option<(int, int)>
    decreases parts.len() - i,
{
    if i < 0 || i >= parts.len() {
        None
    } else if is_iso_date(parts[i]) {
        Some((i, i + 2))
    } else if is_month(parts[i]) {
        Some((i, i + 3))
    } else {
        date_columns(parts, i + 1)
    }
}

/// The (date, name) column indices used for a listing line with fields `parts`.
pub open spec fn ls_columns(parts: Seq<Seq<char>>) -> (int, int) {
    match date_columns(parts, 3) {
        Some((d, n)) if n < parts.len() => (d, n),
        _ => if parse_unsigned(parts[1], 10, u32::MAX as int) is Some {
            (5, if 7 < parts.len() - 1 { 7 } else { parts.len() - 1 })
        } else {
            (4, if 6 < parts.len() - 1 { 6 } else { parts.len() - 1 })
        },
    }
}

/// Where field `name_idx` starts in `line`, found by searching each field in
/// turn from the end of the previous one; 0 when it is never found.
pub open spec fn name_start(
    line: Seq<char>,
    parts: Seq<Seq<char>>,
    i: int,
    cur: int,
    name_idx: int,
) -> int
    decreases parts.len() - i,
{
    if i < 0 || i >= parts.len() {
        0
    } else {
        match find_from(line, parts[i], cur) {
            Some(pos) => if i == name_idx {
                pos
            } else {
                name_start(line, parts, i + 1, pos + parts[i].len(), name_idx)
            },
            None => name_start(line, parts, i + 1, cur, name_idx),
        }
    }
}

/// `parts` joined with `sep` between neighbours.
pub open spec fn join_with(parts: Seq<Seq<char>>, sep: Seq<char>) -> Seq<char>
    decreases parts.len(),
{
    if parts.len() == 0 {
        seq![]
    } else if parts.len() == 1 {
        parts[0]
    } else {
        join_with(parts.drop_last(), sep) + sep + parts.last()
    }
}

/// `parent` and `name` joined with exactly the one slash that `parent` may already end with.
pub open spec fn child_path(parent: Seq<char>, name: Seq<char>) -> Seq<char> {
    if ends_with(parent, "/"@) {
        parent + name
    } else {
        parent + seq!['/'] + name
    }
}

/// The entry that one line of `ls -la` output describes, if any.
pub open spec fn spec_parse_ls_line(line: Seq<char>, parent: Seq<char>) -> Option<EntryModel> {
    let parts = ws_tokens(line);
    if parts.len() < 6 || utf8_len(parts[0]) != 10 || parts[0][0] == 'l' {
        None
    } else {
        let (date_idx, name_idx) = ls_columns(parts);
        let size = match parse_unsigned(parts[date_idx - 1], 10, u64::MAX as int) {
            Some(n) => n as u64,
            None => 0,
        };
        let start = name_start(line, parts, 0, 0, name_idx);
        let name = if start > 0 {
            line.skip(start)
        } else {
            join_with(parts.skip(name_idx), " "@)
        };
        Some(
            EntryModel {
                name,
                path: child_path(parent, name),
                is_dir: parts[0][0] == 'd',
                size,
                mtime: 0,
            },
        )
    }
}

proof fn lemma_ws_tokens_nonempty(s: Seq<char>, i: int)
    requires
        0 <= i <= s.len(),
    ensures
        forall|k: int|
            0 <= k < crate::text::ws_tokens_from(s, i).len() ==> (#[trigger] crate::text::ws_tokens_from(s, i)[k]).len() > 0,
    decreases s.len() - i,
{
    let a = crate::text::scan(s, i, crate::text::Stop::NonWs);
    crate::text::lemma_scan_bounds(s, i, crate::text::Stop::NonWs);
    if a < s.len() {
        let b = crate::text::scan(s, a, crate::text::Stop::Ws);
        crate::text::lemma_scan_bounds(s, a, crate::text::Stop::Ws);
        assert(b == crate::text::scan(s, a + 1, crate::text::Stop::Ws));
        crate::text::lemma_scan_bounds(s, a + 1, crate::text::Stop::Ws);
        lemma_ws_tokens_nonempty(s, b);
        let rest = crate::text::ws_tokens_from(s, b);
        assert(crate::text::ws_tokens_from(s, i) == seq![s.subrange(a, b)] + rest);
    }
}

fn date_columns_exec(parts: &Vec<Vec<char>>) -> (r: Option<(usize, usize)>)
    ensures
        match r {
            Some((d, n)) => date_columns(views(parts@), 3) == Some((d as int, n as int)) && 3
                <= d && d < n && n < parts@.len(),
            None => !(date_columns(views(parts@), 3) matches Some((d, n)) && n < parts@.len()),
        },
{
    let mut i: usize = 3;
    while i < parts.len()
        invariant
            3 <= i,
            date_columns(views(parts@), 3) == date_columns(views(parts@), i as int),
        decreases parts@.len() - i,
    {
        let p = &parts[i];
        assert(views(parts@)[i as int] == p@);
        let mut iso = false;
        if p.len() <= 10 {
            iso = utf8_len_exec(p) == 10 && count_char_exec(p, '-') == 2;
        } else {
            proof {
                crate::text::lemma_utf8_len_ge(p@);
            }
        }
        if iso {
            if parts.len() - i > 2 {
                return Some((i, i + 2));
            }
            return None;
        }
        if is_month_exec(p) {
            if parts.len() - i > 3 {
                return Some((i, i + 3));
            }
            return None;
        }
        i = i + 1;
    }
    None
}

fn join_exec(parts: &Vec<Vec<char>>, from: usize, sep: char) -> (r: Vec<char>)
    requires
        from <= parts@.len(),
    ensures
        r@ == join_with(views(parts@).skip(from as int), seq![sep]),
{
    let mut r: Vec<char> = Vec::new();
    let mut i: usize = from;
    while i < parts.len()
        invariant
            from <= i <= parts@.len(),
            r@ == join_with(views(parts@).subrange(from as int, i as int), seq![sep]),
        decreases parts@.len() - i,
    {
        let ghost before = views(parts@).subrange(from as int, i as int);
        let ghost after = views(parts@).subrange(from as int, i + 1);
        assert(after.drop_last() =~= before);
        assert(after.last() == parts@[i as int]@);
        if i > from {
            r.push(sep);
        } else {
            assert(after =~= seq![parts@[i as int]@]);
        }
        append_vec(&mut r, &parts[i]);
        i = i + 1;
    }
    assert(views(parts@).subrange(from as int, i as int) =~= views(parts@).skip(from as int));
    r
}

/// Parse a line of `ls -la` output into a [`RemoteEntry`] below `parent_path`.
///
/// Symbolic links and lines with too few columns yield `None`; the name is
/// everything from the name column to the end of the line, so names with
/// spaces survive.
pub fn parse_ls_line(line: &str, parent_path: &str) -> (r: Option<RemoteEntry>)
    ensures
        match r {
            Some(e) => spec_parse_ls_line(line@, parent_path@) == Some(e@),
            None => spec_parse_ls_line(line@, parent_path@) is None,
        },
{
    let lv = chars_of(line);
    let parts = split_ws_vec(&lv);
    let ghost ps = views(parts@);
    assert(ps == ws_tokens(line@));
    if parts.len() < 6 {
        return None;
    }
    proof {
        lemma_ws_tokens_nonempty(line@, 0);
        assert(ps[0] == parts@[0]@);
        assert(ps[1] == parts@[1]@);
    }
    let perms = &parts[0];
    if utf8_len_exec(perms) != 10 {
        return None;
    }
    if perms[0] == 'l' {
        return None;
    }
    let is_dir = perms[0] == 'd';
    let (date_idx, name_idx) = match date_columns_exec(&parts) {
        Some((d, n)) => (d, n),
        _ => {
            let last = parts.len() - 1;
            if parse_unsigned_exec(&parts[1], 10, 4294967295).is_some() {
                (5, if 7 < last { 7 } else { last })
            } else {
                (4, if 6 < last { 6 } else { last })
            }
        },
    };
    assert((date_idx as int, name_idx as int) == ls_columns(ps));
    assert(ps[date_idx - 1] == parts@[date_idx - 1]@);
    let size = match parse_unsigned_exec(&parts[date_idx - 1], 10, u64::MAX) {
        Some(n) => n,
        None => 0,
    };
    // Locate the name column in the line itself, so that runs of spaces
    // inside the name are kept.
    let start = name_start_exec(&lv, &parts, name_idx);
    let name_v = if start > 0 {
        slice_vec(&lv, start, lv.len())
    } else {
        join_exec(&parts, name_idx, ' ')
    };
    proof {
        reveal_strlit(" ");
        assert(" "@ =~= seq![' ']);
    }
    let pv = chars_of(parent_path);
    let mut path_v = slice_vec(&pv, 0, pv.len());
    let has_slash = pv.len() > 0 && pv[pv.len() - 1] == '/';
    proof {
        reveal_strlit("/");
        assert("/"@ =~= seq!['/']);
        if pv@.len() > 0 {
            let t = pv@.skip(pv@.len() - 1);
            assert(t =~= seq![pv@[pv@.len() - 1]]);
            if !has_slash {
                assert(t[0] != "/"@[0]);
            }
        }
        assert(has_slash == ends_with(parent_path@, "/"@));
        assert(path_v@ =~= parent_path@);
    }
    if !has_slash {
        path_v.push('/');
    }
    append_vec(&mut path_v, &name_v);
    assert(path_v@ =~= child_path(parent_path@, name_v@));
    Some(
        RemoteEntry {
            name: string_of(&name_v),
            path: string_of(&path_v),
            is_dir,
            size,
            mtime: 0,
        },
    )
}

fn name_start_exec(lv: &Vec<char>, parts: &Vec<Vec<char>>, name_idx: usize) -> (start: usize)
    ensures
        start == name_start(lv@, views(parts@), 0, 0, name_idx as int),
        start <= lv@.len(),
{
    let ghost ps = views(parts@);
    let line_len = lv.len();
    let mut cur: usize = 0;
    let mut i: usize = 0;
    while i < parts.len()
        invariant
            i <= parts@.len(),
            lv@.len() == line_len,
            cur <= lv@.len(),
            ps == views(parts@),
            name_start(lv@, ps, 0, 0, name_idx as int) == name_start(
                lv@,
                ps,
                i as int,
                cur as int,
                name_idx as int,
            ),
        decreases parts@.len() - i,
    {
        assert(ps[i as int] == parts@[i as int]@);
        match find_from_exec(lv, &parts[i], cur) {
            Some(pos) => {
                proof {
                    lemma_find_from_bounds(lv@, parts@[i as int]@, cur as int);
                }
                if i == name_idx {
                    return pos;
                }
                cur = pos + parts[i].len();
            },
            None => {},
        }
        i = i + 1;
    }
    0
}

proof fn lemma_find_from_bounds(s: Seq<char>, p: Seq<char>, k: int)
    ensures
        find_from(s, p, k) matches Some(j) ==> k <= j && j + p.len() <= s.len(),
    decreases s.len() + 1 - k,
{
    if !(k < 0 || k + p.len() > s.len()) && s.subrange(k, k + p.len()) != p {
        lemma_find_from_bounds(s, p, k + 1);
    }
}

/// Whether a trimmed listing line carries an entry (it is neither blank nor the `total` line).
pub open spec fn listing_line_counts(t: Seq<char>) -> bool {
    t.len() > 0 && !starts_with(t, "total"@)
}

/// The entries that the first `n` lines `ls` of a directory listing describe,
/// without `.` and `..`.
pub open spec fn listing_entries(ls: Seq<Seq<char>>, n: int, parent: Seq<char>) -> Seq<EntryModel>
    decreases n,
{
    if n <= 0 || n > ls.len() {
        seq![]
    } else {
        let rest = listing_entries(ls, n - 1, parent);
        let t = trim(ls[n - 1]);
        if !listing_line_counts(t) {
            rest
        } else {
            match spec_parse_ls_line(t, parent) {
                Some(e) => if e.name == "."@ || e.name == ".."@ {
                    rest
                } else {
                    rest.push(e)
                },
                None => rest,
            }
        }
    }
}

/// A directory listing never yields the `.` and `..` links.
pub proof fn lemma_listing_has_no_dot_links(ls: Seq<Seq<char>>, n: int, parent: Seq<char>)
    ensures
        forall|k: int|
            0 <= k < listing_entries(ls, n, parent).len() ==> (#[trigger] listing_entries(
                ls,
                n,
                parent,
            )[k]).name != "."@ && listing_entries(ls, n, parent)[k].name != ".."@,
    decreases n,
{
    if !(n <= 0 || n > ls.len()) {
        lemma_listing_has_no_dot_links(ls, n - 1, parent);
        let rest = listing_entries(ls, n - 1, parent);
        assert forall|k: int| 0 <= k < listing_entries(ls, n, parent).len() implies (
        #[trigger] listing_entries(ls, n, parent)[k]).name != "."@ && listing_entries(
            ls,
            n,
            parent,
        )[k].name != ".."@ by {
            if k < rest.len() {
                assert(rest[k].name != "."@ && rest[k].name != ".."@);
            }
        }
    }
}

/// Every line of a listing that parses to an entry other than `.` and `..`
/// gives that entry, in line order: the entries of the first `n` lines are
/// those of the first `n - 1` lines, then the entry of line `n` when it has
/// one that is no link.
pub proof fn lemma_listing_keeps_entries(ls: Seq<Seq<char>>, n: int, parent: Seq<char>)
    requires
        1 <= n <= ls.len(),
    ensures
        listing_entries(ls, n, parent).len() <= listing_entries(ls, n - 1, parent).len() + 1,
        forall|k: int|
            0 <= k < listing_entries(ls, n - 1, parent).len() ==> listing_entries(ls, n, parent)[k]
                == #[trigger] listing_entries(ls, n - 1, parent)[k],
        (listing_line_counts(trim(ls[n - 1])) && spec_parse_ls_line(trim(ls[n - 1]), parent)
            is Some && spec_parse_ls_line(trim(ls[n - 1]), parent)->0.name != "."@
            && spec_parse_ls_line(trim(ls[n - 1]), parent)->0.name != ".."@) ==> listing_entries(
            ls,
            n,
            parent,
        ).last() == spec_parse_ls_line(trim(ls[n - 1]), parent)->0 && listing_entries(
            ls,
            n,
            parent,
        ).len() == listing_entries(ls, n - 1, parent).len() + 1,
{
}

/// The first date column, searched from field `j` on, is the one at `i`
/// when no field in between is a date.
proof fn lemma_first_date_column(parts: Seq<Seq<char>>, j: int, i: int)
    requires
        0 <= j <= i < parts.len(),
        forall|k: int| j <= k < i ==> !is_iso_date(#[trigger] parts[k]) && !is_month(parts[k]),
    ensures
        date_columns(parts, j) == date_columns(parts, i),
    decreases i - j,
{
    if j < i {
        lemma_first_date_column(parts, j + 1, i);
    }
}

/// Where the name of a listing line starts: when the first date field from
/// the fourth on is a month name (`Jan 15 10:30`), the name is the third
/// field after it, past the day and the time; when it is an ISO date
/// (`2024-01-15 10:30`), the second, past the time. The size is the field
/// just before the date.
pub proof fn lemma_name_column_after_date(parts: Seq<Seq<char>>, i: int)
    requires
        3 <= i < parts.len(),
        forall|k: int| 3 <= k < i ==> !is_iso_date(#[trigger] parts[k]) && !is_month(parts[k]),
    ensures
        is_month(parts[i]) && !is_iso_date(parts[i]) && i + 3 < parts.len() ==> ls_columns(parts)
            == (i, i + 3),
        is_iso_date(parts[i]) && i + 2 < parts.len() ==> ls_columns(parts) == (i, i + 2),
{
    lemma_first_date_column(parts, 3, i);
}

proof fn lemma_find_from_match(s: Seq<char>, p: Seq<char>, k: int)
    ensures
        find_from(s, p, k) matches Some(j) ==> 0 <= j && j + p.len() <= s.len() && s.subrange(
            j,
            j + p.len(),
        ) == p,
    decreases s.len() + 1 - k,
{
    if !(k < 0 || k + p.len() > s.len()) && s.subrange(k, k + p.len()) != p {
        lemma_find_from_match(s, p, k + 1);
    }
}

proof fn lemma_name_start_match(line: Seq<char>, parts: Seq<Seq<char>>, i: int, cur: int, idx: int)
    ensures
        name_start(line, parts, i, cur, idx) > 0 ==> {
            let r = name_start(line, parts, i, cur, idx);
            &&& 0 <= idx < parts.len()
            &&& r + parts[idx].len() <= line.len()
            &&& line.subrange(r, r + parts[idx].len()) == parts[idx]
        },
    decreases parts.len() - i,
{
    if !(i < 0 || i >= parts.len()) {
        lemma_find_from_match(line, parts[i], cur);
        match find_from(line, parts[i], cur) {
            Some(pos) => if i != idx {
                lemma_name_start_match(line, parts, i + 1, pos + parts[i].len(), idx);
            },
            None => lemma_name_start_match(line, parts, i + 1, cur, idx),
        }
    }
}

proof fn lemma_join_starts_with_first(q: Seq<Seq<char>>, sep: Seq<char>)
    requires
        q.len() >= 1,
    ensures
        q[0].len() <= join_with(q, sep).len(),
        join_with(q, sep).take(q[0].len() as int) == q[0],
    decreases q.len(),
{
    if q.len() > 1 {
        lemma_join_starts_with_first(q.drop_last(), sep);
        let a = join_with(q.drop_last(), sep);
        assert((a + sep + q.last()).take(q[0].len() as int) =~= a.take(q[0].len() as int));
    }
}

/// The name of an entry parsed from a listing line begins with the field of
/// the name column: for a month-day-time date (`Jan 15 10:30 photo.jpg`)
/// the field three after the month, for an ISO date (`2024-01-15 10:30
/// photo.jpg`) the field two after it; the size is the field before the
/// date, and the path is the name under the parent.
pub proof fn lemma_parsed_name_after_date(line: Seq<char>, parent: Seq<char>, i: int)
    requires
        spec_parse_ls_line(line, parent) is Some,
        3 <= i < ws_tokens(line).len(),
        forall|k: int|
            3 <= k < i ==> !is_iso_date(#[trigger] ws_tokens(line)[k]) && !is_month(
                ws_tokens(line)[k],
            ),
    ensures
        ({
            let parts = ws_tokens(line);
            let e = spec_parse_ls_line(line, parent)->0;
            let n = if is_iso_date(parts[i]) {
                i + 2
            } else {
                i + 3
            };
            (is_iso_date(parts[i]) || is_month(parts[i])) && n < parts.len() ==> {
                &&& parts[n].len() <= e.name.len()
                &&& e.name.take(parts[n].len() as int) == parts[n]
                &&& e.path == child_path(parent, e.name)
                &&& e.size == match parse_unsigned(parts[i - 1], 10, u64::MAX as int) {
                    Some(v) => v as u64,
                    None => 0,
                }
            }
        }),
{
    let parts = ws_tokens(line);
    lemma_name_column_after_date(parts, i);
    let (d, n) = ls_columns(parts);
    if (is_iso_date(parts[i]) || is_month(parts[i])) && (if is_iso_date(parts[i]) {
        i + 2
    } else {
        i + 3
    }) < parts.len() {
        let start = name_start(line, parts, 0, 0, n);
        lemma_name_start_match(line, parts, 0, 0, n);
        if start > 0 {
            assert(line.skip(start).take(parts[n].len() as int) =~= line.subrange(
                start,
                start + parts[n].len(),
            ));
        } else {
            lemma_join_starts_with_first(parts.skip(n), " "@);
        }
    }
}

pub open spec fn entry_models(v: Seq<RemoteEntry>) -> Seq<EntryModel> {
    v.map_values(|e: RemoteEntry| e@)
}

/// `remote_path` with exactly one trailing slash added when it has none.
pub open spec fn with_trailing_slash(p: Seq<char>) -> Seq<char> {
    if ends_with(p, "/"@) {
        p
    } else {
        p + "/"@
    }
}

/// `"/"@` is the one-character slash.
pub proof fn lemma_slash_literal()
    ensures
        "/"@ == seq!['/'],
{
    reveal_strlit("/");
    assert("/"@ =~= seq!['/']);
}

/// Whether `v` ends with a slash, as `ends_with(v, "/")` states it.
pub fn ends_with_slash(v: &Vec<char>) -> (b: bool)
    ensures
        b == ends_with(v@, "/"@),
{
    proof {
        lemma_slash_literal();
    }
    let b = v.len() > 0 && v[v.len() - 1] == '/';
    proof {
        if v@.len() > 0 {
            let t = v@.skip(v@.len() - 1);
            assert(t =~= seq![v@[v@.len() - 1]]);
            if !b {
                assert(t[0] != "/"@[0]);
            }
        }
    }
    b
}

/// `str::splitn(n + 1, c)`: the first `n` pieces separated by `c` (fewer
/// when there are fewer separators) and the text after the `n`-th separator.
pub open spec fn splitn_from(s: Seq<char>, i: int, c: char, n: int) -> (Seq<Seq<char>>, Seq<char>)
    decreases n,
{
    if i < 0 || i > s.len() {
        (seq![], seq![])
    } else if n <= 0 {
        (seq![], s.subrange(i, s.len() as int))
    } else {
        let j = crate::text::scan(s, i, crate::text::Stop::Char(c));
        if j >= s.len() || j < i {
            (seq![], s.subrange(i, s.len() as int))
        } else {
            let (ps, rest) = splitn_from(s, j + 1, c, n - 1);
            (seq![s.subrange(i, j)] + ps, rest)
        }
    }
}

fn split_first_n(v: &Vec<char>, c: char, n: usize) -> (r: (Vec<Vec<char>>, Vec<char>))
    ensures
        (views(r.0@), r.1@) == splitn_from(v@, 0, c, n as int),
        r.0@.len() <= n,
{
    let mut ps: Vec<Vec<char>> = Vec::new();
    let mut i: usize = 0;
    let mut k: usize = 0;
    while k < n
        invariant
            i <= v@.len(),
            k <= n,
            ps@.len() == k,
            ({
                let (a, b) = splitn_from(v@, i as int, c, (n - k) as int);
                (views(ps@) + a, b) == splitn_from(v@, 0, c, n as int)
            }),
        decreases n - k,
    {
        let j = crate::text::scan_exec(v, i, crate::text::Stop::Char(c));
        if j >= v.len() {
            let rest = slice_vec(v, i, v.len());
            assert(views(ps@) + seq![] =~= views(ps@));
            return (ps, rest);
        }
        let ghost old_ps = ps@;
        ps.push(slice_vec(v, i, j));
        proof {
            let (a, b) = splitn_from(v@, j + 1, c, (n - k - 1) as int);
            assert(views(ps@) =~= views(old_ps).push(v@.subrange(i as int, j as int)));
            assert(views(ps@) + a =~= views(old_ps) + (seq![v@.subrange(i as int, j as int)] + a));
        }
        i = j + 1;
        k = k + 1;
    }
    let rest = slice_vec(v, i, v.len());
    assert(views(ps@) + seq![] =~= views(ps@));
    (ps, rest)
}

/// The last normal component of a `/`-separated path among its first `k`
/// pieces (`Path::file_name`): empty and `.` pieces are skipped, `..` has none.
pub open spec fn last_normal(pieces: Seq<Seq<char>>, k: int) -> Option<Seq<char>>
    decreases k,
{
    if k <= 0 || k > pieces.len() {
        None
    } else if pieces[k - 1].len() == 0 || pieces[k - 1] == "."@ {
        last_normal(pieces, k - 1)
    } else if pieces[k - 1] == ".."@ {
        None
    } else {
        Some(pieces[k - 1])
    }
}

/// `Path::file_name` of a Unix path.
pub open spec fn path_file_name(p: Seq<char>) -> Option<Seq<char>> {
    last_normal(split_char(p, '/'), split_char(p, '/').len() as int)
}

fn path_file_name_exec(p: &Vec<char>) -> (r: Option<Vec<char>>)
    ensures
        match r {
            Some(n) => path_file_name(p@) == Some(n@),
            None => path_file_name(p@) is None,
        },
{
    let pieces = split_char_vec(p, '/');
    let ghost pv = views(pieces@);
    let mut k = pieces.len();
    while k > 0
        invariant
            k <= pieces@.len(),
            pv == views(pieces@),
            pv == split_char(p@, '/'),
            path_file_name(p@) == last_normal(pv, k as int),
        decreases k,
    {
        let q = &pieces[k - 1];
        assert(pv[k - 1] == q@);
        if q.len() == 0 || eq_str(q, ".") {
            k = k - 1;
        } else if eq_str(q, "..") {
            return None;
        } else {
            return Some(slice_vec(q, 0, q.len()));
        }
    }
    None
}

/// The entry that `stat -c '%F|%s|%Y|%n'` output describes for `path`.
pub open spec fn spec_parse_stat(output: Seq<char>, path: Seq<char>) -> Option<EntryModel> {
    let (ps, tail) = splitn_from(trim(output), 0, '|', 3);
    if ps.len() < 3 {
        None
    } else {
        Some(
            EntryModel {
                name: match path_file_name(tail) {
                    Some(n) => n,
                    None => tail,
                },
                path,
                is_dir: contains_text(ps[0], "directory"@),
                size: match parse_unsigned(ps[1], 10, u64::MAX as int) {
                    Some(n) => n as u64,
                    None => 0,
                },
                mtime: match parse_unsigned(ps[2], 10, u64::MAX as int) {
                    Some(n) => n as u64,
                    None => 0,
                },
            },
        )
    }
}

/// Mathematical model of a [`DeviceInfo`].
pub struct DeviceModel {
    pub serial: Seq<char>,
    pub state: Seq<char>,
    pub model: Seq<char>,
    pub transport: Seq<char>,
}

impl View for DeviceInfo {
    type V = DeviceModel;

    open spec fn view(&self) -> DeviceModel {
        DeviceModel {
            serial: self.serial@,
            state: self.state@,
            model: self.model@,
            transport: self.transport@,
        }
    }
}

pub open spec fn device_models(v: Seq<DeviceInfo>) -> Seq<DeviceModel> {
    v.map_values(|d: DeviceInfo| d@)
}

/// `str::trim_start_matches(p)`: every leading repetition of `p` removed.
pub open spec fn strip_all_prefix(s: Seq<char>, p: Seq<char>) -> Seq<char>
    decreases s.len(),
{
    if p.len() > 0 && starts_with(s, p) {
        strip_all_prefix(s.skip(p.len() as int), p)
    } else {
        s
    }
}

pub(crate) fn strip_all_prefix_exec(v: &Vec<char>, p: &Vec<char>) -> (r: Vec<char>)
    ensures
        r@ == strip_all_prefix(v@, p@),
{
    let mut i: usize = 0;
    let n = v.len();
    assert(v@.skip(0) =~= v@);
    while p.len() > 0 && crate::text::occurs_at_exec(v, p, i)
        invariant
            i <= v@.len(),
            v@.len() == n,
            strip_all_prefix(v@, p@) == strip_all_prefix(v@.skip(i as int), p@),
        decreases v@.len() - i,
    {
        proof {
            let t = v@.skip(i as int);
            assert(t.take(p@.len() as int) =~= v@.subrange(i as int, i + p@.len()));
            assert(t.skip(p@.len() as int) =~= v@.skip(i + p@.len()));
        }
        i = i + p.len();
    }
    proof {
        let t = v@.skip(i as int);
        if p@.len() > 0 && p@.len() <= t.len() {
            assert(t.take(p@.len() as int) =~= v@.subrange(i as int, i + p@.len()));
        }
    }
    slice_vec(v, i, v.len())
}

/// The first field at or after index `k` that starts with `model:`.
pub open spec fn model_field(parts: Seq<Seq<char>>, k: int) -> Option<Seq<char>>
    decreases parts.len() - k,
{
    if k < 0 || k >= parts.len() {
        None
    } else if starts_with(parts[k], "model:"@) {
        Some(parts[k])
    } else {
        model_field(parts, k + 1)
    }
}

/// The device that one line of `adb devices -l` output describes, if any.
pub open spec fn spec_device_line(l: Seq<char>) -> Option<DeviceModel> {
    let t = trim(l);
    let parts = ws_tokens(t);
    if t.len() == 0 || parts.len() < 2 {
        None
    } else {
        Some(
            DeviceModel {
                serial: parts[0],
                state: parts[1],
                model: match model_field(parts, 0) {
                    Some(f) => strip_all_prefix(f, "model:"@),
                    None => "Unknown"@,
                },
                transport: if has_char(parts[0], ':') {
                    "wifi"@
                } else {
                    "usb"@
                },
            },
        )
    }
}

/// The devices that lines `1..n` of `adb devices -l` output list (line 0 is the header).
pub open spec fn devices_listed(ls: Seq<Seq<char>>, n: int) -> Seq<DeviceModel>
    decreases n,
{
    if n <= 1 || n > ls.len() {
        seq![]
    } else {
        match spec_device_line(ls[n - 1]) {
            Some(d) => devices_listed(ls, n - 1).push(d),
            None => devices_listed(ls, n - 1),
        }
    }
}

fn model_field_exec(parts: &Vec<Vec<char>>) -> (r: Option<Vec<char>>)
    ensures
        match r {
            Some(m) => model_field(views(parts@), 0) matches Some(f) && m@ == strip_all_prefix(
                f,
                "model:"@,
            ),
            None => model_field(views(parts@), 0) is None,
        },
{
    let ghost pv = views(parts@);
    let mut k: usize = 0;
    while k < parts.len()
        invariant
            k <= parts@.len(),
            pv == views(parts@),
            model_field(pv, 0) == model_field(pv, k as int),
        decreases parts@.len() - k,
    {
        assert(pv[k as int] == parts@[k as int]@);
        if starts_with_str(&parts[k], "model:") {
            return Some(strip_all_prefix_exec(&parts[k], &chars_of("model:")));
        }
        k = k + 1;
    }
    None
}

fn device_line_exec(l: &Vec<char>) -> (r: Option<DeviceInfo>)
    ensures
        match r {
            Some(d) => spec_device_line(l@) == Some(d@),
            None => spec_device_line(l@) is None,
        },
{
    let t = trim_vec(l);
    let parts = split_ws_vec(&t);
    let ghost pv = views(parts@);
    if t.len() == 0 || parts.len() < 2 {
        return None;
    }
    assert(pv[0] == parts@[0]@);
    assert(pv[1] == parts@[1]@);
    let model = model_field_exec(&parts);
    let model_s = match model {
        Some(m) => string_of(&m),
        None => owned("Unknown"),
    };
    assert(model_s@ == match model_field(pv, 0) {
        Some(f) => strip_all_prefix(f, "model:"@),
        None => "Unknown"@,
    });
    let transport = if has_char_exec(&parts[0], ':') {
        owned("wifi")
    } else {
        owned("usb")
    };
    Some(
        DeviceInfo {
            serial: string_of(&parts[0]),
            state: string_of(&parts[1]),
            model: model_s,
            transport,
        },
    )
}

/// How a device is shown to the user: transport icon, model, serial and transport.
pub open spec fn device_label(d: DeviceInfo) -> Seq<char> {
    (if d.transport@ == "wifi"@ {
        "📶"@
    } else {
        "🔌"@
    }) + " "@ + d.model@ + " ["@ + d.serial@ + "] ("@ + d.transport@ + ")"@
}

impl DeviceInfo {
    /// How the device is shown to the user.
    pub fn label(&self) -> (s: String)
        ensures
            s@ == device_label(*self),
    {
        let mut v = if crate::text::eq_str(&chars_of(self.transport.as_str()), "wifi") {
            chars_of("📶")
        } else {
            chars_of("🔌")
        };
        append_vec(&mut v, &chars_of(" "));
        append_vec(&mut v, &chars_of(self.model.as_str()));
        append_vec(&mut v, &chars_of(" ["));
        append_vec(&mut v, &chars_of(self.serial.as_str()));
        append_vec(&mut v, &chars_of("] ("));
        append_vec(&mut v, &chars_of(self.transport.as_str()));
        append_vec(&mut v, &chars_of(")"));
        string_of(&v)
    }
}

impl AdbClient {
    /// The devices that `adb devices -l` printed, whatever their state, so that
    /// the user sees every connected device.
    pub fn list_devices(output: &str) -> (r: Vec<DeviceInfo>)
        ensures
            device_models(r@) == devices_listed(lines(output@), lines(output@).len() as int),
    {
        let v = chars_of(output);
        let ls = lines_vec(&v);
        let ghost lsv = views(ls@);
        let mut r: Vec<DeviceInfo> = Vec::new();
        let mut i: usize = 1;
        while i < ls.len()
            invariant
                1 <= i,
                lsv == views(ls@),
                lsv == lines(output@),
                i <= ls@.len() || ls@.len() == 0,
                device_models(r@) == devices_listed(lsv, i as int),
            decreases ls@.len() - i,
        {
            assert(lsv[i as int] == ls@[i as int]@);
            let ghost before = r@;
            match device_line_exec(&ls[i]) {
                Some(d) => {
                    r.push(d);
                    assert(device_models(r@) =~= device_models(before).push(d@));
                },
                None => {},
            }
            i = i + 1;
        }
        proof {
            if ls@.len() <= 1 {
                assert(devices_listed(lsv, lsv.len() as int) =~= seq![]);
                assert(device_models(r@) =~= seq![]);
            }
        }
        r
    }

    /// The shell command that lists `remote_path` (with a trailing slash, so
    /// that symlinks such as `/sdcard` list their contents).
    pub fn list_dir_command(remote_path: &str) -> (cmd: String)
        ensures
            cmd@ == "ls -la '"@ + with_trailing_slash(remote_path@) + "' 2>/dev/null | tail -n +2"@,
    {
        let p = chars_of(remote_path);
        let mut c = chars_of("ls -la '");
        append_vec(&mut c, &p);
        if !ends_with_slash(&p) {
            c.push('/');
            proof {
                lemma_slash_literal();
            }
        }
        append_vec(&mut c, &chars_of("' 2>/dev/null | tail -n +2"));
        assert(c@ =~= "ls -la '"@ + with_trailing_slash(remote_path@) + "' 2>/dev/null | tail -n +2"@);
        string_of(&c)
    }

    /// The entries of a directory listing that `ls -la` printed for `remote_path`.
    pub fn list_dir(remote_path: &str, listing: &str) -> (r: Vec<RemoteEntry>)
        ensures
            entry_models(r@) == listing_entries(
                lines(listing@),
                lines(listing@).len() as int,
                remote_path@,
            ),
    {
        let v = chars_of(listing);
        let ls = lines_vec(&v);
        let ghost lsv = views(ls@);
        let mut r: Vec<RemoteEntry> = Vec::new();
        let mut i: usize = 0;
        while i < ls.len()
            invariant
                i <= ls@.len(),
                lsv == views(ls@),
                lsv == lines(listing@),
                entry_models(r@) == listing_entries(lsv, i as int, remote_path@),
            decreases ls@.len() - i,
        {
            assert(lsv[i as int] == ls@[i as int]@);
            let t = trim_vec(&ls[i]);
            let ghost before = r@;
            if t.len() > 0 && !starts_with_str(&t, "total") {
                let ts = string_of(&t);
                match parse_ls_line(ts.as_str(), remote_path) {
                    Some(e) => {
                        let nv = chars_of(e.name.as_str());
                        if !eq_str(&nv, ".") && !eq_str(&nv, "..") {
                            r.push(e);
                            assert(entry_models(r@) =~= entry_models(before).push(e@));
                        }
                    },
                    None => {},
                }
            }
            i = i + 1;
        }
        r
    }

    /// The error that a failed `adb pull` of `remote_path` reports, from its
    /// standard error: a permission denial, a missing file, or a failed transfer.
    pub fn pull_failure(remote_path: &str, stderr: &str) -> (e: AppError)
        ensures
            contains_text(stderr@, "Permission denied"@) ==> (e matches AppError::Permission {
                path,
            } && path@ == remote_path@),
            !contains_text(stderr@, "Permission denied"@) && (contains_text(
                stderr@,
                "does not exist"@,
            ) || contains_text(stderr@, "No such file"@)) ==> (e matches AppError::NotFound {
                path,
            } && path@ == remote_path@),
            !contains_text(stderr@, "Permission denied"@) && !contains_text(
                stderr@,
                "does not exist"@,
            ) && !contains_text(stderr@, "No such file"@) ==> (e matches AppError::Transfer {
                path,
                reason,
            } && path@ == remote_path@ && reason@ == stderr@),
    {
        let v = chars_of(stderr);
        if crate::text::contains_str(&v, "Permission denied") {
            return AppError::Permission { path: owned(remote_path) };
        }
        if crate::text::contains_str(&v, "does not exist") || crate::text::contains_str(
            &v,
            "No such file",
        ) {
            return AppError::NotFound { path: owned(remote_path) };
        }
        AppError::Transfer { path: owned(remote_path), reason: owned(stderr) }
    }

    /// The error that a failed `adb push` reports, from its standard error:
    /// a permission denial on the device path, or a failed transfer of the local file.
    pub fn push_failure(local_path: &str, remote_path: &str, stderr: &str) -> (e: AppError)
        ensures
            contains_text(stderr@, "Permission denied"@) ==> (e matches AppError::Permission {
                path,
            } && path@ == remote_path@),
            !contains_text(stderr@, "Permission denied"@) ==> (e matches AppError::Transfer {
                path,
                reason,
            } && path@ == local_path@ && reason@ == stderr@),
    {
        if crate::text::contains_str(&chars_of(stderr), "Permission denied") {
            return AppError::Permission { path: owned(remote_path) };
        }
        AppError::Transfer { path: owned(local_path), reason: owned(stderr) }
    }

    /// The shell command that deletes `remote_path` recursively on the device.
    pub fn rm_command(remote_path: &str) -> (cmd: String)
        ensures
            cmd@ == "rm -rf '"@ + remote_path@ + "'"@,
    {
        let mut c = chars_of("rm -rf '");
        append_vec(&mut c, &chars_of(remote_path));
        append_vec(&mut c, &chars_of("'"));
        string_of(&c)
    }

    /// The outcome of deleting a remote path, from the device's answer to
    /// [`AdbClient::rm_command`]: the command's failure is the deletion's
    /// failure, and its output is discarded.
    pub fn rm_remote(answer: AppResult<String>) -> (r: AppResult<()>)
        ensures
            match answer {
                Ok(_) => r is Ok,
                Err(e) => r == Err::<(), AppError>(e),
            },
    {
        match answer {
            Ok(_) => Ok(()),
            Err(e) => Err(e),
        }
    }

    /// The shell command that prints `type|size|mtime|name` for `remote_path`.
    pub fn stat_command(remote_path: &str) -> (cmd: String)
        ensures
            cmd@ == "stat -c '%F|%s|%Y|%n' '"@ + remote_path@ + "' 2>/dev/null"@,
    {
        let mut c = chars_of("stat -c '%F|%s|%Y|%n' '");
        append_vec(&mut c, &chars_of(remote_path));
        append_vec(&mut c, &chars_of("' 2>/dev/null"));
        string_of(&c)
    }

    /// The entry that `stat -c '%F|%s|%Y|%n'` printed for `remote_path`.
    pub fn stat(remote_path: &str, output: &str) -> (r: AppResult<RemoteEntry>)
        ensures
            match spec_parse_stat(output@, remote_path@) {
                Some(m) => r matches Ok(e) && e@ == m,
                None => r matches Err(AppError::NotFound { path }) && path@ == remote_path@,
            },
    {
        let t = trim_vec(&chars_of(output));
        let first = split_first_n(&t, '|', 3);
        if first.0.len() < 3 {
            return Err(AppError::NotFound { path: owned(remote_path) });
        }
        let pieces = first.0;
        let tail = first.1;
        assert(views(pieces@)[0] == pieces@[0]@);
        assert(views(pieces@)[1] == pieces@[1]@);
        assert(views(pieces@)[2] == pieces@[2]@);
        let is_dir = contains_str(&pieces[0], "directory");
        let size = match parse_unsigned_exec(&pieces[1], 10, u64::MAX) {
            Some(n) => n,
            None => 0,
        };
        let mtime = match parse_unsigned_exec(&pieces[2], 10, u64::MAX) {
            Some(n) => n,
            None => 0,
        };
        let name = match path_file_name_exec(&tail) {
            Some(n) => n,
            None => tail,
        };
        Ok(RemoteEntry { name: string_of(&name), path: owned(remote_path), is_dir, size, mtime })
    }

    pub fn new() -> (c: Self)
        ensures
            c.selected_device is None,
    {
        AdbClient { selected_device: None }
    }

    /// Select a specific device for operations.
    pub fn select_device(&mut self, device: DeviceInfo)
        ensures
            final(self).selected_device == Some(device),
    {
        self.selected_device = Some(device);
    }

    /// The serial of the currently selected device.
    pub fn device_serial(&self) -> (r: AppResult<&str>)
        ensures
            match self.selected_device {
                Some(d) => r matches Ok(s) && s@ == d.serial@,
                None => r matches Err(e) && e == AppError::NoDevice,
            },
    {
        match &self.selected_device {
            Some(d) => Ok(d.serial.as_str()),
            None => Err(AppError::NoDevice),
        }
    }
}

/// The device that a non-interactive run works with: the only one
/// connected; otherwise how many are connected (none, or more than one).
pub fn sole_device(devices: Vec<DeviceInfo>) -> (r: Result<DeviceInfo, usize>)
    ensures
        devices@.len() == 1 ==> r == Ok::<DeviceInfo, usize>(devices@[0]),
        devices@.len() != 1 ==> r == Err::<DeviceInfo, usize>(devices@.len() as usize),
{
    let n = devices.len();
    if n != 1 {
        return Err(n);
    }
    let mut devices = devices;
    let d = devices.remove(0);
    Ok(d)
}

/// The command that asks whether `su` grants root.
pub const SU_CHECK_COMMAND: &'static str = "su -c id";

impl AdbClient {
    /// `cmd` run as root through `su -c`, quoted as one shell word.
    pub fn rooted_command(cmd: &str) -> (r: String)
        ensures
            r@ == "su -c "@ + spec_quote_shell(cmd@),
    {
        let mut c = chars_of("su -c ");
        append_vec(&mut c, &chars_of(quote_shell(cmd).as_str()));
        string_of(&c)
    }

    /// Whether the answer to [`SU_CHECK_COMMAND`] shows root: it reports `uid=0`.
    pub fn su_granted(answer: &AppResult<String>) -> (b: bool)
        ensures
            b == (answer matches Ok(out) && contains_text(out@, "uid=0"@)),
    {
        match answer {
            Ok(out) => contains_str(&chars_of(out.as_str()), "uid=0"),
            Err(_) => false,
        }
    }

    /// Whether a directory is listed again as root: when the plain listing
    /// failed or came back empty.
    pub fn needs_rooted_listing(plain: &AppResult<Vec<RemoteEntry>>) -> (b: bool)
        ensures
            b == !(plain matches Ok(v) && v@.len() > 0),
    {
        match plain {
            Ok(v) => v.len() == 0,
            Err(_) => true,
        }
    }

    /// The command that reads the size of a device file as root.
    pub fn rooted_size_command(remote_path: &str) -> (cmd: String)
        ensures
            cmd@ == "su -c "@ + spec_quote_shell("stat -c %s "@ + spec_quote_shell(remote_path@)),
    {
        let mut inner = chars_of("stat -c %s ");
        append_vec(&mut inner, &chars_of(quote_shell(remote_path).as_str()));
        AdbClient::rooted_command(string_of(&inner).as_str())
    }

    /// The size of a device file from the answer to
    /// [`AdbClient::rooted_size_command`]: the decimal number it holds once
    /// trimmed, the failure of the command as it came, or a protocol error
    /// when the answer holds no such number.
    pub fn rooted_size(remote_path: &str, answer: AppResult<String>) -> (r: AppResult<u64>)
        ensures
            match answer {
                Err(e) => r == Err::<u64, AppError>(e),
                Ok(out) => match trimmed_number(out@) {
                    Some(n) => r == Ok::<u64, AppError>(n as u64),
                    None => r matches Err(AppError::Protocol(m)) && m@ == "Could not read size of "@
                        + remote_path@,
                },
            },
    {
        let out = match answer {
            Ok(o) => o,
            Err(e) => {
                return Err(e);
            },
        };
        match trimmed_number_exec(&out) {
            Some(n) => Ok(n),
            None => {
                let mut m = chars_of("Could not read size of ");
                append_vec(&mut m, &chars_of(remote_path));
                Err(AppError::Protocol(string_of(&m)))
            },
        }
    }
}

} // verus!
