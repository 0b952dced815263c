//! Character-level text handling shared by the command-output parsers.
//!
//! Texts are modelled as `Seq<char>`. Executable code works on `Vec<char>`
//! copies of the input and builds `String`s at the end.
use vstd::prelude::*;

verus! {

/// Collects the characters of `s` into a vector.
pub fn chars_of(s: &str) -> (res: Vec<char>)
    ensures
        res@ == s@,
{
    let mut res: Vec<char> = Vec::new();
    for c in it: s.chars()
        invariant
            res@ == it.seq().take(it.index() as int),
    {
        res.push(c);
    }
    res
}

/// Unicode `White_Space` property, as used by `char::is_whitespace`.
pub open spec fn is_ws(c: char) -> bool {
    ||| c == ' '
    ||| ('\u{9}' <= c && c <= '\u{d}')
    ||| c == '\u{85}'
    ||| c == '\u{a0}'
    ||| c == '\u{1680}'
    ||| ('\u{2000}' <= c && c <= '\u{200a}')
    ||| c == '\u{2028}'
    ||| c == '\u{2029}'
    ||| c == '\u{202f}'
    ||| c == '\u{205f}'
    ||| c == '\u{3000}'
}

/// Executable form of [`is_ws`].
pub fn char_is_ws(c: char) -> (b: bool)
    ensures
        b == is_ws(c),
{
    c == ' ' || ('\u{9}' <= c && c <= '\u{d}') || c == '\u{85}' || c == '\u{a0}' || c
        == '\u{1680}' || ('\u{2000}' <= c && c <= '\u{200a}') || c == '\u{2028}' || c
        == '\u{2029}' || c == '\u{202f}' || c == '\u{205f}' || c == '\u{3000}'
}

/// What a forward or backward scan stops at.
#[derive(Clone, Copy, PartialEq, Eq, Structural)]
pub enum Stop {
    Ws,
    NonWs,
    Char(char),
    /// Any character other than the given one.
    Not(char),
}

pub open spec fn stops(p: Stop, c: char) -> bool {
    match p {
        Stop::Ws => is_ws(c),
        Stop::NonWs => !is_ws(c),
        Stop::Char(x) => c == x,
        Stop::Not(x) => c != x,
    }
}

/// The first index `j >= i` whose character stops the scan, or `s.len()`.
pub open spec fn scan(s: Seq<char>, i: int, p: Stop) -> int
    decreases s.len() - i,
{
    if i < 0 || i >= s.len() {
        s.len() as int
    } else if stops(p, s[i]) {
        i
    } else {
        scan(s, i + 1, p)
    }
}

pub proof fn lemma_scan_bounds(s: Seq<char>, i: int, p: Stop)
    requires
        0 <= i <= s.len(),
    ensures
        i <= scan(s, i, p) <= s.len(),
        scan(s, i, p) < s.len() ==> stops(p, s[scan(s, i, p)]),
        forall|k: int| i <= k < scan(s, i, p) ==> !stops(p, #[trigger] s[k]),
    decreases s.len() - i,
{
    if i < s.len() && !stops(p, s[i]) {
        lemma_scan_bounds(s, i + 1, p);
    }
}

/// Index just past the last character before `j` that stops the scan, or 0.
pub open spec fn rscan(s: Seq<char>, j: int, p: Stop) -> int
    decreases j,
{
    if j <= 0 || j > s.len() {
        0
    } else if stops(p, s[j - 1]) {
        j
    } else {
        rscan(s, j - 1, p)
    }
}

pub proof fn lemma_rscan_bounds(s: Seq<char>, j: int, p: Stop)
    requires
        0 <= j <= s.len(),
    ensures
        0 <= rscan(s, j, p) <= j,
        rscan(s, j, p) > 0 ==> stops(p, s[rscan(s, j, p) - 1]),
        forall|k: int| rscan(s, j, p) <= k < j ==> !stops(p, #[trigger] s[k]),
    decreases j,
{
    if j > 0 && !stops(p, s[j - 1]) {
        lemma_rscan_bounds(s, j - 1, p);
    }
}

pub fn scan_exec(v: &Vec<char>, i: usize, p: Stop) -> (j: usize)
    requires
        i <= v@.len(),
    ensures
        j == scan(v@, i as int, p),
        i <= j <= v@.len(),
{
    let mut j = i;
    while j < v.len()
        invariant
            i <= j <= v@.len(),
            scan(v@, i as int, p) == scan(v@, j as int, p),
        decreases v@.len() - j,
    {
        let c = v[j];
        let hit = match p {
            Stop::Ws => char_is_ws(c),
            Stop::NonWs => !char_is_ws(c),
            Stop::Char(x) => c == x,
            Stop::Not(x) => c != x,
        };
        if hit {
            return j;
        }
        j = j + 1;
    }
    j
}

pub fn rscan_exec(v: &Vec<char>, j: usize, p: Stop) -> (k: usize)
    requires
        j <= v@.len(),
    ensures
        k == rscan(v@, j as int, p),
        k <= j,
{
    let mut k = j;
    while k > 0
        invariant
            k <= j <= v@.len(),
            rscan(v@, j as int, p) == rscan(v@, k as int, p),
        decreases k,
    {
        let c = v[k - 1];
        let hit = match p {
            Stop::Ws => char_is_ws(c),
            Stop::NonWs => !char_is_ws(c),
            Stop::Char(x) => c == x,
            Stop::Not(x) => c != x,
        };
        if hit {
            return k;
        }
        k = k - 1;
    }
    k
}

/// Views of a vector of character vectors.
pub open spec fn views(v: Seq<Vec<char>>) -> Seq<Seq<char>> {
    v.map_values(|t: Vec<char>| t@)
}

/// `str::trim_start`.
pub open spec fn trim_start(s: Seq<char>) -> Seq<char> {
    s.subrange(scan(s, 0, Stop::NonWs), s.len() as int)
}

/// `str::trim_end`.
pub open spec fn trim_end(s: Seq<char>) -> Seq<char> {
    s.take(rscan(s, s.len() as int, Stop::NonWs))
}

/// `str::trim`.
pub open spec fn trim(s: Seq<char>) -> Seq<char> {
    trim_end(trim_start(s))
}

pub fn slice_vec(v: &Vec<char>, a: usize, b: usize) -> (r: Vec<char>)
    requires
        a <= b <= v@.len(),
    ensures
        r@ == v@.subrange(a as int, b as int),
{
    let mut r: Vec<char> = Vec::new();
    let mut k = a;
    while k < b
        invariant
            a <= k <= b <= v@.len(),
            r@ == v@.subrange(a as int, k as int),
        decreases b - k,
    {
        r.push(v[k]);
        k = k + 1;
        assert(r@ =~= v@.subrange(a as int, k as int));
    }
    r
}

pub fn trim_vec(v: &Vec<char>) -> (r: Vec<char>)
    ensures
        r@ == trim(v@),
{
    let a = scan_exec(v, 0, Stop::NonWs);
    let t = slice_vec(v, a, v.len());
    let b = rscan_exec(&t, t.len(), Stop::NonWs);
    let r = slice_vec(&t, 0, b);
    assert(r@ =~= trim(v@));
    r
}

/// `str::split_whitespace`, starting at index `i`.
pub open spec fn ws_tokens_from(s: Seq<char>, i: int) -> Seq<Seq<char>>
    decreases s.len() - i,
{
    if i < 0 || i > s.len() {
        seq![]
    } else {
        let a = scan(s, i, Stop::NonWs);
        if a >= s.len() {
            seq![]
        } else {
            let b = scan(s, a, Stop::Ws);
            if b <= i || b > s.len() {
                seq![]
            } else {
                seq![s.subrange(a, b)] + ws_tokens_from(s, b)
            }
        }
    }
}

/// `str::split_whitespace`.
pub open spec fn ws_tokens(s: Seq<char>) -> Seq<Seq<char>> {
    ws_tokens_from(s, 0)
}

pub fn split_ws_vec(v: &Vec<char>) -> (r: Vec<Vec<char>>)
    ensures
        views(r@) == ws_tokens(v@),
{
    let mut r: Vec<Vec<char>> = Vec::new();
    let mut i: usize = 0;
    while i < v.len()
        invariant
            i <= v@.len(),
            views(r@) + ws_tokens_from(v@, i as int) == ws_tokens(v@),
        decreases v@.len() - i,
    {
        let a = scan_exec(v, i, Stop::NonWs);
        if a >= v.len() {
            assert(ws_tokens_from(v@, i as int) =~= seq![]);
            assert(views(r@) =~= views(r@) + ws_tokens_from(v@, i as int));
            return r;
        }
        proof {
            lemma_scan_bounds(v@, i as int, Stop::NonWs);
        }
        let b = scan_exec(v, a, Stop::Ws);
        proof {
            lemma_scan_bounds(v@, a as int, Stop::Ws);
            assert(scan(v@, a as int, Stop::Ws) == scan(v@, a + 1, Stop::Ws));
            lemma_scan_bounds(v@, a + 1, Stop::Ws);
        }
        let t = slice_vec(v, a, b);
        let ghost old_r = r@;
        r.push(t);
        proof {
            assert(views(r@) =~= views(old_r) + seq![t@]);
            assert(ws_tokens_from(v@, i as int) == seq![v@.subrange(a as int, b as int)]
                + ws_tokens_from(v@, b as int));
            assert(views(r@) + ws_tokens_from(v@, b as int) =~= views(old_r) + ws_tokens_from(
                v@,
                i as int,
            ));
        }
        i = b;
    }
    assert(ws_tokens_from(v@, i as int) =~= seq![]) by {
        assert(scan(v@, i as int, Stop::NonWs) == v@.len());
    }
    assert(views(r@) =~= views(r@) + ws_tokens_from(v@, i as int));
    r
}


/// Drops one trailing carriage return, as `str::lines` does before a newline.
pub open spec fn strip_cr(l: Seq<char>) -> Seq<char> {
    if l.len() > 0 && l.last() == '\r' {
        l.drop_last()
    } else {
        l
    }
}

/// `str::lines`, starting at index `i`.
pub open spec fn lines_from(s: Seq<char>, i: int) -> Seq<Seq<char>>
    decreases s.len() - i,
{
    if i < 0 || i >= s.len() {
        seq![]
    } else {
        let j = scan(s, i, Stop::Char('\n'));
        if j >= s.len() || j < i {
            seq![s.subrange(i, s.len() as int)]
        } else {
            seq![strip_cr(s.subrange(i, j))] + lines_from(s, j + 1)
        }
    }
}

/// `str::lines`.
pub open spec fn lines(s: Seq<char>) -> Seq<Seq<char>> {
    lines_from(s, 0)
}

pub fn lines_vec(v: &Vec<char>) -> (r: Vec<Vec<char>>)
    ensures
        views(r@) == lines(v@),
{
    let mut r: Vec<Vec<char>> = Vec::new();
    let mut i: usize = 0;
    while i < v.len()
        invariant
            i <= v@.len(),
            views(r@) + lines_from(v@, i as int) == lines(v@),
        decreases v@.len() - i,
    {
        let j = scan_exec(v, i, Stop::Char('\n'));
        let ghost old_r = r@;
        if j >= v.len() {
            let t = slice_vec(v, i, v.len());
            r.push(t);
            assert(views(r@) =~= views(old_r) + lines_from(v@, i as int));
            return r;
        }
        let mut t = slice_vec(v, i, j);
        if t.len() > 0 && t[t.len() - 1] == '\r' {
            t.pop();
        }
        assert(t@ =~= strip_cr(v@.subrange(i as int, j as int)));
        r.push(t);
        assert(views(r@) + lines_from(v@, j + 1) =~= views(old_r) + lines_from(v@, i as int));
        i = j + 1;
    }
    assert(views(r@) =~= views(r@) + lines_from(v@, i as int));
    r
}

/// `str::split(c)`, starting at index `i`.
pub open spec fn split_from(s: Seq<char>, i: int, c: char) -> Seq<Seq<char>>
    decreases s.len() - i,
{
    if i < 0 || i > s.len() {
        seq![]
    } else {
        let j = scan(s, i, Stop::Char(c));
        if j >= s.len() || j < i {
            seq![s.subrange(i, s.len() as int)]
        } else {
            seq![s.subrange(i, j)] + split_from(s, j + 1, c)
        }
    }
}

/// `str::split(c)`: always at least one piece.
pub open spec fn split_char(s: Seq<char>, c: char) -> Seq<Seq<char>> {
    split_from(s, 0, c)
}

pub fn split_char_vec(v: &Vec<char>, c: char) -> (r: Vec<Vec<char>>)
    ensures
        views(r@) == split_char(v@, c),
{
    let mut r: Vec<Vec<char>> = Vec::new();
    let mut i: usize = 0;
    loop
        invariant
            i <= v@.len(),
            views(r@) + split_from(v@, i as int, c) == split_char(v@, c),
        decreases v@.len() - i,
    {
        let j = scan_exec(v, i, Stop::Char(c));
        let ghost old_r = r@;
        let t = slice_vec(v, i, j);
        r.push(t);
        if j >= v.len() {
            assert(views(r@) =~= views(old_r) + split_from(v@, i as int, c));
            return r;
        }
        assert(views(r@) + split_from(v@, j + 1, c) =~= views(old_r) + split_from(
            v@,
            i as int,
            c,
        ));
        i = j + 1;
    }
}

/// `str::starts_with` for a text prefix.
pub open spec fn starts_with(s: Seq<char>, p: Seq<char>) -> bool {
    p.len() <= s.len() && s.take(p.len() as int) == p
}

/// `str::ends_with` for a text suffix.
pub open spec fn ends_with(s: Seq<char>, p: Seq<char>) -> bool {
    p.len() <= s.len() && s.skip(s.len() - p.len()) == p
}

/// Whether `p` occurs in `s` at index `k`.
pub open spec fn occurs_at(s: Seq<char>, p: Seq<char>, k: int) -> bool {
    0 <= k && k + p.len() <= s.len() && s.subrange(k, k + p.len()) == p
}

pub fn occurs_at_exec(v: &Vec<char>, p: &Vec<char>, k: usize) -> (b: bool)
    ensures
        b == occurs_at(v@, p@, k as int),
{
    if k > v.len() || p.len() > v.len() - k {
        return false;
    }
    let mut i: usize = 0;
    while i < p.len()
        invariant
            k + p@.len() <= v@.len(),
            k <= v@.len(),
            v@.len() <= usize::MAX,
            p@.len() <= v@.len(),
            i <= p@.len(),
            forall|m: int| 0 <= m < i ==> v@[k + m] == p@[m],
        decreases p@.len() - i,
    {
        if v[k + i] != p[i] {
            assert(v@.subrange(k as int, k + p@.len())[i as int] != p@[i as int]);
            return false;
        }
        i = i + 1;
    }
    assert(v@.subrange(k as int, k + p@.len()) =~= p@);
    true
}

pub fn starts_with_exec(v: &Vec<char>, p: &Vec<char>) -> (b: bool)
    ensures
        b == starts_with(v@, p@),
{
    let b = occurs_at_exec(v, p, 0);
    assert(b == starts_with(v@, p@)) by {
        if p@.len() <= v@.len() {
            assert(v@.subrange(0, p@.len() as int) =~= v@.take(p@.len() as int));
        }
    }
    b
}

pub fn ends_with_exec(v: &Vec<char>, p: &Vec<char>) -> (b: bool)
    ensures
        b == ends_with(v@, p@),
{
    if p.len() > v.len() {
        return false;
    }
    let b = occurs_at_exec(v, p, v.len() - p.len());
    assert(v@.subrange(v@.len() - p@.len(), v@.len() as int) =~= v@.skip(v@.len() - p@.len()));
    b
}

/// The first index `j >= k` at which `p` occurs in `s` (`str::find` on `s[k..]`).
pub open spec fn find_from(s: Seq<char>, p: Seq<char>, k: int) -> Option<int>
    decreases s.len() + 1 - k,
{
    if k < 0 || k + p.len() > s.len() {
        None
    } else if s.subrange(k, k + p.len()) == p {
        Some(k)
    } else {
        find_from(s, p, k + 1)
    }
}

pub fn find_from_exec(v: &Vec<char>, p: &Vec<char>, k: usize) -> (r: Option<usize>)
    ensures
        r matches Some(j) ==> find_from(v@, p@, k as int) == Some(j as int) && k <= j && j
            + p@.len() <= v@.len(),
        r is None ==> find_from(v@, p@, k as int) is None,
{
    let mut j = k;
    while j <= v.len() && p.len() <= v.len() - j
        invariant
            k <= j,
            find_from(v@, p@, k as int) == find_from(v@, p@, j as int),
        decreases v@.len() + 1 - j,
    {
        if occurs_at_exec(v, p, j) {
            return Some(j);
        }
        if j == v.len() {
            assert(v@.subrange(j as int, j as int) =~= p@);
            assert(false);
        }
        j = j + 1;
    }
    None
}

/// Whether `p` occurs anywhere in `s` (`str::contains`).
pub open spec fn contains_text(s: Seq<char>, p: Seq<char>) -> bool {
    find_from(s, p, 0) is Some
}

pub fn contains_exec(v: &Vec<char>, p: &Vec<char>) -> (b: bool)
    ensures
        b == contains_text(v@, p@),
{
    find_from_exec(v, p, 0).is_some()
}

/// The piece after the last `c` (`str::rsplit(c).next()`, which always exists).
pub open spec fn last_piece(s: Seq<char>, c: char) -> Seq<char> {
    s.skip(rscan(s, s.len() as int, Stop::Char(c)))
}

pub fn last_piece_vec(v: &Vec<char>, c: char) -> (r: Vec<char>)
    ensures
        r@ == last_piece(v@, c),
{
    let k = rscan_exec(v, v.len(), Stop::Char(c));
    let r = slice_vec(v, k, v.len());
    assert(r@ =~= last_piece(v@, c));
    r
}

/// Whether `c` occurs in `s`.
pub open spec fn has_char(s: Seq<char>, c: char) -> bool {
    scan(s, 0, Stop::Char(c)) < s.len()
}

pub fn has_char_exec(v: &Vec<char>, c: char) -> (b: bool)
    ensures
        b == has_char(v@, c),
{
    scan_exec(v, 0, Stop::Char(c)) < v.len()
}

pub fn vec_eq(a: &Vec<char>, b: &Vec<char>) -> (r: bool)
    ensures
        r == (a@ == b@),
{
    if a.len() != b.len() {
        return false;
    }
    let r = occurs_at_exec(a, b, 0);
    assert(a@.subrange(0, b@.len() as int) =~= a@);
    r
}

/// Appends `c` to `s` (`String::push`).
#[verifier::external_body]
pub fn push_char(s: &mut String, c: char)
    ensures
        final(s)@ == old(s)@.push(c),
{
    s.push(c);
}

pub fn string_of(v: &Vec<char>) -> (r: String)
    ensures
        r@ == v@,
{
    let mut r = String::new();
    let mut i: usize = 0;
    while i < v.len()
        invariant
            i <= v@.len(),
            r@ == v@.take(i as int),
        decreases v@.len() - i,
    {
        push_char(&mut r, v[i]);
        i = i + 1;
        assert(r@ =~= v@.take(i as int));
    }
    assert(v@.take(i as int) =~= v@);
    r
}

pub fn append_vec(a: &mut Vec<char>, b: &Vec<char>)
    ensures
        final(a)@ == old(a)@ + b@,
{
    let mut i: usize = 0;
    while i < b.len()
        invariant
            i <= b@.len(),
            a@ == old(a)@ + b@.take(i as int),
        decreases b@.len() - i,
    {
        a.push(b[i]);
        i = i + 1;
        assert(a@ =~= old(a)@ + b@.take(i as int));
    }
    assert(b@.take(i as int) =~= b@);
}

} // verus!

verus! {

pub fn eq_str(v: &Vec<char>, s: &str) -> (b: bool)
    ensures
        b == (v@ == s@),
{
    let w = chars_of(s);
    vec_eq(v, &w)
}

pub fn starts_with_str(v: &Vec<char>, s: &str) -> (b: bool)
    ensures
        b == starts_with(v@, s@),
{
    let w = chars_of(s);
    starts_with_exec(v, &w)
}

pub fn ends_with_str(v: &Vec<char>, s: &str) -> (b: bool)
    ensures
        b == ends_with(v@, s@),
{
    let w = chars_of(s);
    ends_with_exec(v, &w)
}

pub fn contains_str(v: &Vec<char>, s: &str) -> (b: bool)
    ensures
        b == contains_text(v@, s@),
{
    let w = chars_of(s);
    contains_exec(v, &w)
}

/// An owned copy of a string slice.
pub fn owned(s: &str) -> (r: String)
    ensures
        r@ == s@,
{
    s.to_owned()
}

/// Number of bytes of the UTF-8 encoding of `c`.
pub open spec fn utf8_width(c: char) -> int {
    if (c as u32) < 0x80 {
        1
    } else if (c as u32) < 0x800 {
        2
    } else if (c as u32) < 0x10000 {
        3
    } else {
        4
    }
}

/// Number of bytes of the UTF-8 encoding of `s` (what `str::len` returns).
pub open spec fn utf8_len(s: Seq<char>) -> int
    decreases s.len(),
{
    if s.len() == 0 {
        0
    } else {
        utf8_len(s.drop_last()) + utf8_width(s.last())
    }
}

pub proof fn lemma_utf8_len_ge(s: Seq<char>)
    ensures
        utf8_len(s) >= s.len(),
    decreases s.len(),
{
    if s.len() > 0 {
        lemma_utf8_len_ge(s.drop_last());
    }
}

/// Byte length of the UTF-8 encoding of `v`.
pub fn utf8_len_exec(v: &Vec<char>) -> (n: u128)
    ensures
        n == utf8_len(v@),
{
    let mut n: u128 = 0;
    let mut i: usize = 0;
    while i < v.len()
        invariant
            i <= v@.len(),
            n == utf8_len(v@.take(i as int)),
            n <= 4 * i,
        decreases v@.len() - i,
    {
        let c = v[i] as u32;
        let w: u128 = if c < 0x80 {
            1
        } else if c < 0x800 {
            2
        } else if c < 0x10000 {
            3
        } else {
            4
        };
        assert(v@.take(i + 1).drop_last() =~= v@.take(i as int));
        n = n + w;
        i = i + 1;
    }
    assert(v@.take(i as int) =~= v@);
    n
}

/// Text of `v` in lower case (`str::to_lowercase`).
pub uninterp spec fn lowercase(s: Seq<char>) -> Seq<char>;

/// `str::to_lowercase`: the Unicode lower-case mapping of the text. The result
/// depends on the text alone and is named [`lowercase`]; the mapping tables of
/// the standard library are not restated here.
#[verifier::external_body]
pub fn to_lowercase(s: &str) -> (r: String)
    ensures
        r@ == lowercase(s@),
{
    s.to_lowercase()
}

/// ASCII lower-case mapping of one character (`char::to_ascii_lowercase`).
pub open spec fn ascii_lower(c: char) -> char {
    if 'A' <= c && c <= 'Z' {
        ((c as u32) + 32) as char
    } else {
        c
    }
}

pub fn ascii_lower_exec(c: char) -> (r: char)
    ensures
        r == ascii_lower(c),
{
    if 'A' <= c && c <= 'Z' {
        let table: [char; 26] = [
            'a', 'b', 'c', 'd', 'e', 'f', 'g', 'h', 'i', 'j', 'k', 'l', 'm', 'n', 'o', 'p', 'q',
            'r', 's', 't', 'u', 'v', 'w', 'x', 'y', 'z',
        ];
        let k = (c as u32 - 'A' as u32) as usize;
        let r = table[k];
        assert(r == ascii_lower(c)) by {
            assert(table@[k as int] == r);
        }
        r
    } else {
        c
    }
}

/// `str::eq_ignore_ascii_case`.
pub open spec fn eq_ignore_ascii_case(a: Seq<char>, b: Seq<char>) -> bool {
    a.len() == b.len() && forall|i: int| 0 <= i < a.len() ==> ascii_lower(#[trigger] a[i])
        == ascii_lower(b[i])
}

pub fn eq_ignore_ascii_case_exec(a: &Vec<char>, b: &Vec<char>) -> (r: bool)
    ensures
        r == eq_ignore_ascii_case(a@, b@),
{
    if a.len() != b.len() {
        return false;
    }
    let mut i: usize = 0;
    while i < a.len()
        invariant
            a@.len() == b@.len(),
            i <= a@.len(),
            forall|k: int| 0 <= k < i ==> ascii_lower(#[trigger] a@[k]) == ascii_lower(b@[k]),
        decreases a@.len() - i,
    {
        if ascii_lower_exec(a[i]) != ascii_lower_exec(b[i]) {
            return false;
        }
        i = i + 1;
    }
    true
}

} // verus!

verus! {

/// Lexicographic comparison of texts by character code from index `i`:
/// -1, 0 or 1 (the order of `String`'s `Ord`, since UTF-8 keeps code point order).
pub open spec fn text_order_from(a: Seq<char>, b: Seq<char>, i: int) -> int
    decreases a.len() + b.len() - 2 * i,
{
    if i < 0 {
        0
    } else if i >= a.len() && i >= b.len() {
        0
    } else if i >= a.len() {
        -1
    } else if i >= b.len() {
        1
    } else if (a[i] as u32) < (b[i] as u32) {
        -1
    } else if (a[i] as u32) > (b[i] as u32) {
        1
    } else {
        text_order_from(a, b, i + 1)
    }
}

pub open spec fn text_order(a: Seq<char>, b: Seq<char>) -> int {
    text_order_from(a, b, 0)
}

pub fn text_order_exec(a: &Vec<char>, b: &Vec<char>) -> (r: i8)
    ensures
        r == text_order(a@, b@),
{
    let mut i: usize = 0;
    while i < a.len() || i < b.len()
        invariant
            text_order(a@, b@) == text_order_from(a@, b@, i as int),
        decreases a@.len() + b@.len() - 2 * i,
    {
        if i >= a.len() {
            return -1;
        }
        if i >= b.len() {
            return 1;
        }
        let x = a[i] as u32;
        let y = b[i] as u32;
        if x < y {
            return -1;
        }
        if x > y {
            return 1;
        }
        i = i + 1;
    }
    0
}

} // verus!

verus! {

/// Comparing in the other direction gives the opposite sign.
pub proof fn lemma_text_order_from_flip(a: Seq<char>, b: Seq<char>, i: int)
    ensures
        text_order_from(a, b, i) == -text_order_from(b, a, i),
    decreases a.len() + b.len() - 2 * i,
{
    if i >= 0 && i < a.len() && i < b.len() && (a[i] as u32) == (b[i] as u32) {
        lemma_text_order_from_flip(a, b, i + 1);
    }
}

/// Two texts compare equal from `i` exactly when they agree from `i` on.
pub proof fn lemma_text_order_from_zero(a: Seq<char>, b: Seq<char>, i: int)
    requires
        0 <= i <= a.len(),
        i <= b.len(),
    ensures
        text_order_from(a, b, i) == 0 <==> a.skip(i) == b.skip(i),
    decreases a.len() + b.len() - 2 * i,
{
    if i < a.len() && i < b.len() {
        if (a[i] as u32) == (b[i] as u32) {
            lemma_text_order_from_zero(a, b, i + 1);
            vstd::utf8::char_u32_cast(a[i], a[i] as u32);
            vstd::utf8::char_u32_cast(b[i], b[i] as u32);
            assert(a[i] == b[i]);
            assert(a.skip(i) =~= seq![a[i]] + a.skip(i + 1));
            assert(b.skip(i) =~= seq![b[i]] + b.skip(i + 1));
            if a.skip(i) == b.skip(i) {
                assert(a.skip(i + 1) =~= a.skip(i).skip(1));
                assert(b.skip(i + 1) =~= b.skip(i).skip(1));
            }
            if a.skip(i + 1) == b.skip(i + 1) {
                assert(a.skip(i) =~= b.skip(i));
            }
        } else {
            assert(a.skip(i)[0] == a[i]);
            assert(b.skip(i)[0] == b[i]);
        }
    } else if i < a.len() {
        assert(a.skip(i).len() != b.skip(i).len());
    } else if i < b.len() {
        assert(a.skip(i).len() != b.skip(i).len());
    } else {
        assert(a.skip(i) =~= b.skip(i));
    }
}

/// The text order is transitive.
pub proof fn lemma_text_order_from_trans(a: Seq<char>, b: Seq<char>, c: Seq<char>, i: int)
    requires
        text_order_from(a, b, i) < 0,
        text_order_from(b, c, i) < 0,
    ensures
        text_order_from(a, c, i) < 0,
    decreases a.len() + b.len() + c.len() - 3 * i,
{
    if i >= 0 && i < a.len() && i < b.len() && i < c.len() && (a[i] as u32) == (b[i] as u32)
        && (b[i] as u32) == (c[i] as u32) {
        lemma_text_order_from_trans(a, b, c, i + 1);
    }
}

/// Texts that compare equal are equal.
pub proof fn lemma_text_order_eq(a: Seq<char>, b: Seq<char>)
    ensures
        text_order(a, b) == 0 <==> a == b,
{
    lemma_text_order_from_zero(a, b, 0);
    assert(a.skip(0) =~= a);
    assert(b.skip(0) =~= b);
}

} // verus!

verus! {

/// What `String::from_utf8_lossy` makes of `bytes`.
pub uninterp spec fn lossy_text(bytes: Seq<u8>) -> Seq<char>;

/// `String::from_utf8_lossy`, owned: the text of `bytes`, with each invalid
/// sequence replaced by U+FFFD. Its documentation promises the decoded text
/// for valid UTF-8; for other input the result is named by [`lossy_text`].
#[verifier::external_body]
pub fn utf8_lossy(bytes: &[u8]) -> (s: String)
    ensures
        s@ == lossy_text(bytes@),
        vstd::utf8::valid_utf8(bytes@) ==> s@ == vstd::utf8::decode_utf8(bytes@),
{
    String::from_utf8_lossy(bytes).into_owned()
}

/// `str::trim_end_matches(c)` for one character.
pub open spec fn trim_end_char(s: Seq<char>, c: char) -> Seq<char> {
    s.take(rscan(s, s.len() as int, Stop::Not(c)))
}

/// `str::trim_start_matches(c)` for one character.
pub open spec fn trim_start_char(s: Seq<char>, c: char) -> Seq<char> {
    s.skip(scan(s, 0, Stop::Not(c)))
}

pub fn trim_end_char_vec(v: &Vec<char>, c: char) -> (r: Vec<char>)
    ensures
        r@ == trim_end_char(v@, c),
{
    let k = rscan_exec(v, v.len(), Stop::Not(c));
    slice_vec(v, 0, k)
}

pub fn trim_start_char_vec(v: &Vec<char>, c: char) -> (r: Vec<char>)
    ensures
        r@ == trim_start_char(v@, c),
{
    let k = scan_exec(v, 0, Stop::Not(c));
    slice_vec(v, k, v.len())
}

/// `str::replace(p, "")` for a two-character pattern: every occurrence,
/// found left to right without overlap, removed.
pub open spec fn remove_pair(s: Seq<char>, a: char, b: char) -> Seq<char>
    decreases s.len(),
{
    if s.len() == 0 {
        s
    } else if s.len() >= 2 && s[0] == a && s[1] == b {
        remove_pair(s.skip(2), a, b)
    } else {
        seq![s[0]] + remove_pair(s.skip(1), a, b)
    }
}

pub fn remove_pair_vec(v: &Vec<char>, a: char, b: char) -> (r: Vec<char>)
    ensures
        r@ == remove_pair(v@, a, b),
{
    let mut out: Vec<char> = Vec::new();
    let mut i: usize = 0;
    assert(v@.skip(0) =~= v@);
    assert(out@ + remove_pair(v@.skip(0), a, b) =~= remove_pair(v@, a, b));
    while i < v.len()
        invariant
            i <= v@.len(),
            out@ + remove_pair(v@.skip(i as int), a, b) == remove_pair(v@, a, b),
        decreases v@.len() - i,
    {
        let ghost rest = v@.skip(i as int);
        if i + 1 < v.len() && v[i] == a && v[i + 1] == b {
            assert(rest.skip(2) =~= v@.skip(i + 2));
            assert(rest[0] == v@[i as int] && rest[1] == v@[i + 1]);
            i = i + 2;
        } else {
            assert(rest.skip(1) =~= v@.skip(i + 1));
            assert(rest[0] == v@[i as int]);
            let ghost before = out@;
            out.push(v[i]);
            assert(out@ + remove_pair(v@.skip(i + 1), a, b) =~= before + (seq![v@[i as int]]
                + remove_pair(v@.skip(i + 1), a, b)));
            i = i + 1;
        }
    }
    assert(v@.skip(i as int) =~= Seq::<char>::empty());
    assert(out@ + remove_pair(v@.skip(i as int), a, b) =~= out@);
    out
}

pub proof fn lemma_utf8_len_concat(a: Seq<char>, b: Seq<char>)
    ensures
        utf8_len(a + b) == utf8_len(a) + utf8_len(b),
    decreases b.len(),
{
    if b.len() == 0 {
        assert(a + b =~= a);
    } else {
        lemma_utf8_len_concat(a, b.drop_last());
        assert((a + b).drop_last() =~= a + b.drop_last());
    }
}

fn utf8_width_exec(c: char) -> (w: usize)
    ensures
        w == utf8_width(c),
{
    let u = c as u32;
    if u < 0x80 {
        1
    } else if u < 0x800 {
        2
    } else if u < 0x10000 {
        3
    } else {
        4
    }
}

/// The end of `s` that fits in `max` bytes of UTF-8: its longest suffix of
/// at most `max` bytes, which starts on a character boundary.
pub fn text_tail(s: &str, max: usize) -> (r: String)
    ensures
        exists|k: int|
            0 <= k <= s@.len() && r@ == s@.skip(k) && utf8_len(r@) <= max && (k == 0
                || utf8_len(#[trigger] s@.skip(k - 1)) > max),
{
    let v = chars_of(s);
    let mut k: usize = v.len();
    let mut total: usize = 0;
    assert(v@.skip(k as int) =~= seq![]);
    while k > 0
        invariant_except_break
            k <= v@.len(),
            total == utf8_len(v@.skip(k as int)),
            total <= max,
        ensures
            k <= v@.len(),
            total == utf8_len(v@.skip(k as int)),
            total <= max,
            k == 0 || utf8_len(v@.skip(k - 1)) > max,
        decreases k,
    {
        let w = utf8_width_exec(v[k - 1]);
        proof {
            assert(v@.skip(k - 1) =~= seq![v@[k - 1]] + v@.skip(k as int));
            lemma_utf8_len_concat(seq![v@[k - 1]], v@.skip(k as int));
            assert(seq![v@[k - 1]].drop_last() =~= Seq::<char>::empty());
            assert(utf8_len(Seq::<char>::empty()) == 0);
            assert(utf8_len(seq![v@[k - 1]]) == utf8_width(v@[k - 1]));
        }
        if w > max - total {
            break;
        }
        total = total + w;
        k = k - 1;
    }
    let tail = slice_vec(&v, k, v.len());
    assert(tail@ =~= s@.skip(k as int));
    let r = string_of(&tail);
    assert(k == 0 || utf8_len(s@.skip(k - 1)) > max);
    assert(0 <= k <= s@.len() && r@ == s@.skip(k as int) && utf8_len(r@) <= max);
    r
}

} // verus!
