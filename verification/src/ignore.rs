//! Keeping the generated cache artifacts ignored: which entries the ignore
//! files must hold, and how missing entries are appended without touching
//! what is already there.

use vstd::prelude::*;

use crate::text::{
    chars_eq, chars_of, lemma_split_concat, lemma_split_single, lemma_trim_end_twice, push_all,
    split_chars, split_on, string_of, texts_of, trim_end, trim_end_char, trim_end_char_chars,
    trim_end_chars, views_of,
};

verus! {

/// The last component of a path that names something: empty pieces are
/// skipped, and so is `.` unless `keep_dot` (in verbatim Windows paths `.`
/// is a component of its own).
pub open spec fn last_named(segs: Seq<Seq<char>>, keep_dot: bool) -> Option<Seq<char>>
    decreases segs.len(),
{
    if segs.len() == 0 {
        None
    } else if segs.last() == Seq::<char>::empty() || (!keep_dot && segs.last() == seq!['.']) {
        last_named(segs.drop_last(), keep_dot)
    } else {
        Some(segs.last())
    }
}

/// An ASCII letter.
pub open spec fn is_drive_letter(c: char) -> bool {
    ('a' <= c && c <= 'z') || ('A' <= c && c <= 'Z')
}

/// A drive letter and a colon.
pub open spec fn has_drive(path: Seq<char>) -> bool {
    path.len() >= 2 && is_drive_letter(path[0]) && path[1] == ':'
}

/// A drive exactly: a drive letter and a colon, alone or followed by `\`.
pub open spec fn exact_drive(path: Seq<char>) -> bool {
    has_drive(path) && (path.len() == 2 || path[2] == '\\')
}

/// A Windows separator: `\`, and `/` too outside verbatim paths.
pub open spec fn win_sep(c: char, verbatim: bool) -> bool {
    c == '\\' || (!verbatim && c == '/')
}

/// The length of the first component of `s`, up to the first separator.
pub open spec fn comp_len(s: Seq<char>, verbatim: bool) -> nat
    decreases s.len(),
{
    if s.len() == 0 || win_sep(s[0], verbatim) {
        0
    } else {
        1 + comp_len(s.skip(1), verbatim)
    }
}

/// What follows the first component of `s` and its separator.
pub open spec fn after_comp(s: Seq<char>, verbatim: bool) -> Seq<char> {
    if comp_len(s, verbatim) < s.len() {
        s.skip(comp_len(s, verbatim) as int + 1)
    } else {
        Seq::empty()
    }
}

/// A character as a prefix is recognized: `/` reads as `\`.
pub open spec fn prefix_char(c: char) -> char {
    if c == '/' {
        '\\'
    } else {
        c
    }
}

/// `p` begins with `lit`, reading `/` as `\`.
pub open spec fn prefix_starts(p: Seq<char>, lit: Seq<char>) -> bool {
    lit.len() <= p.len() && forall|i: int| 0 <= i < lit.len() ==> prefix_char(#[trigger] p[i]) == lit[i]
}

/// The length of the Windows prefix of `p` (0 when there is none) and
/// whether it is verbatim: `\\?\UNC\server\share`, `\\?\C:`, `\\?\name`
/// (verbatim, written with `\` only), `\\.\device`, `\\server\share`
/// (both parts non-empty) or `C:`.
pub open spec fn prefix_info(p: Seq<char>) -> (nat, bool) {
    if prefix_starts(p, seq!['\\', '\\']) {
        if prefix_starts(p, seq!['\\', '\\', '?', '\\']) && !p.take(4).contains('/') {
            if prefix_starts(p, seq!['\\', '\\', '?', '\\', 'U', 'N', 'C', '\\']) {
                let r = p.skip(8);
                let server = comp_len(r, true);
                let share = comp_len(after_comp(r, true), true);
                (
                    8 + server + if share > 0 {
                        1 + share
                    } else {
                        0
                    },
                    true,
                )
            } else if exact_drive(p.skip(4)) {
                (6, true)
            } else {
                (4 + comp_len(p.skip(4), true), true)
            }
        } else if prefix_starts(p, seq!['\\', '\\', '.', '\\']) {
            (4 + comp_len(p.skip(4), false), false)
        } else {
            let r = p.skip(2);
            let server = comp_len(r, false);
            let share = comp_len(after_comp(r, false), false);
            if server > 0 && share > 0 {
                (3 + server + share, false)
            } else {
                (0, false)
            }
        }
    } else if has_drive(p) {
        (2, false)
    } else {
        (0, false)
    }
}

/// The components of a path after its prefix, as `/`-separated text: on
/// Windows the prefix is left out and, outside verbatim paths, `\` reads as
/// `/`; in verbatim paths only `\` separates, so it is the separator there.
pub open spec fn path_rest(path: Seq<char>, windows: bool) -> Seq<char> {
    if windows {
        let (len, verbatim) = prefix_info(path);
        path.skip(len as int).map_values(|c: char| if !verbatim && c == '\\' {
            '/'
        } else {
            c
        })
    } else {
        path
    }
}

/// The separator of `path_rest`.
pub open spec fn rest_sep(path: Seq<char>, windows: bool) -> char {
    if windows && prefix_info(path).1 {
        '\\'
    } else {
        '/'
    }
}

/// `Path::file_name`: the final component of the path when it is a normal
/// one (not `..`, `.`, a root or a prefix alone), on Windows when `windows`
/// is set and with `/` as the only separator otherwise.
pub open spec fn file_name(path: Seq<char>, windows: bool) -> Option<Seq<char>> {
    match last_named(split_on(path_rest(path, windows), rest_sep(path, windows)), windows && prefix_info(path).1) {
        Some(s) => if s == seq!['.', '.'] || s == seq!['.'] {
            None
        } else {
            Some(s)
        },
        None => None,
    }
}

/// The first component of `p` from `start`: its length.
fn comp_len_from(p: &Vec<char>, start: usize, verbatim: bool) -> (r: usize)
    requires
        start <= p.len(),
    ensures
        r == comp_len(p@.skip(start as int), verbatim),
        start + r <= p.len(),
        start + r < p.len() ==> after_comp(p@.skip(start as int), verbatim) == p@.skip(start + r + 1),
        start + r == p.len() ==> after_comp(p@.skip(start as int), verbatim) == Seq::<char>::empty(),
{
    let mut i = start;
    while i < p.len() && !(p[i] == '\\' || (!verbatim && p[i] == '/'))
        invariant
            start <= i <= p.len(),
            comp_len(p@.skip(start as int), verbatim) == (i - start) + comp_len(p@.skip(i as int), verbatim),
        decreases p.len() - i,
    {
        assert(p@.skip(i as int)[0] == p@[i as int]);
        assert(p@.skip(i as int).skip(1) =~= p@.skip(i + 1));
        i = i + 1;
    }
    if i < p.len() {
        assert(p@.skip(i as int)[0] == p@[i as int]);
    } else {
        assert(p@.skip(i as int).len() == 0);
    }
    proof {
        let s = p@.skip(start as int);
        if i < p.len() {
            assert(s.skip(i - start + 1) =~= p@.skip(i + 1));
        }
    }
    i - start
}

/// `p` begins with `lit`, reading `/` as `\`.
fn starts_norm(p: &Vec<char>, lit: &Vec<char>) -> (r: bool)
    ensures
        r == prefix_starts(p@, lit@),
{
    if lit.len() > p.len() {
        return false;
    }
    let mut i: usize = 0;
    while i < lit.len()
        invariant
            lit.len() <= p.len(),
            i <= lit.len(),
            forall|j: int| 0 <= j < i ==> prefix_char(#[trigger] p@[j]) == lit@[j],
        decreases lit.len() - i,
    {
        let c = if p[i] == '/' {
            '\\'
        } else {
            p[i]
        };
        if c != lit[i] {
            return false;
        }
        i = i + 1;
    }
    true
}

/// The character is an ASCII letter.
fn drive_letter(c: char) -> (r: bool)
    ensures
        r == is_drive_letter(c),
{
    ('a' <= c && c <= 'z') || ('A' <= c && c <= 'Z')
}

/// The length of the Windows prefix of `p`, and whether it is verbatim.
fn prefix_of(p: &Vec<char>) -> (r: (usize, bool))
    ensures
        r.0 == prefix_info(p@).0,
        r.1 == prefix_info(p@).1,
        r.0 <= p.len(),
{
    let two = vec!['\\', '\\'];
    let four = vec!['\\', '\\', '?', '\\'];
    let unc = vec!['\\', '\\', '?', '\\', 'U', 'N', 'C', '\\'];
    let device = vec!['\\', '\\', '.', '\\'];
    assert(two@ =~= seq!['\\', '\\']);
    assert(four@ =~= seq!['\\', '\\', '?', '\\']);
    assert(unc@ =~= seq!['\\', '\\', '?', '\\', 'U', 'N', 'C', '\\']);
    assert(device@ =~= seq!['\\', '\\', '.', '\\']);
    if starts_norm(p, &two) {
        let plain4 = p.len() >= 4 && p[0] != '/' && p[1] != '/' && p[2] != '/' && p[3] != '/';
        let verbatim = starts_norm(p, &four) && plain4;
        proof {
            if prefix_starts(p@, seq!['\\', '\\', '?', '\\']) {
                if p@.take(4).contains('/') {
                    let k = choose|k: int| 0 <= k < 4 && p@.take(4)[k] == '/';
                    assert(p@[k] == '/');
                }
                if !plain4 {
                    assert(p@.take(4).contains('/')) by {
                        if p@[0] == '/' {
                            assert(p@.take(4)[0] == '/');
                        } else if p@[1] == '/' {
                            assert(p@.take(4)[1] == '/');
                        } else if p@[2] == '/' {
                            assert(p@.take(4)[2] == '/');
                        } else {
                            assert(p@.take(4)[3] == '/');
                        }
                    }
                }
            }
        }
        if verbatim {
            if starts_norm(p, &unc) {
                let server = comp_len_from(p, 8, true);
                let share = if 8 + server < p.len() {
                    comp_len_from(p, 8 + server + 1, true)
                } else {
                    proof {
                        assert(comp_len(Seq::<char>::empty(), true) == 0);
                    }
                    0
                };
                if share > 0 {
                    (8 + server + 1 + share, true)
                } else {
                    (8 + server, true)
                }
            } else {
                let rest = p.len() - 4;
                let drive = rest >= 2 && drive_letter(p[4]) && p[5] == ':' && (rest == 2 || p[6] == '\\');
                proof {
                    let r = p@.skip(4);
                    if r.len() >= 2 {
                        assert(r[0] == p@[4] && r[1] == p@[5]);
                        if r.len() > 2 {
                            assert(r[2] == p@[6]);
                        }
                    }
                }
                if drive {
                    (6, true)
                } else {
                    let n = comp_len_from(p, 4, true);
                    (4 + n, true)
                }
            }
        } else if starts_norm(p, &device) {
            let n = comp_len_from(p, 4, false);
            (4 + n, false)
        } else {
            let server = comp_len_from(p, 2, false);
            let share = if 2 + server < p.len() {
                comp_len_from(p, 2 + server + 1, false)
            } else {
                proof {
                    assert(comp_len(Seq::<char>::empty(), false) == 0);
                }
                0
            };
            if server > 0 && share > 0 {
                (3 + server + share, false)
            } else {
                (0, false)
            }
        }
    } else {
        let drive = p.len() >= 2 && drive_letter(p[0]) && p[1] == ':';
        if drive {
            (2, false)
        } else {
            (0, false)
        }
    }
}

/// The characters of `path` as `path_rest` reads them, and the separator.
fn path_chars(path: &str, windows: bool) -> (r: (Vec<char>, char))
    ensures
        r.0@ == path_rest(path@, windows),
        r.1 == rest_sep(path@, windows),
{
    let p = chars_of(path);
    if !windows {
        return (p, '/');
    }
    let (start, verbatim) = prefix_of(&p);
    let ghost rest = path@.skip(start as int);
    let ghost f = |c: char| if !verbatim && c == '\\' {
        '/'
    } else {
        c
    };
    let mut r: Vec<char> = Vec::new();
    let mut i: usize = start;
    while i < p.len()
        invariant
            start <= i <= p.len(),
            p@ == path@,
            rest == p@.skip(start as int),
            f == (|c: char| if !verbatim && c == '\\' {
                '/'
            } else {
                c
            }),
            r@ == rest.take(i - start).map_values(f),
        decreases p.len() - i,
    {
        let c = p[i];
        r.push(if !verbatim && c == '\\' {
            '/'
        } else {
            c
        });
        i = i + 1;
        assert(rest.take(i - start) =~= rest.take(i - 1 - start).push(c));
        assert(r@ =~= rest.take(i - start).map_values(f));
    }
    assert(rest.take(p.len() - start) =~= rest);
    let sep = if verbatim {
        '\\'
    } else {
        '/'
    };
    (r, sep)
}

/// `Path::file_name`, on Windows or elsewhere as `windows` says.
pub fn path_file_name(path: &str, windows: bool) -> (r: Option<String>)
    ensures
        r matches Some(s) ==> file_name(path@, windows) == Some(s@),
        r is None ==> file_name(path@, windows) is None,
{
    let (p, sep) = path_chars(path, windows);
    let keep_dot = windows && sep == '\\';
    proof {
        if windows {
            assert(keep_dot == prefix_info(path@).1);
        }
    }
    let segs = split_chars(&p, sep);
    let ghost views = views_of(segs@);
    let mut j = segs.len();
    assert(views.take(j as int) =~= views);
    while j > 0 && (segs[j - 1].len() == 0 || (!keep_dot && segs[j - 1].len() == 1 && segs[j - 1][0] == '.'))
        invariant
            j <= segs.len(),
            views == views_of(segs@),
            last_named(views, keep_dot) == last_named(views.take(j as int), keep_dot),
        decreases j,
    {
        let ghost cur = views.take(j as int);
        assert(cur.drop_last() =~= views.take(j - 1));
        assert(cur.last() == segs@[j - 1]@);
        proof {
            if segs@[j - 1]@.len() == 1 {
                assert(segs@[j - 1]@ =~= seq!['.']);
            } else {
                assert(segs@[j - 1]@ =~= Seq::<char>::empty());
            }
        }
        j = j - 1;
    }
    if j == 0 {
        return None;
    }
    let last = &segs[j - 1];
    let ghost cur = views.take(j as int);
    assert(cur.last() == last@);
    assert(last@ != Seq::<char>::empty());
    assert(!keep_dot ==> last@ != seq!['.']) by {
        if !keep_dot && last@ == seq!['.'] {
            assert(last@.len() == 1 && last@[0] == '.');
        }
    }
    if last.len() == 2 && last[0] == '.' && last[1] == '.' {
        assert(last@ =~= seq!['.', '.']);
        return None;
    }
    if last.len() == 1 && last[0] == '.' {
        assert(last@ =~= seq!['.']);
        return None;
    }
    assert(last@ != seq!['.', '.']) by {
        if last@ == seq!['.', '.'] {
            assert(last@.len() == 2 && last@[0] == '.' && last@[1] == '.');
        }
    }
    assert(last@ != seq!['.']) by {
        if last@ == seq!['.'] {
            assert(last@.len() == 1 && last@[0] == '.');
        }
    }
    Some(string_of(last))
}

/// The entries the ignore files must hold: the cache directory without
/// trailing `/`, and the file name of the cache file (read with Windows
/// separators when `windows` is set); each only when not empty.
pub open spec fn wanted_entries_spec(cache_dir: Seq<char>, cache_file: Seq<char>, windows: bool) -> Seq<
    Seq<char>,
> {
    let dir = trim_end_char(cache_dir, '/');
    let first = if dir.len() > 0 {
        seq![dir]
    } else {
        Seq::empty()
    };
    match file_name(cache_file, windows) {
        Some(name) => if name.len() > 0 {
            first.push(name)
        } else {
            first
        },
        None => first,
    }
}

/// The entries that keep the cache directory and the cache file ignored.
pub fn wanted_entries(cache_dir: &str, cache_file: &str, windows: bool) -> (r: Vec<String>)
    ensures
        texts_of(r@) == wanted_entries_spec(cache_dir@, cache_file@, windows),
{
    let mut entries: Vec<String> = Vec::new();
    let dir_chars = chars_of(cache_dir);
    let dir = trim_end_char_chars(&dir_chars, '/');
    if dir.len() > 0 {
        entries.push(string_of(&dir));
    }
    let ghost first = texts_of(entries@);
    assert(first =~= if dir@.len() > 0 {
        seq![dir@]
    } else {
        Seq::<Seq<char>>::empty()
    });
    match path_file_name(cache_file, windows) {
        Some(name) => {
            if name.unicode_len() > 0 {
                entries.push(name);
                assert(texts_of(entries@) =~= first.push(name@));
            }
        },
        None => {},
    }
    entries
}

/// Some line of `content`, without its trailing whitespace, is `entry`
/// (what `content.lines().any(|line| line.trim_end() == entry)` asks for a
/// non-empty `entry`).
pub open spec fn has_line(content: Seq<char>, entry: Seq<char>) -> bool {
    exists|k: int|
        0 <= k < split_on(content, '\n').len() && trim_end(#[trigger] split_on(content, '\n')[k]) == entry
}

/// The line that stands for `entry` in an ignore file: the entry without
/// trailing whitespace (which ignore files do not match on anyway).
pub open spec fn entry_line(entry: Seq<char>) -> Seq<char> {
    trim_end(entry)
}

/// An entry is written when its line is not empty and holds no line break
/// (a line break would split it into other entries).
pub open spec fn writable(entry: Seq<char>) -> bool {
    entry_line(entry).len() > 0 && !entry_line(entry).contains('\n')
}

/// `content` with the line of `entry` appended, unless the entry is not
/// writable or some line of the content, trimmed at the end, is already that
/// line; a line break is put first when `content` does not end with one.
pub open spec fn append_entry(content: Seq<char>, entry: Seq<char>) -> Seq<char> {
    let e = entry_line(entry);
    if !writable(entry) || has_line(content, e) {
        content
    } else {
        let base = if content.len() > 0 && content.last() != '\n' {
            content.push('\n')
        } else {
            content
        };
        base + e + seq!['\n']
    }
}

/// `content` with each of `entries` appended in turn.
pub open spec fn append_entries(content: Seq<char>, entries: Seq<Seq<char>>) -> Seq<char>
    decreases entries.len(),
{
    if entries.len() == 0 {
        content
    } else {
        append_entry(append_entries(content, entries.drop_last()), entries.last())
    }
}

/// Whether some line of `content`, trimmed at the end, is `entry`.
fn has_line_chars(content: &Vec<char>, entry: &Vec<char>) -> (r: bool)
    ensures
        r == has_line(content@, entry@),
{
    let lines = split_chars(content, '\n');
    let ghost views = views_of(lines@);
    let mut k: usize = 0;
    while k < lines.len()
        invariant
            k <= lines.len(),
            views == views_of(lines@),
            views == split_on(content@, '\n'),
            forall|j: int| 0 <= j < k ==> trim_end(#[trigger] views[j]) != entry@,
        decreases lines.len() - k,
    {
        let t = trim_end_chars(&lines[k]);
        assert(views[k as int] == lines@[k as int]@);
        if chars_eq(&t, entry) {
            return true;
        }
        k = k + 1;
    }
    false
}

/// Whether `v` holds a line break.
fn has_line_break(v: &Vec<char>) -> (r: bool)
    ensures
        r == v@.contains('\n'),
{
    let mut i: usize = 0;
    while i < v.len()
        invariant
            i <= v.len(),
            forall|j: int| 0 <= j < i ==> v@[j] != '\n',
        decreases v.len() - i,
    {
        if v[i] == '\n' {
            assert(v@[i as int] == '\n');
            return true;
        }
        i = i + 1;
    }
    false
}

/// Appends the line of each of `entries` (the entry trimmed at the end) to
/// `content` unless it is empty, holds a line break, or some line of the
/// content (as it stands at that point) is already that line once trimmed
/// at the end; tells whether anything was appended.
pub fn add_missing_entries(content: &str, entries: &Vec<String>) -> (r: (String, bool))
    ensures
        r.0@ == append_entries(content@, texts_of(entries@)),
        r.1 == (r.0@ != content@),
{
    let ghost es = texts_of(entries@);
    let mut c = chars_of(content);
    let mut i: usize = 0;
    assert(es.take(0) =~= Seq::<Seq<char>>::empty());
    while i < entries.len()
        invariant
            i <= entries.len(),
            es == texts_of(entries@),
            c@ == append_entries(content@, es.take(i as int)),
        decreases entries.len() - i,
    {
        let raw = chars_of(entries[i].as_str());
        let e = trim_end_chars(&raw);
        assert(es.take(i + 1).drop_last() =~= es.take(i as int));
        assert(es.take(i + 1).last() == raw@);
        if e.len() > 0 && !has_line_break(&e) && !has_line_chars(&c, &e) {
            if c.len() > 0 && c[c.len() - 1] != '\n' {
                c.push('\n');
            }
            push_all(&mut c, &e);
            c.push('\n');
        }
        i = i + 1;
    }
    assert(es.take(entries.len() as int) =~= es);
    proof {
        lemma_appended_extends(content@, es);
        if c@.len() == content@.len() {
            assert(c@ =~= c@.take(content@.len() as int));
        }
    }
    let changed = c.len() != content.unicode_len();
    (string_of(&c), changed)
}

/// Appending only ever adds text after the content.
proof fn lemma_appended_extends(content: Seq<char>, entries: Seq<Seq<char>>)
    ensures
        content.len() <= append_entries(content, entries).len(),
        append_entries(content, entries).take(content.len() as int) == content,
    decreases entries.len(),
{
    if entries.len() > 0 {
        let mid = append_entries(content, entries.drop_last());
        lemma_appended_extends(content, entries.drop_last());
        let res = append_entry(mid, entries.last());
        if res != mid {
            let base = if mid.len() > 0 && mid.last() != '\n' {
                mid.push('\n')
            } else {
                mid
            };
            assert(res.take(mid.len() as int) =~= mid);
            assert(res.take(content.len() as int) =~= mid.take(content.len() as int));
        }
    }
}


/// An entry that can stand as a line of its own: it holds no line break and
/// does not end in whitespace.
pub open spec fn is_line_entry(entry: Seq<char>) -> bool {
    !entry.contains('\n') && trim_end(entry) == entry
}

/// The line written for a writable entry can stand as a line of its own.
proof fn lemma_entry_line_is_line(entry: Seq<char>)
    requires
        writable(entry),
    ensures
        is_line_entry(entry_line(entry)),
{
    lemma_trim_end_twice(entry);
}

/// A line that is there stays there when an entry is appended.
proof fn lemma_line_kept(content: Seq<char>, entry: Seq<char>, line: Seq<char>)
    requires
        line.len() > 0,
        has_line(content, line),
    ensures
        has_line(append_entry(content, entry), line),
{
    let r = append_entry(content, entry);
    if r != content {
        let segs = split_on(content, '\n');
        let k = choose|k: int| 0 <= k < segs.len() && trim_end(#[trigger] segs[k]) == line;
        let tail = entry_line(entry) + seq!['\n'];
        if content.len() == 0 {
            assert(segs == seq![Seq::<char>::empty()]);
            assert(trim_end(Seq::<char>::empty()) == Seq::<char>::empty());
        } else if content.last() == '\n' {
            let c0 = content.drop_last();
            assert(content =~= c0 + seq!['\n'] + Seq::<char>::empty());
            lemma_split_concat(c0, Seq::<char>::empty(), '\n');
            assert(split_on(Seq::<char>::empty(), '\n') == seq![Seq::<char>::empty()]);
            if k >= split_on(c0, '\n').len() {
                assert(segs[k] == Seq::<char>::empty());
                assert(trim_end(Seq::<char>::empty()) == Seq::<char>::empty());
            }
            assert(r =~= c0 + seq!['\n'] + tail);
            lemma_split_concat(c0, tail, '\n');
            assert(split_on(r, '\n')[k] == segs[k]);
        } else {
            assert(r =~= content + seq!['\n'] + tail);
            lemma_split_concat(content, tail, '\n');
            assert(split_on(r, '\n')[k] == segs[k]);
        }
    }
}

/// The line of a writable entry is a line after the entry is appended.
proof fn lemma_entry_listed(content: Seq<char>, entry: Seq<char>)
    requires
        writable(entry),
    ensures
        has_line(append_entry(content, entry), entry_line(entry)),
{
    let e = entry_line(entry);
    lemma_entry_line_is_line(entry);
    let r = append_entry(content, entry);
    if !has_line(content, e) {
        lemma_split_single(e, '\n');
        let empty = Seq::<char>::empty();
        assert(split_on(empty, '\n') == seq![empty]);
        lemma_split_concat(e, empty, '\n');
        assert(e + seq!['\n'] =~= e + seq!['\n'] + empty);
        let pieces = split_on(e + seq!['\n'], '\n');
        assert(pieces[0] == e);
        if content.len() == 0 {
            assert(r =~= e + seq!['\n']);
            assert(trim_end(split_on(r, '\n')[0]) == e);
        } else {
            let c0 = if content.last() == '\n' {
                content.drop_last()
            } else {
                content
            };
            assert(r =~= c0 + seq!['\n'] + (e + seq!['\n']));
            lemma_split_concat(c0, e + seq!['\n'], '\n');
            let k = split_on(c0, '\n').len() as int;
            assert(split_on(r, '\n')[k] == e);
            assert(trim_end(split_on(r, '\n')[k]) == e);
        }
    }
}

/// Updating an ignore file never changes or reorders what it held: the old
/// content is a prefix of the new one.
pub proof fn law_appending_keeps_content(content: Seq<char>, entries: Seq<Seq<char>>)
    ensures
        content.len() <= append_entries(content, entries).len(),
        append_entries(content, entries).take(content.len() as int) == content,
{
    lemma_appended_extends(content, entries);
}

/// After an update, the line of every writable entry is a line of the file.
pub proof fn law_entries_listed(content: Seq<char>, entries: Seq<Seq<char>>)
    ensures
        forall|k: int|
            0 <= k < entries.len() && writable(#[trigger] entries[k]) ==> has_line(
                append_entries(content, entries),
                entry_line(entries[k]),
            ),
    decreases entries.len(),
{
    if entries.len() > 0 {
        let dl = entries.drop_last();
        law_entries_listed(content, dl);
        let mid = append_entries(content, dl);
        assert forall|k: int|
            0 <= k < entries.len() && writable(#[trigger] entries[k]) implies has_line(
            append_entries(content, entries),
            entry_line(entries[k]),
        ) by {
            if k < dl.len() {
                assert(dl[k] == entries[k]);
                lemma_line_kept(mid, entries.last(), entry_line(entries[k]));
            } else {
                lemma_entry_listed(mid, entries.last());
            }
        }
    }
}

/// Entries whose lines are already there are not appended again.
proof fn lemma_present_unchanged(content: Seq<char>, entries: Seq<Seq<char>>)
    requires
        forall|k: int|
            0 <= k < entries.len() && writable(#[trigger] entries[k]) ==> has_line(
                content,
                entry_line(entries[k]),
            ),
    ensures
        append_entries(content, entries) == content,
    decreases entries.len(),
{
    if entries.len() > 0 {
        let dl = entries.drop_last();
        assert forall|k: int|
            0 <= k < dl.len() && writable(#[trigger] dl[k]) implies has_line(content, entry_line(dl[k])) by {
            assert(dl[k] == entries[k]);
        }
        lemma_present_unchanged(content, dl);
        assert(entries.last() == entries[entries.len() - 1]);
    }
}

/// Updating the ignore files is idempotent: a second update with the same
/// entries changes nothing.
pub proof fn law_appending_idempotent(content: Seq<char>, entries: Seq<Seq<char>>)
    ensures
        append_entries(append_entries(content, entries), entries) == append_entries(content, entries),
{
    law_entries_listed(content, entries);
    lemma_present_unchanged(append_entries(content, entries), entries);
}

/// `content` made ready for appending lines: a line break is added when it
/// is not empty and does not end with one.
pub open spec fn separated(content: Seq<char>) -> Seq<char> {
    if content.len() > 0 && content.last() != '\n' {
        content.push('\n')
    } else {
        content
    }
}

/// Each of `lines` followed by a line break.
pub open spec fn lines_text(lines: Seq<Seq<char>>) -> Seq<char>
    decreases lines.len(),
{
    if lines.len() == 0 {
        Seq::empty()
    } else {
        lines[0] + seq!['\n'] + lines_text(lines.drop_first())
    }
}

/// The lines an update appends: the line of each writable entry that is not
/// already a line of `content`, each once, in the order of `entries`.
pub open spec fn missing_lines(content: Seq<char>, entries: Seq<Seq<char>>) -> Seq<Seq<char>>
    decreases entries.len(),
{
    if entries.len() == 0 {
        Seq::empty()
    } else {
        let m = missing_lines(content, entries.drop_last());
        let e = entry_line(entries.last());
        if writable(entries.last()) && !has_line(content, e) && !m.contains(e) {
            m.push(e)
        } else {
            m
        }
    }
}

/// Some piece of `pieces`, trimmed at the end, is `e`.
pub open spec fn some_line(pieces: Seq<Seq<char>>, e: Seq<char>) -> bool {
    exists|k: int| 0 <= k < pieces.len() && trim_end(#[trigger] pieces[k]) == e
}

/// Every one of `lines` can stand as a non-empty line of its own.
pub open spec fn all_line_entries(lines: Seq<Seq<char>>) -> bool {
    forall|i: int| 0 <= i < lines.len() ==> is_line_entry(#[trigger] lines[i]) && lines[i].len() > 0
}

proof fn lemma_some_line_concat(ps: Seq<Seq<char>>, qs: Seq<Seq<char>>, e: Seq<char>)
    ensures
        some_line(ps + qs, e) == (some_line(ps, e) || some_line(qs, e)),
{
    let all = ps + qs;
    if some_line(all, e) {
        let k = choose|k: int| 0 <= k < all.len() && trim_end(#[trigger] all[k]) == e;
        if k < ps.len() {
            assert(all[k] == ps[k]);
        } else {
            assert(all[k] == qs[k - ps.len()]);
        }
    }
    if some_line(ps, e) {
        let k = choose|k: int| 0 <= k < ps.len() && trim_end(#[trigger] ps[k]) == e;
        assert(all[k] == ps[k]);
    }
    if some_line(qs, e) {
        let k = choose|k: int| 0 <= k < qs.len() && trim_end(#[trigger] qs[k]) == e;
        assert(all[ps.len() + k] == qs[k]);
    }
}

proof fn lemma_some_line_lines(m: Seq<Seq<char>>, e: Seq<char>)
    requires
        all_line_entries(m),
        e.len() > 0,
    ensures
        some_line(m.push(Seq::<char>::empty()), e) == m.contains(e),
{
    let ps = m.push(Seq::<char>::empty());
    assert(trim_end(Seq::<char>::empty()) == Seq::<char>::empty());
    if some_line(ps, e) {
        let k = choose|k: int| 0 <= k < ps.len() && trim_end(#[trigger] ps[k]) == e;
        if k < m.len() {
            assert(ps[k] == m[k]);
            assert(is_line_entry(m[k]));
        }
    }
    if m.contains(e) {
        let k = choose|k: int| 0 <= k < m.len() && m[k] == e;
        assert(ps[k] == m[k]);
        assert(is_line_entry(m[k]));
    }
}

/// The lines split back into themselves, and an empty piece after the last
/// line break.
proof fn lemma_split_lines(m: Seq<Seq<char>>)
    requires
        all_line_entries(m),
    ensures
        split_on(lines_text(m), '\n') == m.push(Seq::<char>::empty()),
    decreases m.len(),
{
    if m.len() == 0 {
        assert(split_on(Seq::<char>::empty(), '\n') == seq![Seq::<char>::empty()]);
        assert(m.push(Seq::<char>::empty()) =~= seq![Seq::<char>::empty()]);
    } else {
        let rest = m.drop_first();
        assert(all_line_entries(rest)) by {
            assert forall|i: int| 0 <= i < rest.len() implies is_line_entry(#[trigger] rest[i]) && rest[i].len() > 0 by {
                assert(rest[i] == m[i + 1]);
            }
        }
        lemma_split_lines(rest);
        assert(is_line_entry(m[0]));
        lemma_split_single(m[0], '\n');
        lemma_split_concat(m[0], lines_text(rest), '\n');
        assert(seq![m[0]] + rest.push(Seq::<char>::empty()) =~= m.push(Seq::<char>::empty()));
    }
}

/// Appending a line at the end of the lines.
proof fn lemma_lines_push(m: Seq<Seq<char>>, e: Seq<char>)
    ensures
        lines_text(m.push(e)) == lines_text(m) + e + seq!['\n'],
    decreases m.len(),
{
    if m.len() == 0 {
        assert(m.push(e).drop_first() =~= Seq::<Seq<char>>::empty());
        assert(lines_text(Seq::<Seq<char>>::empty()) == Seq::<char>::empty());
        assert(m.push(e)[0] == e);
        assert(lines_text(m.push(e)) =~= e + seq!['\n'] + Seq::<char>::empty());
        assert(lines_text(m) + e + seq!['\n'] =~= e + seq!['\n']);
    } else {
        assert(m.push(e).drop_first() =~= m.drop_first().push(e));
        lemma_lines_push(m.drop_first(), e);
        assert(m.push(e)[0] == m[0]);
        assert(lines_text(m.push(e)) =~= lines_text(m) + e + seq!['\n']);
    }
}

/// Lines of `content` with appended lines: those of the content and the
/// appended ones.
proof fn lemma_lines_after(content: Seq<char>, m: Seq<Seq<char>>, e: Seq<char>)
    requires
        all_line_entries(m),
        e.len() > 0,
    ensures
        has_line(separated(content) + lines_text(m), e) == (has_line(content, e) || m.contains(e)),
{
    let empty = Seq::<char>::empty();
    let r = separated(content) + lines_text(m);
    lemma_split_lines(m);
    lemma_some_line_lines(m, e);
    assert(trim_end(empty) == empty);
    assert(split_on(empty, '\n') == seq![empty]);
    assert(!some_line(seq![empty], e)) by {
        if some_line(seq![empty], e) {
            let k = choose|k: int| 0 <= k < 1 && trim_end(#[trigger] seq![empty][k]) == e;
        }
    }
    assert(has_line(content, e) == some_line(split_on(content, '\n'), e));
    assert(has_line(r, e) == some_line(split_on(r, '\n'), e));
    if content.len() == 0 {
        assert(r =~= lines_text(m));
    } else {
        let c0 = if content.last() == '\n' {
            content.drop_last()
        } else {
            content
        };
        assert(r =~= c0 + seq!['\n'] + lines_text(m));
        lemma_split_concat(c0, lines_text(m), '\n');
        lemma_some_line_concat(split_on(c0, '\n'), m.push(empty), e);
        if content.last() == '\n' {
            assert(content =~= c0 + seq!['\n'] + empty);
            lemma_split_concat(c0, empty, '\n');
            lemma_some_line_concat(split_on(c0, '\n'), seq![empty], e);
        }
    }
}

/// The appended lines are non-empty lines of their own, distinct, and not
/// already lines of the content.
proof fn lemma_missing_lines(content: Seq<char>, entries: Seq<Seq<char>>)
    ensures
        all_line_entries(missing_lines(content, entries)),
        missing_lines(content, entries).no_duplicates(),
        forall|i: int|
            0 <= i < missing_lines(content, entries).len() ==> !has_line(
                content,
                #[trigger] missing_lines(content, entries)[i],
            ),
    decreases entries.len(),
{
    if entries.len() > 0 {
        let dl = entries.drop_last();
        lemma_missing_lines(content, dl);
        let m = missing_lines(content, dl);
        let x = entries.last();
        if writable(x) && !has_line(content, entry_line(x)) && !m.contains(entry_line(x)) {
            lemma_entry_line_is_line(x);
            let r = m.push(entry_line(x));
            assert forall|i: int| 0 <= i < r.len() implies is_line_entry(#[trigger] r[i]) && r[i].len() > 0 by {
                if i < m.len() {
                    assert(r[i] == m[i]);
                }
            }
            assert forall|i: int, j: int| 0 <= i < r.len() && 0 <= j < r.len() && i != j implies r[i] != r[j] by {
                if i < m.len() && j < m.len() {
                    assert(r[i] == m[i] && r[j] == m[j]);
                } else if i < m.len() {
                    assert(r[i] == m[i]);
                } else if j < m.len() {
                    assert(r[j] == m[j]);
                }
            }
            assert forall|i: int| 0 <= i < r.len() implies !has_line(content, #[trigger] r[i]) by {
                if i < m.len() {
                    assert(r[i] == m[i]);
                }
            }
        }
    }
}

/// What an update does, in one step: when some lines are missing, the
/// content gets one line break if it does not end with one, then each
/// missing line (the line of each writable entry not yet a line of the
/// content, once, in order) followed by a line break; otherwise the content
/// stays as it is.
pub proof fn law_update_closed_form(content: Seq<char>, entries: Seq<Seq<char>>)
    ensures
        append_entries(content, entries) == if missing_lines(content, entries).len() == 0 {
            content
        } else {
            separated(content) + lines_text(missing_lines(content, entries))
        },
    decreases entries.len(),
{
    if entries.len() > 0 {
        let dl = entries.drop_last();
        law_update_closed_form(content, dl);
        lemma_missing_lines(content, dl);
        let m = missing_lines(content, dl);
        let mid = append_entries(content, dl);
        let x = entries.last();
        let e = entry_line(x);
        if writable(x) {
            lemma_entry_line_is_line(x);
            if m.len() > 0 {
                lemma_lines_after(content, m, e);
            }
            if !(has_line(content, e) || m.contains(e)) {
                lemma_lines_push(m, e);
                if m.len() == 0 {
                    assert(lines_text(m) =~= Seq::<char>::empty());
                    assert(append_entry(mid, x) =~= separated(content) + lines_text(m.push(e)));
                } else {
                    let prev = m.drop_last();
                    assert(m =~= prev.push(m.last()));
                    lemma_lines_push(prev, m.last());
                    let lt = lines_text(m);
                    assert(lt.last() == '\n');
                    assert(mid.last() == '\n');
                    assert(append_entry(mid, x) =~= separated(content) + lines_text(m.push(e)));
                }
            }
        }
    }
}

} // verus!
