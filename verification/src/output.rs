//! Rendering of the modlist: placeholder expansion of the format string and
//! the order of the listed projects.

use vstd::prelude::*;

use crate::object::Project;
use crate::text::{
    chars_less, chars_of, decimal, decimal_chars, lemma_less_asymmetric, lemma_less_irreflexive,
    lemma_less_total, lemma_less_transitive, occurs_in, replace_all, replace_chars, seq_less, starts_with,
    string_of, digit_char,
};

verus! {

/// The `{INDEX}` placeholder.
pub open spec fn index_token() -> Seq<char> {
    seq!['{', 'I', 'N', 'D', 'E', 'X', '}']
}

/// The `{TITLE}` placeholder.
pub open spec fn title_token() -> Seq<char> {
    seq!['{', 'T', 'I', 'T', 'L', 'E', '}']
}

/// The `{NAME}` placeholder.
pub open spec fn name_token() -> Seq<char> {
    seq!['{', 'N', 'A', 'M', 'E', '}']
}

/// The `{DESCRIPTION}` placeholder.
pub open spec fn description_token() -> Seq<char> {
    seq!['{', 'D', 'E', 'S', 'C', 'R', 'I', 'P', 'T', 'I', 'O', 'N', '}']
}

/// The `{SUMMARY}` placeholder.
pub open spec fn summary_token() -> Seq<char> {
    seq!['{', 'S', 'U', 'M', 'M', 'A', 'R', 'Y', '}']
}

/// The `{URL}` placeholder.
pub open spec fn url_token() -> Seq<char> {
    seq!['{', 'U', 'R', 'L', '}']
}

/// The `{ID}` placeholder.
pub open spec fn id_token() -> Seq<char> {
    seq!['{', 'I', 'D', '}']
}

/// The `{SLUG}` placeholder.
pub open spec fn slug_token() -> Seq<char> {
    seq!['{', 'S', 'L', 'U', 'G', '}']
}

/// A backslash followed by `n`, as typed in a format on the command line.
pub open spec fn escaped_newline() -> Seq<char> {
    seq!['\\', 'n']
}

/// A line break.
pub open spec fn newline() -> Seq<char> {
    seq!['\n']
}

/// The line for `project` at position `index` of the list: each placeholder
/// of `format` replaced, in this order, by the index, the title (for
/// `{TITLE}` and `{NAME}`), the description (for `{DESCRIPTION}` and
/// `{SUMMARY}`), the page address, the id and the slug; then every literal
/// `\n` turned into a line break.
pub open spec fn display_spec(index: nat, format: Seq<char>, project: Project) -> Seq<char> {
    let s1 = replace_all(format, index_token(), decimal(index));
    let s2 = replace_all(s1, title_token(), project.title_view());
    let s3 = replace_all(s2, name_token(), project.title_view());
    let s4 = replace_all(s3, description_token(), project.description_view());
    let s5 = replace_all(s4, summary_token(), project.description_view());
    let s6 = replace_all(s5, url_token(), project.url_view());
    let s7 = replace_all(s6, id_token(), project.id_view());
    let s8 = replace_all(s7, slug_token(), project.slug_view());
    replace_all(s8, escaped_newline(), newline())
}

/// Expands the placeholders of `format` for one project.
pub fn display_project(index: usize, format: &str, project: &Project) -> (r: String)
    ensures
        r@ == display_spec(index as nat, format@, *project),
{
    let f = chars_of(format);
    let idx = decimal_chars(index as u64);
    let title = chars_of(project.title().as_str());
    let description = chars_of(project.description().as_str());
    let url = chars_of(project.url().as_str());
    let id = chars_of(project.id().as_str());
    let slug = chars_of(project.slug().as_str());

    let t_index = vec!['{', 'I', 'N', 'D', 'E', 'X', '}'];
    let t_title = vec!['{', 'T', 'I', 'T', 'L', 'E', '}'];
    let t_name = vec!['{', 'N', 'A', 'M', 'E', '}'];
    let t_description = vec!['{', 'D', 'E', 'S', 'C', 'R', 'I', 'P', 'T', 'I', 'O', 'N', '}'];
    let t_summary = vec!['{', 'S', 'U', 'M', 'M', 'A', 'R', 'Y', '}'];
    let t_url = vec!['{', 'U', 'R', 'L', '}'];
    let t_id = vec!['{', 'I', 'D', '}'];
    let t_slug = vec!['{', 'S', 'L', 'U', 'G', '}'];
    let t_escape = vec!['\\', 'n'];
    let line_break = vec!['\n'];
    assert(t_index@ =~= index_token());
    assert(t_title@ =~= title_token());
    assert(t_name@ =~= name_token());
    assert(t_description@ =~= description_token());
    assert(t_summary@ =~= summary_token());
    assert(t_url@ =~= url_token());
    assert(t_id@ =~= id_token());
    assert(t_slug@ =~= slug_token());
    assert(t_escape@ =~= escaped_newline());
    assert(line_break@ =~= newline());

    let s1 = replace_chars(&f, &t_index, &idx);
    let s2 = replace_chars(&s1, &t_title, &title);
    let s3 = replace_chars(&s2, &t_name, &title);
    let s4 = replace_chars(&s3, &t_description, &description);
    let s5 = replace_chars(&s4, &t_summary, &description);
    let s6 = replace_chars(&s5, &t_url, &url);
    let s7 = replace_chars(&s6, &t_id, &id);
    let s8 = replace_chars(&s7, &t_slug, &slug);
    let s9 = replace_chars(&s8, &t_escape, &line_break);
    string_of(&s9)
}


/// How the projects of the modlist are ordered.
#[derive(Debug, Clone, Copy, PartialEq, Eq, Structural)]
pub enum SortingMode {
    /// By project name, ignoring case.
    Name,
    /// By project name, ignoring case (same as `Name`).
    Title,
    /// By slug.
    Slug,
    /// By project id, compared as text.
    Id,
}

/// What `str::to_lowercase` returns for `s` (the lower-case mapping of the
/// Unicode tables that ship with Rust's standard library).
pub uninterp spec fn lowercase(s: Seq<char>) -> Seq<char>;

/// `str::to_lowercase`.
///
/// Trusted: the result is the one named by `lowercase`; nothing more is
/// claimed of the mapping itself.
#[verifier::external_body]
fn to_lowercase(s: &str) -> (r: String)
    ensures
        r@ == lowercase(s@),
{
    s.to_lowercase()
}

/// The text by which `project` is ordered under `mode`.
pub open spec fn sort_key(project: Project, mode: SortingMode) -> Seq<char> {
    match mode {
        SortingMode::Name | SortingMode::Title => lowercase(project.title_view()),
        SortingMode::Slug => project.slug_view(),
        SortingMode::Id => project.id_view(),
    }
}

/// The sort keys of all projects.
pub open spec fn sort_keys(projects: Seq<Project>, mode: SortingMode) -> Seq<Seq<char>> {
    projects.map_values(|p: Project| sort_key(p, mode))
}

/// Position `i` comes before position `j` in a stable sort by `keys`: its key
/// is smaller, or the keys are equal and `i` came first.
pub open spec fn key_before(keys: Seq<Seq<char>>, i: int, j: int) -> bool {
    seq_less(keys[i], keys[j]) || (keys[i] == keys[j] && i < j)
}

/// `order` lists the positions of `keys` as a stable sort by key puts them:
/// every position once, smaller keys first, equal keys in their first order.
pub open spec fn stably_sorted(keys: Seq<Seq<char>>, order: Seq<usize>) -> bool {
    &&& order.len() == keys.len()
    &&& forall|k: int| 0 <= k < order.len() ==> #[trigger] order[k] < keys.len()
    &&& forall|j: usize| j < keys.len() ==> #[trigger] order.contains(j)
    &&& forall|a: int, b: int|
        0 <= a < b < order.len() ==> key_before(keys, #[trigger] order[a] as int, #[trigger] order[b] as int)
}

/// `order` lists each position below `n` once, in increasing order.
pub open spec fn is_identity(order: Seq<usize>, n: nat) -> bool {
    order.len() == n && forall|k: int| 0 <= k < n ==> #[trigger] order[k] == k
}

/// The order in which the modlist shows `projects`: sorted stably by the key
/// of `sort_by` (left as given when there is none), then reversed when
/// `reverse` is set.
pub open spec fn listing_order(
    projects: Seq<Project>,
    sort_by: Option<SortingMode>,
    reverse: bool,
    order: Seq<usize>,
) -> bool {
    let sorted = if reverse {
        order.reverse()
    } else {
        order
    };
    match sort_by {
        None => is_identity(sorted, projects.len()),
        Some(mode) => stably_sorted(sort_keys(projects, mode), sorted),
    }
}

/// Key `a` is at most key `b`.
pub open spec fn key_at_most(a: Seq<char>, b: Seq<char>) -> bool {
    seq_less(a, b) || a == b
}

proof fn lemma_less_then_at_most(a: Seq<char>, b: Seq<char>, c: Seq<char>)
    requires
        seq_less(a, b),
        key_at_most(b, c),
    ensures
        seq_less(a, c),
{
    if b != c {
        lemma_less_transitive(a, b, c);
    }
}

/// The positions of `keys` in the order of a stable sort by key.
pub fn stable_sort_order(keys: &Vec<Vec<char>>) -> (order: Vec<usize>)
    ensures
        stably_sorted(keys@.map_values(|k: Vec<char>| k@), order@),
{
    let ghost ks = keys@.map_values(|k: Vec<char>| k@);
    let n = keys.len();
    let mut order: Vec<usize> = Vec::new();
    let mut i: usize = 0;
    while i < n
        invariant
            n == keys.len(),
            ks == keys@.map_values(|k: Vec<char>| k@),
            i <= n,
            order.len() == i,
            forall|k: int| 0 <= k < order.len() ==> #[trigger] order@[k] < i,
            forall|j: usize| j < i ==> #[trigger] order@.contains(j),
            forall|a: int, b: int|
                0 <= a < b < order.len() ==> key_before(ks, #[trigger] order@[a] as int, #[trigger] order@[b] as int),
        decreases n - i,
    {
        let mut p: usize = 0;
        while p < order.len() && !chars_less(&keys[i], &keys[order[p]])
            invariant
                n == keys.len(),
                ks == keys@.map_values(|k: Vec<char>| k@),
                i < n,
                p <= order.len(),
                forall|k: int| 0 <= k < order.len() ==> #[trigger] order@[k] < i,
                forall|k: int| 0 <= k < p ==> !seq_less(ks[i as int], ks[#[trigger] order@[k] as int]),
            decreases order.len() - p,
        {
            p = p + 1;
        }
        let ghost old_order = order@;
        order.insert(p, i);
        proof {
            assert(order@ == old_order.insert(p as int, i));
            assert forall|j: usize| j < i + 1 implies #[trigger] order@.contains(j) by {
                if j == i {
                    assert(order@[p as int] == i);
                } else {
                    assert(old_order.contains(j));
                    let k = choose|k: int| 0 <= k < old_order.len() && old_order[k] == j;
                    if k < p {
                        assert(order@[k] == j);
                    } else {
                        assert(order@[k + 1] == j);
                    }
                }
            }
            assert forall|k: int| 0 <= k < order.len() implies #[trigger] order@[k] < i + 1 by {
                if k < p {
                    assert(order@[k] == old_order[k]);
                } else if k > p {
                    assert(order@[k] == old_order[k - 1]);
                }
            }
            assert forall|a: int, b: int|
                0 <= a < b < order.len() implies key_before(ks, #[trigger] order@[a] as int, #[trigger] order@[b] as int) by {
                if b < p {
                    assert(order@[a] == old_order[a]);
                    assert(order@[b] == old_order[b]);
                } else if a > p {
                    assert(order@[a] == old_order[a - 1]);
                    assert(order@[b] == old_order[b - 1]);
                } else if b == p {
                    let x = old_order[a] as int;
                    assert(order@[a] == x);
                    assert(order@[b] == i);
                    assert(!seq_less(ks[i as int], ks[x]));
                    lemma_less_total(ks[i as int], ks[x]);
                } else if a == p {
                    let y = old_order[b - 1] as int;
                    assert(order@[a] == i);
                    assert(order@[b] == y);
                    let q = old_order[p as int] as int;
                    assert(seq_less(ks[i as int], ks[q]));
                    if b - 1 > p {
                        assert(key_before(ks, old_order[p as int] as int, old_order[b - 1] as int));
                    }
                    lemma_less_then_at_most(ks[i as int], ks[q], ks[y]);
                } else {
                    assert(a < p && b > p);
                    let x = old_order[a] as int;
                    let y = old_order[b - 1] as int;
                    assert(order@[a] == x);
                    assert(order@[b] == y);
                    assert(key_before(ks, old_order[a] as int, old_order[b - 1] as int));
                }
            }
        }
        i = i + 1;
    }
    order
}


/// The key of one project under `mode`.
fn project_key(project: &Project, mode: SortingMode) -> (r: Vec<char>)
    ensures
        r@ == sort_key(*project, mode),
{
    match mode {
        SortingMode::Name | SortingMode::Title => {
            let title = project.title();
            let lower = to_lowercase(title.as_str());
            chars_of(lower.as_str())
        },
        SortingMode::Slug => chars_of(project.slug().as_str()),
        SortingMode::Id => chars_of(project.id().as_str()),
    }
}

/// The order in which the modlist lists `projects` (positions into
/// `projects`): a stable sort by the key of `sort_by` when there is one,
/// reversed when `reverse` is set.
pub fn project_order(projects: &Vec<Project>, sort_by: Option<SortingMode>, reverse: bool) -> (order:
    Vec<usize>)
    ensures
        listing_order(projects@, sort_by, reverse, order@),
{
    let n = projects.len();
    let sorted: Vec<usize> = match sort_by {
        None => {
            let mut v: Vec<usize> = Vec::new();
            let mut i: usize = 0;
            while i < n
                invariant
                    i <= n,
                    v.len() == i,
                    forall|k: int| 0 <= k < i ==> #[trigger] v@[k] == k,
                decreases n - i,
            {
                v.push(i);
                i = i + 1;
            }
            v
        },
        Some(mode) => {
            let mut keys: Vec<Vec<char>> = Vec::new();
            let mut i: usize = 0;
            while i < n
                invariant
                    n == projects.len(),
                    i <= n,
                    keys.len() == i,
                    keys@.map_values(|k: Vec<char>| k@) == sort_keys(projects@.take(i as int), mode),
                decreases n - i,
            {
                let ghost before = keys@;
                let k = project_key(&projects[i], mode);
                keys.push(k);
                proof {
                    let lhs = keys@.map_values(|k: Vec<char>| k@);
                    let rhs = sort_keys(projects@.take(i + 1), mode);
                    assert forall|j: int| 0 <= j < i + 1 implies lhs[j] == rhs[j] by {
                        if j < i {
                            assert(keys@[j] == before[j]);
                            assert(before.map_values(|k: Vec<char>| k@)[j] == sort_keys(projects@.take(i as int), mode)[j]);
                            assert(projects@.take(i as int)[j] == projects@.take(i + 1)[j]);
                        }
                    }
                    assert(lhs =~= rhs);
                }
                i = i + 1;
            }
            assert(projects@.take(n as int) =~= projects@);
            stable_sort_order(&keys)
        },
    };
    if reverse {
        let mut out: Vec<usize> = Vec::new();
        let mut j: usize = sorted.len();
        while j > 0
            invariant
                j <= sorted.len(),
                out.len() == sorted.len() - j,
                forall|k: int| 0 <= k < out.len() ==> #[trigger] out@[k] == sorted@[sorted.len() - 1 - k],
            decreases j,
        {
            j = j - 1;
            out.push(sorted[j]);
        }
        assert(out@.reverse() =~= sorted@);
        out
    } else {
        sorted
    }
}

/// The lines of the modlist: one expanded `format` per project, numbered
/// from 0 in listing order.
pub fn modlist_lines(
    projects: &Vec<Project>,
    format: &str,
    sort_by: Option<SortingMode>,
    reverse: bool,
) -> (lines: Vec<String>)
    ensures
        exists|order: Seq<usize>|
            {
                &&& listing_order(projects@, sort_by, reverse, order)
                &&& lines.len() == order.len()
                &&& forall|k: int|
                    0 <= k < lines.len() ==> #[trigger] lines@[k]@ == display_spec(
                        k as nat,
                        format@,
                        projects@[order[k] as int],
                    )
            },
{
    let order = project_order(projects, sort_by, reverse);
    proof {
        if reverse {
            let sorted = order@.reverse();
            assert(order@ =~= sorted.reverse()) by {
                assert(sorted.len() == order@.len());
            }
        }
    }
    let mut lines: Vec<String> = Vec::new();
    let mut k: usize = 0;
    while k < order.len()
        invariant
            listing_order(projects@, sort_by, reverse, order@),
            order@.len() == projects@.len(),
            forall|j: int| 0 <= j < order@.len() ==> #[trigger] order@[j] < projects@.len(),
            k <= order.len(),
            lines.len() == k,
            forall|j: int|
                0 <= j < k ==> #[trigger] lines@[j]@ == display_spec(
                    j as nat,
                    format@,
                    projects@[order@[j] as int],
                ),
        decreases order.len() - k,
    {
        let line = display_project(k, format, &projects[order[k]]);
        lines.push(line);
        k = k + 1;
    }
    lines
}


/// Text that holds no occurrence of the first character of `pat` is left as
/// it is.
proof fn lemma_replace_without_first_char(s: Seq<char>, pat: Seq<char>, rep: Seq<char>)
    requires
        pat.len() > 0,
        !s.contains(pat[0]),
    ensures
        replace_all(s, pat, rep) == s,
    decreases s.len(),
{
    if s.len() >= pat.len() {
        assert(s[0] != pat[0]);
        assert(!starts_with(s, pat)) by {
            if starts_with(s, pat) {
                assert(s.take(pat.len() as int)[0] == pat[0]);
            }
        }
        assert(!s.skip(1).contains(pat[0])) by {
            if s.skip(1).contains(pat[0]) {
                let j = choose|j: int| 0 <= j < s.skip(1).len() && s.skip(1)[j] == pat[0];
                assert(s[j + 1] == pat[0]);
            }
        }
        lemma_replace_without_first_char(s.skip(1), pat, rep);
        assert(s =~= seq![s[0]] + s.skip(1));
    }
}

/// Text in which `pat` does not occur is left as it is.
proof fn lemma_replace_absent(s: Seq<char>, pat: Seq<char>, rep: Seq<char>)
    requires
        pat.len() > 0,
        !occurs_in(s, pat),
    ensures
        replace_all(s, pat, rep) == s,
    decreases s.len(),
{
    if s.len() >= pat.len() {
        assert(!starts_with(s, pat)) by {
            if starts_with(s, pat) {
                assert(s.subrange(0int, 0int + pat.len()) =~= s.take(pat.len() as int));
                assert(s.subrange(0int, 0int + pat.len()) == pat);
            }
        }
        assert(!occurs_in(s.skip(1), pat)) by {
            if occurs_in(s.skip(1), pat) {
                let i = choose|i: int|
                    0 <= i && i + pat.len() <= s.skip(1).len() && #[trigger] s.skip(1).subrange(i, i + pat.len())
                        == pat;
                assert(s.subrange(i + 1, i + 1 + pat.len()) =~= s.skip(1).subrange(i, i + pat.len()));
            }
        }
        lemma_replace_absent(s.skip(1), pat, rep);
        assert(s =~= seq![s[0]] + s.skip(1));
    }
}

/// A text is replaced when it is exactly the pattern.
proof fn lemma_replace_whole(pat: Seq<char>, rep: Seq<char>)
    requires
        pat.len() > 0,
    ensures
        replace_all(pat, pat, rep) == rep,
{
    assert(pat.take(pat.len() as int) =~= pat);
    assert(pat.skip(pat.len() as int) =~= Seq::<char>::empty());
    assert(replace_all(Seq::<char>::empty(), pat, rep) == Seq::<char>::empty());
    assert(rep + Seq::<char>::empty() =~= rep);
}

/// A placeholder is left alone by a pattern it does not start with, since
/// its only `{` is its first character.
proof fn lemma_token_kept(tok: Seq<char>, pat: Seq<char>, rep: Seq<char>)
    requires
        tok.len() > 0,
        pat.len() > 0,
        tok[0] == pat[0],
        forall|j: int| 0 < j < tok.len() ==> tok[j] != pat[0],
        !starts_with(tok, pat),
    ensures
        replace_all(tok, pat, rep) == tok,
{
    if tok.len() >= pat.len() {
        assert(!tok.skip(1).contains(pat[0])) by {
            if tok.skip(1).contains(pat[0]) {
                let j = choose|j: int| 0 <= j < tok.skip(1).len() && tok.skip(1)[j] == pat[0];
                assert(tok[j + 1] == pat[0]);
            }
        }
        lemma_replace_without_first_char(tok.skip(1), pat, rep);
        assert(tok =~= seq![tok[0]] + tok.skip(1));
    }
}

/// The digits of a number hold no `{` or `\`.
proof fn lemma_decimal_plain(n: nat)
    ensures
        !decimal(n).contains('{'),
        !decimal(n).contains('\\'),
    decreases n,
{
    if n >= 10 {
        lemma_decimal_plain(n / 10);
        let d = decimal(n / 10).push(digit_char(n % 10));
        assert(!d.contains('{')) by {
            if d.contains('{') {
                let j = choose|j: int| 0 <= j < d.len() && d[j] == '{';
                if j < d.len() - 1 {
                    assert(decimal(n / 10)[j] == '{');
                }
            }
        }
        assert(!d.contains('\\')) by {
            if d.contains('\\') {
                let j = choose|j: int| 0 <= j < d.len() && d[j] == '\\';
                if j < d.len() - 1 {
                    assert(decimal(n / 10)[j] == '\\');
                }
            }
        }
    } else {
        assert(decimal(n) == seq![digit_char(n)]);
        assert(!decimal(n).contains('{')) by {
            if decimal(n).contains('{') {
                assert(decimal(n)[0] == '{');
            }
        }
        assert(!decimal(n).contains('\\')) by {
            if decimal(n).contains('\\') {
                assert(decimal(n)[0] == '\\');
            }
        }
    }
}

/// A text that the remaining expansion steps leave alone: no `{`, no `\`.
pub open spec fn plain_text(s: Seq<char>) -> bool {
    !s.contains('{') && !s.contains('\\')
}

/// Every value a placeholder can expand to is plain text.
pub open spec fn plain_project(project: Project) -> bool {
    &&& plain_text(project.title_view())
    &&& plain_text(project.description_view())
    &&& plain_text(project.url_view())
    &&& plain_text(project.id_view())
    &&& plain_text(project.slug_view())
}

/// Plain text passes the later steps of the expansion unchanged.
proof fn lemma_plain_kept(s: Seq<char>, rep: Seq<char>)
    requires
        plain_text(s),
    ensures
        replace_all(s, index_token(), rep) == s,
        replace_all(s, title_token(), rep) == s,
        replace_all(s, name_token(), rep) == s,
        replace_all(s, description_token(), rep) == s,
        replace_all(s, summary_token(), rep) == s,
        replace_all(s, url_token(), rep) == s,
        replace_all(s, id_token(), rep) == s,
        replace_all(s, slug_token(), rep) == s,
        replace_all(s, escaped_newline(), rep) == s,
{
    lemma_replace_without_first_char(s, index_token(), rep);
    lemma_replace_without_first_char(s, title_token(), rep);
    lemma_replace_without_first_char(s, name_token(), rep);
    lemma_replace_without_first_char(s, description_token(), rep);
    lemma_replace_without_first_char(s, summary_token(), rep);
    lemma_replace_without_first_char(s, url_token(), rep);
    lemma_replace_without_first_char(s, id_token(), rep);
    lemma_replace_without_first_char(s, slug_token(), rep);
    lemma_replace_without_first_char(s, escaped_newline(), rep);
}

/// A placeholder holds no backslash.
proof fn lemma_token_no_backslash(tok: Seq<char>, rep: Seq<char>)
    requires
        forall|j: int| 0 <= j < tok.len() ==> tok[j] != '\\',
    ensures
        replace_all(tok, escaped_newline(), rep) == tok,
{
    assert(!tok.contains('\\')) by {
        if tok.contains('\\') {
            let j = choose|j: int| 0 <= j < tok.len() && tok[j] == '\\';
            assert(tok[j] != '\\');
        }
    }
    lemma_replace_without_first_char(tok, escaped_newline(), rep);
}

/// Each placeholder, written alone as the format, expands to its value: the
/// zero-based index, the name for both `{NAME}` and `{TITLE}`, the
/// description for both `{DESCRIPTION}` and `{SUMMARY}`, the page address,
/// the id and the slug; and a literal `\n` becomes a line break. This holds
/// for projects whose values hold no `{` or `\` (those would be expanded
/// again by the later steps).
pub proof fn law_placeholders_expand(index: nat, project: Project)
    requires
        plain_project(project),
    ensures
        display_spec(index, index_token(), project) == decimal(index),
        display_spec(index, title_token(), project) == project.title_view(),
        display_spec(index, name_token(), project) == project.title_view(),
        display_spec(index, description_token(), project) == project.description_view(),
        display_spec(index, summary_token(), project) == project.description_view(),
        display_spec(index, url_token(), project) == project.url_view(),
        display_spec(index, id_token(), project) == project.id_view(),
        display_spec(index, slug_token(), project) == project.slug_view(),
        display_spec(index, escaped_newline(), project) == newline(),
{
    let ix = decimal(index);
    let t = project.title_view();
    let d = project.description_view();
    let u = project.url_view();
    let i = project.id_view();
    let sl = project.slug_view();
    lemma_decimal_plain(index);
    lemma_plain_kept(ix, t);
    lemma_plain_kept(ix, d);
    lemma_plain_kept(ix, u);
    lemma_plain_kept(ix, i);
    lemma_plain_kept(ix, sl);
    lemma_plain_kept(ix, newline());
    lemma_plain_kept(t, t);
    lemma_plain_kept(t, d);
    lemma_plain_kept(t, u);
    lemma_plain_kept(t, i);
    lemma_plain_kept(t, sl);
    lemma_plain_kept(t, newline());
    lemma_plain_kept(d, d);
    lemma_plain_kept(d, u);
    lemma_plain_kept(d, i);
    lemma_plain_kept(d, sl);
    lemma_plain_kept(d, newline());
    lemma_plain_kept(u, i);
    lemma_plain_kept(u, sl);
    lemma_plain_kept(u, newline());
    lemma_plain_kept(i, sl);
    lemma_plain_kept(i, newline());
    lemma_plain_kept(sl, newline());

    // {INDEX}
    lemma_replace_whole(index_token(), ix);
    // {TITLE}
    lemma_token_kept(title_token(), index_token(), ix);
    lemma_replace_whole(title_token(), t);
    // {NAME}
    lemma_token_kept(name_token(), index_token(), ix);
    lemma_token_kept(name_token(), title_token(), t);
    lemma_replace_whole(name_token(), t);
    // {DESCRIPTION}
    lemma_token_kept(description_token(), index_token(), ix);
    lemma_token_kept(description_token(), title_token(), t);
    lemma_token_kept(description_token(), name_token(), t);
    lemma_replace_whole(description_token(), d);
    // {SUMMARY}
    lemma_token_kept(summary_token(), index_token(), ix);
    lemma_token_kept(summary_token(), title_token(), t);
    lemma_token_kept(summary_token(), name_token(), t);
    lemma_token_kept(summary_token(), description_token(), d);
    lemma_replace_whole(summary_token(), d);
    // {URL}
    lemma_token_kept(url_token(), index_token(), ix);
    lemma_token_kept(url_token(), title_token(), t);
    lemma_token_kept(url_token(), name_token(), t);
    lemma_token_kept(url_token(), description_token(), d);
    lemma_token_kept(url_token(), summary_token(), d);
    lemma_replace_whole(url_token(), u);
    // {ID}
    lemma_token_kept(id_token(), index_token(), ix);
    lemma_token_kept(id_token(), title_token(), t);
    lemma_token_kept(id_token(), name_token(), t);
    lemma_token_kept(id_token(), description_token(), d);
    lemma_token_kept(id_token(), summary_token(), d);
    lemma_token_kept(id_token(), url_token(), u);
    lemma_replace_whole(id_token(), i);
    // {SLUG}
    lemma_token_kept(slug_token(), index_token(), ix);
    lemma_token_kept(slug_token(), title_token(), t);
    lemma_token_kept(slug_token(), name_token(), t);
    lemma_token_kept(slug_token(), description_token(), d);
    lemma_token_kept(slug_token(), summary_token(), d);
    lemma_token_kept(slug_token(), url_token(), u);
    lemma_token_kept(slug_token(), id_token(), i);
    lemma_replace_whole(slug_token(), sl);
    // \n
    let e = escaped_newline();
    assert(!e.contains('{')) by {
        if e.contains('{') {
            let j = choose|j: int| 0 <= j < e.len() && e[j] == '{';
            assert(e[j] != '{');
        }
    }
    lemma_replace_without_first_char(e, index_token(), ix);
    lemma_replace_without_first_char(e, title_token(), t);
    lemma_replace_without_first_char(e, name_token(), t);
    lemma_replace_without_first_char(e, description_token(), d);
    lemma_replace_without_first_char(e, summary_token(), d);
    lemma_replace_without_first_char(e, url_token(), u);
    lemma_replace_without_first_char(e, id_token(), i);
    lemma_replace_without_first_char(e, slug_token(), sl);
    lemma_replace_whole(e, newline());
    lemma_token_no_backslash(index_token(), newline());
}


/// `format` holds none of the placeholders and no literal `\n`.
pub open spec fn without_placeholders(format: Seq<char>) -> bool {
    &&& !occurs_in(format, index_token())
    &&& !occurs_in(format, title_token())
    &&& !occurs_in(format, name_token())
    &&& !occurs_in(format, description_token())
    &&& !occurs_in(format, summary_token())
    &&& !occurs_in(format, url_token())
    &&& !occurs_in(format, id_token())
    &&& !occurs_in(format, slug_token())
    &&& !occurs_in(format, escaped_newline())
}

/// Text that is not a placeholder is kept as written: a format without any
/// placeholder (unknown ones like `{UNKNOWN}` included) expands to itself.
pub proof fn law_other_text_unchanged(index: nat, format: Seq<char>, project: Project)
    requires
        without_placeholders(format),
    ensures
        display_spec(index, format, project) == format,
{
    lemma_replace_absent(format, index_token(), decimal(index));
    lemma_replace_absent(format, title_token(), project.title_view());
    lemma_replace_absent(format, name_token(), project.title_view());
    lemma_replace_absent(format, description_token(), project.description_view());
    lemma_replace_absent(format, summary_token(), project.description_view());
    lemma_replace_absent(format, url_token(), project.url_view());
    lemma_replace_absent(format, id_token(), project.id_view());
    lemma_replace_absent(format, slug_token(), project.slug_view());
    lemma_replace_absent(format, escaped_newline(), newline());
}


/// Position `i` before `j` and `j` before `i` cannot both hold.
proof fn lemma_key_before_asymmetric(keys: Seq<Seq<char>>, i: int, j: int)
    requires
        key_before(keys, i, j),
    ensures
        !key_before(keys, j, i),
{
    if seq_less(keys[i], keys[j]) {
        lemma_less_asymmetric(keys[i], keys[j]);
        if keys[j] == keys[i] {
            lemma_less_irreflexive(keys[i]);
        }
    } else if seq_less(keys[j], keys[i]) {
        lemma_less_irreflexive(keys[i]);
    }
}

/// In a stable sort order no position is listed twice.
proof fn lemma_sorted_distinct(keys: Seq<Seq<char>>, order: Seq<usize>, a: int, b: int)
    requires
        stably_sorted(keys, order),
        0 <= a < b < order.len(),
    ensures
        order[a] != order[b],
{
    assert(key_before(keys, order[a] as int, order[b] as int));
    if order[a] == order[b] {
        lemma_less_irreflexive(keys[order[a] as int]);
    }
}

/// Two stable sort orders of the same keys agree at `p` when they agree
/// before it.
proof fn lemma_sorted_agree_at(keys: Seq<Seq<char>>, o1: Seq<usize>, o2: Seq<usize>, p: int)
    requires
        stably_sorted(keys, o1),
        stably_sorted(keys, o2),
        0 <= p < o1.len(),
        forall|i: int| 0 <= i < p ==> o1[i] == o2[i],
    ensures
        o1[p] == o2[p],
{
    let a = o1[p];
    let b = o2[p];
    if a != b {
        assert(o1.contains(b));
        let q1 = choose|q: int| 0 <= q < o1.len() && o1[q] == b;
        if q1 < p {
            assert(o2[q1] == b);
            lemma_sorted_distinct(keys, o2, q1, p);
        }
        assert(q1 > p);
        assert(key_before(keys, a as int, b as int));
        assert(o2.contains(a));
        let q2 = choose|q: int| 0 <= q < o2.len() && o2[q] == a;
        if q2 < p {
            assert(o1[q2] == a);
            lemma_sorted_distinct(keys, o1, q2, p);
        }
        assert(q2 > p);
        assert(key_before(keys, b as int, a as int));
        lemma_key_before_asymmetric(keys, a as int, b as int);
    }
}

proof fn lemma_sorted_agree_upto(keys: Seq<Seq<char>>, o1: Seq<usize>, o2: Seq<usize>, p: int)
    requires
        stably_sorted(keys, o1),
        stably_sorted(keys, o2),
        0 <= p <= o1.len(),
    ensures
        forall|i: int| 0 <= i < p ==> o1[i] == o2[i],
    decreases p,
{
    if p > 0 {
        lemma_sorted_agree_upto(keys, o1, o2, p - 1);
        lemma_sorted_agree_at(keys, o1, o2, p - 1);
    }
}

/// The listing order is fully determined: only one order of the projects
/// fits the chosen sorting and direction.
pub proof fn law_listing_order_unique(
    projects: Seq<Project>,
    sort_by: Option<SortingMode>,
    reverse: bool,
    o1: Seq<usize>,
    o2: Seq<usize>,
)
    requires
        listing_order(projects, sort_by, reverse, o1),
        listing_order(projects, sort_by, reverse, o2),
    ensures
        o1 == o2,
{
    let s1 = if reverse {
        o1.reverse()
    } else {
        o1
    };
    let s2 = if reverse {
        o2.reverse()
    } else {
        o2
    };
    match sort_by {
        None => {
            assert(s1 =~= s2);
        },
        Some(mode) => {
            lemma_sorted_agree_upto(sort_keys(projects, mode), s1, s2, s1.len() as int);
            assert(s1 =~= s2);
        },
    }
    if reverse {
        assert(o1 =~= s1.reverse());
        assert(o2 =~= s2.reverse());
    }
}

/// The modlist shows every project exactly once, whatever the sorting and
/// direction.
pub proof fn law_each_project_listed_once(
    projects: Seq<Project>,
    sort_by: Option<SortingMode>,
    reverse: bool,
    order: Seq<usize>,
)
    requires
        listing_order(projects, sort_by, reverse, order),
    ensures
        order.len() == projects.len(),
        forall|j: usize| j < projects.len() ==> #[trigger] order.contains(j),
        forall|a: int, b: int| 0 <= a < b < order.len() ==> #[trigger] order[a] != #[trigger] order[b],
{
    let n = order.len();
    let sorted = if reverse {
        order.reverse()
    } else {
        order
    };
    assert forall|a: int, b: int| 0 <= a < b < sorted.len() implies #[trigger] sorted[a] != #[trigger] sorted[b] by {
        match sort_by {
            None => {},
            Some(mode) => {
                lemma_sorted_distinct(sort_keys(projects, mode), sorted, a, b);
            },
        }
    }
    assert forall|j: usize| j < projects.len() implies #[trigger] sorted.contains(j) by {
        match sort_by {
            None => {
                assert(sorted[j as int] == j);
            },
            Some(mode) => {},
        }
    }
    if reverse {
        assert forall|a: int, b: int| 0 <= a < b < n implies #[trigger] order[a] != #[trigger] order[b] by {
            assert(order[a] == sorted[n - 1 - a]);
            assert(order[b] == sorted[n - 1 - b]);
        }
        assert forall|j: usize| j < projects.len() implies #[trigger] order.contains(j) by {
            assert(sorted.contains(j));
            let k = choose|k: int| 0 <= k < sorted.len() && sorted[k] == j;
            assert(order[n - 1 - k] == j);
        }
    }
}

/// Listing in reverse shows the projects in exactly the opposite order of
/// the listing without it.
pub proof fn law_reverse_listing(
    projects: Seq<Project>,
    sort_by: Option<SortingMode>,
    order: Seq<usize>,
)
    ensures
        listing_order(projects, sort_by, true, order) <==> listing_order(projects, sort_by, false, order.reverse()),
{
}

/// The text made of `pieces`, in order.
pub open spec fn concat_pieces(pieces: Seq<Seq<char>>) -> Seq<char>
    decreases pieces.len(),
{
    if pieces.len() == 0 {
        Seq::empty()
    } else {
        pieces[0] + concat_pieces(pieces.drop_first())
    }
}

/// A placeholder-shaped text: `{`, then characters that are none of `{`,
/// `}` and `\`, then `}`.
pub open spec fn is_token(t: Seq<char>) -> bool {
    &&& t.len() >= 2
    &&& t[0] == '{'
    &&& t[t.len() - 1] == '}'
    &&& forall|j: int| 0 < j < t.len() - 1 ==> #[trigger] t[j] != '{' && t[j] != '}' && t[j] != '\\'
}

/// What one expansion step looks for: a placeholder or a literal `\n`.
pub open spec fn is_pattern(p: Seq<char>) -> bool {
    is_token(p) || p == escaped_newline()
}

/// A piece that the expansion steps treat as a unit: a placeholder-shaped
/// text, a literal `\n`, or text without `{` and `\`.
pub open spec fn unit_piece(q: Seq<char>) -> bool {
    is_token(q) || q == escaped_newline() || plain_text(q)
}

/// One expansion step on one piece.
pub open spec fn step_piece(q: Seq<char>, pat: Seq<char>, rep: Seq<char>) -> Seq<char> {
    if q == pat {
        rep
    } else {
        q
    }
}

/// One expansion step on every piece.
pub open spec fn step_all(qs: Seq<Seq<char>>, pat: Seq<char>, rep: Seq<char>) -> Seq<Seq<char>> {
    qs.map_values(|q: Seq<char>| step_piece(q, pat, rep))
}

/// Every occurrence of `pat` that starts inside `p` ends inside it, whatever
/// follows `p`.
proof fn lemma_piece_closed(q: Seq<char>, b: Seq<char>, pat: Seq<char>)
    requires
        unit_piece(q),
        is_pattern(pat),
    ensures
        forall|i: int|
            0 <= i < q.len() && #[trigger] starts_with((q + b).skip(i), pat) ==> i + pat.len() <= q.len(),
{
    let s = q + b;
    assert forall|i: int| 0 <= i < q.len() && #[trigger] starts_with((q + b).skip(i), pat) implies i + pat.len()
        <= q.len() by {
        assert(s.skip(i).take(pat.len() as int)[0] == pat[0]);
        assert(s[i] == q[i]);
        assert(pat[0] == '{' || pat[0] == '\\');
        if plain_text(q) {
            assert(q.contains(q[i]));
        } else if is_token(q) {
            if i > 0 && i < q.len() - 1 {
                assert(q[i] != '{' && q[i] != '\\');
            }
            if i == q.len() - 1 {
                assert(q[i] == '}');
            }
            if i == 0 && is_token(pat) && pat.len() > q.len() {
                let j = q.len() - 1;
                assert(s.skip(0).take(pat.len() as int)[j] == pat[j]);
                assert(s[j] == q[j]);
            }
            if i == 0 && pat == escaped_newline() {
                assert(q[0] == '{');
            }
        } else {
            assert(q == escaped_newline());
            if is_token(pat) {
                assert(q[i] == '\\' || q[i] == 'n');
            } else if i == 1 {
                assert(q[1] == 'n');
            }
        }
    }
}

/// Replacing in `p + b` replaces in each part when no occurrence that starts
/// in `p` runs past it.
proof fn lemma_replace_split(p: Seq<char>, b: Seq<char>, pat: Seq<char>, rep: Seq<char>)
    requires
        pat.len() > 0,
        forall|i: int|
            0 <= i < p.len() && #[trigger] starts_with((p + b).skip(i), pat) ==> i + pat.len() <= p.len(),
    ensures
        replace_all(p + b, pat, rep) == replace_all(p, pat, rep) + replace_all(b, pat, rep),
    decreases p.len(),
{
    let s = p + b;
    let k = pat.len() as int;
    if p.len() == 0 {
        assert(s =~= b);
        assert(replace_all(p, pat, rep) == p);
        assert(p + replace_all(b, pat, rep) =~= replace_all(b, pat, rep));
    } else if s.len() < pat.len() {
        assert(replace_all(p, pat, rep) == p);
        assert(replace_all(b, pat, rep) == b);
    } else if starts_with(s, pat) {
        assert(s.skip(0) =~= s);
        assert(k <= p.len());
        assert(p.take(k) =~= s.take(k));
        let p1 = p.skip(k);
        assert(s.skip(k) =~= p1 + b);
        assert forall|i: int| 0 <= i < p1.len() && #[trigger] starts_with((p1 + b).skip(i), pat) implies i + k
            <= p1.len() by {
            assert((p1 + b).skip(i) =~= (p + b).skip(i + k));
        }
        lemma_replace_split(p1, b, pat, rep);
        assert(rep + (replace_all(p1, pat, rep) + replace_all(b, pat, rep)) =~= (rep + replace_all(p1, pat, rep))
            + replace_all(b, pat, rep));
    } else {
        let p1 = p.skip(1);
        assert(s.skip(1) =~= p1 + b);
        assert(s[0] == p[0]);
        assert forall|i: int| 0 <= i < p1.len() && #[trigger] starts_with((p1 + b).skip(i), pat) implies i + k
            <= p1.len() by {
            assert((p1 + b).skip(i) =~= (p + b).skip(i + 1));
        }
        lemma_replace_split(p1, b, pat, rep);
        if p.len() < pat.len() {
            assert(replace_all(p1, pat, rep) == p1);
            assert(seq![p[0]] + p1 =~= p);
        } else {
            assert(p.take(k) =~= s.take(k));
            assert(!starts_with(p, pat));
        }
        assert(seq![p[0]] + (replace_all(p1, pat, rep) + replace_all(b, pat, rep)) =~= (seq![p[0]]
            + replace_all(p1, pat, rep)) + replace_all(b, pat, rep));
    }
}

/// One expansion step on a single piece.
proof fn lemma_replace_piece(q: Seq<char>, pat: Seq<char>, rep: Seq<char>)
    requires
        unit_piece(q),
        is_pattern(pat),
    ensures
        replace_all(q, pat, rep) == step_piece(q, pat, rep),
{
    if q == pat {
        lemma_replace_whole(pat, rep);
    } else if plain_text(q) {
        assert(pat[0] == '{' || pat[0] == '\\');
        lemma_replace_without_first_char(q, pat, rep);
    } else if is_token(q) && is_token(pat) {
        assert(!starts_with(q, pat)) by {
            if starts_with(q, pat) {
                let j = pat.len() - 1;
                assert(q.take(pat.len() as int)[j] == pat[j]);
                if pat.len() < q.len() {
                    assert(q[j] != '}');
                } else {
                    assert(q =~= pat);
                }
            }
        }
        lemma_token_kept(q, pat, rep);
    } else if is_token(q) {
        assert(pat == escaped_newline());
        assert(!q.contains('\\')) by {
            if q.contains('\\') {
                let j = choose|j: int| 0 <= j < q.len() && q[j] == '\\';
                if 0 < j < q.len() - 1 {
                    assert(q[j] != '\\');
                }
            }
        }
        lemma_replace_without_first_char(q, pat, rep);
    } else {
        assert(q == escaped_newline());
        assert(is_token(pat));
        assert(!q.contains('{')) by {
            if q.contains('{') {
                let j = choose|j: int| 0 <= j < q.len() && q[j] == '{';
                assert(q[j] == '\\' || q[j] == 'n');
            }
        }
        lemma_replace_without_first_char(q, pat, rep);
    }
}

/// One expansion step on a text made of pieces acts on each piece alone.
proof fn lemma_replace_pieces(qs: Seq<Seq<char>>, pat: Seq<char>, rep: Seq<char>)
    requires
        forall|i: int| 0 <= i < qs.len() ==> unit_piece(#[trigger] qs[i]),
        is_pattern(pat),
    ensures
        replace_all(concat_pieces(qs), pat, rep) == concat_pieces(step_all(qs, pat, rep)),
    decreases qs.len(),
{
    let f = |q: Seq<char>| step_piece(q, pat, rep);
    if qs.len() == 0 {
        assert(qs.map_values(f) =~= Seq::<Seq<char>>::empty());
        assert(replace_all(Seq::<char>::empty(), pat, rep) == Seq::<char>::empty());
    } else {
        let rest = qs.drop_first();
        assert(unit_piece(qs[0]));
        assert forall|i: int| 0 <= i < rest.len() implies unit_piece(#[trigger] rest[i]) by {
            assert(rest[i] == qs[i + 1]);
        }
        lemma_replace_pieces(rest, pat, rep);
        lemma_piece_closed(qs[0], concat_pieces(rest), pat);
        lemma_replace_split(qs[0], concat_pieces(rest), pat, rep);
        lemma_replace_piece(qs[0], pat, rep);
        assert(qs.map_values(f).drop_first() =~= rest.map_values(f));
        assert(qs.map_values(f)[0] == f(qs[0]));
    }
}

/// Each step keeps every piece a unit when the replacement is plain text.
proof fn lemma_step_units(qs: Seq<Seq<char>>, pat: Seq<char>, rep: Seq<char>)
    requires
        forall|i: int| 0 <= i < qs.len() ==> unit_piece(#[trigger] qs[i]),
        plain_text(rep),
    ensures
        forall|i: int| 0 <= i < step_all(qs, pat, rep).len() ==> unit_piece(#[trigger] step_all(qs, pat, rep)[i]),
{
    assert forall|i: int| 0 <= i < step_all(qs, pat, rep).len() implies unit_piece(
        #[trigger] step_all(qs, pat, rep)[i],
    ) by {
        assert(unit_piece(qs[i]));
    }
}

/// The expansion of a single piece, step by step.
pub open spec fn expand_piece(index: nat, q: Seq<char>, project: Project) -> Seq<char> {
    let q1 = step_piece(q, index_token(), decimal(index));
    let q2 = step_piece(q1, title_token(), project.title_view());
    let q3 = step_piece(q2, name_token(), project.title_view());
    let q4 = step_piece(q3, description_token(), project.description_view());
    let q5 = step_piece(q4, summary_token(), project.description_view());
    let q6 = step_piece(q5, url_token(), project.url_view());
    let q7 = step_piece(q6, id_token(), project.id_view());
    let q8 = step_piece(q7, slug_token(), project.slug_view());
    step_piece(q8, escaped_newline(), newline())
}

proof fn lemma_known_tokens()
    ensures
        is_token(index_token()),
        is_token(title_token()),
        is_token(name_token()),
        is_token(description_token()),
        is_token(summary_token()),
        is_token(url_token()),
        is_token(id_token()),
        is_token(slug_token()),
{
}

/// Expanding a text made of unit pieces expands each piece alone.
proof fn lemma_expand_pieces(index: nat, pieces: Seq<Seq<char>>, project: Project)
    requires
        plain_project(project),
        forall|i: int| 0 <= i < pieces.len() ==> unit_piece(#[trigger] pieces[i]),
    ensures
        display_spec(index, concat_pieces(pieces), project) == concat_pieces(
            pieces.map_values(|q: Seq<char>| expand_piece(index, q, project)),
        ),
{
    lemma_known_tokens();
    lemma_decimal_plain(index);
    assert(plain_text(newline())) by {
        assert(!newline().contains('{')) by {
            if newline().contains('{') {
                let j = choose|j: int| 0 <= j < newline().len() && newline()[j] == '{';
            }
        }
        assert(!newline().contains('\\')) by {
            if newline().contains('\\') {
                let j = choose|j: int| 0 <= j < newline().len() && newline()[j] == '\\';
            }
        }
    }
    let t = project.title_view();
    let d = project.description_view();
    let u = project.url_view();
    let i = project.id_view();
    let sl = project.slug_view();
    let q0 = pieces;
    let q1 = step_all(q0, index_token(), decimal(index));
    lemma_replace_pieces(q0, index_token(), decimal(index));
    lemma_step_units(q0, index_token(), decimal(index));
    let q2 = step_all(q1, title_token(), t);
    lemma_replace_pieces(q1, title_token(), t);
    lemma_step_units(q1, title_token(), t);
    let q3 = step_all(q2, name_token(), t);
    lemma_replace_pieces(q2, name_token(), t);
    lemma_step_units(q2, name_token(), t);
    let q4 = step_all(q3, description_token(), d);
    lemma_replace_pieces(q3, description_token(), d);
    lemma_step_units(q3, description_token(), d);
    let q5 = step_all(q4, summary_token(), d);
    lemma_replace_pieces(q4, summary_token(), d);
    lemma_step_units(q4, summary_token(), d);
    let q6 = step_all(q5, url_token(), u);
    lemma_replace_pieces(q5, url_token(), u);
    lemma_step_units(q5, url_token(), u);
    let q7 = step_all(q6, id_token(), i);
    lemma_replace_pieces(q6, id_token(), i);
    lemma_step_units(q6, id_token(), i);
    let q8 = step_all(q7, slug_token(), sl);
    lemma_replace_pieces(q7, slug_token(), sl);
    lemma_step_units(q7, slug_token(), sl);
    let q9 = step_all(q8, escaped_newline(), newline());
    lemma_replace_pieces(q8, escaped_newline(), newline());
    assert(q9 =~= pieces.map_values(|q: Seq<char>| expand_piece(index, q, project)));
}

/// A piece of a format: one of the placeholders, a literal `\n`, or text
/// without `{` and `\`.
pub open spec fn format_piece(p: Seq<char>) -> bool {
    ||| p == index_token()
    ||| p == title_token()
    ||| p == name_token()
    ||| p == description_token()
    ||| p == summary_token()
    ||| p == url_token()
    ||| p == id_token()
    ||| p == slug_token()
    ||| p == escaped_newline()
    ||| plain_text(p)
}

/// What a format piece expands to: the placeholder's value, a line break for
/// a literal `\n`, and the text itself otherwise.
pub open spec fn piece_value(index: nat, p: Seq<char>, project: Project) -> Seq<char> {
    if p == index_token() {
        decimal(index)
    } else if p == title_token() || p == name_token() {
        project.title_view()
    } else if p == description_token() || p == summary_token() {
        project.description_view()
    } else if p == url_token() {
        project.url_view()
    } else if p == id_token() {
        project.id_view()
    } else if p == slug_token() {
        project.slug_view()
    } else if p == escaped_newline() {
        newline()
    } else {
        p
    }
}

/// A format made of placeholders, literal `\n`s and other text expands
/// piece by piece: each placeholder to its value, each `\n` to a line break,
/// other text to itself. This holds for projects whose values hold no `{` or
/// `\` (those would be expanded again by the later steps).
pub proof fn law_format_expands_piecewise(index: nat, pieces: Seq<Seq<char>>, project: Project)
    requires
        plain_project(project),
        forall|i: int| 0 <= i < pieces.len() ==> format_piece(#[trigger] pieces[i]),
    ensures
        display_spec(index, concat_pieces(pieces), project) == concat_pieces(
            pieces.map_values(|p: Seq<char>| piece_value(index, p, project)),
        ),
{
    lemma_known_tokens();
    assert forall|i: int| 0 <= i < pieces.len() implies unit_piece(#[trigger] pieces[i]) by {
        assert(format_piece(pieces[i]));
    }
    lemma_expand_pieces(index, pieces, project);
    law_placeholders_expand(index, project);
    assert forall|k: int| 0 <= k < pieces.len() implies expand_piece(index, #[trigger] pieces[k], project)
        == piece_value(index, pieces[k], project) by {
        let p = pieces[k];
        let one = seq![p];
        assert(unit_piece(p));
        assert(forall|i: int| 0 <= i < one.len() ==> unit_piece(#[trigger] one[i]));
        lemma_expand_pieces(index, one, project);
        assert(one.drop_first() =~= Seq::<Seq<char>>::empty());
        assert(concat_pieces(Seq::<Seq<char>>::empty()) == Seq::<char>::empty());
        assert(one[0] == p);
        assert(concat_pieces(one) =~= p);
        let ev = one.map_values(|q: Seq<char>| expand_piece(index, q, project));
        assert(ev.drop_first() =~= Seq::<Seq<char>>::empty());
        assert(ev[0] == expand_piece(index, p, project));
        assert(concat_pieces(ev) =~= expand_piece(index, p, project));
        if plain_text(p) && !(p == index_token() || p == title_token() || p == name_token() || p
            == description_token() || p == summary_token() || p == url_token() || p == id_token() || p
            == slug_token() || p == escaped_newline()) {
            lemma_plain_kept(p, decimal(index));
            lemma_plain_kept(p, project.title_view());
            lemma_plain_kept(p, project.description_view());
            lemma_plain_kept(p, project.url_view());
            lemma_plain_kept(p, project.id_view());
            lemma_plain_kept(p, project.slug_view());
            lemma_plain_kept(p, newline());
        }
    }
    assert(pieces.map_values(|q: Seq<char>| expand_piece(index, q, project)) =~= pieces.map_values(
        |p: Seq<char>| piece_value(index, p, project),
    ));
}

/// In a listing sorted by `keys`, the projects at earlier positions come
/// first by key; reversed, the other way round.
proof fn lemma_listing_pairs(keys: Seq<Seq<char>>, reverse: bool, order: Seq<usize>)
    requires
        stably_sorted(
            keys,
            if reverse {
                order.reverse()
            } else {
                order
            },
        ),
    ensures
        forall|a: int, b: int|
            0 <= a < b < order.len() ==> if reverse {
                key_before(keys, #[trigger] order[b] as int, #[trigger] order[a] as int)
            } else {
                key_before(keys, order[a] as int, order[b] as int)
            },
{
    let n = order.len();
    if reverse {
        let sorted = order.reverse();
        assert forall|a: int, b: int| 0 <= a < b < n implies key_before(
            keys,
            #[trigger] order[b] as int,
            #[trigger] order[a] as int,
        ) by {
            assert(sorted[n - 1 - b] == order[b]);
            assert(sorted[n - 1 - a] == order[a]);
        }
    }
}

/// Sorting by name (or title) orders the projects by their names compared
/// after `to_lowercase`, CurseForge and Modrinth projects alike: of two
/// listed projects, the earlier one (the later one when reversed) has the
/// smaller lower-case name, or the same one and came first in the list.
pub proof fn law_sorted_by_name(
    projects: Seq<Project>,
    mode: SortingMode,
    reverse: bool,
    order: Seq<usize>,
)
    requires
        mode == SortingMode::Name || mode == SortingMode::Title,
        listing_order(projects, Some(mode), reverse, order),
    ensures
        forall|a: int, b: int|
            #![trigger order[a], order[b]]
            0 <= a < b < order.len() ==> {
                let i = if reverse { order[b] as int } else { order[a] as int };
                let j = if reverse { order[a] as int } else { order[b] as int };
                ||| seq_less(
                    lowercase(projects[i].title_view()),
                    lowercase(projects[j].title_view()),
                )
                ||| (lowercase(projects[i].title_view()) == lowercase(projects[j].title_view()) && i < j)
            },
{
    let keys = sort_keys(projects, mode);
    lemma_listing_pairs(keys, reverse, order);
    let sorted = if reverse { order.reverse() } else { order };
    assert forall|a: int, b: int| #![trigger order[a], order[b]] 0 <= a < b < order.len() implies {
        let i = if reverse { order[b] as int } else { order[a] as int };
        let j = if reverse { order[a] as int } else { order[b] as int };
        ||| seq_less(lowercase(projects[i].title_view()), lowercase(projects[j].title_view()))
        ||| (lowercase(projects[i].title_view()) == lowercase(projects[j].title_view()) && i < j)
    } by {
        let i = if reverse { order[b] as int } else { order[a] as int };
        let j = if reverse { order[a] as int } else { order[b] as int };
        assert(key_before(keys, i, j));
        assert(order[a] < projects.len() && order[b] < projects.len()) by {
            if reverse {
                assert(sorted[order.len() - 1 - a] == order[a]);
                assert(sorted[order.len() - 1 - b] == order[b]);
            }
        }
        assert(keys[i] == lowercase(projects[i].title_view()));
        assert(keys[j] == lowercase(projects[j].title_view()));
    }
}

/// Sorting by slug orders the projects by slug, compared as text, ties kept
/// in list order (the other way round when reversed).
pub proof fn law_sorted_by_slug(projects: Seq<Project>, reverse: bool, order: Seq<usize>)
    requires
        listing_order(projects, Some(SortingMode::Slug), reverse, order),
    ensures
        forall|a: int, b: int|
            #![trigger order[a], order[b]]
            0 <= a < b < order.len() ==> {
                let i = if reverse { order[b] as int } else { order[a] as int };
                let j = if reverse { order[a] as int } else { order[b] as int };
                ||| seq_less(projects[i].slug_view(), projects[j].slug_view())
                ||| (projects[i].slug_view() == projects[j].slug_view() && i < j)
            },
{
    let keys = sort_keys(projects, SortingMode::Slug);
    lemma_listing_pairs(keys, reverse, order);
    let sorted = if reverse { order.reverse() } else { order };
    assert forall|a: int, b: int| #![trigger order[a], order[b]] 0 <= a < b < order.len() implies {
        let i = if reverse { order[b] as int } else { order[a] as int };
        let j = if reverse { order[a] as int } else { order[b] as int };
        ||| seq_less(projects[i].slug_view(), projects[j].slug_view())
        ||| (projects[i].slug_view() == projects[j].slug_view() && i < j)
    } by {
        let i = if reverse { order[b] as int } else { order[a] as int };
        let j = if reverse { order[a] as int } else { order[b] as int };
        assert(key_before(keys, i, j));
        assert(order[a] < projects.len() && order[b] < projects.len()) by {
            if reverse {
                assert(sorted[order.len() - 1 - a] == order[a]);
                assert(sorted[order.len() - 1 - b] == order[b]);
            }
        }
        assert(keys[i] == projects[i].slug_view());
        assert(keys[j] == projects[j].slug_view());
    }
}

/// Sorting by id orders the projects by id, compared as text (so `10`
/// before `9`), ties kept in list order (the other way round when reversed).
pub proof fn law_sorted_by_id(projects: Seq<Project>, reverse: bool, order: Seq<usize>)
    requires
        listing_order(projects, Some(SortingMode::Id), reverse, order),
    ensures
        forall|a: int, b: int|
            #![trigger order[a], order[b]]
            0 <= a < b < order.len() ==> {
                let i = if reverse { order[b] as int } else { order[a] as int };
                let j = if reverse { order[a] as int } else { order[b] as int };
                ||| seq_less(projects[i].id_view(), projects[j].id_view())
                ||| (projects[i].id_view() == projects[j].id_view() && i < j)
            },
{
    let keys = sort_keys(projects, SortingMode::Id);
    lemma_listing_pairs(keys, reverse, order);
    let sorted = if reverse { order.reverse() } else { order };
    assert forall|a: int, b: int| #![trigger order[a], order[b]] 0 <= a < b < order.len() implies {
        let i = if reverse { order[b] as int } else { order[a] as int };
        let j = if reverse { order[a] as int } else { order[b] as int };
        ||| seq_less(projects[i].id_view(), projects[j].id_view())
        ||| (projects[i].id_view() == projects[j].id_view() && i < j)
    } by {
        let i = if reverse { order[b] as int } else { order[a] as int };
        let j = if reverse { order[a] as int } else { order[b] as int };
        assert(key_before(keys, i, j));
        assert(order[a] < projects.len() && order[b] < projects.len()) by {
            if reverse {
                assert(sorted[order.len() - 1 - a] == order[a]);
                assert(sorted[order.len() - 1 - b] == order[b]);
            }
        }
        assert(keys[i] == projects[i].id_view());
        assert(keys[j] == projects[j].id_view());
    }
}

/// Sorting by name and sorting by title give the same listing.
pub proof fn law_name_and_title_agree(projects: Seq<Project>, reverse: bool, order: Seq<usize>)
    ensures
        listing_order(projects, Some(SortingMode::Name), reverse, order) <==> listing_order(
            projects,
            Some(SortingMode::Title),
            reverse,
            order,
        ),
{
    assert(sort_keys(projects, SortingMode::Name) =~= sort_keys(projects, SortingMode::Title));
}

} // verus!
