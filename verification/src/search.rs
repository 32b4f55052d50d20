//! The file-search panel's own rules: the remembered paths and patterns, pattern
//! checking, result intake and its status lines, how many matches a result shows,
//! and the layout of a highlighted line.
use vstd::prelude::*;

use crate::text::{chars_of, dec, push_char, push_dec, push_str, string_from_chars};

verus! {

/// Paths and patterns remembered, most recent first.
pub const MAX_HISTORY: usize = 20;
/// Matches shown for a file before "show more".
pub const COLLAPSE_THRESHOLD: usize = 5;
/// Results kept before the search is stopped.
pub const MAX_RESULTS: usize = 2000;
/// Characters of a context line that are displayed.
pub const DISPLAY_CHARS: usize = 200;

// ── remembered values ───────────────────────────────────────────────────────

/// The texts of a list of strings.
pub open spec fn views(s: Seq<String>) -> Seq<Seq<char>> {
    s.map_values(|x: String| x@)
}

/// `s` without the occurrences of `v`, in order.
pub open spec fn without(s: Seq<Seq<char>>, v: Seq<char>) -> Seq<Seq<char>>
    decreases s.len(),
{
    if s.len() == 0 {
        s
    } else {
        let w = without(s.drop_last(), v);
        if s.last() == v { w } else { w.push(s.last()) }
    }
}

/// The history after remembering `v`: `v` first, then the other values in their
/// order, at most twenty in all.
pub open spec fn pushed_history(s: Seq<Seq<char>>, v: Seq<char>) -> Seq<Seq<char>> {
    let t = seq![v] + without(s, v);
    if t.len() > MAX_HISTORY { t.take(MAX_HISTORY as int) } else { t }
}

/// No value occurs twice in `s`.
pub open spec fn distinct(s: Seq<Seq<char>>) -> bool {
    forall|i: int, j: int| 0 <= i < j < s.len() ==> s[i] != s[j]
}

/// Remembers `value` at the front of `history`, dropping its earlier occurrences
/// and what falls beyond the twentieth place.
pub fn push_history(history: &mut Vec<String>, value: String)
    ensures
        views(final(history)@) == pushed_history(views(old(history)@), value@),
{
    let mut kept: Vec<String> = Vec::new();
    let mut i: usize = 0;
    while i < history.len()
        invariant
            i <= history@.len(),
            views(kept@) == without(views(history@.take(i as int)), value@),
        decreases history@.len() - i,
    {
        proof {
            assert(views(history@.take(i + 1)).drop_last() =~= views(history@.take(i as int)));
        }
        if history[i] != value {
            kept.push(history[i].clone());
            proof {
                assert(views(kept@) =~= without(views(history@.take(i + 1)), value@));
            }
        }
        i = i + 1;
    }
    proof {
        assert(history@.take(history@.len() as int) =~= history@);
    }
    let ghost w = views(kept@);
    kept.insert(0, value);
    proof {
        assert(views(kept@) =~= seq![value@] + w);
    }
    let ghost k = kept@;
    kept.truncate(MAX_HISTORY);
    proof {
        if k.len() > MAX_HISTORY {
            assert(views(kept@) =~= views(k).take(MAX_HISTORY as int));
        }
    }
    *history = kept;
}

proof fn lemma_without(s: Seq<Seq<char>>, v: Seq<char>)
    ensures
        forall|i: int| 0 <= i < without(s, v).len() ==> #[trigger] without(s, v)[i] != v,
        forall|i: int| 0 <= i < without(s, v).len() ==> s.contains(#[trigger] without(s, v)[i]),
        without(s, v).len() <= s.len(),
        distinct(s) ==> distinct(without(s, v)),
        !s.contains(v) ==> without(s, v) == s,
    decreases s.len(),
{
    if s.len() > 0 {
        let p = s.drop_last();
        lemma_without(p, v);
        let w = without(p, v);
        assert forall|i: int| 0 <= i < without(s, v).len() implies s.contains(#[trigger] without(s, v)[i]) by {
            if i < w.len() {
                let k = choose|k: int| 0 <= k < p.len() && p[k] == w[i];
                assert(s[k] == w[i]);
            } else {
                assert(s[s.len() - 1] == s.last());
            }
        }
        if distinct(s) {
            assert(distinct(p));
            if s.last() != v {
                assert forall|i: int, j: int| 0 <= i < j < without(s, v).len() implies without(s, v)[i] != without(s, v)[j] by {
                    if j == w.len() {
                        let k = choose|k: int| 0 <= k < p.len() && p[k] == w[i];
                        assert(s[k] == p[k]);
                        assert(s[s.len() - 1] == s.last());
                    }
                }
            }
        }
        if !s.contains(v) {
            assert forall|k: int| 0 <= k < p.len() implies p[k] != v by {
                assert(s[k] == p[k]);
            }
            assert(!p.contains(v));
            assert(s[s.len() - 1] != v);
            assert(w.push(s.last()) =~= s);
        }
    }
}

proof fn lemma_without_append(a: Seq<Seq<char>>, b: Seq<Seq<char>>, v: Seq<char>)
    ensures
        without(a + b, v) == without(a, v) + without(b, v),
    decreases b.len(),
{
    if b.len() == 0 {
        assert(a + b =~= a);
        assert(without(a, v) + without(b, v) =~= without(a, v));
    } else {
        lemma_without_append(a, b.drop_last(), v);
        assert((a + b).drop_last() =~= a + b.drop_last());
        assert((a + b).last() == b.last());
        if b.last() == v {
        } else {
            assert(without(a, v) + without(b.drop_last(), v).push(b.last()) =~= (without(a, v) + without(b.drop_last(), v)).push(b.last()));
        }
    }
}

/// After remembering `v`, it is first, it occurs nowhere else, and at most twenty
/// values are remembered; a history without repeats stays without repeats.
pub proof fn lemma_push_history(s: Seq<Seq<char>>, v: Seq<char>)
    ensures
        pushed_history(s, v).len() >= 1,
        pushed_history(s, v)[0] == v,
        forall|i: int| 1 <= i < pushed_history(s, v).len() ==> #[trigger] pushed_history(s, v)[i] != v,
        pushed_history(s, v).len() <= MAX_HISTORY,
        distinct(s) ==> distinct(pushed_history(s, v)),
{
    lemma_without(s, v);
    let w = without(s, v);
    let t = seq![v] + w;
    let r = pushed_history(s, v);
    assert forall|i: int| 1 <= i < r.len() implies #[trigger] r[i] != v by {
        assert(r[i] == w[i - 1]);
    }
    if distinct(s) {
        assert forall|i: int, j: int| 0 <= i < j < r.len() implies r[i] != r[j] by {
            assert(r[j] == w[j - 1]);
            if i > 0 {
                assert(r[i] == w[i - 1]);
            }
        }
    }
}

/// Remembering the same value twice in a row gives the history that remembering
/// it once gives.
pub proof fn lemma_push_history_twice(s: Seq<Seq<char>>, v: Seq<char>)
    ensures
        pushed_history(pushed_history(s, v), v) == pushed_history(s, v),
{
    lemma_without(s, v);
    let w = without(s, v);
    let t = pushed_history(s, v);
    let rest = t.drop_first();
    assert(t =~= seq![v] + rest);
    assert forall|k: int| 0 <= k < rest.len() implies rest[k] != v by {
        assert(rest[k] == w[k]);
    }
    assert(!rest.contains(v));
    lemma_without(rest, v);
    lemma_without_append(seq![v], rest, v);
    assert(without(seq![v], v) =~= Seq::<Seq<char>>::empty()) by {
        reveal_with_fuel(without, 2);
        assert(seq![v].drop_last() =~= Seq::<Seq<char>>::empty());
        assert(seq![v].last() == v);
    }
    assert(Seq::<Seq<char>>::empty() + rest =~= rest);
    assert(without(t, v) =~= rest);
    assert(seq![v] + rest =~= t);
}

// ── checking a pattern ──────────────────────────────────────────────────────

/// The characters that have a meaning in a regular expression.
pub open spec fn is_meta(c: char) -> bool {
    c == '\\' || c == '.' || c == '+' || c == '*' || c == '?' || c == '(' || c == ')' || c == '|'
        || c == '[' || c == ']' || c == '{' || c == '}' || c == '^' || c == '$' || c == '#'
        || c == '&' || c == '-' || c == '~'
}

/// `s` with a backslash before each meta character.
pub open spec fn escaped(s: Seq<char>) -> Seq<char>
    decreases s.len(),
{
    if s.len() == 0 {
        Seq::empty()
    } else {
        escaped(s.drop_last()) + (if is_meta(s.last()) { seq!['\\', s.last()] } else { seq![s.last()] })
    }
}

/// `regex::escape`: puts a backslash before every meta character of `s`
/// (backslash, `.+*?()|[]{}^$#&-~`) and copies the other characters.
#[verifier::external_body]
fn escape_pattern(s: &str) -> (r: String)
    ensures
        r@ == escaped(s@),
{
    regex::escape(s)
}

/// What the regex crate reports when it refuses `pattern`, or `None` when it
/// compiles it, with case folding as `ignore_case` says.
pub uninterp spec fn regex_build_error(pattern: Seq<char>, ignore_case: bool) -> Option<Seq<char>>;

/// `regex::RegexBuilder::new(pattern).case_insensitive(ignore_case).build()`: the
/// text of its error, or `None` when the pattern compiles. Which patterns compile
/// and the wording of the error are the regex crate's and are only named here.
#[verifier::external_body]
fn regex_error(pattern: &str, ignore_case: bool) -> (r: Option<String>)
    ensures
        r.deep_view() == regex_build_error(pattern@, ignore_case),
{
    match regex::RegexBuilder::new(pattern).case_insensitive(ignore_case).build() {
        Ok(_) => None,
        Err(e) => Some(format!("{}", e)),
    }
}

/// The pattern as it is compiled: escaped when it is a fixed string.
pub open spec fn compiled_pattern(pattern: Seq<char>, fixed: bool) -> Seq<char> {
    if fixed { escaped(pattern) } else { pattern }
}

/// The problem shown under the pattern field: none for an empty pattern,
/// otherwise the regex crate's error for the compiled pattern, if any.
pub open spec fn pattern_problem(pattern: Seq<char>, ignore_case: bool, fixed: bool) -> Option<Seq<char>> {
    if pattern.len() == 0 {
        None
    } else {
        regex_build_error(compiled_pattern(pattern, fixed), ignore_case)
    }
}

/// Checks the pattern as typed.
pub fn pattern_error(pattern: &str, ignore_case: bool, fixed: bool) -> (r: Option<String>)
    ensures
        r.deep_view() == pattern_problem(pattern@, ignore_case, fixed),
{
    if pattern.is_empty() {
        return None;
    }
    if fixed {
        let p = escape_pattern(pattern);
        regex_error(p.as_str(), ignore_case)
    } else {
        regex_error(pattern, ignore_case)
    }
}

/// What starting a search comes to.
#[derive(Debug)]
pub enum SearchStart {
    /// The pattern is empty: nothing happens.
    Skip,
    /// The path does not exist: this error is shown under it.
    BadPath(String),
    /// The pattern does not compile: this status is shown (the path and the
    /// pattern are still remembered).
    BadRegex(String),
    /// The search runs with this compiled pattern.
    Go(String),
}

/// Decides how a search starts, from the typed pattern and path, whether the path
/// exists, and the two search options.
pub fn search_start(pattern: &str, path: &str, path_exists: bool, ignore_case: bool, fixed: bool) -> (r: SearchStart)
    ensures
        pattern@.len() == 0 ==> r is Skip,
        pattern@.len() > 0 && !path_exists ==> (r matches SearchStart::BadPath(m) && m@ == "路径不存在: "@ + path@),
        pattern@.len() > 0 && path_exists ==> match regex_build_error(compiled_pattern(pattern@, fixed), ignore_case) {
            Some(e) => r matches SearchStart::BadRegex(m) && m@ == "无效的正则: "@ + e,
            None => r matches SearchStart::Go(p) && p@ == compiled_pattern(pattern@, fixed),
        },
{
    if pattern.is_empty() {
        return SearchStart::Skip;
    }
    if !path_exists {
        let mut m = String::new();
        push_str(&mut m, "路径不存在: ");
        push_str(&mut m, path);
        proof {
            assert(m@ =~= "路径不存在: "@ + path@);
        }
        return SearchStart::BadPath(m);
    }
    let pat = if fixed { escape_pattern(pattern) } else { pattern.to_string() };
    match regex_error(pat.as_str(), ignore_case) {
        Some(e) => {
            let mut m = String::new();
            push_str(&mut m, "无效的正则: ");
            push_str(&mut m, e.as_str());
            proof {
                assert(m@ =~= "无效的正则: "@ + e@);
            }
            SearchStart::BadRegex(m)
        },
        None => SearchStart::Go(pat),
    }
}

// ── browsing the pattern history ────────────────────────────────────────────

/// The history entry selected after an arrow key in the pattern field: up moves to
/// older entries (stopping at the oldest), down to newer ones and, past the newest,
/// back to the typed pattern (`None`). Up wins when both are pressed.
pub open spec fn history_step_spec(idx: Option<usize>, len: int, up: bool, down: bool) -> Option<usize> {
    if len == 0 || !(up || down) {
        idx
    } else {
        match idx {
            None => if up { Some(0usize) } else { None },
            Some(i) => if up {
                Some((if i + 1 < len - 1 { i + 1 } else { len - 1 }) as usize)
            } else if i == 0 {
                None
            } else {
                Some((i - 1) as usize)
            },
        }
    }
}

/// Browsing the remembered patterns: the index stays inside the list; up from the
/// typed pattern goes to the newest entry and down from the newest back to the
/// typed pattern; one step up and then one step down come back to where they
/// started unless the first step stopped at the oldest entry; without a key
/// nothing moves.
pub proof fn lemma_history_step(idx: Option<usize>, len: int, i: usize)
    requires
        0 <= len <= usize::MAX,
    ensures
        history_step_spec(idx, len, false, false) == idx,
        len > 0 && (idx matches Some(j) ==> j < len) ==> (history_step_spec(idx, len, true, false) matches Some(j) ==> j < len),
        len > 0 && (idx matches Some(j) ==> j < len) ==> (history_step_spec(idx, len, false, true) matches Some(j) ==> j < len),
        len > 0 ==> history_step_spec(None, len, true, false) == Some(0usize),
        len > 0 ==> history_step_spec(Some(0usize), len, false, true) is None,
        len > 0 ==> history_step_spec(None, len, false, true) is None,
        i + 1 < len ==> history_step_spec(Some(i), len, true, false) == Some((i + 1) as usize),
        i + 1 < len ==> history_step_spec(history_step_spec(Some(i), len, true, false), len, false, true) == Some(i),
        len > 0 ==> history_step_spec(history_step_spec(None, len, true, false), len, false, true) is None,
        i + 1 == len ==> history_step_spec(Some(i), len, true, false) == Some(i),
        history_step_spec(idx, len, true, true) == history_step_spec(idx, len, true, false),
{
}

/// Moves through the remembered patterns.
pub fn history_step(idx: Option<usize>, len: usize, up: bool, down: bool) -> (r: Option<usize>)
    ensures
        r == history_step_spec(idx, len as int, up, down),
{
    if len == 0 || !(up || down) {
        return idx;
    }
    match idx {
        None => if up { Some(0) } else { None },
        Some(i) => if up {
            Some(if i < len - 1 { i + 1 } else { len - 1 })
        } else if i == 0 {
            None
        } else {
            Some(i - 1)
        },
    }
}

// ── what a result shows ─────────────────────────────────────────────────────

/// What is searched: file names or file contents.
#[derive(Clone, Copy, PartialEq, Eq, Structural, Debug)]
pub enum SearchMode {
    Text,
    Filename,
}

/// Matches shown for a result with `n` matches, and whether a "show more" button
/// follows: in text mode, none when the result is collapsed, all when it was
/// expanded, else at most five; never any in file-name mode.
pub open spec fn shown_spec(mode: SearchMode, collapsed: bool, expanded: bool, n: int) -> (int, bool) {
    if mode == SearchMode::Text && !collapsed {
        if expanded {
            (n, false)
        } else {
            (if n < COLLAPSE_THRESHOLD { n } else { COLLAPSE_THRESHOLD as int }, n > COLLAPSE_THRESHOLD)
        }
    } else {
        (0, false)
    }
}

/// How much of a result is shown: never more than it has; a collapsed result and
/// any result in file-name mode show none and no button; an expanded one shows all;
/// otherwise the first five, with the button exactly when some are left out.
pub proof fn lemma_shown_matches(mode: SearchMode, collapsed: bool, expanded: bool, n: int)
    requires
        0 <= n,
    ensures
        0 <= shown_spec(mode, collapsed, expanded, n).0 <= n,
        collapsed || mode == SearchMode::Filename ==> shown_spec(mode, collapsed, expanded, n) == (0int, false),
        mode == SearchMode::Text && !collapsed && expanded ==> shown_spec(mode, collapsed, expanded, n) == (n, false),
        mode == SearchMode::Text && !collapsed && !expanded ==> {
            &&& shown_spec(mode, collapsed, expanded, n).0 == if n <= 5 { n } else { 5 }
            &&& shown_spec(mode, collapsed, expanded, n).1 == (shown_spec(mode, collapsed, expanded, n).0 < n)
        },
        shown_spec(mode, collapsed, expanded, n).1 ==> shown_spec(mode, collapsed, expanded, n).0 < n,
{
}

/// Decides how many matches of a result are shown.
pub fn shown_matches(mode: SearchMode, collapsed: bool, expanded: bool, n: usize) -> (r: (usize, bool))
    ensures
        r.0 as int == shown_spec(mode, collapsed, expanded, n as int).0,
        r.1 == shown_spec(mode, collapsed, expanded, n as int).1,
{
    if mode == SearchMode::Text && !collapsed {
        if expanded {
            (n, false)
        } else {
            (if n < COLLAPSE_THRESHOLD { n } else { COLLAPSE_THRESHOLD }, n > COLLAPSE_THRESHOLD)
        }
    } else {
        (0, false)
    }
}

/// The first 200 characters of `s` (all of it when it is shorter).
pub open spec fn display_prefix(s: Seq<char>) -> Seq<char> {
    s.take(if s.len() < DISPLAY_CHARS { s.len() as int } else { DISPLAY_CHARS as int })
}

/// A displayed context line is the start of the line: all of it up to 200
/// characters, else its first 200.
pub proof fn lemma_display_prefix(s: Seq<char>)
    ensures
        display_prefix(s).len() == if s.len() <= 200 { s.len() } else { 200 },
        forall|k: int| 0 <= k < display_prefix(s).len() ==> #[trigger] display_prefix(s)[k] == s[k],
        s.len() <= 200 ==> display_prefix(s) == s,
{
    if s.len() <= 200 {
        assert(display_prefix(s) =~= s);
    }
}

/// Cuts a context line to the part that is displayed.
pub fn truncate_display(s: &str) -> (r: String)
    ensures
        r@ == display_prefix(s@),
{
    let chars = chars_of(s);
    let end = if chars.len() < DISPLAY_CHARS { chars.len() } else { DISPLAY_CHARS };
    let r = string_from_chars(&chars, 0, end);
    proof {
        assert(chars@.subrange(0, end as int) =~= display_prefix(s@));
    }
    r
}

/// Position of the last '/' in `s`, if any.
pub open spec fn last_slash(s: Seq<char>) -> Option<int>
    decreases s.len(),
{
    if s.len() == 0 {
        None
    } else if s.last() == '/' {
        Some(s.len() - 1)
    } else {
        last_slash(s.drop_last())
    }
}

proof fn lemma_last_slash(s: Seq<char>)
    ensures
        match last_slash(s) {
            Some(i) => 0 <= i < s.len() && s[i] == '/' && forall|k: int| i < k < s.len() ==> s[k] != '/',
            None => forall|k: int| 0 <= k < s.len() ==> s[k] != '/',
        },
    decreases s.len(),
{
    if s.len() > 0 {
        assert(s[s.len() - 1] == s.last());
        if s.last() != '/' {
            let p = s.drop_last();
            lemma_last_slash(p);
            match last_slash(p) {
                Some(i) => {
                    assert(s[i] == p[i]);
                    assert forall|k: int| i < k < s.len() implies s[k] != '/' by {
                        if k < p.len() {
                            assert(s[k] == p[k]);
                        }
                    }
                },
                None => {
                    assert forall|k: int| 0 <= k < s.len() implies s[k] != '/' by {
                        if k < p.len() {
                            assert(s[k] == p[k]);
                        }
                    }
                },
            }
        }
    }
}

/// A path's file name (after its last '/') and its parent (before it, or empty
/// when there is no '/').
pub open spec fn path_parts(s: Seq<char>) -> (Seq<char>, Seq<char>) {
    match last_slash(s) {
        Some(i) => (s.subrange(i + 1, s.len() as int), s.subrange(0, i)),
        None => (s, Seq::empty()),
    }
}

/// Splitting a path: the file name holds no '/'; when the path holds a '/', it is
/// the parent, a '/' and the file name joined; otherwise the name is the whole
/// path and the parent is empty.
pub proof fn lemma_path_parts(s: Seq<char>)
    ensures
        forall|k: int| 0 <= k < path_parts(s).0.len() ==> #[trigger] path_parts(s).0[k] != '/',
        (exists|k: int| 0 <= k < s.len() && s[k] == '/') ==> s == path_parts(s).1 + seq!['/'] + path_parts(s).0,
        (forall|k: int| 0 <= k < s.len() ==> s[k] != '/') ==> path_parts(s) == (s, Seq::<char>::empty()),
{
    lemma_last_slash(s);
    match last_slash(s) {
        Some(i) => {
            assert(s =~= s.subrange(0, i) + seq!['/'] + s.subrange(i + 1, s.len() as int));
            assert forall|k: int| 0 <= k < path_parts(s).0.len() implies #[trigger] path_parts(s).0[k] != '/' by {
                assert(path_parts(s).0[k] == s[i + 1 + k]);
            }
        },
        None => {},
    }
}

/// Splits a '/'-separated path into its file name and its parent.
pub fn split_path(path: &str) -> (r: (String, String))
    ensures
        r.0@ == path_parts(path@).0,
        r.1@ == path_parts(path@).1,
{
    let chars = chars_of(path);
    let n = chars.len();
    let mut i: usize = n;
    proof {
        assert(path@.take(n as int) =~= path@);
    }
    while i > 0 && chars[i - 1] != '/'
        invariant
            i <= n,
            n == chars@.len(),
            chars@ == path@,
            last_slash(path@) == last_slash(path@.take(i as int)),
        decreases i,
    {
        proof {
            assert(path@.take(i as int).drop_last() =~= path@.take(i - 1));
        }
        i = i - 1;
    }
    proof {
        lemma_last_slash(path@.take(i as int));
    }
    if i == 0 {
        proof {
            assert(path@.take(0) =~= Seq::<char>::empty());
        }
        let name = string_from_chars(&chars, 0, n);
        proof {
            assert(chars@.subrange(0, n as int) =~= path@);
        }
        (name, String::new())
    } else {
        let name = string_from_chars(&chars, i, n);
        let parent = string_from_chars(&chars, 0, i - 1);
        (name, parent)
    }
}

// ── context lines ───────────────────────────────────────────────────────────

/// The last line a match row leaves on screen: the line after it when its
/// following line is shown, else its own line.
pub open spec fn last_shown(rows: Seq<(usize, bool, bool)>, k: int) -> Option<int> {
    if k <= 0 {
        None
    } else {
        let r = rows[k - 1];
        Some(if r.2 { r.0 + 1 } else { r.0 as int })
    }
}

/// Row `k` (line number, has a line before, has a line after) shows its preceding
/// line unless that line is already on screen as the previous row's last line.
pub open spec fn shows_before(rows: Seq<(usize, bool, bool)>, k: int) -> bool {
    let before = if rows[k].0 > 0 { rows[k].0 - 1 } else { 0 };
    rows[k].1 && last_shown(rows, k) != Some(before)
}

/// For each shown match, whether its preceding context line is displayed.
pub fn context_before_flags(rows: &Vec<(usize, bool, bool)>) -> (r: Vec<bool>)
    ensures
        r@.len() == rows@.len(),
        forall|k: int| 0 <= k < rows@.len() ==> #[trigger] r@[k] == shows_before(rows@, k),
{
    let mut r: Vec<bool> = Vec::new();
    let mut i: usize = 0;
    while i < rows.len()
        invariant
            i <= rows@.len(),
            r@.len() == i,
            forall|k: int| 0 <= k < i ==> #[trigger] r@[k] == shows_before(rows@, k),
        decreases rows@.len() - i,
    {
        let (line, has_before, _) = rows[i];
        let before = if line > 0 { line - 1 } else { 0 };
        let repeated = if i == 0 {
            false
        } else {
            let (prev, _, prev_after) = rows[i - 1];
            if prev_after { prev < before && before - prev == 1 } else { prev == before }
        };
        r.push(has_before && !repeated);
        i = i + 1;
    }
    r
}

// ── result intake and status lines ──────────────────────────────────────────

/// Counts of a search in progress.
#[derive(Clone, Copy, PartialEq, Eq, Structural, Debug)]
pub struct SearchProgress {
    /// Results kept.
    pub count: usize,
    /// Matches in the results kept.
    pub matches: usize,
    /// A result arrived after the cap was reached.
    pub capped: bool,
}

impl SearchProgress {
    /// Nothing received yet.
    pub fn new() -> (p: Self)
        ensures
            p.count == 0,
            p.matches == 0,
            !p.capped,
    {
        SearchProgress { count: 0, matches: 0, capped: false }
    }

    /// A result with `n` matches arrived. Below the cap it is kept (`Some(true)`);
    /// the first result beyond it marks the search capped and asks for it to be
    /// stopped (`Some(false)`); later ones are dropped (`None`).
    pub fn on_result(&mut self, n: usize) -> (r: Option<bool>)
        requires
            old(self).count < MAX_RESULTS ==> old(self).matches + n <= usize::MAX,
        ensures
            old(self).count < MAX_RESULTS ==> {
                &&& r == Some(true)
                &&& final(self).count == old(self).count + 1
                &&& final(self).matches == old(self).matches + n
                &&& final(self).capped == old(self).capped
            },
            old(self).count >= MAX_RESULTS && !old(self).capped ==> {
                &&& r == Some(false)
                &&& *final(self) == (SearchProgress { capped: true, ..*old(self) })
            },
            old(self).count >= MAX_RESULTS && old(self).capped ==> {
                &&& r.is_none()
                &&& *final(self) == *old(self)
            },
    {
        if self.count < MAX_RESULTS {
            self.matches = self.matches + n;
            self.count = self.count + 1;
            Some(true)
        } else if !self.capped {
            self.capped = true;
            Some(false)
        } else {
            None
        }
    }

    /// Takes in result `r`, which holds `n` matches: below the cap it is appended
    /// to `results`; beyond it `results` stays as it was, the search is marked
    /// capped, and `true` is returned the first time, to ask for the search to be
    /// stopped.
    pub fn take_result<T>(&mut self, results: &mut Vec<T>, r: T, n: usize) -> (stop: bool)
        requires
            old(self).count < MAX_RESULTS ==> old(self).matches + n <= usize::MAX,
        ensures
            old(self).count < MAX_RESULTS ==> {
                &&& final(results)@ == old(results)@.push(r)
                &&& !stop
                &&& final(self).count == old(self).count + 1
                &&& final(self).matches == old(self).matches + n
                &&& final(self).capped == old(self).capped
            },
            old(self).count >= MAX_RESULTS ==> {
                &&& final(results)@ == old(results)@
                &&& stop == !old(self).capped
                &&& *final(self) == (SearchProgress { capped: true, ..*old(self) })
            },
            old(results)@.len() == old(self).count <= MAX_RESULTS ==> final(results)@.len() == final(self).count
                <= MAX_RESULTS,
    {
        match self.on_result(n) {
            Some(true) => {
                results.push(r);
                false
            },
            Some(false) => true,
            None => false,
        }
    }
}

/// The status line while a search runs.
pub open spec fn live_status_text(mode: SearchMode, p: SearchProgress) -> Seq<char> {
    if mode == SearchMode::Filename {
        "搜索中… 已找到 "@ + dec(p.count as nat) + " 个文件"@ + (if p.capped { "（已达上限）"@ } else { ""@ })
    } else {
        "搜索中… "@ + dec(p.matches as nat) + " 处匹配 / "@ + dec(p.count as nat) + " 个文件"@
    }
}

/// Formats the status line while a search runs.
pub fn live_status(mode: SearchMode, p: SearchProgress) -> (r: String)
    ensures
        r@ == live_status_text(mode, p),
{
    let mut s = String::new();
    if mode == SearchMode::Filename {
        push_str(&mut s, "搜索中… 已找到 ");
        push_dec(&mut s, p.count as u64);
        push_str(&mut s, " 个文件");
        if p.capped {
            push_str(&mut s, "（已达上限）");
        } else {
            push_str(&mut s, "");
        }
    } else {
        push_str(&mut s, "搜索中… ");
        push_dec(&mut s, p.matches as u64);
        push_str(&mut s, " 处匹配 / ");
        push_dec(&mut s, p.count as u64);
        push_str(&mut s, " 个文件");
    }
    proof {
        assert(s@ =~= live_status_text(mode, p));
    }
    s
}

/// The status line when a search ends after `ms` milliseconds.
pub open spec fn done_status_text(mode: SearchMode, p: SearchProgress, ms: u64) -> Seq<char> {
    let t = " ("@ + dec(ms as nat) + "ms)"@;
    if p.count == 0 {
        "未找到结果"@ + t
    } else if mode == SearchMode::Filename {
        if p.capped {
            "找到 "@ + dec(MAX_RESULTS as nat) + "+ 个文件（已截断）"@ + t
        } else {
            "找到 "@ + dec(p.count as nat) + " 个文件"@ + t
        }
    } else {
        dec(p.matches as nat) + " 处匹配，共 "@ + dec(p.count as nat) + " 个文件"@ + t
    }
}

/// Formats the status line of a finished search.
pub fn done_status(mode: SearchMode, p: SearchProgress, ms: u64) -> (r: String)
    ensures
        r@ == done_status_text(mode, p, ms),
{
    let mut s = String::new();
    if p.count == 0 {
        push_str(&mut s, "未找到结果");
    } else if mode == SearchMode::Filename {
        if p.capped {
            push_str(&mut s, "找到 ");
            push_dec(&mut s, MAX_RESULTS as u64);
            push_str(&mut s, "+ 个文件（已截断）");
        } else {
            push_str(&mut s, "找到 ");
            push_dec(&mut s, p.count as u64);
            push_str(&mut s, " 个文件");
        }
    } else {
        push_dec(&mut s, p.matches as u64);
        push_str(&mut s, " 处匹配，共 ");
        push_dec(&mut s, p.count as u64);
        push_str(&mut s, " 个文件");
    }
    push_str(&mut s, " (");
    push_dec(&mut s, ms);
    push_str(&mut s, "ms)");
    proof {
        assert(s@ =~= done_status_text(mode, p, ms));
    }
    s
}

// ── highlighted lines ───────────────────────────────────────────────────────

/// A run of characters `[from, to)` of a line, highlighted or not.
#[derive(Clone, Copy, PartialEq, Eq, Structural, Debug)]
pub struct Segment {
    pub from: usize,
    pub to: usize,
    pub highlight: bool,
}

/// The runs produced by the first ranges, and the cursor after them: each range,
/// clipped to the line, adds the plain run from the cursor up to its start (when
/// it starts after the cursor) and its own highlighted run (when it is not
/// empty); the cursor moves to its end.
pub open spec fn runs(ranges: Seq<(usize, usize)>, total: int) -> (Seq<Segment>, int)
    decreases ranges.len(),
{
    if ranges.len() == 0 {
        (Seq::empty(), 0)
    } else {
        let (segs, cur) = runs(ranges.drop_last(), total);
        let s = if ranges.last().0 < total { ranges.last().0 as int } else { total };
        let e = if ranges.last().1 < total { ranges.last().1 as int } else { total };
        let a = if s > cur { segs.push(Segment { from: cur as usize, to: s as usize, highlight: false }) } else { segs };
        let b = if s < e { a.push(Segment { from: s as usize, to: e as usize, highlight: true }) } else { a };
        (b, e)
    }
}

/// The runs of a line of `total` characters with the highlighted `ranges`,
/// ending with a plain run up to the end of the line when one is left.
pub open spec fn segments_spec(ranges: Seq<(usize, usize)>, total: int) -> Seq<Segment> {
    let (segs, cur) = runs(ranges, total);
    if cur < total { segs.push(Segment { from: cur as usize, to: total as usize, highlight: false }) } else { segs }
}

/// Ranges as a matcher reports them: each `[start, end)` in order, none
/// overlapping the next.
pub open spec fn ordered_ranges(rs: Seq<(usize, usize)>) -> bool {
    &&& forall|i: int| 0 <= i < rs.len() ==> (#[trigger] rs[i]).0 <= rs[i].1
    &&& forall|i: int, j: int| 0 <= i < j < rs.len() ==> (#[trigger] rs[i]).1 <= (#[trigger] rs[j]).0
}

/// Character `p` lies in one of the ranges.
pub open spec fn in_ranges(rs: Seq<(usize, usize)>, p: int) -> bool {
    exists|i: int| 0 <= i < rs.len() && (#[trigger] rs[i]).0 <= p < rs[i].1
}

proof fn lemma_in_ranges_push(rs: Seq<(usize, usize)>, p: int)
    requires
        rs.len() > 0,
    ensures
        in_ranges(rs, p) <==> (in_ranges(rs.drop_last(), p) || (rs.last().0 <= p < rs.last().1)),
{
    let pre = rs.drop_last();
    if in_ranges(rs, p) {
        let i = choose|i: int| 0 <= i < rs.len() && (#[trigger] rs[i]).0 <= p < rs[i].1;
        if i < pre.len() {
            assert(pre[i] == rs[i]);
        }
    }
    if in_ranges(pre, p) {
        let i = choose|i: int| 0 <= i < pre.len() && (#[trigger] pre[i]).0 <= p < pre[i].1;
        assert(rs[i] == pre[i]);
    }
    if rs.last().0 <= p < rs.last().1 {
        assert(rs[rs.len() - 1] == rs.last());
    }
}

/// A range end clipped to a line of `total` characters.
pub open spec fn clip_at(v: usize, total: int) -> int {
    if v < total { v as int } else { total }
}

/// No range is empty.
pub open spec fn nonempty_ranges(rs: Seq<(usize, usize)>) -> bool {
    forall|i: int| 0 <= i < rs.len() ==> (#[trigger] rs[i]).0 < rs[i].1
}

/// What holds of the runs of the ranges `rs` and the cursor after them.
pub open spec fn runs_ok(rs: Seq<(usize, usize)>, total: int, segs: Seq<Segment>, cur: int) -> bool {
    &&& 0 <= cur <= total
    &&& rs.len() == 0 ==> cur == 0
    &&& rs.len() > 0 ==> cur == clip_at(rs.last().1, total)
    &&& segs.len() == 0 ==> cur == 0
    &&& segs.len() > 0 ==> segs[0].from == 0 && segs.last().to == cur
    &&& forall|k: int| 0 <= k < segs.len() ==> (#[trigger] segs[k]).from < segs[k].to && segs[k].to <= cur
    &&& forall|k: int| 0 <= k < segs.len() - 1 ==> (#[trigger] segs[k]).to == segs[k + 1].from
    &&& forall|k: int, p: int|
        #![trigger segs[k], in_ranges(rs, p)]
        0 <= k < segs.len() && segs[k].from <= p < segs[k].to ==> (segs[k].highlight <==> in_ranges(rs, p))
    &&& forall|k: int|
        0 <= k < segs.len() && (#[trigger] segs[k]).highlight ==> exists|i: int|
            0 <= i < rs.len() && clip_at((#[trigger] rs[i]).0, total) == segs[k].from && clip_at(rs[i].1, total) == segs[k].to
    &&& nonempty_ranges(rs) ==> forall|k: int|
        0 <= k < segs.len() - 1 ==> (#[trigger] segs[k]).highlight || segs[k + 1].highlight
    &&& nonempty_ranges(rs) && segs.len() > 0 && cur < total ==> segs.last().highlight
}

proof fn lemma_ordered_prefix(rs: Seq<(usize, usize)>)
    requires
        rs.len() > 0,
        ordered_ranges(rs),
    ensures
        ordered_ranges(rs.drop_last()),
        nonempty_ranges(rs) ==> nonempty_ranges(rs.drop_last()),
        forall|j: int| 0 <= j < rs.len() - 1 ==> (#[trigger] rs.drop_last()[j]) == rs[j],
        forall|j: int| 0 <= j < rs.len() - 1 ==> (#[trigger] rs[j]).1 <= rs.last().0,
{
    let pre = rs.drop_last();
    assert forall|i: int| 0 <= i < pre.len() implies (#[trigger] pre[i]).0 <= pre[i].1 by {
        assert(pre[i] == rs[i]);
    }
    assert forall|i: int, j: int| 0 <= i < j < pre.len() implies (#[trigger] pre[i]).1 <= (#[trigger] pre[j]).0 by {
        assert(pre[i] == rs[i]);
        assert(pre[j] == rs[j]);
    }
    if nonempty_ranges(rs) {
        assert forall|i: int| 0 <= i < pre.len() implies (#[trigger] pre[i]).0 < pre[i].1 by {
            assert(pre[i] == rs[i]);
        }
    }
    assert forall|j: int| 0 <= j < rs.len() - 1 implies (#[trigger] rs[j]).1 <= rs.last().0 by {
        assert(rs[rs.len() - 1] == rs.last());
    }
}

#[verifier::rlimit(60)]
#[verifier::spinoff_prover]
proof fn lemma_runs_step(rs: Seq<(usize, usize)>, total: int)
    requires
        rs.len() > 0,
        ordered_ranges(rs),
        0 <= total <= usize::MAX,
        runs_ok(rs.drop_last(), total, runs(rs.drop_last(), total).0, runs(rs.drop_last(), total).1),
    ensures
        runs_ok(rs, total, runs(rs, total).0, runs(rs, total).1),
{
    let pre = rs.drop_last();
    lemma_ordered_prefix(rs);
    let (segs0, cur0) = runs(pre, total);
    let r = rs.last();
    let last = rs.len() - 1;
    assert(rs[last] == r);
    assert(r.0 <= r.1);
    let s = clip_at(r.0, total);
    let e = clip_at(r.1, total);
    // Every earlier range ends before the new one starts, and at or before the cursor.
    assert forall|j: int| 0 <= j < pre.len() implies (#[trigger] pre[j]).1 <= cur0 || cur0 == total by {
        let pl = pre.len() - 1;
        assert(pre.last() == pre[pl]);
        if j < pl {
            assert(rs[j].1 <= rs[pl].0);
        }
        assert(rs[pl].0 <= rs[pl].1);
    }
    if pre.len() > 0 {
        assert(pre.last() == pre[pre.len() - 1]);
        assert(pre[pre.len() - 1].1 <= r.0);
    }
    assert(cur0 <= s <= e);
    let a = if s > cur0 { segs0.push(Segment { from: cur0 as usize, to: s as usize, highlight: false }) } else { segs0 };
    let b = if s < e { a.push(Segment { from: s as usize, to: e as usize, highlight: true }) } else { a };
    assert(runs(rs, total) == (b, e));
    assert forall|k: int, p: int|
        #![trigger b[k], in_ranges(rs, p)]
        0 <= k < b.len() && b[k].from <= p < b[k].to implies (b[k].highlight <==> in_ranges(rs, p)) by {
        lemma_in_ranges_push(rs, p);
        if k < segs0.len() {
            assert(b[k] == segs0[k]);
            assert(segs0[k].highlight <==> in_ranges(pre, p));
        } else if k < a.len() {
            assert(b[k] == Segment { from: cur0 as usize, to: s as usize, highlight: false });
            if in_ranges(pre, p) {
                let i = choose|i: int| 0 <= i < pre.len() && (#[trigger] pre[i]).0 <= p < pre[i].1;
                assert(pre[i].1 <= cur0 || cur0 == total);
            }
        } else {
            assert(b[k] == Segment { from: s as usize, to: e as usize, highlight: true });
        }
    }
    assert forall|k: int|
        0 <= k < b.len() && (#[trigger] b[k]).highlight implies exists|i: int|
            0 <= i < rs.len() && clip_at((#[trigger] rs[i]).0, total) == b[k].from && clip_at(rs[i].1, total) == b[k].to by {
        if k < segs0.len() {
            assert(b[k] == segs0[k]);
            let i = choose|i: int|
                0 <= i < pre.len() && clip_at((#[trigger] pre[i]).0, total) == segs0[k].from && clip_at(pre[i].1, total)
                    == segs0[k].to;
            assert(rs[i] == pre[i]);
        } else if k < a.len() {
            assert(b[k] == Segment { from: cur0 as usize, to: s as usize, highlight: false });
        } else {
            assert(b[k] == Segment { from: s as usize, to: e as usize, highlight: true });
        }
    }
    assert forall|k: int| 0 <= k < b.len() - 1 implies (#[trigger] b[k]).to == b[k + 1].from by {
        if k + 1 < segs0.len() {
            assert(b[k] == segs0[k]);
            assert(b[k + 1] == segs0[k + 1]);
        } else if k + 1 == segs0.len() {
            assert(b[k] == segs0[k]);
            assert(segs0.last() == segs0[k]);
        }
    }
    if nonempty_ranges(rs) {
        assert(r.0 < r.1);
        assert forall|k: int| 0 <= k < b.len() - 1 implies (#[trigger] b[k]).highlight || b[k + 1].highlight by {
            if k + 1 < segs0.len() {
                assert(b[k] == segs0[k]);
                assert(b[k + 1] == segs0[k + 1]);
            } else if k + 1 == segs0.len() {
                assert(b[k] == segs0[k]);
                assert(segs0.last() == segs0[k]);
            }
        }
    }
    assert forall|k: int| 0 <= k < b.len() implies (#[trigger] b[k]).from < b[k].to && b[k].to <= e by {
        if k < segs0.len() {
            assert(b[k] == segs0[k]);
        }
    }
    if b.len() > 0 {
        if segs0.len() > 0 {
            assert(b[0] == segs0[0]);
        }
        assert(b.last() == b[b.len() - 1]);
    }
}

proof fn lemma_runs(rs: Seq<(usize, usize)>, total: int)
    requires
        ordered_ranges(rs),
        0 <= total <= usize::MAX,
    ensures
        runs_ok(rs, total, runs(rs, total).0, runs(rs, total).1),
    decreases rs.len(),
{
    if rs.len() > 0 {
        lemma_ordered_prefix(rs);
        lemma_runs(rs.drop_last(), total);
        lemma_runs_step(rs, total);
    }
}

/// The runs of a line cover it exactly: for ranges in order and not overlapping,
/// the runs follow one another without gap or overlap from the first character to
/// the last, none is empty, and a character is highlighted exactly when it lies
/// in one of the ranges. An empty line has no runs.
pub proof fn lemma_segments_cover(ranges: Seq<(usize, usize)>, total: int)
    requires
        ordered_ranges(ranges),
        0 <= total <= usize::MAX,
    ensures
        ({
            let segs = segments_spec(ranges, total);
            &&& total == 0 ==> segs.len() == 0
            &&& total > 0 ==> segs.len() > 0 && segs[0].from == 0 && segs.last().to == total
            &&& forall|k: int| 0 <= k < segs.len() ==> (#[trigger] segs[k]).from < segs[k].to
            &&& forall|k: int| 0 <= k < segs.len() - 1 ==> (#[trigger] segs[k]).to == segs[k + 1].from
            &&& forall|k: int, p: int|
                #![trigger segs[k], in_ranges(ranges, p)]
                0 <= k < segs.len() && segs[k].from <= p < segs[k].to ==> (segs[k].highlight <==> in_ranges(ranges, p))
            &&& forall|k: int|
                0 <= k < segs.len() && (#[trigger] segs[k]).highlight ==> exists|i: int|
                    0 <= i < ranges.len() && clip_at((#[trigger] ranges[i]).0, total) == segs[k].from && clip_at(
                        ranges[i].1,
                        total,
                    ) == segs[k].to
            &&& nonempty_ranges(ranges) ==> forall|k: int|
                0 <= k < segs.len() - 1 ==> (#[trigger] segs[k]).highlight || segs[k + 1].highlight
        }),
{
    lemma_runs(ranges, total);
    let (segs0, cur) = runs(ranges, total);
    let segs = segments_spec(ranges, total);
    if cur < total {
        assert forall|j: int| 0 <= j < ranges.len() implies (#[trigger] ranges[j]).1 <= cur || cur == total by {
            let l = ranges.len() - 1;
            assert(ranges.last() == ranges[l]);
            if j < l {
                assert(ranges[j].1 <= ranges[l].0);
            }
            assert(ranges[l].0 <= ranges[l].1);
        }
        assert forall|k: int, p: int|
            #![trigger segs[k], in_ranges(ranges, p)]
            0 <= k < segs.len() && segs[k].from <= p < segs[k].to implies (segs[k].highlight <==> in_ranges(ranges, p)) by {
            if k < segs0.len() {
                assert(segs[k] == segs0[k]);
            } else if in_ranges(ranges, p) {
                let i = choose|i: int| 0 <= i < ranges.len() && (#[trigger] ranges[i]).0 <= p < ranges[i].1;
                assert(ranges[i].1 <= cur || cur == total);
            }
        }
        assert forall|k: int| 0 <= k < segs.len() - 1 implies (#[trigger] segs[k]).to == segs[k + 1].from by {
            assert(segs[k] == segs0[k]);
            if k + 1 < segs0.len() {
                assert(segs[k + 1] == segs0[k + 1]);
            } else {
                assert(segs0.last() == segs0[k]);
            }
        }
        assert forall|k: int| 0 <= k < segs.len() implies (#[trigger] segs[k]).from < segs[k].to by {
            if k < segs0.len() {
                assert(segs[k] == segs0[k]);
            }
        }
        assert forall|k: int|
            0 <= k < segs.len() && (#[trigger] segs[k]).highlight implies exists|i: int|
                0 <= i < ranges.len() && clip_at((#[trigger] ranges[i]).0, total) == segs[k].from && clip_at(ranges[i].1, total)
                    == segs[k].to by {
            assert(k < segs0.len());
            assert(segs[k] == segs0[k]);
        }
        if nonempty_ranges(ranges) {
            assert forall|k: int| 0 <= k < segs.len() - 1 implies (#[trigger] segs[k]).highlight || segs[k + 1].highlight by {
                assert(segs[k] == segs0[k]);
                if k + 1 < segs0.len() {
                    assert(segs[k + 1] == segs0[k + 1]);
                } else {
                    assert(segs0.last() == segs0[k]);
                }
            }
        }
        if segs0.len() > 0 {
            assert(segs[0] == segs0[0]);
        }
    } else if segs0.len() > 0 {
        assert(segs0.last() == segs0[segs0.len() - 1]);
    }
}

/// Lays out a line of `total` characters with the highlighted character ranges.
pub fn highlight_segments(ranges: &[(usize, usize)], total: usize) -> (r: Vec<Segment>)
    ensures
        r@ == segments_spec(ranges@, total as int),
{
    let mut segs: Vec<Segment> = Vec::new();
    let mut cursor: usize = 0;
    let mut i: usize = 0;
    while i < ranges.len()
        invariant
            i <= ranges@.len(),
            (segs@, cursor as int) == runs(ranges@.take(i as int), total as int),
            cursor <= total,
        decreases ranges@.len() - i,
    {
        proof {
            assert(ranges@.take(i + 1).drop_last() =~= ranges@.take(i as int));
            assert(ranges@.take(i + 1).last() == ranges@[i as int]);
        }
        let (start, end) = ranges[i];
        let s = if start < total { start } else { total };
        let e = if end < total { end } else { total };
        if s > cursor {
            segs.push(Segment { from: cursor, to: s, highlight: false });
        }
        if s < e {
            segs.push(Segment { from: s, to: e, highlight: true });
        }
        cursor = e;
        i = i + 1;
    }
    proof {
        assert(ranges@.take(ranges@.len() as int) =~= ranges@);
    }
    if cursor < total {
        segs.push(Segment { from: cursor, to: total, highlight: false });
    }
    segs
}

} // verus!
