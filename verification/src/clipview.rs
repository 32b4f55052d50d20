//! The history list as the window shows it: the status line, the search filter,
//! the pinned / recent split, keyboard selection and the day headings.
use vstd::prelude::*;

use crate::store::{ClipContent, ClipEntry, LocalDate};
use crate::text::{chars_of, dec, lemma_trimmed, push_dec, push_str, string_from_chars, trim_to_string, trimmed};

verus! {

/// A request from the tray menu.
#[derive(Clone, Copy, PartialEq, Eq, Structural, Debug)]
pub enum TrayMsg {
    /// Bring the window back.
    Show,
    /// Save and quit.
    Quit,
}

/// The status line: "N 条记录  •  已暂停" while recording is paused, otherwise
/// "N 条记录  •  Ctrl+Shift+V 呼出".
pub open spec fn status_text(count: nat, paused: bool) -> Seq<char> {
    if paused {
        dec(count) + " 条记录  •  已暂停"@
    } else {
        dec(count) + " 条记录  •  Ctrl+Shift+V 呼出"@
    }
}

/// Formats the status line for `count` entries.
pub fn make_status(count: usize, paused: bool) -> (r: String)
    ensures
        r@ == status_text(count as nat, paused),
{
    let mut s = String::new();
    push_dec(&mut s, count as u64);
    if paused {
        push_str(&mut s, " 条记录  •  已暂停");
    } else {
        push_str(&mut s, " 条记录  •  Ctrl+Shift+V 呼出");
    }
    proof {
        assert(Seq::<char>::empty() + dec(count as nat) =~= dec(count as nat));
    }
    s
}

/// The hover preview of a text entry: its first 2000 characters, trimmed, then "…".
pub open spec fn hover_text_spec(text: Seq<char>) -> Seq<char> {
    trimmed(text.take(if text.len() < 2000 { text.len() as int } else { 2000 })) + "…"@
}

/// The hover preview ends with "…" after the trimmed text of at most the first 2000
/// characters; text of up to 2000 characters is shown whole (trimmed).
pub proof fn lemma_hover_text(text: Seq<char>)
    ensures
        hover_text_spec(text).len() >= 1,
        hover_text_spec(text).last() == '…',
        hover_text_spec(text).drop_last() == trimmed(text.take(if text.len() < 2000 { text.len() as int } else { 2000 })),
        text.len() <= 2000 ==> hover_text_spec(text).drop_last() == trimmed(text),
        hover_text_spec(text).len() <= 2001,
{
    reveal_strlit("…");
    let h = trimmed(text.take(if text.len() < 2000 { text.len() as int } else { 2000 }));
    assert((h + "…"@).drop_last() =~= h);
    if text.len() <= 2000 {
        assert(text.take(text.len() as int) =~= text);
    }
    lemma_trimmed(text.take(if text.len() < 2000 { text.len() as int } else { 2000 }));
}

/// Formats the hover preview of a text entry.
pub fn hover_text(text: &str) -> (r: String)
    ensures
        r@ == hover_text_spec(text@),
{
    let chars = chars_of(text);
    let n = if chars.len() < 2000 { chars.len() } else { 2000 };
    let head = string_from_chars(&chars, 0, n);
    let mut r = trim_to_string(head.as_str());
    push_str(&mut r, "…");
    proof {
        assert(chars@.subrange(0, n as int) =~= text@.take(n as int));
    }
    r
}

// ── substring search ────────────────────────────────────────────────────────

/// `pat` occurs in `hay` starting at `i`.
pub open spec fn occurs_at(hay: Seq<char>, pat: Seq<char>, i: int) -> bool {
    &&& 0 <= i
    &&& i + pat.len() <= hay.len()
    &&& hay.subrange(i, i + pat.len()) == pat
}

/// `pat` occurs somewhere in `hay` (the empty pattern occurs everywhere).
pub open spec fn contains_seq(hay: Seq<char>, pat: Seq<char>) -> bool {
    exists|i: int| occurs_at(hay, pat, i)
}

fn occurs_at_exec(hay: &Vec<char>, pat: &Vec<char>, i: usize) -> (r: bool)
    requires
        i + pat@.len() <= hay@.len(),
    ensures
        r == occurs_at(hay@, pat@, i as int),
{
    let n = pat.len();
    let mut k: usize = 0;
    while k < n
        invariant
            n == pat@.len(),
            i + n <= hay.len(),
            k <= n,
            forall|j: int| 0 <= j < k ==> hay@[i + j] == pat@[j],
        decreases n - k,
    {
        if hay[i + k] != pat[k] {
            proof {
                assert(hay@.subrange(i as int, i + n)[k as int] != pat@[k as int]);
            }
            return false;
        }
        k = k + 1;
    }
    proof {
        assert(hay@.subrange(i as int, i + n) =~= pat@);
    }
    true
}

/// `needle` occurs in `hay`.
pub fn contains_str(hay: &str, needle: &str) -> (r: bool)
    ensures
        r == contains_seq(hay@, needle@),
{
    let h = chars_of(hay);
    let p = chars_of(needle);
    if p.len() == 0 {
        proof {
            assert(hay@.subrange(0, 0) =~= needle@);
            assert(occurs_at(hay@, needle@, 0));
        }
        return true;
    }
    if p.len() > h.len() {
        return false;
    }
    let last = h.len() - p.len();
    let mut i: usize = 0;
    while i <= last
        invariant
            h@ == hay@,
            p@ == needle@,
            last + p@.len() == h.len(),
            p@.len() >= 1,
            i <= last + 1,
            forall|j: int| 0 <= j < i ==> !occurs_at(hay@, needle@, j),
        decreases last + 1 - i,
    {
        if occurs_at_exec(&h, &p, i) {
            return true;
        }
        i = i + 1;
    }
    false
}

// ── the visible split ───────────────────────────────────────────────────────

/// An entry is listed under the lower-cased query `q`: always when `q` is empty,
/// otherwise only a text entry whose lower-cased text contains `q`.
pub open spec fn listed(e: ClipEntry, q: Seq<char>) -> bool {
    q.len() == 0 || (e.content is Text && contains_seq(e.text_lc@, q))
}

/// Positions, among the first `n` entries, of the listed entries that are pinned
/// (`want_pinned`) or not, in order.
pub open spec fn listed_upto(es: Seq<ClipEntry>, q: Seq<char>, want_pinned: bool, n: int) -> Seq<usize>
    decreases n,
{
    if n <= 0 {
        Seq::empty()
    } else {
        let prev = listed_upto(es, q, want_pinned, n - 1);
        let e = es[n - 1];
        if listed(e, q) && e.pinned == want_pinned {
            prev.push((n - 1) as usize)
        } else {
            prev
        }
    }
}

/// Positions of the listed entries that are (`want_pinned`) or are not pinned.
pub open spec fn listed_positions(es: Seq<ClipEntry>, q: Seq<char>, want_pinned: bool) -> Seq<usize> {
    listed_upto(es, q, want_pinned, es.len() as int)
}

/// What the visible split lists: an entry's position is in the pinned list (or
/// the recent list) exactly when the entry is pinned (or not) and matches the
/// query, whatever the other list holds; positions come in increasing order.
pub proof fn lemma_visible_split(es: Seq<ClipEntry>, q: Seq<char>, want_pinned: bool)
    requires
        es.len() <= usize::MAX,
    ensures
        forall|j: int|
            0 <= j < es.len() ==> (listed_positions(es, q, want_pinned).contains(j as usize) <==> (es[j].pinned
                == want_pinned && (q.len() == 0 || (es[j].content is Text && contains_seq(es[j].text_lc@, q))))),
        forall|k: int|
            0 <= k < listed_positions(es, q, want_pinned).len() ==> #[trigger] listed_positions(es, q, want_pinned)[k]
                < es.len(),
        forall|k1: int, k2: int|
            0 <= k1 < k2 < listed_positions(es, q, want_pinned).len() ==> #[trigger] listed_positions(es, q, want_pinned)[k1]
                < #[trigger] listed_positions(es, q, want_pinned)[k2],
{
    lemma_listed_upto(es, q, want_pinned, es.len() as int);
    let lp = listed_positions(es, q, want_pinned);
    assert forall|j: int| 0 <= j < es.len() implies (lp.contains(j as usize) <==> (es[j].pinned == want_pinned && (q.len()
        == 0 || (es[j].content is Text && contains_seq(es[j].text_lc@, q))))) by {
        if lp.contains(j as usize) {
            let i = choose|i: int| 0 <= i < lp.len() && lp[i] == j as usize;
            assert(listed(es[lp[i] as int], q));
        }
        if es[j].pinned == want_pinned && (q.len() == 0 || (es[j].content is Text && contains_seq(es[j].text_lc@, q))) {
            assert(listed(es[j], q));
        }
    }
}

fn is_listed(e: &ClipEntry, query_lc: &str) -> (r: bool)
    ensures
        r == listed(*e, query_lc@),
{
    if query_lc.is_empty() {
        return true;
    }
    match &e.content {
        ClipContent::Text(_) => contains_str(e.text_lc.as_str(), query_lc),
        ClipContent::Image { .. } => false,
    }
}

/// Splits the entries that the query lists into the pinned ones and the others,
/// each by position, in history order.
pub fn visible_split(entries: &Vec<ClipEntry>, query_lc: &str) -> (r: (Vec<usize>, Vec<usize>))
    ensures
        r.0@ == listed_positions(entries@, query_lc@, true),
        r.1@ == listed_positions(entries@, query_lc@, false),
{
    let mut pinned: Vec<usize> = Vec::new();
    let mut recent: Vec<usize> = Vec::new();
    let mut i: usize = 0;
    while i < entries.len()
        invariant
            i <= entries@.len(),
            pinned@ == listed_upto(entries@, query_lc@, true, i as int),
            recent@ == listed_upto(entries@, query_lc@, false, i as int),
        decreases entries@.len() - i,
    {
        let e = &entries[i];
        if is_listed(e, query_lc) {
            if e.pinned {
                pinned.push(i);
            } else {
                recent.push(i);
            }
        }
        i = i + 1;
    }
    (pinned, recent)
}

proof fn lemma_listed_upto(es: Seq<ClipEntry>, q: Seq<char>, want_pinned: bool, n: int)
    requires
        0 <= n <= es.len(),
        es.len() <= usize::MAX,
    ensures
        forall|i: int| 0 <= i < listed_upto(es, q, want_pinned, n).len() ==> {
            let k = #[trigger] listed_upto(es, q, want_pinned, n)[i] as int;
            &&& 0 <= k < n
            &&& listed(es[k], q)
            &&& es[k].pinned == want_pinned
        },
        forall|i: int, j: int| 0 <= i < j < listed_upto(es, q, want_pinned, n).len() ==>
            #[trigger] listed_upto(es, q, want_pinned, n)[i] < #[trigger] listed_upto(es, q, want_pinned, n)[j],
        forall|k: int| 0 <= k < n && listed(#[trigger] es[k], q) && es[k].pinned == want_pinned ==>
            listed_upto(es, q, want_pinned, n).contains(k as usize),
    decreases n,
{
    if n > 0 {
        lemma_listed_upto(es, q, want_pinned, n - 1);
        let prev = listed_upto(es, q, want_pinned, n - 1);
        let cur = listed_upto(es, q, want_pinned, n);
        assert forall|i: int| 0 <= i < cur.len() implies {
            let k = #[trigger] cur[i] as int;
            &&& 0 <= k < n
            &&& listed(es[k], q)
            &&& es[k].pinned == want_pinned
        } by {
            if i < prev.len() {
                assert(cur[i] == prev[i]);
            }
        }
        assert forall|i: int, j: int| 0 <= i < j < cur.len() implies #[trigger] cur[i] < #[trigger] cur[j] by {
            assert(cur[i] == prev[i]);
            if j < prev.len() {
                assert(cur[j] == prev[j]);
            }
        }
        assert forall|k: int| 0 <= k < n && listed(#[trigger] es[k], q) && es[k].pinned == want_pinned implies
            cur.contains(k as usize) by {
            if k < n - 1 {
                assert(prev.contains(k as usize));
                let i = choose|i: int| 0 <= i < prev.len() && prev[i] == k as usize;
                assert(cur[i] == prev[i]);
            } else {
                assert(cur[cur.len() - 1] == (n - 1) as usize);
            }
        }
    }
}

/// The rows the window lists: the pinned rows hold exactly the listed pinned
/// entries and the other rows exactly the listed unpinned ones, each in history
/// order; so pinned entries always come first and the filter drops nothing it
/// lists.
pub proof fn lemma_rows(es: Seq<ClipEntry>, q: Seq<char>)
    requires
        es.len() <= usize::MAX,
    ensures
        forall|i: int| 0 <= i < listed_positions(es, q, true).len() ==> {
            let k = #[trigger] listed_positions(es, q, true)[i] as int;
            0 <= k < es.len() && listed(es[k], q) && es[k].pinned
        },
        forall|i: int| 0 <= i < listed_positions(es, q, false).len() ==> {
            let k = #[trigger] listed_positions(es, q, false)[i] as int;
            0 <= k < es.len() && listed(es[k], q) && !es[k].pinned
        },
        forall|k: int| 0 <= k < es.len() && listed(#[trigger] es[k], q) ==> {
            if es[k].pinned {
                listed_positions(es, q, true).contains(k as usize)
            } else {
                listed_positions(es, q, false).contains(k as usize)
            }
        },
        forall|i: int, j: int| 0 <= i < j < listed_positions(es, q, true).len() ==>
            #[trigger] listed_positions(es, q, true)[i] < #[trigger] listed_positions(es, q, true)[j],
        forall|i: int, j: int| 0 <= i < j < listed_positions(es, q, false).len() ==>
            #[trigger] listed_positions(es, q, false)[i] < #[trigger] listed_positions(es, q, false)[j],
{
    lemma_listed_upto(es, q, true, es.len() as int);
    lemma_listed_upto(es, q, false, es.len() as int);
    assert forall|k: int| 0 <= k < es.len() && listed(#[trigger] es[k], q) implies {
        if es[k].pinned {
            listed_positions(es, q, true).contains(k as usize)
        } else {
            listed_positions(es, q, false).contains(k as usize)
        }
    } by {
        if es[k].pinned {
            assert(listed(es[k], q) && es[k].pinned == true);
        } else {
            assert(listed(es[k], q) && es[k].pinned == false);
        }
    }
}

/// The entry shown at row `idx`: the pinned rows come first, then the others.
pub open spec fn row_entry(pinned: Seq<usize>, recent: Seq<usize>, idx: int) -> Option<usize> {
    if idx < pinned.len() {
        Some(pinned[idx])
    } else if idx - pinned.len() < recent.len() {
        Some(recent[idx - pinned.len()])
    } else {
        None
    }
}

/// The rows list the pinned positions and then the others: row `idx` holds the
/// `idx`-th position of the two lists joined, and rows past their end hold nothing.
pub proof fn lemma_row_entry(pinned: Seq<usize>, recent: Seq<usize>, idx: int)
    requires
        0 <= idx,
    ensures
        row_entry(pinned, recent, idx) == if idx < (pinned + recent).len() {
            Some((pinned + recent)[idx])
        } else {
            None::<usize>
        },
{
}

/// Looks up the entry shown at row `idx`.
pub fn entry_at(pinned: &Vec<usize>, recent: &Vec<usize>, idx: usize) -> (r: Option<usize>)
    ensures
        r == row_entry(pinned@, recent@, idx as int),
{
    if idx < pinned.len() {
        Some(pinned[idx])
    } else if idx - pinned.len() < recent.len() {
        Some(recent[idx - pinned.len()])
    } else {
        None
    }
}

/// The selected row after the arrow keys: nothing when no row is shown; the first
/// row when nothing was selected; one row down (stopping at the last) or up
/// (stopping at the first) otherwise. Without an arrow key it stays.
pub open spec fn moved_selection(sel: Option<usize>, total: int, down: bool, up: bool) -> Option<usize> {
    if total == 0 {
        None
    } else if !(down || up) {
        sel
    } else {
        match sel {
            None => Some(0usize),
            Some(i) => if down {
                Some((if i + 1 < total - 1 { i + 1 } else { total - 1 }) as usize)
            } else {
                Some((if i > 0 { i - 1 } else { 0 }) as usize)
            },
        }
    }
}

/// The arrow keys keep the selection on a shown row: with rows shown and a key
/// pressed some row is selected, a shown one when it started on one; one step down and then one step up come back to
/// where they started unless the first step stopped at the last row, and one step
/// up and then down likewise unless it stopped at the first; without a key the
/// selection stays.
pub proof fn lemma_move_selection(sel: Option<usize>, total: int, i: usize)
    requires
        0 <= total <= usize::MAX,
    ensures
        total > 0 && moved_selection(sel, total, true, false) is Some ==> moved_selection(sel, total, true, false)->0
            < total,
        total > 0 && (sel matches Some(j) ==> j < total) && moved_selection(sel, total, false, true) is Some
            ==> moved_selection(sel, total, false, true)->0 < total,
        total > 0 ==> moved_selection(sel, total, true, false) is Some && moved_selection(sel, total, false, true) is Some,
        total > 0 && sel is None ==> moved_selection(sel, total, true, false) == Some(0usize),
        total > 0 && sel is None ==> moved_selection(sel, total, false, true) == Some(0usize),
        total > 0 ==> moved_selection(sel, total, false, false) == sel,
        total == 0 ==> moved_selection(sel, total, true, false) is None,
        i + 1 < total ==> moved_selection(moved_selection(Some(i), total, true, false), total, false, true) == Some(i),
        i + 1 < total ==> moved_selection(Some(i), total, true, false) == Some((i + 1) as usize),
        0 < i < total ==> moved_selection(moved_selection(Some(i), total, false, true), total, true, false) == Some(i),
        0 < i < total ==> moved_selection(Some(i), total, false, true) == Some((i - 1) as usize),
        i + 1 == total ==> moved_selection(Some(i), total, true, false) == Some(i),
        i == 0 && total > 0 ==> moved_selection(Some(i), total, false, true) == Some(i),
{
}

/// Moves the selection for the arrow keys pressed this frame.
pub fn move_selection(sel: Option<usize>, total: usize, down: bool, up: bool) -> (r: Option<usize>)
    ensures
        r == moved_selection(sel, total as int, down, up),
{
    if total == 0 {
        return None;
    }
    if !(down || up) {
        return sel;
    }
    match sel {
        None => Some(0),
        Some(i) => if down {
            Some(if i < total - 1 { i + 1 } else { total - 1 })
        } else {
            Some(if i > 0 { i - 1 } else { 0 })
        },
    }
}

// ── day headings ────────────────────────────────────────────────────────────

/// The heading for entries of `date`: "今天", "昨天" or "更早".
pub open spec fn day_heading(date: LocalDate, today: LocalDate, yesterday: LocalDate) -> Seq<char> {
    if date == today {
        "今天"@
    } else if date == yesterday {
        "昨天"@
    } else {
        "更早"@
    }
}

/// "今天" is the heading exactly of today's date, "昨天" exactly of yesterday's
/// (when it is not today), and every other date is "更早"; dates are compared in
/// all their fields.
pub proof fn lemma_day_heading(date: LocalDate, today: LocalDate, yesterday: LocalDate)
    ensures
        (day_heading(date, today, yesterday) == "今天"@) <==> (date == today),
        (day_heading(date, today, yesterday) == "昨天"@) <==> (date != today && date == yesterday),
        (day_heading(date, today, yesterday) == "更早"@) <==> (date != today && date != yesterday),
{
    reveal_strlit("今天");
    reveal_strlit("昨天");
    reveal_strlit("更早");
    assert("今天"@[0] != "昨天"@[0]);
    assert("今天"@[0] != "更早"@[0]);
    assert("昨天"@[0] != "更早"@[0]);
}

/// The heading of a group of recent entries.
pub fn day_group(date: LocalDate, today: LocalDate, yesterday: LocalDate) -> (r: &'static str)
    ensures
        r@ == day_heading(date, today, yesterday),
{
    if date == today {
        "今天"
    } else if date == yesterday {
        "昨天"
    } else {
        "更早"
    }
}

} // verus!
