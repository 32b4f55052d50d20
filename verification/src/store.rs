//! Clipboard history: entries, their derived display fields, and the store that
//! deduplicates, pins and bounds them.
use vstd::prelude::*;
use vstd::hash_set::StringHashSet;

use chrono::{Datelike, Timelike};

use crate::text::{
    all_digits, chars_of, dec, digits_value, lemma_two_digits, line_count, lowercase, push_char, push_dec, push_str, push_two_digits,
    string_from_chars, to_lowercase, trim_bounds, trimmed, two_digits, count_lines,
};

verus! {

/// A calendar date in the local time zone.
#[derive(Clone, Copy, PartialEq, Eq, Structural, Debug)]
pub struct LocalDate {
    pub year: i32,
    pub month: u32,
    pub day: u32,
}

/// A moment, with its local calendar fields and its Unix time in milliseconds.
#[derive(Clone, Copy, PartialEq, Eq, Structural, Debug)]
pub struct LocalTime {
    pub date: LocalDate,
    pub hour: u32,
    pub minute: u32,
    pub timestamp_ms: i64,
}

impl LocalTime {
    /// The calendar fields are in their ranges.
    pub open spec fn valid(self) -> bool {
        &&& 1 <= self.date.month <= 12
        &&& 1 <= self.date.day <= 31
        &&& self.hour < 24
        &&& self.minute < 60
    }
}

/// The current local time (`chrono::Local::now()`); what it returns depends on the
/// clock and the time zone, so only the ranges of its calendar fields are stated.
#[verifier::external_body]
pub fn local_now() -> (t: LocalTime)
    ensures
        t.valid(),
{
    let now = chrono::Local::now();
    LocalTime {
        date: LocalDate { year: now.year(), month: now.month(), day: now.day() },
        hour: now.hour(),
        minute: now.minute(),
        timestamp_ms: now.timestamp_millis(),
    }
}

/// "HH:MM".
pub open spec fn clock_text(t: LocalTime) -> Seq<char> {
    two_digits(t.hour as int) + ":"@ + two_digits(t.minute as int)
}

/// "MM/DD HH:MM".
pub open spec fn date_clock_text(t: LocalTime) -> Seq<char> {
    two_digits(t.date.month as int) + "/"@ + two_digits(t.date.day as int) + " "@ + clock_text(t)
}

/// A clock label is "HH:MM": five characters, the hour and the minute each as
/// two digits around a ':'; with the date, "MM/DD HH:MM".
pub proof fn lemma_clock_text(t: LocalTime)
    requires
        t.valid(),
    ensures
        clock_text(t).len() == 5,
        clock_text(t)[2] == ':',
        all_digits(clock_text(t).take(2)) && digits_value(clock_text(t).take(2)) == t.hour,
        all_digits(clock_text(t).skip(3)) && digits_value(clock_text(t).skip(3)) == t.minute,
        date_clock_text(t).len() == 11,
        date_clock_text(t)[2] == '/' && date_clock_text(t)[5] == ' ',
        all_digits(date_clock_text(t).take(2)) && digits_value(date_clock_text(t).take(2)) == t.date.month,
        all_digits(date_clock_text(t).subrange(3, 5)) && digits_value(date_clock_text(t).subrange(3, 5)) == t.date.day,
        date_clock_text(t).skip(6) == clock_text(t),
{
    reveal_strlit(":");
    reveal_strlit("/");
    reveal_strlit(" ");
    lemma_two_digits(t.hour as int);
    lemma_two_digits(t.minute as int);
    lemma_two_digits(t.date.month as int);
    lemma_two_digits(t.date.day as int);
    let c = clock_text(t);
    assert(c.take(2) =~= two_digits(t.hour as int));
    assert(c.skip(3) =~= two_digits(t.minute as int));
    let d = date_clock_text(t);
    assert(d.take(2) =~= two_digits(t.date.month as int));
    assert(d.subrange(3, 5) =~= two_digits(t.date.day as int));
    assert(d.skip(6) =~= c);
}

/// Formats `t` as "HH:MM".
pub fn format_clock(t: LocalTime) -> (r: String)
    requires
        t.valid(),
    ensures
        r@ == clock_text(t),
{
    let mut s = String::new();
    push_two_digits(&mut s, t.hour);
    push_str(&mut s, ":");
    push_two_digits(&mut s, t.minute);
    proof {
        assert(s@ =~= clock_text(t));
    }
    s
}

/// Formats `t` as "MM/DD HH:MM".
pub fn format_date_clock(t: LocalTime) -> (r: String)
    requires
        t.valid(),
    ensures
        r@ == date_clock_text(t),
{
    let mut s = String::new();
    push_two_digits(&mut s, t.date.month);
    push_str(&mut s, "/");
    push_two_digits(&mut s, t.date.day);
    push_str(&mut s, " ");
    push_two_digits(&mut s, t.hour);
    push_str(&mut s, ":");
    push_two_digits(&mut s, t.minute);
    proof {
        assert(s@ =~= date_clock_text(t));
    }
    s
}

/// What was copied: text, or an RGBA image.
#[derive(Clone, Debug)]
pub enum ClipContent {
    Text(String),
    Image { width: u32, height: u32, rgba: Vec<u8> },
}

/// The text of a content, if it is text.
pub open spec fn content_text(c: ClipContent) -> Option<Seq<char>> {
    match c {
        ClipContent::Text(t) => Some(t@),
        ClipContent::Image { .. } => None,
    }
}

/// Number of characters shown in a preview.
pub const PREVIEW_CHARS: usize = 120;

/// The preview of a content: the first 120 characters of the trimmed text, or "[图片]".
pub open spec fn preview_text(c: ClipContent) -> Seq<char> {
    match c {
        ClipContent::Text(t) => {
            let tr = trimmed(t@);
            tr.subrange(0, if tr.len() < 120 { tr.len() as int } else { 120 })
        },
        ClipContent::Image { .. } => "[图片]"@,
    }
}

/// The size line of a content: "L 行 N 字" for text of several lines, "N 字" for
/// other text, "W×H" for an image.
pub open spec fn stats_text(c: ClipContent) -> Seq<char> {
    match c {
        ClipContent::Text(t) => if line_count(t@) > 1 {
            dec(line_count(t@) as nat) + " 行 "@ + dec(t@.len()) + " 字"@
        } else {
            dec(t@.len()) + " 字"@
        },
        ClipContent::Image { width, height, .. } => dec(width as nat) + "×"@ + dec(height as nat),
    }
}

/// Lower-cased text used for search; empty for an image.
pub open spec fn search_text(c: ClipContent) -> Seq<char> {
    match c {
        ClipContent::Text(t) => lowercase(t@),
        ClipContent::Image { .. } => Seq::empty(),
    }
}

/// A text preview is the start of the trimmed text: all of it up to 120
/// characters, else its first 120; an image previews as "[图片]".
pub proof fn lemma_preview_text(c: ClipContent)
    ensures
        c matches ClipContent::Text(t) ==> {
            &&& preview_text(c).len() == if trimmed(t@).len() <= 120 { trimmed(t@).len() } else { 120 }
            &&& forall|k: int| 0 <= k < preview_text(c).len() ==> #[trigger] preview_text(c)[k] == trimmed(t@)[k]
        },
        c is Image ==> preview_text(c) == "[图片]"@,
{
}

pub fn make_preview(content: &ClipContent) -> (r: String)
    ensures
        r@ == preview_text(*content),
{
    match content {
        ClipContent::Text(s) => {
            let chars = chars_of(s.as_str());
            let (a, b) = trim_bounds(&chars);
            let end = if b - a < PREVIEW_CHARS { b } else { a + PREVIEW_CHARS };
            let r = string_from_chars(&chars, a, end);
            proof {
                let tr = chars@.subrange(a as int, b as int);
                assert(tr.subrange(0, (end - a) as int) =~= chars@.subrange(a as int, end as int));
            }
            r
        },
        ClipContent::Image { .. } => {
            let mut r = String::new();
            push_str(&mut r, "[图片]");
            proof {
                assert(r@ =~= "[图片]"@);
            }
            r
        },
    }
}

pub fn make_stats(content: &ClipContent) -> (r: String)
    ensures
        r@ == stats_text(*content),
{
    match content {
        ClipContent::Text(s) => {
            let chars = s.as_str().unicode_len();
            let lines = count_lines(s.as_str());
            let mut r = String::new();
            if lines > 1 {
                push_dec(&mut r, lines as u64);
                push_str(&mut r, " 行 ");
                push_dec(&mut r, chars as u64);
                push_str(&mut r, " 字");
            } else {
                push_dec(&mut r, chars as u64);
                push_str(&mut r, " 字");
            }
            proof {
                assert(r@ =~= stats_text(*content));
            }
            r
        },
        ClipContent::Image { width, height, .. } => {
            let mut r = String::new();
            push_dec(&mut r, *width as u64);
            push_str(&mut r, "×");
            push_dec(&mut r, *height as u64);
            proof {
                assert(r@ =~= stats_text(*content));
            }
            r
        },
    }
}

/// One remembered copy.
#[derive(Clone, Debug)]
pub struct ClipEntry {
    pub id: u64,
    pub content: ClipContent,
    pub time: LocalTime,
    pub pinned: bool,
    pub preview: String,
    pub stats: String,
    /// "HH:MM", or "MM/DD HH:MM" for an entry of an earlier day.
    pub time_str: String,
    /// Lower-cased text for search.
    pub text_lc: String,
}

/// `e` is the entry made for `content` with `id` at time `now`.
pub open spec fn made_entry(e: ClipEntry, id: u64, content: ClipContent, now: LocalTime) -> bool {
    &&& e.id == id
    &&& e.content == content
    &&& e.time == now
    &&& !e.pinned
    &&& e.preview@ == preview_text(content)
    &&& e.stats@ == stats_text(content)
    &&& e.time_str@ == clock_text(now)
    &&& e.text_lc@ == search_text(content)
}

impl ClipEntry {
    /// A new, unpinned entry stamped with the current time.
    pub fn new(id: u64, content: ClipContent) -> (r: Self)
        ensures
            r.time.valid(),
            made_entry(r, id, content, r.time),
    {
        let now = local_now();
        Self::new_at(id, content, now)
    }

    /// A new, unpinned entry stamped with `now`.
    pub fn new_at(id: u64, content: ClipContent, now: LocalTime) -> (r: Self)
        requires
            now.valid(),
        ensures
            made_entry(r, id, content, now),
    {
        let preview = make_preview(&content);
        let stats = make_stats(&content);
        let text_lc = match &content {
            ClipContent::Text(t) => to_lowercase(t.as_str()),
            ClipContent::Image { .. } => String::new(),
        };
        let time_str = format_clock(now);
        ClipEntry { id, content, time: now, pinned: false, preview, stats, time_str, text_lc }
    }

    /// Re-derives `time_str` for the day `today`: "HH:MM" on that day, "MM/DD HH:MM" otherwise.
    pub fn rebuild_time_str(&mut self, today: LocalDate)
        requires
            old(self).time.valid(),
        ensures
            final(self).time_str@ == (if old(self).time.date == today {
                clock_text(old(self).time)
            } else {
                date_clock_text(old(self).time)
            }),
            final(self).id == old(self).id,
            final(self).content == old(self).content,
            final(self).time == old(self).time,
            final(self).pinned == old(self).pinned,
            final(self).preview == old(self).preview,
            final(self).stats == old(self).stats,
            final(self).text_lc == old(self).text_lc,
    {
        let date = self.time.date;
        self.time_str = if date == today {
            format_clock(self.time)
        } else {
            format_date_clock(self.time)
        };
    }
}


// ── the history store ───────────────────────────────────────────────────────

/// At most this many unpinned entries are kept.
pub const MAX_UNPINNED: usize = 500;

/// The text of an entry, if it holds text.
pub open spec fn text_of(e: ClipEntry) -> Option<Seq<char>> {
    content_text(e.content)
}

/// Index of the first element of `s` that satisfies `p`, or `s.len()` when none does.
pub open spec fn first_index<A>(s: Seq<A>, p: spec_fn(A) -> bool) -> int {
    if exists|i: int| 0 <= i < s.len() && p(s[i]) {
        choose|i: int| 0 <= i < s.len() && p(s[i]) && forall|j: int| 0 <= j < i ==> !p(s[j])
    } else {
        s.len() as int
    }
}

pub proof fn lemma_first_index<A>(s: Seq<A>, p: spec_fn(A) -> bool, i: int)
    requires
        0 <= i <= s.len(),
        i < s.len() ==> p(s[i]),
        forall|j: int| 0 <= j < i ==> !p(s[j]),
    ensures
        first_index(s, p) == i,
{
    if i < s.len() {
        let k = first_index(s, p);
        assert(0 <= k < s.len() && p(s[k]) && forall|j: int| 0 <= j < k ==> !p(s[j]));
        if k < i {
            assert(!p(s[k]));
        }
        if i < k {
            assert(!p(s[i]));
        }
    } else {
        if exists|k: int| 0 <= k < s.len() && p(s[k]) {
            let k = choose|k: int| 0 <= k < s.len() && p(s[k]);
            assert(!p(s[k]));
        }
    }
}

pub open spec fn has_text(t: Seq<char>) -> spec_fn(ClipEntry) -> bool {
    |e: ClipEntry| text_of(e) == Some(t)
}

pub open spec fn is_unpinned() -> spec_fn(ClipEntry) -> bool {
    |e: ClipEntry| !e.pinned
}

pub open spec fn has_id(id: u64) -> spec_fn(ClipEntry) -> bool {
    |e: ClipEntry| e.id == id
}

/// Number of unpinned entries in `es`.
pub open spec fn count_unpinned(es: Seq<ClipEntry>) -> int
    decreases es.len(),
{
    if es.len() == 0 {
        0
    } else {
        count_unpinned(es.drop_last()) + if es.last().pinned { 0int } else { 1int }
    }
}

/// An entry survives the bound: it is pinned, or among the first `limit` unpinned ones.
pub open spec fn kept_at(es: Seq<ClipEntry>, limit: int) -> bool {
    es.last().pinned || count_unpinned(es) <= limit
}

/// `es` with every unpinned entry past the first `limit` unpinned ones removed.
pub open spec fn keep_recent(es: Seq<ClipEntry>, limit: int) -> Seq<ClipEntry>
    decreases es.len(),
{
    if es.len() == 0 {
        Seq::empty()
    } else if kept_at(es, limit) {
        keep_recent(es.drop_last(), limit).push(es.last())
    } else {
        keep_recent(es.drop_last(), limit)
    }
}

/// Texts of the entries that `keep_recent` removes.
pub open spec fn dropped_texts(es: Seq<ClipEntry>, limit: int) -> Set<Seq<char>>
    decreases es.len(),
{
    if es.len() == 0 {
        Set::empty()
    } else if !kept_at(es, limit) && text_of(es.last()) is Some {
        dropped_texts(es.drop_last(), limit).insert(text_of(es.last())->0)
    } else {
        dropped_texts(es.drop_last(), limit)
    }
}

/// Entries after removing the first one whose text is `t`, when the text index holds `t`.
pub open spec fn dedup_entries(es: Seq<ClipEntry>, texts: Set<Seq<char>>, c: Option<Seq<char>>) -> Seq<ClipEntry> {
    match c {
        Some(t) => if texts.contains(t) && first_index(es, has_text(t)) < es.len() {
            es.remove(first_index(es, has_text(t)))
        } else {
            es
        },
        None => es,
    }
}

pub open spec fn dedup_texts(texts: Set<Seq<char>>, c: Option<Seq<char>>) -> Set<Seq<char>> {
    match c {
        Some(t) => texts.remove(t),
        None => texts,
    }
}

/// The history already holds text `c` in a pinned entry (the first entry with that
/// text, when the text index holds it).
pub open spec fn pinned_holder(es: Seq<ClipEntry>, texts: Set<Seq<char>>, c: Option<Seq<char>>) -> bool {
    match c {
        Some(t) => texts.contains(t) && first_index(es, has_text(t)) < es.len() && es[first_index(es, has_text(t))].pinned,
        None => false,
    }
}

/// The history after copying what `e` holds: unchanged when a pinned entry holds
/// its text, otherwise `e` inserted.
pub open spec fn recorded_entries(es: Seq<ClipEntry>, texts: Set<Seq<char>>, e: ClipEntry) -> Seq<ClipEntry> {
    if pinned_holder(es, texts, text_of(e)) { es } else { inserted_entries(es, texts, e) }
}

/// Entries after inserting `e`: the same text is deduplicated, `e` goes in front of the
/// first unpinned entry, and unpinned entries beyond the bound are dropped.
pub open spec fn inserted_entries(es: Seq<ClipEntry>, texts: Set<Seq<char>>, e: ClipEntry) -> Seq<ClipEntry> {
    let es1 = dedup_entries(es, texts, text_of(e));
    let es2 = es1.insert(first_index(es1, is_unpinned()), e);
    keep_recent(es2, MAX_UNPINNED as int)
}

/// The text index after inserting `e`.
pub open spec fn inserted_texts(es: Seq<ClipEntry>, texts: Set<Seq<char>>, e: ClipEntry) -> Set<Seq<char>> {
    let es1 = dedup_entries(es, texts, text_of(e));
    let es2 = es1.insert(first_index(es1, is_unpinned()), e);
    let ts1 = dedup_texts(texts, text_of(e));
    let ts2 = match text_of(e) {
        Some(t) => ts1.insert(t),
        None => ts1,
    };
    ts2.difference(dropped_texts(es2, MAX_UNPINNED as int))
}

/// Set of the texts held by `es`.
pub open spec fn texts_of(es: Seq<ClipEntry>) -> Set<Seq<char>> {
    Set::new(|t: Seq<char>| exists|i: int| 0 <= i < es.len() && text_of(es[i]) == Some(t))
}

/// `es` without the entries whose id is `id`.
pub open spec fn without_id(es: Seq<ClipEntry>, id: u64) -> Seq<ClipEntry>
    decreases es.len(),
{
    if es.len() == 0 {
        Seq::empty()
    } else if es.last().id == id {
        without_id(es.drop_last(), id)
    } else {
        without_id(es.drop_last(), id).push(es.last())
    }
}

/// The pinned entries of `es`, in order.
pub open spec fn pinned_only(es: Seq<ClipEntry>) -> Seq<ClipEntry>
    decreases es.len(),
{
    if es.len() == 0 {
        Seq::empty()
    } else if es.last().pinned {
        pinned_only(es.drop_last()).push(es.last())
    } else {
        pinned_only(es.drop_last())
    }
}

/// Texts of the unpinned entries of `es`.
pub open spec fn unpinned_texts(es: Seq<ClipEntry>) -> Set<Seq<char>>
    decreases es.len(),
{
    if es.len() == 0 {
        Set::empty()
    } else if !es.last().pinned && text_of(es.last()) is Some {
        unpinned_texts(es.drop_last()).insert(text_of(es.last())->0)
    } else {
        unpinned_texts(es.drop_last())
    }
}

/// The text entries of `es`, in order.
pub open spec fn text_only(es: Seq<ClipEntry>) -> Seq<ClipEntry>
    decreases es.len(),
{
    if es.len() == 0 {
        Seq::empty()
    } else if text_of(es.last()) is Some {
        text_only(es.drop_last()).push(es.last())
    } else {
        text_only(es.drop_last())
    }
}

/// Largest id in `es`, 0 when empty.
pub open spec fn max_id(es: Seq<ClipEntry>) -> int
    decreases es.len(),
{
    if es.len() == 0 {
        0
    } else {
        let m = max_id(es.drop_last());
        if es.last().id > m { es.last().id as int } else { m }
    }
}

/// No two entries share an id, and no two share a text.
pub open spec fn no_repeats(es: Seq<ClipEntry>) -> bool {
    &&& forall|i: int, j: int| 0 <= i < j < es.len() ==> (#[trigger] es[i]).id != (#[trigger] es[j]).id
    &&& forall|i: int, j: int|
        0 <= i < j < es.len() && text_of(#[trigger] es[i]) is Some ==> text_of(es[i]) != text_of(#[trigger] es[j])
}

proof fn lemma_max_id(es: Seq<ClipEntry>)
    ensures
        forall|i: int| 0 <= i < es.len() ==> (#[trigger] es[i]).id <= max_id(es),
    decreases es.len(),
{
    if es.len() > 0 {
        lemma_max_id(es.drop_last());
        assert forall|i: int| 0 <= i < es.len() implies (#[trigger] es[i]).id <= max_id(es) by {
            if i < es.len() - 1 {
                assert(es[i] == es.drop_last()[i]);
            }
        }
    }
}

/// `b` is `a` as loaded on day `today`: search text and time label re-derived.
pub open spec fn reloaded(a: ClipEntry, b: ClipEntry, today: LocalDate) -> bool {
    &&& b.id == a.id
    &&& b.content == a.content
    &&& b.time == a.time
    &&& b.pinned == a.pinned
    &&& b.preview == a.preview
    &&& b.stats == a.stats
    &&& b.text_lc@ == search_text(a.content)
    &&& b.time_str@ == (if a.time.date == today { clock_text(a.time) } else { date_clock_text(a.time) })
}

/// `a` with its pin flipped.
pub open spec fn flip_pin(a: ClipEntry, b: ClipEntry) -> bool {
    &&& b.id == a.id
    &&& b.content == a.content
    &&& b.time == a.time
    &&& b.pinned == !a.pinned
    &&& b.preview == a.preview
    &&& b.stats == a.stats
    &&& b.time_str == a.time_str
    &&& b.text_lc == a.text_lc
}

/// `b` is `a` with the pin of the first entry with id `id` flipped (unchanged when none has it).
pub open spec fn toggled(a: Seq<ClipEntry>, b: Seq<ClipEntry>, id: u64) -> bool {
    let i = first_index(a, has_id(id));
    if i < a.len() {
        &&& b.len() == a.len()
        &&& forall|j: int| 0 <= j < a.len() && j != i ==> #[trigger] b[j] == a[j]
        &&& flip_pin(a[i], b[i])
    } else {
        b == a
    }
}

/// The preview and the size line of `e` are those of its content.
pub open spec fn shows_content(e: ClipEntry) -> bool {
    e.preview@ == preview_text(e.content) && e.stats@ == stats_text(e.content)
}

/// The search text, preview and size line of `e` are those of its content.
pub open spec fn derived(e: ClipEntry) -> bool {
    e.text_lc@ == search_text(e.content) && shows_content(e)
}

/// Every entry of `es` has its derived fields.
pub open spec fn all_derived(es: Seq<ClipEntry>) -> bool {
    forall|i: int| 0 <= i < es.len() ==> derived(#[trigger] es[i])
}

/// Ids are below `next_id` and distinct, texts are distinct, and the text index
/// holds exactly the texts of the entries.
pub open spec fn consistent(es: Seq<ClipEntry>, texts: Set<Seq<char>>, next_id: u64) -> bool {
    &&& forall|i: int| 0 <= i < es.len() ==> (#[trigger] es[i]).id < next_id
    &&& forall|i: int, j: int| 0 <= i < j < es.len() ==> (#[trigger] es[i]).id != (#[trigger] es[j]).id
    &&& forall|i: int, j: int|
        0 <= i < j < es.len() && text_of(#[trigger] es[i]) is Some ==> text_of(es[i]) != text_of(#[trigger] es[j])
    &&& texts == texts_of(es)
}

/// Clipboard history: entries (pinned ones and the most recent copies), an index of
/// their texts for deduplication, the next id, and whether a save is pending.
pub struct Store {
    pub entries: Vec<ClipEntry>,
    next_id: u64,
    dirty: bool,
    text_set: StringHashSet,
}

impl Store {
    /// The entries, in display order.
    pub closed spec fn history(&self) -> Seq<ClipEntry> {
        self.entries@
    }

    pub closed spec fn next_id(&self) -> u64 {
        self.next_id
    }

    pub closed spec fn is_dirty(&self) -> bool {
        self.dirty
    }

    /// The text index used for deduplication.
    pub closed spec fn texts(&self) -> Set<Seq<char>> {
        self.text_set@
    }

    /// The entries, the text index and the next id agree (see `consistent`), and
    /// every entry's search text, preview and size line are those of its content.
    pub open spec fn wf(&self) -> bool {
        &&& consistent(self.history(), self.texts(), self.next_id())
        &&& all_derived(self.history())
    }

    /// Finds the first entry whose text is `t`.
    fn position_of_text(&self, t: &String) -> (r: Option<usize>)
        ensures
            match r {
                Some(i) => i < self.entries@.len() && i == first_index(self.entries@, has_text(t@)),
                None => first_index(self.entries@, has_text(t@)) == self.entries@.len(),
            },
    {
        let n = self.entries.len();
        let mut i: usize = 0;
        while i < n
            invariant
                n == self.entries@.len(),
                i <= n,
                forall|j: int| 0 <= j < i ==> !has_text(t@)(#[trigger] self.entries@[j]),
            decreases n - i,
        {
            let found = match &self.entries[i].content {
                ClipContent::Text(existing) => existing.eq(t),
                ClipContent::Image { .. } => false,
            };
            assert(found == has_text(t@)(self.entries@[i as int]));
            if found {
                proof {
                    lemma_first_index(self.entries@, has_text(t@), i as int);
                }
                return Some(i);
            }
            i = i + 1;
        }
        proof {
            lemma_first_index(self.entries@, has_text(t@), n as int);
        }
        None
    }

    /// Index of the first unpinned entry, or the number of entries.
    fn first_unpinned(&self) -> (r: usize)
        ensures
            r == first_index(self.entries@, is_unpinned()),
            r <= self.entries@.len(),
    {
        let n = self.entries.len();
        let mut i: usize = 0;
        while i < n
            invariant
                n == self.entries@.len(),
                i <= n,
                forall|j: int| 0 <= j < i ==> !is_unpinned()(#[trigger] self.entries@[j]),
            decreases n - i,
        {
            if !self.entries[i].pinned {
                proof {
                    lemma_first_index(self.entries@, is_unpinned(), i as int);
                }
                return i;
            }
            i = i + 1;
        }
        proof {
            lemma_first_index(self.entries@, is_unpinned(), n as int);
        }
        n
    }

    /// Drops every unpinned entry past the first `MAX_UNPINNED` ones, and their texts.
    fn trim_unpinned(&mut self)
        ensures
            final(self).entries@ == keep_recent(old(self).entries@, MAX_UNPINNED as int),
            final(self).texts() == old(self).texts().difference(dropped_texts(old(self).entries@, MAX_UNPINNED as int)),
            final(self).next_id == old(self).next_id,
            final(self).dirty == old(self).dirty,
    {
        let ghost orig = self.entries@;
        let ghost ts = self.text_set@;
        let mut old_entries: Vec<ClipEntry> = Vec::new();
        std::mem::swap(&mut old_entries, &mut self.entries);
        let mut unpinned: usize = 0;
        let n = old_entries.len();
        for e in it: old_entries.into_iter()
            invariant
                it.seq() == orig,
                n == orig.len(),
                self.next_id == old(self).next_id,
                self.dirty == old(self).dirty,
                unpinned == count_unpinned(orig.take(it.index() as int)),
                unpinned <= it.index(),
                self.entries@ == keep_recent(orig.take(it.index() as int), MAX_UNPINNED as int),
                self.text_set@ == ts.difference(dropped_texts(orig.take(it.index() as int), MAX_UNPINNED as int)),
        {
            let ghost k = it.index() as int;
            proof {
                let pre = orig.take(k);
                let post = orig.take(k + 1);
                assert(post.drop_last() =~= pre);
                assert(post.last() == e);
            }
            if e.pinned {
                self.entries.push(e);
                proof {
                    assert(self.text_set@ =~= ts.difference(dropped_texts(orig.take(k + 1), MAX_UNPINNED as int)));
                }
            } else {
                unpinned = unpinned + 1;
                if unpinned > MAX_UNPINNED {
                    match &e.content {
                        ClipContent::Text(t) => {
                            self.text_set.remove(t.as_str());
                        },
                        ClipContent::Image { .. } => {},
                    }
                    proof {
                        assert(self.text_set@ =~= ts.difference(dropped_texts(orig.take(k + 1), MAX_UNPINNED as int)));
                    }
                } else {
                    self.entries.push(e);
                    proof {
                        assert(self.text_set@ =~= ts.difference(dropped_texts(orig.take(k + 1), MAX_UNPINNED as int)));
                    }
                }
            }
        }
        proof {
            assert(orig.take(orig.len() as int) =~= orig);
        }
    }

    /// Records a copy made at time `now`.
    ///
    /// Text that a pinned entry holds changes nothing: that entry stays, pinned,
    /// where it is. Other text already in the index is moved rather than
    /// duplicated: the first entry with that text is removed. The new entry goes in
    /// front of the first unpinned entry, and unpinned entries beyond the first 500
    /// are dropped.
    pub fn push_at(&mut self, content: ClipContent, now: LocalTime)
        requires
            old(self).next_id() < u64::MAX,
            now.valid(),
        ensures
            pinned_holder(old(self).history(), old(self).texts(), content_text(content)) ==> {
                &&& final(self).history() == old(self).history()
                &&& final(self).texts() == old(self).texts()
                &&& final(self).next_id() == old(self).next_id()
            },
            !pinned_holder(old(self).history(), old(self).texts(), content_text(content)) ==> {
                &&& exists|e: ClipEntry|
                    {
                        &&& made_entry(e, old(self).next_id(), content, now)
                        &&& final(self).history() == inserted_entries(old(self).history(), old(self).texts(), e)
                        &&& final(self).texts() == inserted_texts(old(self).history(), old(self).texts(), e)
                    }
                &&& final(self).next_id() == old(self).next_id() + 1
            },
            final(self).is_dirty(),
            old(self).wf() ==> final(self).wf(),
    {
        let ghost es0 = self.entries@;
        let ghost ts0 = self.text_set@;
        let ghost c = content_text(content);
        if let ClipContent::Text(ref t) = content {
            if self.text_set.contains(t.as_str()) {
                if let Some(pos) = self.position_of_text(t) {
                    if self.entries[pos].pinned {
                        self.mark_dirty();
                        return;
                    }
                    self.entries.remove(pos);
                }
                self.text_set.remove(t.as_str());
            }
        }
        proof {
            assert(!pinned_holder(es0, ts0, c));
            assert(self.entries@ == dedup_entries(es0, ts0, c));
            assert(self.text_set@ == dedup_texts(ts0, c));
        }
        let entry = ClipEntry::new_at(self.next_id, content, now);
        let ghost e = entry;
        self.next_id = self.next_id + 1;
        if let ClipContent::Text(ref t) = entry.content {
            self.text_set.insert(t.clone());
        }
        let first_unpinned = self.first_unpinned();
        self.entries.insert(first_unpinned, entry);
        self.trim_unpinned();
        self.mark_dirty();
        proof {
            assert(text_of(e) == c);
            if consistent(es0, ts0, old(self).next_id) {
                lemma_push_consistent(es0, ts0, old(self).next_id, e);
            }
            if all_derived(es0) {
                assert(self.entries@ == inserted_entries(es0, ts0, e));
                assert(derived(e));
                lemma_inserted_from(es0, ts0, e);
                lemma_all_derived_sub(es0, self.entries@, e);
            }
        }
    }

    /// Records a copy made now.
    pub fn push(&mut self, content: ClipContent)
        requires
            old(self).next_id() < u64::MAX,
        ensures
            pinned_holder(old(self).history(), old(self).texts(), content_text(content)) ==> {
                &&& final(self).history() == old(self).history()
                &&& final(self).texts() == old(self).texts()
                &&& final(self).next_id() == old(self).next_id()
            },
            !pinned_holder(old(self).history(), old(self).texts(), content_text(content)) ==> {
                &&& exists|e: ClipEntry, now: LocalTime|
                    {
                        &&& now.valid()
                        &&& made_entry(e, old(self).next_id(), content, now)
                        &&& final(self).history() == inserted_entries(old(self).history(), old(self).texts(), e)
                        &&& final(self).texts() == inserted_texts(old(self).history(), old(self).texts(), e)
                    }
                &&& final(self).next_id() == old(self).next_id() + 1
            },
            final(self).is_dirty(),
            old(self).wf() ==> final(self).wf(),
    {
        let now = local_now();
        self.push_at(content, now);
    }

    /// Removes every entry with id `id`; the text of the first such entry leaves the text index.
    pub fn remove(&mut self, id: u64)
        ensures
            final(self).history() == without_id(old(self).history(), id),
            final(self).texts() == texts_after_remove(old(self).history(), old(self).texts(), id),
            final(self).next_id() == old(self).next_id(),
            final(self).is_dirty(),
            old(self).wf() ==> final(self).wf(),
    {
        proof {
            if old(self).wf() {
                lemma_remove_consistent(self.entries@, self.text_set@, self.next_id, id);
                lemma_remove_gone(self.entries@, id);
                lemma_all_derived_subseq(self.entries@, without_id(self.entries@, id));
            }
        }
        if let Some(i) = self.position_of_id(id) {
            if let ClipContent::Text(t) = &self.entries[i].content {
                self.text_set.remove(t.as_str());
            }
        }
        let ghost orig = self.entries@;
        let ghost ts = self.text_set@;
        let mut old_entries: Vec<ClipEntry> = Vec::new();
        std::mem::swap(&mut old_entries, &mut self.entries);
        for e in it: old_entries.into_iter()
            invariant
                it.seq() == orig,
                self.entries@ == without_id(orig.take(it.index() as int), id),
                self.text_set@ == ts,
                self.next_id == old(self).next_id,
        {
            proof {
                let k = it.index() as int;
                assert(orig.take(k + 1).drop_last() =~= orig.take(k));
                assert(orig.take(k + 1).last() == e);
            }
            if e.id != id {
                self.entries.push(e);
            }
        }
        proof {
            assert(orig.take(orig.len() as int) =~= orig);
        }
        self.mark_dirty();
    }

    /// Finds the first entry with id `id`.
    fn position_of_id(&self, id: u64) -> (r: Option<usize>)
        ensures
            match r {
                Some(i) => i < self.entries@.len() && i == first_index(self.entries@, has_id(id)),
                None => first_index(self.entries@, has_id(id)) == self.entries@.len(),
            },
    {
        let n = self.entries.len();
        let mut i: usize = 0;
        while i < n
            invariant
                n == self.entries@.len(),
                i <= n,
                forall|j: int| 0 <= j < i ==> !has_id(id)(#[trigger] self.entries@[j]),
            decreases n - i,
        {
            if self.entries[i].id == id {
                proof {
                    lemma_first_index(self.entries@, has_id(id), i as int);
                }
                return Some(i);
            }
            i = i + 1;
        }
        proof {
            lemma_first_index(self.entries@, has_id(id), n as int);
        }
        None
    }

    /// Flips the pin of the first entry with id `id`.
    pub fn toggle_pin(&mut self, id: u64)
        ensures
            toggled(old(self).history(), final(self).history(), id),
            final(self).texts() == old(self).texts(),
            final(self).next_id() == old(self).next_id(),
            final(self).is_dirty(),
            old(self).wf() ==> final(self).wf(),
    {
        if let Some(i) = self.position_of_id(id) {
            let mut e = self.entries.remove(i);
            e.pinned = !e.pinned;
            self.entries.insert(i, e);
        }
        self.mark_dirty();
        proof {
            if old(self).wf() {
                lemma_toggle_consistent(old(self).entries@, self.entries@, self.text_set@, self.next_id, id);
            }
        }
    }

    /// Drops every unpinned entry and its text.
    pub fn clear_unpinned(&mut self)
        ensures
            final(self).history() == pinned_only(old(self).history()),
            final(self).texts() == old(self).texts().difference(unpinned_texts(old(self).history())),
            final(self).next_id() == old(self).next_id(),
            final(self).is_dirty(),
            old(self).wf() ==> final(self).wf(),
    {
        proof {
            if old(self).wf() {
                lemma_clear_consistent(self.entries@, self.text_set@, self.next_id);
                lemma_clear_pinned(self.entries@);
                lemma_all_derived_subseq(self.entries@, pinned_only(self.entries@));
            }
        }
        let ghost orig = self.entries@;
        let ghost ts = self.text_set@;
        let mut old_entries: Vec<ClipEntry> = Vec::new();
        std::mem::swap(&mut old_entries, &mut self.entries);
        for e in it: old_entries.into_iter()
            invariant
                it.seq() == orig,
                self.entries@ == pinned_only(orig.take(it.index() as int)),
                self.text_set@ == ts.difference(unpinned_texts(orig.take(it.index() as int))),
                self.next_id == old(self).next_id,
        {
            proof {
                let k = it.index() as int;
                assert(orig.take(k + 1).drop_last() =~= orig.take(k));
                assert(orig.take(k + 1).last() == e);
            }
            if e.pinned {
                self.entries.push(e);
            } else {
                if let ClipContent::Text(t) = &e.content {
                    self.text_set.remove(t.as_str());
                }
            }
            proof {
                assert(self.text_set@ =~= ts.difference(unpinned_texts(orig.take(it.index() + 1))));
            }
        }
        proof {
            assert(orig.take(orig.len() as int) =~= orig);
        }
        self.mark_dirty();
    }

    /// A store of the entries read back from disk on day `today`: images are
    /// dropped, the search text and time label of each entry are re-derived, the
    /// text index holds every text, and ids continue after the largest one.
    pub fn from_loaded(entries: Vec<ClipEntry>, today: LocalDate) -> (r: Store)
        requires
            forall|i: int| 0 <= i < entries@.len() ==> (#[trigger] entries@[i]).time.valid() && entries@[i].id < u64::MAX,
        ensures
            r.history().len() == text_only(entries@).len(),
            forall|i: int| 0 <= i < r.history().len() ==> reloaded(text_only(entries@)[i], #[trigger] r.history()[i], today),
            r.texts() == texts_of(text_only(entries@)),
            r.next_id() == max_id(text_only(entries@)) + 1,
            !r.is_dirty(),
            no_repeats(text_only(entries@)) && (forall|i: int|
                0 <= i < text_only(entries@).len() ==> shows_content(#[trigger] text_only(entries@)[i])) ==> r.wf(),
    {
        let ghost orig = entries@;
        let mut kept: Vec<ClipEntry> = Vec::new();
        let mut text_set = StringHashSet::new();
        let mut max: u64 = 0;
        for e in it: entries.into_iter()
            invariant
                it.seq() == orig,
                forall|i: int| 0 <= i < orig.len() ==> (#[trigger] orig[i]).time.valid() && orig[i].id < u64::MAX,
                kept@.len() == text_only(orig.take(it.index() as int)).len(),
                forall|i: int| 0 <= i < kept@.len() ==> reloaded(text_only(orig.take(it.index() as int))[i], #[trigger] kept@[i], today),
                text_set@ == texts_of(text_only(orig.take(it.index() as int))),
                max == max_id(text_only(orig.take(it.index() as int))),
                max < u64::MAX,
        {
            let ghost k = it.index() as int;
            proof {
                assert(orig.take(k + 1).drop_last() =~= orig.take(k));
                assert(orig.take(k + 1).last() == e);
                assert(orig[k] == e);
            }
            let mut e = e;
            let ghost e0 = e;
            if let ClipContent::Text(t) = &e.content {
                let lc = to_lowercase(t.as_str());
                let tc = t.clone();
                e.text_lc = lc;
                e.rebuild_time_str(today);
                if e.id > max {
                    max = e.id;
                }
                text_set.insert(tc);
                kept.push(e);
                proof {
                    let pre = text_only(orig.take(k));
                    let post = text_only(orig.take(k + 1));
                    assert(post == pre.push(e0));
                    assert(post.drop_last() =~= pre);
                    assert forall|i: int| 0 <= i < kept@.len() implies reloaded(post[i], #[trigger] kept@[i], today) by {
                        if i < pre.len() {
                            assert(post[i] == pre[i]);
                        }
                    }
                    assert(text_set@ =~= texts_of(post)) by {
                        assert forall|s: Seq<char>| text_set@.contains(s) <==> #[trigger] texts_of(post).contains(s) by {
                            if texts_of(pre).contains(s) {
                                let j = choose|j: int| 0 <= j < pre.len() && text_of(pre[j]) == Some(s);
                                assert(post[j] == pre[j]);
                            }
                            if texts_of(post).contains(s) {
                                let j = choose|j: int| 0 <= j < post.len() && text_of(post[j]) == Some(s);
                                if j < pre.len() {
                                    assert(post[j] == pre[j]);
                                }
                            }
                            assert(post[pre.len() as int] == e0);
                        }
                    }
                }
            } else {
                proof {
                    assert(text_only(orig.take(k + 1)) == text_only(orig.take(k)));
                }
            }
        }
        proof {
            assert(orig.take(orig.len() as int) =~= orig);
            let t = text_only(orig);
            if no_repeats(t) {
                lemma_max_id(t);
                assert forall|i: int| 0 <= i < kept@.len() implies (#[trigger] kept@[i]).id < max + 1 by {
                    assert(reloaded(t[i], kept@[i], today));
                }
                assert forall|i: int, j: int| 0 <= i < j < kept@.len() implies (#[trigger] kept@[i]).id != (#[trigger] kept@[j]).id by {
                    assert(reloaded(t[i], kept@[i], today));
                    assert(reloaded(t[j], kept@[j], today));
                }
                assert forall|i: int, j: int|
                    0 <= i < j < kept@.len() && text_of(#[trigger] kept@[i]) is Some implies text_of(kept@[i]) != text_of(#[trigger] kept@[j]) by {
                    assert(reloaded(t[i], kept@[i], today));
                    assert(reloaded(t[j], kept@[j], today));
                }
                assert(texts_of(kept@) =~= texts_of(t)) by {
                    assert forall|s: Seq<char>| #[trigger] texts_of(kept@).contains(s) <==> texts_of(t).contains(s) by {
                        if texts_of(t).contains(s) {
                            let i = choose|i: int| 0 <= i < t.len() && text_of(t[i]) == Some(s);
                            assert(reloaded(t[i], kept@[i], today));
                        }
                        if texts_of(kept@).contains(s) {
                            let i = choose|i: int| 0 <= i < kept@.len() && text_of(kept@[i]) == Some(s);
                            assert(reloaded(t[i], kept@[i], today));
                        }
                    }
                }
            }
        }
        Store { entries: kept, next_id: max + 1, dirty: false, text_set }
    }

    /// The id the next entry gets.
    pub fn next_entry_id(&self) -> (r: u64)
        ensures
            r == self.next_id(),
    {
        self.next_id
    }

    /// Whether unsaved changes exist.
    pub fn needs_save(&self) -> (r: bool)
        ensures
            r == self.is_dirty(),
    {
        self.dirty
    }

    /// Whether a debounced save is due: changes are pending and at least two
    /// seconds have passed since the last save.
    pub fn flush_due(&self, secs_since_save: u64) -> (r: bool)
        ensures
            r == (self.is_dirty() && secs_since_save >= 2),
    {
        if !self.dirty {
            return false;
        }
        if secs_since_save < 2 {
            return false;
        }
        true
    }

    /// Records that the entries were saved.
    pub fn mark_saved(&mut self)
        ensures
            !final(self).is_dirty(),
            final(self).history() == old(self).history(),
            final(self).texts() == old(self).texts(),
            final(self).next_id() == old(self).next_id(),
    {
        self.dirty = false;
    }

    /// Positions of the entries that are saved to disk: the text entries.
    pub fn saved_positions(&self) -> (r: Vec<usize>)
        ensures
            forall|i: int| 0 <= i < r@.len() ==> (#[trigger] r@[i]) < self.history().len(),
            forall|i: int, j: int| 0 <= i < j < r@.len() ==> r@[i] < r@[j],
            forall|k: int| 0 <= k < self.history().len() ==> (text_of(#[trigger] self.history()[k]) is Some <==> r@.contains(k as usize)),
    {
        let n = self.entries.len();
        let mut r: Vec<usize> = Vec::new();
        let mut i: usize = 0;
        while i < n
            invariant
                n == self.entries@.len(),
                i <= n,
                forall|j: int| 0 <= j < r@.len() ==> (#[trigger] r@[j]) < i,
                forall|a: int, b: int| 0 <= a < b < r@.len() ==> r@[a] < r@[b],
                forall|k: int| 0 <= k < i ==> (text_of(#[trigger] self.entries@[k]) is Some <==> r@.contains(k as usize)),
            decreases n - i,
        {
            let is_text = match &self.entries[i].content {
                ClipContent::Text(_) => true,
                ClipContent::Image { .. } => false,
            };
            let ghost r0 = r@;
            if is_text {
                r.push(i);
                proof {
                    assert(r@[r@.len() - 1] == i);
                    assert forall|k: int| 0 <= k < i + 1 implies (text_of(#[trigger] self.entries@[k]) is Some <==> r@.contains(k as usize)) by {
                        if k < i {
                            if r0.contains(k as usize) {
                                let j = choose|j: int| 0 <= j < r0.len() && r0[j] == k as usize;
                                assert(r@[j] == k as usize);
                            }
                            if r@.contains(k as usize) {
                                let j = choose|j: int| 0 <= j < r@.len() && r@[j] == k as usize;
                                assert(j < r0.len());
                                assert(r0[j] == k as usize);
                            }
                        }
                    }
                }
            } else {
                proof {
                    assert(!r@.contains(i));
                }
            }
            i = i + 1;
        }
        r
    }

    fn mark_dirty(&mut self)
        ensures
            final(self).dirty,
            final(self).entries == old(self).entries,
            final(self).next_id == old(self).next_id,
            final(self).text_set == old(self).text_set,
    {
        self.dirty = true;
    }
}


// ── laws of the store ───────────────────────────────────────────────────────

/// Distinct ids below `n`, and distinct texts.
pub open spec fn distinct_entries(es: Seq<ClipEntry>, n: u64) -> bool {
    &&& forall|i: int| 0 <= i < es.len() ==> (#[trigger] es[i]).id < n
    &&& forall|i: int, j: int| 0 <= i < j < es.len() ==> (#[trigger] es[i]).id != (#[trigger] es[j]).id
    &&& forall|i: int, j: int|
        0 <= i < j < es.len() && text_of(#[trigger] es[i]) is Some ==> text_of(es[i]) != text_of(#[trigger] es[j])
}

proof fn lemma_distinct_drop_last(es: Seq<ClipEntry>, n: u64)
    requires
        es.len() > 0,
        distinct_entries(es, n),
    ensures
        distinct_entries(es.drop_last(), n),
        forall|j: int| 0 <= j < es.len() - 1 ==> (#[trigger] es.drop_last()[j]).id != es.last().id,
        forall|j: int|
            0 <= j < es.len() - 1 && text_of(es.last()) is Some ==> text_of(#[trigger] es.drop_last()[j]) != text_of(es.last()),
{
    let d = es.drop_last();
    assert forall|j: int| 0 <= j < es.len() - 1 implies (#[trigger] d[j]).id != es.last().id by {
        assert(d[j] == es[j]);
        assert(es[j].id != es[es.len() - 1].id);
    }
    assert forall|j: int| 0 <= j < es.len() - 1 && text_of(es.last()) is Some implies text_of(#[trigger] d[j]) != text_of(es.last()) by {
        assert(d[j] == es[j]);
        if text_of(es[j]) is Some {
            assert(text_of(es[j]) != text_of(es[es.len() - 1]));
        }
    }
}

proof fn lemma_texts_of_push(es: Seq<ClipEntry>, x: ClipEntry)
    ensures
        texts_of(es.push(x)) == (match text_of(x) {
            Some(t) => texts_of(es).insert(t),
            None => texts_of(es),
        }),
{
    let r = es.push(x);
    let goal = match text_of(x) {
        Some(t) => texts_of(es).insert(t),
        None => texts_of(es),
    };
    assert forall|t: Seq<char>| #[trigger] texts_of(r).contains(t) <==> goal.contains(t) by {
        if texts_of(r).contains(t) {
            let i = choose|i: int| 0 <= i < r.len() && text_of(r[i]) == Some(t);
            if i < es.len() {
                assert(r[i] == es[i]);
            }
        }
        if texts_of(es).contains(t) {
            let i = choose|i: int| 0 <= i < es.len() && text_of(es[i]) == Some(t);
            assert(r[i] == es[i]);
        }
        if text_of(x) == Some(t) {
            assert(r[es.len() as int] == x);
        }
    }
    assert(texts_of(r) =~= goal);
}

proof fn lemma_keep_recent_sub(s: Seq<ClipEntry>, limit: int, x: ClipEntry)
    requires
        keep_recent(s, limit).contains(x),
    ensures
        s.contains(x),
    decreases s.len(),
{
    if s.len() > 0 {
        let k = keep_recent(s.drop_last(), limit);
        if keep_recent(s, limit) == k.push(s.last()) && x == s.last() {
            assert(s[s.len() - 1] == x);
        } else {
            if kept_at(s, limit) {
                let i = choose|i: int| 0 <= i < k.push(s.last()).len() && k.push(s.last())[i] == x;
                if i < k.len() {
                    assert(k[i] == x);
                } else {
                    assert(x == s.last());
                    assert(s[s.len() - 1] == x);
                }
            }
            if k.contains(x) {
                lemma_keep_recent_sub(s.drop_last(), limit, x);
                let j = choose|j: int| 0 <= j < s.drop_last().len() && s.drop_last()[j] == x;
                assert(s[j] == x);
            }
        }
    }
}

proof fn lemma_keep_recent_pinned(s: Seq<ClipEntry>, limit: int, x: ClipEntry)
    requires
        s.contains(x),
        x.pinned,
    ensures
        keep_recent(s, limit).contains(x),
    decreases s.len(),
{
    let i = choose|i: int| 0 <= i < s.len() && s[i] == x;
    let k = keep_recent(s.drop_last(), limit);
    if i == s.len() - 1 {
        assert(kept_at(s, limit));
        assert(keep_recent(s, limit)[k.len() as int] == x);
    } else {
        assert(s.drop_last()[i] == x);
        lemma_keep_recent_pinned(s.drop_last(), limit, x);
        let j = choose|j: int| 0 <= j < k.len() && k[j] == x;
        if kept_at(s, limit) {
            assert(keep_recent(s, limit)[j] == x);
        }
    }
}

pub open spec fn min_int(a: int, b: int) -> int {
    if a <= b { a } else { b }
}

proof fn lemma_keep_recent_count(s: Seq<ClipEntry>, limit: int)
    requires
        limit >= 0,
    ensures
        count_unpinned(keep_recent(s, limit)) == min_int(count_unpinned(s), limit),
    decreases s.len(),
{
    if s.len() > 0 {
        lemma_keep_recent_count(s.drop_last(), limit);
        let k = keep_recent(s.drop_last(), limit);
        if kept_at(s, limit) {
            assert(k.push(s.last()).drop_last() =~= k);
        }
        lemma_count_unpinned_nonneg(s.drop_last());
    }
}

proof fn lemma_count_unpinned_nonneg(s: Seq<ClipEntry>)
    ensures
        0 <= count_unpinned(s) <= s.len(),
    decreases s.len(),
{
    if s.len() > 0 {
        lemma_count_unpinned_nonneg(s.drop_last());
    }
}

proof fn lemma_keep_recent_prefix(s: Seq<ClipEntry>, m: int, limit: int)
    requires
        0 <= m <= s.len(),
    ensures
        keep_recent(s.take(m), limit).len() <= keep_recent(s, limit).len(),
        forall|i: int|
            0 <= i < keep_recent(s.take(m), limit).len() ==> #[trigger] keep_recent(s, limit)[i] == keep_recent(s.take(m), limit)[i],
    decreases s.len() - m,
{
    if m < s.len() {
        lemma_keep_recent_prefix(s, m + 1, limit);
        let t = s.take(m + 1);
        assert(t.drop_last() =~= s.take(m));
        let k0 = keep_recent(s.take(m), limit);
        let k1 = keep_recent(t, limit);
        assert forall|i: int| 0 <= i < k0.len() implies #[trigger] keep_recent(s, limit)[i] == k0[i] by {
            assert(k1[i] == k0[i]);
        }
    } else {
        assert(s.take(m) =~= s);
    }
}

proof fn lemma_dropped_sub(s: Seq<ClipEntry>, limit: int)
    ensures
        dropped_texts(s, limit).subset_of(texts_of(s)),
    decreases s.len(),
{
    if s.len() > 0 {
        lemma_dropped_sub(s.drop_last(), limit);
        assert(s.drop_last().push(s.last()) =~= s);
        lemma_texts_of_push(s.drop_last(), s.last());
    }
}

proof fn lemma_keep_recent_consistent(s: Seq<ClipEntry>, n: u64, limit: int)
    requires
        distinct_entries(s, n),
    ensures
        distinct_entries(keep_recent(s, limit), n),
        texts_of(keep_recent(s, limit)) == texts_of(s).difference(dropped_texts(s, limit)),
    decreases s.len(),
{
    if s.len() == 0 {
        assert(texts_of(s) =~= Set::empty());
        assert(texts_of(keep_recent(s, limit)) =~= Set::empty());
        assert(texts_of(s).difference(dropped_texts(s, limit)) =~= Set::empty());
    } else {
        let d = s.drop_last();
        let x = s.last();
        lemma_distinct_drop_last(s, n);
        lemma_keep_recent_consistent(d, n, limit);
        lemma_dropped_sub(d, limit);
        assert(d.push(x) =~= s);
        lemma_texts_of_push(d, x);
        let k = keep_recent(d, limit);
        assert(!(text_of(x) is Some && texts_of(d).contains(text_of(x)->0))) by {
            if text_of(x) is Some && texts_of(d).contains(text_of(x)->0) {
                let j = choose|j: int| 0 <= j < d.len() && text_of(d[j]) == text_of(x);
            }
        }
        if kept_at(s, limit) {
            let r = k.push(x);
            lemma_texts_of_push(k, x);
            assert forall|i: int| 0 <= i < k.len() implies (#[trigger] k[i]).id != x.id && (text_of(x) is Some ==> text_of(k[i]) != text_of(x)) by {
                assert(k.contains(k[i]));
                lemma_keep_recent_sub(d, limit, k[i]);
                let j = choose|j: int| 0 <= j < d.len() && d[j] == k[i];
            }
            assert forall|i: int, j: int| 0 <= i < j < r.len() implies (#[trigger] r[i]).id != (#[trigger] r[j]).id by {
                if j == k.len() {
                    assert(r[i] == k[i]);
                } else {
                    assert(r[i] == k[i] && r[j] == k[j]);
                }
            }
            assert forall|i: int, j: int| 0 <= i < j < r.len() && text_of(#[trigger] r[i]) is Some implies text_of(r[i]) != text_of(#[trigger] r[j]) by {
                if j == k.len() {
                    assert(r[i] == k[i]);
                } else {
                    assert(r[i] == k[i] && r[j] == k[j]);
                }
            }
            assert forall|i: int| 0 <= i < r.len() implies (#[trigger] r[i]).id < n by {
                if i < k.len() {
                    assert(r[i] == k[i]);
                } else {
                    assert(s[s.len() - 1] == x);
                }
            }
            assert(texts_of(r) =~= texts_of(s).difference(dropped_texts(s, limit)));
        } else {
            assert(texts_of(k) =~= texts_of(s).difference(dropped_texts(s, limit)));
        }
    }
}

/// Pushing keeps a consistent store consistent: ids stay distinct and below the next
/// id, texts stay distinct, and the text index still holds exactly the entries' texts.
#[verifier::spinoff_prover]
#[verifier::rlimit(50)]
pub proof fn lemma_push_consistent(es: Seq<ClipEntry>, texts: Set<Seq<char>>, next_id: u64, e: ClipEntry)
    requires
        consistent(es, texts, next_id),
        next_id < u64::MAX,
        e.id == next_id,
    ensures
        consistent(inserted_entries(es, texts, e), inserted_texts(es, texts, e), (next_id + 1) as u64),
{
    let c = text_of(e);
    let es1 = dedup_entries(es, texts, c);
    let ts1 = dedup_texts(texts, c);
    lemma_dedup_consistent(es, texts, next_id, c);
    let p = first_index(es1, is_unpinned());
    lemma_first_index_bound(es1, is_unpinned());
    let es2 = es1.insert(p, e);
    let ts2 = match c {
        Some(t) => ts1.insert(t),
        None => ts1,
    };
    let n2 = (next_id + 1) as u64;
    assert forall|i: int| 0 <= i < es2.len() implies (#[trigger] es2[i]).id < n2 by {
        if i < p {
            assert(es2[i] == es1[i]);
        } else if i > p {
            assert(es2[i] == es1[i - 1]);
        }
    }
    assert forall|i: int, j: int| 0 <= i < j < es2.len() implies (#[trigger] es2[i]).id != (#[trigger] es2[j]).id by {
        if i < p {
            assert(es2[i] == es1[i]);
        } else if i > p {
            assert(es2[i] == es1[i - 1]);
        }
        if j < p {
            assert(es2[j] == es1[j]);
        } else if j > p {
            assert(es2[j] == es1[j - 1]);
        }
    }
    assert forall|i: int, j: int| 0 <= i < j < es2.len() && text_of(#[trigger] es2[i]) is Some implies text_of(es2[i]) != text_of(#[trigger] es2[j]) by {
        if i < p {
            assert(es2[i] == es1[i]);
        } else if i > p {
            assert(es2[i] == es1[i - 1]);
        }
        if j < p {
            assert(es2[j] == es1[j]);
        } else if j > p {
            assert(es2[j] == es1[j - 1]);
        }
        if i == p {
            assert(!texts_of(es1).contains(c->0) || c is None);
            if text_of(es2[j]) == c {
                assert(texts_of(es1).contains(c->0));
            }
        }
        if j == p && c is Some {
            if text_of(es2[i]) == c {
                assert(texts_of(es1).contains(c->0));
            }
        }
    }
    assert(texts_of(es2) =~= ts2) by {
        assert forall|t: Seq<char>| #[trigger] texts_of(es2).contains(t) <==> ts2.contains(t) by {
            if texts_of(es2).contains(t) {
                let i = choose|i: int| 0 <= i < es2.len() && text_of(es2[i]) == Some(t);
                if i < p {
                    assert(es2[i] == es1[i]);
                } else if i > p {
                    assert(es2[i] == es1[i - 1]);
                }
            }
            if ts1.contains(t) {
                let i = choose|i: int| 0 <= i < es1.len() && text_of(es1[i]) == Some(t);
                if i < p {
                    assert(es2[i] == es1[i]);
                } else {
                    assert(es2[i + 1] == es1[i]);
                }
            }
            if c == Some(t) {
                assert(es2[p] == e);
            }
        }
    }
    lemma_keep_recent_consistent(es2, n2, MAX_UNPINNED as int);
}

proof fn lemma_first_index_bound<A>(s: Seq<A>, p: spec_fn(A) -> bool)
    ensures
        0 <= first_index(s, p) <= s.len(),
        first_index(s, p) < s.len() ==> p(s[first_index(s, p)]),
        forall|j: int| 0 <= j < first_index(s, p) ==> !p(#[trigger] s[j]),
{
    if exists|i: int| 0 <= i < s.len() && p(s[i]) {
        let i0 = choose|i: int| 0 <= i < s.len() && p(s[i]);
        lemma_least_witness(s, p, i0);
    }
}

proof fn lemma_least_witness<A>(s: Seq<A>, p: spec_fn(A) -> bool, i: int)
    requires
        0 <= i < s.len(),
        p(s[i]),
    ensures
        exists|k: int| 0 <= k < s.len() && p(s[k]) && forall|j: int| 0 <= j < k ==> !p(s[j]),
    decreases i,
{
    if exists|j: int| 0 <= j < i && p(s[j]) {
        let j = choose|j: int| 0 <= j < i && p(s[j]);
        lemma_least_witness(s, p, j);
    } else {
        assert(forall|j: int| 0 <= j < i ==> !p(s[j]));
    }
}

proof fn lemma_dedup_consistent(es: Seq<ClipEntry>, texts: Set<Seq<char>>, next_id: u64, c: Option<Seq<char>>)
    requires
        consistent(es, texts, next_id),
    ensures
        distinct_entries(dedup_entries(es, texts, c), next_id),
        texts_of(dedup_entries(es, texts, c)) == dedup_texts(texts, c),
        c is Some ==> !texts_of(dedup_entries(es, texts, c)).contains(c->0),
{
    let es1 = dedup_entries(es, texts, c);
    match c {
        Some(t) => {
            if texts.contains(t) {
                let w = choose|i: int| 0 <= i < es.len() && text_of(es[i]) == Some(t);
                lemma_first_index_bound(es, has_text(t));
                let i = first_index(es, has_text(t));
                assert(has_text(t)(es[w]));
                assert(i < es.len());
                assert(es1 == es.remove(i));
                assert forall|a: int, b: int| 0 <= a < b < es1.len() implies (#[trigger] es1[a]).id != (#[trigger] es1[b]).id by {
                    let a0 = if a < i { a } else { a + 1 };
                    let b0 = if b < i { b } else { b + 1 };
                    assert(es1[a] == es[a0] && es1[b] == es[b0]);
                }
                assert forall|a: int, b: int| 0 <= a < b < es1.len() && text_of(#[trigger] es1[a]) is Some implies text_of(es1[a]) != text_of(#[trigger] es1[b]) by {
                    let a0 = if a < i { a } else { a + 1 };
                    let b0 = if b < i { b } else { b + 1 };
                    assert(es1[a] == es[a0] && es1[b] == es[b0]);
                }
                assert forall|a: int| 0 <= a < es1.len() implies (#[trigger] es1[a]).id < next_id by {
                    let a0 = if a < i { a } else { a + 1 };
                    assert(es1[a] == es[a0]);
                }
                assert forall|s: Seq<char>| #[trigger] texts_of(es1).contains(s) <==> texts.remove(t).contains(s) by {
                    if texts_of(es1).contains(s) {
                        let a = choose|a: int| 0 <= a < es1.len() && text_of(es1[a]) == Some(s);
                        let a0 = if a < i { a } else { a + 1 };
                        assert(es1[a] == es[a0]);
                        if s == t {
                            assert(text_of(es[i]) == Some(t));
                            if a0 < i {
                                assert(text_of(es[a0]) != text_of(es[i]));
                            } else {
                                assert(text_of(es[i]) != text_of(es[a0]));
                            }
                        }
                    }
                    if texts.remove(t).contains(s) {
                        let a0 = choose|a: int| 0 <= a < es.len() && text_of(es[a]) == Some(s);
                        assert(a0 != i);
                        let a = if a0 < i { a0 } else { a0 - 1 };
                        assert(es1[a] == es[a0]);
                    }
                }
                assert(texts_of(es1) =~= texts.remove(t));
            } else {
                assert(texts.remove(t) =~= texts);
            }
        },
        None => {},
    }
}


/// A pushed entry becomes the first unpinned entry; every entry before it is pinned.
pub proof fn lemma_insert_front(es: Seq<ClipEntry>, texts: Set<Seq<char>>, e: ClipEntry)
    requires
        !e.pinned,
    ensures
        ({
            let r = inserted_entries(es, texts, e);
            let p = first_index(r, is_unpinned());
            p < r.len() && r[p] == e
        }),
{
    let es1 = dedup_entries(es, texts, text_of(e));
    let p = first_index(es1, is_unpinned());
    lemma_first_index_bound(es1, is_unpinned());
    let es2 = es1.insert(p, e);
    let lim = MAX_UNPINNED as int;
    // every entry before `e` is pinned, so all of them and `e` survive the bound
    let pre = es2.take(p + 1);
    assert forall|j: int| 0 <= j < p implies (#[trigger] es2[j]).pinned by {
        assert(es2[j] == es1[j]);
        assert(!is_unpinned()(es1[j]));
    }
    lemma_keep_prefix_pinned(es2, p, lim);
    assert(keep_recent(es2.take(p), lim) =~= es2.take(p));
    assert(pre.drop_last() =~= es2.take(p));
    lemma_count_all_pinned(es2.take(p));
    assert(count_unpinned(pre) == 1);
    assert(kept_at(pre, lim));
    assert(keep_recent(pre, lim) == es2.take(p).push(e));
    lemma_keep_recent_prefix(es2, p + 1, lim);
    let r = keep_recent(es2, lim);
    assert(r[p] == e);
    assert forall|j: int| 0 <= j < p implies !is_unpinned()(#[trigger] r[j]) by {
        assert(r[j] == keep_recent(pre, lim)[j]);
        assert(keep_recent(pre, lim)[j] == es2[j]);
    }
    lemma_first_index(r, is_unpinned(), p);
}

proof fn lemma_count_all_pinned(s: Seq<ClipEntry>)
    requires
        forall|j: int| 0 <= j < s.len() ==> (#[trigger] s[j]).pinned,
    ensures
        count_unpinned(s) == 0,
    decreases s.len(),
{
    if s.len() > 0 {
        assert(s[s.len() - 1].pinned);
        lemma_count_all_pinned(s.drop_last());
    }
}

proof fn lemma_keep_prefix_pinned(s: Seq<ClipEntry>, m: int, limit: int)
    requires
        0 <= m <= s.len(),
        forall|j: int| 0 <= j < m ==> (#[trigger] s[j]).pinned,
    ensures
        keep_recent(s.take(m), limit) == s.take(m),
    decreases m,
{
    if m > 0 {
        lemma_keep_prefix_pinned(s, m - 1, limit);
        let t = s.take(m);
        assert(t.drop_last() =~= s.take(m - 1));
        assert(t.last() == s[m - 1]);
        assert(s.take(m - 1).push(s[m - 1]) =~= t);
    } else {
        assert(s.take(0) =~= Seq::<ClipEntry>::empty());
    }
}

/// After a push at most 500 entries are unpinned.
pub proof fn lemma_insert_bound(es: Seq<ClipEntry>, texts: Set<Seq<char>>, e: ClipEntry)
    ensures
        count_unpinned(inserted_entries(es, texts, e)) <= MAX_UNPINNED as int,
{
    let es1 = dedup_entries(es, texts, text_of(e));
    let es2 = es1.insert(first_index(es1, is_unpinned()), e);
    lemma_keep_recent_count(es2, MAX_UNPINNED as int);
}

/// Copying a text that the history holds leaves exactly one entry with that text,
/// the new one.
#[verifier::spinoff_prover]
#[verifier::rlimit(60)]
proof fn lemma_insert_dedup(es: Seq<ClipEntry>, texts: Set<Seq<char>>, next_id: u64, e: ClipEntry)
    requires
        consistent(es, texts, next_id),
        next_id < u64::MAX,
        e.id == next_id,
        !e.pinned,
        text_of(e) is Some,
    ensures
        ({
            let r = inserted_entries(es, texts, e);
            &&& r.contains(e)
            &&& forall|i: int| 0 <= i < r.len() && text_of(#[trigger] r[i]) == text_of(e) ==> r[i] == e
        }),
{
    let r = inserted_entries(es, texts, e);
    let ts = inserted_texts(es, texts, e);
    lemma_insert_front(es, texts, e);
    lemma_push_consistent(es, texts, next_id, e);
    lemma_first_index_bound(r, is_unpinned());
    lemma_sole_holder(r, ts, (next_id + 1) as u64, e, first_index(r, is_unpinned()));
}

proof fn lemma_sole_holder(r: Seq<ClipEntry>, ts: Set<Seq<char>>, n: u64, e: ClipEntry, p: int)
    requires
        consistent(r, ts, n),
        0 <= p < r.len(),
        r[p] == e,
        text_of(e) is Some,
    ensures
        r.contains(e),
        forall|i: int| 0 <= i < r.len() && text_of(#[trigger] r[i]) == text_of(e) ==> r[i] == e,
{
    assert forall|i: int| 0 <= i < r.len() && text_of(#[trigger] r[i]) == text_of(e) implies r[i] == e by {
        lemma_text_unique_at(r, ts, n, i, p);
    }
}

proof fn lemma_text_unique_at(r: Seq<ClipEntry>, ts: Set<Seq<char>>, n: u64, i: int, p: int)
    requires
        consistent(r, ts, n),
        0 <= i < r.len(),
        0 <= p < r.len(),
        text_of(r[p]) is Some,
        text_of(r[i]) == text_of(r[p]),
    ensures
        i == p,
{
    if i < p {
        assert(text_of(r[i]) != text_of(r[p]));
    } else if p < i {
        assert(text_of(r[p]) != text_of(r[i]));
    }
}

/// Pinned entries survive a push, except one holding the very text being copied.
#[verifier::rlimit(40)]
#[verifier::spinoff_prover]
proof fn lemma_insert_keeps_pinned(es: Seq<ClipEntry>, texts: Set<Seq<char>>, e: ClipEntry, x: ClipEntry)
    requires
        es.contains(x),
        x.pinned,
        !(text_of(e) is Some && text_of(x) == text_of(e)),
    ensures
        inserted_entries(es, texts, e).contains(x),
{
    let c = text_of(e);
    let es1 = dedup_entries(es, texts, c);
    let k = choose|k: int| 0 <= k < es.len() && es[k] == x;
    assert(es1.contains(x)) by {
        match c {
            Some(t) => {
                let i = first_index(es, has_text(t));
                if texts.contains(t) && i < es.len() {
                    lemma_first_index_bound(es, has_text(t));
                    assert(k != i);
                    let k1 = if k < i { k } else { k - 1 };
                    assert(es1[k1] == x);
                }
            },
            None => {},
        }
    }
    let p = first_index(es1, is_unpinned());
    lemma_first_index_bound(es1, is_unpinned());
    let es2 = es1.insert(p, e);
    let k1 = choose|k: int| 0 <= k < es1.len() && es1[k] == x;
    if k1 < p {
        assert(es2[k1] == x);
    } else {
        assert(es2[k1 + 1] == x);
    }
    lemma_keep_recent_pinned(es2, MAX_UNPINNED as int, x);
}

/// Flipping the pin of the same entry twice restores the history.
pub proof fn lemma_toggle_twice(a: Seq<ClipEntry>, b: Seq<ClipEntry>, c: Seq<ClipEntry>, id: u64)
    requires
        toggled(a, b, id),
        toggled(b, c, id),
    ensures
        c == a,
{
    let i = first_index(a, has_id(id));
    lemma_first_index_bound(a, has_id(id));
    if i < a.len() {
        assert forall|j: int| 0 <= j < i implies !has_id(id)(#[trigger] b[j]) by {
            assert(b[j] == a[j]);
        }
        assert(has_id(id)(b[i]));
        lemma_first_index(b, has_id(id), i);
        assert(c[i] == a[i]);
        assert(c =~= a) by {
            assert forall|j: int| 0 <= j < a.len() implies c[j] == a[j] by {
                if j != i {
                    assert(c[j] == b[j]);
                }
            }
        }
    }
}

/// No entry with the removed id remains.
pub proof fn lemma_remove_gone(es: Seq<ClipEntry>, id: u64)
    ensures
        forall|i: int| 0 <= i < without_id(es, id).len() ==> (#[trigger] without_id(es, id)[i]).id != id,
        forall|x: ClipEntry| es.contains(x) && x.id != id ==> #[trigger] without_id(es, id).contains(x),
        forall|x: ClipEntry| #[trigger] without_id(es, id).contains(x) ==> es.contains(x),
    decreases es.len(),
{
    if es.len() > 0 {
        let d = es.drop_last();
        lemma_remove_gone(d, id);
        let r0 = without_id(d, id);
        let r = without_id(es, id);
        assert forall|x: ClipEntry| es.contains(x) && x.id != id implies #[trigger] r.contains(x) by {
            let k = choose|k: int| 0 <= k < es.len() && es[k] == x;
            if k < es.len() - 1 {
                assert(d[k] == x);
                assert(d.contains(x));
                assert(r0.contains(x));
                let j = choose|j: int| 0 <= j < r0.len() && r0[j] == x;
                if es.last().id != id {
                    assert(r[j] == x);
                }
            } else {
                assert(r[r0.len() as int] == x);
            }
        }
        assert forall|x: ClipEntry| #[trigger] r.contains(x) implies es.contains(x) by {
            let j = choose|j: int| 0 <= j < r.len() && r[j] == x;
            if j < r0.len() {
                assert(r0[j] == x);
                assert(r0.contains(x));
                assert(d.contains(x));
                let k = choose|k: int| 0 <= k < d.len() && d[k] == x;
                assert(es[k] == x);
            } else {
                assert(es[es.len() - 1] == x);
            }
        }
    }
}

/// After clearing, only pinned entries remain, and every pinned entry does.
pub proof fn lemma_clear_pinned(es: Seq<ClipEntry>)
    ensures
        forall|i: int| 0 <= i < pinned_only(es).len() ==> (#[trigger] pinned_only(es)[i]).pinned,
        forall|x: ClipEntry| es.contains(x) && x.pinned ==> #[trigger] pinned_only(es).contains(x),
        forall|x: ClipEntry| #[trigger] pinned_only(es).contains(x) ==> es.contains(x),
    decreases es.len(),
{
    if es.len() > 0 {
        let d = es.drop_last();
        lemma_clear_pinned(d);
        let r0 = pinned_only(d);
        let r = pinned_only(es);
        assert forall|x: ClipEntry| es.contains(x) && x.pinned implies #[trigger] r.contains(x) by {
            let k = choose|k: int| 0 <= k < es.len() && es[k] == x;
            if k < es.len() - 1 {
                assert(d[k] == x);
                assert(d.contains(x));
                assert(r0.contains(x));
                let j = choose|j: int| 0 <= j < r0.len() && r0[j] == x;
                if es.last().pinned {
                    assert(r[j] == x);
                }
            } else {
                assert(r[r0.len() as int] == x);
            }
        }
        assert forall|x: ClipEntry| #[trigger] r.contains(x) implies es.contains(x) by {
            let j = choose|j: int| 0 <= j < r.len() && r[j] == x;
            if j < r0.len() {
                assert(r0[j] == x);
                assert(r0.contains(x));
                assert(d.contains(x));
                let k = choose|k: int| 0 <= k < d.len() && d[k] == x;
                assert(es[k] == x);
            } else {
                assert(es[es.len() - 1] == x);
            }
        }
    }
}


// ── the other operations keep the store consistent ──────────────────────────

proof fn lemma_push_distinct(r: Seq<ClipEntry>, x: ClipEntry, n: u64)
    requires
        distinct_entries(r, n),
        x.id < n,
        forall|k: int| 0 <= k < r.len() ==> (#[trigger] r[k]).id != x.id,
        forall|k: int| 0 <= k < r.len() && text_of(x) is Some ==> text_of(#[trigger] r[k]) != text_of(x),
    ensures
        distinct_entries(r.push(x), n),
{
    let q = r.push(x);
    assert forall|i: int| 0 <= i < q.len() implies (#[trigger] q[i]).id < n by {
        if i < r.len() {
            assert(q[i] == r[i]);
        }
    }
    assert forall|i: int, j: int| 0 <= i < j < q.len() implies (#[trigger] q[i]).id != (#[trigger] q[j]).id by {
        assert(q[i] == r[i]);
        if j < r.len() {
            assert(q[j] == r[j]);
        }
    }
    assert forall|i: int, j: int|
        0 <= i < j < q.len() && text_of(#[trigger] q[i]) is Some implies text_of(q[i]) != text_of(#[trigger] q[j]) by {
        assert(q[i] == r[i]);
        if j < r.len() {
            assert(q[j] == r[j]);
        }
    }
}

proof fn lemma_pinned_distinct(es: Seq<ClipEntry>, n: u64)
    requires
        distinct_entries(es, n),
    ensures
        distinct_entries(pinned_only(es), n),
    decreases es.len(),
{
    if es.len() > 0 {
        let d = es.drop_last();
        lemma_distinct_drop_last(es, n);
        lemma_pinned_distinct(d, n);
        lemma_clear_pinned(d);
        let r0 = pinned_only(d);
        if es.last().pinned {
            assert(es[es.len() - 1] == es.last());
            assert forall|k: int| 0 <= k < r0.len() implies (#[trigger] r0[k]).id != es.last().id
                && (text_of(es.last()) is Some ==> text_of(r0[k]) != text_of(es.last())) by {
                assert(r0.contains(r0[k]));
                let a = choose|a: int| 0 <= a < d.len() && d[a] == r0[k];
                assert(d[a].id != es.last().id);
            }
            lemma_push_distinct(r0, es.last(), n);
        }
    }
}

proof fn lemma_without_id_distinct(es: Seq<ClipEntry>, n: u64, id: u64)
    requires
        distinct_entries(es, n),
    ensures
        distinct_entries(without_id(es, id), n),
    decreases es.len(),
{
    if es.len() > 0 {
        let d = es.drop_last();
        lemma_distinct_drop_last(es, n);
        lemma_without_id_distinct(d, n, id);
        lemma_remove_gone(d, id);
        let r0 = without_id(d, id);
        if es.last().id != id {
            assert(es[es.len() - 1] == es.last());
            assert forall|k: int| 0 <= k < r0.len() implies (#[trigger] r0[k]).id != es.last().id
                && (text_of(es.last()) is Some ==> text_of(r0[k]) != text_of(es.last())) by {
                assert(r0.contains(r0[k]));
                let a = choose|a: int| 0 <= a < d.len() && d[a] == r0[k];
                assert(d[a].id != es.last().id);
            }
            lemma_push_distinct(r0, es.last(), n);
        }
    }
}

proof fn lemma_unpinned_texts(es: Seq<ClipEntry>, t: Seq<char>)
    ensures
        unpinned_texts(es).contains(t) <==> exists|i: int| 0 <= i < es.len() && !(#[trigger] es[i]).pinned && text_of(es[i]) == Some(t),
    decreases es.len(),
{
    if es.len() > 0 {
        let d = es.drop_last();
        let last = es.last();
        lemma_unpinned_texts(d, t);
        assert(es[es.len() - 1] == last);
        if exists|i: int| 0 <= i < d.len() && !(#[trigger] d[i]).pinned && text_of(d[i]) == Some(t) {
            let i = choose|i: int| 0 <= i < d.len() && !(#[trigger] d[i]).pinned && text_of(d[i]) == Some(t);
            assert(es[i] == d[i]);
        }
        if exists|i: int| 0 <= i < es.len() && !(#[trigger] es[i]).pinned && text_of(es[i]) == Some(t) {
            let i = choose|i: int| 0 <= i < es.len() && !(#[trigger] es[i]).pinned && text_of(es[i]) == Some(t);
            if i < d.len() {
                assert(d[i] == es[i]);
            }
        }
    }
}

/// Flipping a pin keeps the store consistent.
pub proof fn lemma_toggle_consistent(a: Seq<ClipEntry>, b: Seq<ClipEntry>, texts: Set<Seq<char>>, next_id: u64, id: u64)
    requires
        consistent(a, texts, next_id),
        toggled(a, b, id),
    ensures
        consistent(b, texts, next_id),
{
    let k = first_index(a, has_id(id));
    lemma_first_index_bound(a, has_id(id));
    if k < a.len() {
        assert forall|i: int| 0 <= i < b.len() implies b[i].id == a[i].id && text_of(b[i]) == text_of(a[i]) by {
            if i != k {
                assert(b[i] == a[i]);
            }
        }
        assert forall|i: int| 0 <= i < b.len() implies (#[trigger] b[i]).id < next_id by {
            assert(b[i].id == a[i].id);
        }
        assert forall|i: int, j: int| 0 <= i < j < b.len() implies (#[trigger] b[i]).id != (#[trigger] b[j]).id by {
            assert(b[i].id == a[i].id && b[j].id == a[j].id);
        }
        assert forall|i: int, j: int|
            0 <= i < j < b.len() && text_of(#[trigger] b[i]) is Some implies text_of(b[i]) != text_of(#[trigger] b[j]) by {
            assert(text_of(b[i]) == text_of(a[i]) && text_of(b[j]) == text_of(a[j]));
        }
        assert(texts_of(b) =~= texts_of(a)) by {
            assert forall|t: Seq<char>| texts_of(b).contains(t) <==> #[trigger] texts_of(a).contains(t) by {
                if texts_of(a).contains(t) {
                    let i = choose|i: int| 0 <= i < a.len() && text_of(a[i]) == Some(t);
                    assert(text_of(b[i]) == text_of(a[i]));
                }
                if texts_of(b).contains(t) {
                    let i = choose|i: int| 0 <= i < b.len() && text_of(b[i]) == Some(t);
                    assert(text_of(b[i]) == text_of(a[i]));
                }
            }
        }
    }
}

/// Clearing the unpinned entries keeps the store consistent.
pub proof fn lemma_clear_consistent(es: Seq<ClipEntry>, texts: Set<Seq<char>>, next_id: u64)
    requires
        consistent(es, texts, next_id),
    ensures
        consistent(pinned_only(es), texts.difference(unpinned_texts(es)), next_id),
{
    let r = pinned_only(es);
    lemma_clear_pinned(es);
    lemma_pinned_distinct(es, next_id);
    assert(texts_of(r) =~= texts.difference(unpinned_texts(es))) by {
        assert forall|t: Seq<char>| #[trigger] texts_of(r).contains(t) <==> texts.difference(unpinned_texts(es)).contains(t) by {
            lemma_unpinned_texts(es, t);
            if texts_of(r).contains(t) {
                let i = choose|i: int| 0 <= i < r.len() && text_of(r[i]) == Some(t);
                assert(r.contains(r[i]));
                let a = choose|a: int| 0 <= a < es.len() && es[a] == r[i];
                assert(es[a].pinned);
                assert(texts_of(es).contains(t));
                if unpinned_texts(es).contains(t) {
                    let b = choose|b: int| 0 <= b < es.len() && !es[b].pinned && text_of(es[b]) == Some(t);
                    if a < b {
                        assert(text_of(es[a]) != text_of(es[b]));
                    } else if b < a {
                        assert(text_of(es[b]) != text_of(es[a]));
                    }
                }
            }
            if texts.difference(unpinned_texts(es)).contains(t) {
                assert(texts_of(es).contains(t));
                let a = choose|a: int| 0 <= a < es.len() && text_of(es[a]) == Some(t);
                assert(es.contains(es[a]));
                assert(es[a].pinned);
                assert(r.contains(es[a]));
                let i = choose|i: int| 0 <= i < r.len() && r[i] == es[a];
                assert(text_of(r[i]) == Some(t));
            }
        }
    }
}

/// The text index after removing the entries with id `id`.
pub open spec fn texts_after_remove(es: Seq<ClipEntry>, texts: Set<Seq<char>>, id: u64) -> Set<Seq<char>> {
    let k = first_index(es, has_id(id));
    if k < es.len() && text_of(es[k]) is Some {
        texts.remove(text_of(es[k])->0)
    } else {
        texts
    }
}

/// Removing an entry keeps the store consistent.
pub proof fn lemma_remove_consistent(es: Seq<ClipEntry>, texts: Set<Seq<char>>, next_id: u64, id: u64)
    requires
        consistent(es, texts, next_id),
    ensures
        consistent(without_id(es, id), texts_after_remove(es, texts, id), next_id),
{
    let r = without_id(es, id);
    lemma_remove_gone(es, id);
    lemma_without_id_distinct(es, next_id, id);
    let k = first_index(es, has_id(id));
    lemma_first_index_bound(es, has_id(id));
    assert(texts_of(r) =~= texts_after_remove(es, texts, id)) by {
        assert forall|t: Seq<char>| #[trigger] texts_of(r).contains(t) <==> texts_after_remove(es, texts, id).contains(t) by {
            if texts_of(r).contains(t) {
                let i = choose|i: int| 0 <= i < r.len() && text_of(r[i]) == Some(t);
                assert(r.contains(r[i]));
                let a = choose|a: int| 0 <= a < es.len() && es[a] == r[i];
                assert(es[a].id != id);
                assert(texts_of(es).contains(t));
                if k < es.len() && text_of(es[k]) == Some(t) {
                    if a < k {
                        assert(text_of(es[a]) != text_of(es[k]));
                    } else if k < a {
                        assert(text_of(es[k]) != text_of(es[a]));
                    }
                }
            }
            if texts_after_remove(es, texts, id).contains(t) {
                assert(texts_of(es).contains(t));
                let a = choose|a: int| 0 <= a < es.len() && text_of(es[a]) == Some(t);
                if es[a].id == id {
                    assert(k < es.len());
                    if a != k {
                        if a < k {
                            assert(!has_id(id)(es[a]));
                        } else {
                            assert(es[k].id != es[a].id);
                        }
                    }
                }
                assert(es[a].id != id);
                assert(es.contains(es[a]));
                assert(r.contains(es[a]));
                let i = choose|i: int| 0 <= i < r.len() && r[i] == es[a];
                assert(text_of(r[i]) == Some(t));
            }
        }
    }
}

// ── saving and loading ──────────────────────────────────────────────────────

proof fn lemma_text_only(es: Seq<ClipEntry>)
    ensures
        forall|i: int| 0 <= i < text_only(es).len() ==> text_of(#[trigger] text_only(es)[i]) is Some,
        forall|i: int| 0 <= i < text_only(es).len() ==> exists|a: int| 0 <= a < es.len() && es[a] == #[trigger] text_only(es)[i],
        forall|i: int, j: int| 0 <= i < j < text_only(es).len() ==> exists|a: int, b: int|
            0 <= a < b < es.len() && es[a] == #[trigger] text_only(es)[i] && es[b] == #[trigger] text_only(es)[j],
        forall|a: int| 0 <= a < es.len() && text_of(#[trigger] es[a]) is Some ==> text_only(es).contains(es[a]),
        text_only(text_only(es)) == text_only(es),
    decreases es.len(),
{
    if es.len() > 0 {
        let d = es.drop_last();
        lemma_text_only(d);
        let r0 = text_only(d);
        let r = text_only(es);
        assert(es[es.len() - 1] == es.last());
        assert forall|i: int| 0 <= i < r.len() implies text_of(#[trigger] r[i]) is Some by {
            if i < r0.len() {
                assert(r[i] == r0[i]);
            }
        }
        assert forall|i: int| 0 <= i < r.len() implies exists|a: int| 0 <= a < es.len() && es[a] == #[trigger] r[i] by {
            if i < r0.len() {
                assert(r[i] == r0[i]);
                let a = choose|a: int| 0 <= a < d.len() && d[a] == r0[i];
                assert(es[a] == d[a]);
            }
        }
        assert forall|i: int, j: int| 0 <= i < j < r.len() implies exists|a: int, b: int|
            0 <= a < b < es.len() && es[a] == #[trigger] r[i] && es[b] == #[trigger] r[j] by {
            assert(r[i] == r0[i]);
            let a = choose|a: int| 0 <= a < d.len() && d[a] == r0[i];
            assert(es[a] == d[a]);
            if j < r0.len() {
                assert(r[j] == r0[j]);
                let (a2, b2) = choose|a2: int, b2: int| 0 <= a2 < b2 < d.len() && d[a2] == r0[i] && d[b2] == r0[j];
                assert(es[a2] == d[a2] && es[b2] == d[b2]);
            }
        }
        assert forall|a: int| 0 <= a < es.len() && text_of(#[trigger] es[a]) is Some implies r.contains(es[a]) by {
            if a < d.len() {
                assert(d[a] == es[a]);
                assert(r0.contains(es[a]));
                let i = choose|i: int| 0 <= i < r0.len() && r0[i] == es[a];
                assert(r[i] == r0[i]);
            } else {
                assert(r[r.len() - 1] == es[a]);
            }
        }
        if text_of(es.last()) is Some {
            assert(r.drop_last() =~= r0);
        }
    }
}

/// What is saved is what is loaded back: saving keeps the text entries (the
/// image entries are dropped), loading them keeps them all, the text index
/// built on loading holds exactly the texts the history held, and a history
/// without repeats saves one without repeats.
pub proof fn lemma_save_load(es: Seq<ClipEntry>)
    ensures
        text_only(text_only(es)) == text_only(es),
        texts_of(text_only(es)) == texts_of(es),
        no_repeats(es) ==> no_repeats(text_only(es)),
{
    lemma_text_only(es);
    let t = text_only(es);
    assert(texts_of(t) =~= texts_of(es)) by {
        assert forall|s: Seq<char>| #[trigger] texts_of(t).contains(s) <==> texts_of(es).contains(s) by {
            if texts_of(t).contains(s) {
                let i = choose|i: int| 0 <= i < t.len() && text_of(t[i]) == Some(s);
                let a = choose|a: int| 0 <= a < es.len() && es[a] == t[i];
                assert(text_of(es[a]) == Some(s));
            }
            if texts_of(es).contains(s) {
                let a = choose|a: int| 0 <= a < es.len() && text_of(es[a]) == Some(s);
                assert(t.contains(es[a]));
                let i = choose|i: int| 0 <= i < t.len() && t[i] == es[a];
                assert(text_of(t[i]) == Some(s));
            }
        }
    }
    if no_repeats(es) {
        assert forall|i: int, j: int| 0 <= i < j < t.len() implies (#[trigger] t[i]).id != (#[trigger] t[j]).id by {
            let (a, b) = choose|a: int, b: int| 0 <= a < b < es.len() && es[a] == t[i] && es[b] == t[j];
            assert(es[a].id != es[b].id);
        }
        assert forall|i: int, j: int|
            0 <= i < j < t.len() && text_of(#[trigger] t[i]) is Some implies text_of(t[i]) != text_of(#[trigger] t[j]) by {
            let (a, b) = choose|a: int, b: int| 0 <= a < b < es.len() && es[a] == t[i] && es[b] == t[j];
            assert(text_of(es[a]) != text_of(es[b]));
        }
    }
}

// ── laws of a copy ──────────────────────────────────────────────────────────

/// A new copy never pushes out a pinned entry, not even one holding the same text.
pub proof fn lemma_push_keeps_pinned(es: Seq<ClipEntry>, texts: Set<Seq<char>>, next_id: u64, e: ClipEntry, x: ClipEntry)
    requires
        consistent(es, texts, next_id),
        es.contains(x),
        x.pinned,
    ensures
        recorded_entries(es, texts, e).contains(x),
{
    if !pinned_holder(es, texts, text_of(e)) {
        if text_of(e) is Some && text_of(x) == text_of(e) {
            let t = text_of(e)->0;
            let k = choose|k: int| 0 <= k < es.len() && es[k] == x;
            assert(texts_of(es).contains(t));
            lemma_first_index_bound(es, has_text(t));
            assert(has_text(t)(es[k]));
            let i = first_index(es, has_text(t));
            assert(i <= k);
            if i < k {
                assert(text_of(es[i]) != text_of(es[k]));
            }
            assert(false);
        }
        lemma_insert_keeps_pinned(es, texts, e, x);
    }
}

/// After copying text, exactly one entry holds it: the pinned entry that held it
/// (the history then being unchanged), or else the new entry.
pub proof fn lemma_push_dedup(es: Seq<ClipEntry>, texts: Set<Seq<char>>, next_id: u64, e: ClipEntry)
    requires
        consistent(es, texts, next_id),
        next_id < u64::MAX,
        e.id == next_id,
        !e.pinned,
        text_of(e) is Some,
    ensures
        ({
            let r = recorded_entries(es, texts, e);
            &&& exists|i: int| 0 <= i < r.len() && text_of(#[trigger] r[i]) == text_of(e)
            &&& forall|i: int, j: int|
                0 <= i < r.len() && 0 <= j < r.len() && text_of(#[trigger] r[i]) == text_of(e) && text_of(#[trigger] r[j])
                    == text_of(e) ==> i == j
            &&& pinned_holder(es, texts, text_of(e)) ==> r == es
            &&& !pinned_holder(es, texts, text_of(e)) ==> r.contains(e)
        }),
{
    let r = recorded_entries(es, texts, e);
    let t = text_of(e)->0;
    if pinned_holder(es, texts, text_of(e)) {
        lemma_first_index_bound(es, has_text(t));
        let k = first_index(es, has_text(t));
        assert(text_of(r[k]) == text_of(e));
        assert forall|i: int, j: int|
            0 <= i < r.len() && 0 <= j < r.len() && text_of(#[trigger] r[i]) == text_of(e) && text_of(#[trigger] r[j])
                == text_of(e) implies i == j by {
            if i < j {
                assert(text_of(r[i]) != text_of(r[j]));
            } else if j < i {
                assert(text_of(r[j]) != text_of(r[i]));
            }
        }
    } else {
        lemma_insert_dedup(es, texts, next_id, e);
        lemma_push_consistent(es, texts, next_id, e);
        let k = choose|k: int| 0 <= k < r.len() && r[k] == e;
        assert(text_of(r[k]) == text_of(e));
        assert forall|i: int, j: int|
            0 <= i < r.len() && 0 <= j < r.len() && text_of(#[trigger] r[i]) == text_of(e) && text_of(#[trigger] r[j])
                == text_of(e) implies i == j by {
            if i < j {
                assert(text_of(r[i]) != text_of(r[j]));
            } else if j < i {
                assert(text_of(r[j]) != text_of(r[i]));
            }
        }
    }
}

/// A history with at most 500 unpinned entries keeps that bound after a copy.
pub proof fn lemma_push_bound(es: Seq<ClipEntry>, texts: Set<Seq<char>>, e: ClipEntry)
    requires
        count_unpinned(es) <= MAX_UNPINNED as int,
    ensures
        count_unpinned(recorded_entries(es, texts, e)) <= MAX_UNPINNED as int,
{
    lemma_insert_bound(es, texts, e);
}

proof fn lemma_all_derived_sub(es: Seq<ClipEntry>, r: Seq<ClipEntry>, e: ClipEntry)
    requires
        all_derived(es),
        derived(e),
        forall|x: ClipEntry| #[trigger] r.contains(x) ==> es.contains(x) || x == e,
    ensures
        all_derived(r),
{
    assert forall|i: int| 0 <= i < r.len() implies derived(#[trigger] r[i]) by {
        assert(r.contains(r[i]));
        if r[i] != e {
            let k = choose|k: int| 0 <= k < es.len() && es[k] == r[i];
            assert(derived(es[k]));
        }
    }
}

proof fn lemma_inserted_from(es: Seq<ClipEntry>, texts: Set<Seq<char>>, e: ClipEntry)
    ensures
        forall|x: ClipEntry| #[trigger] inserted_entries(es, texts, e).contains(x) ==> es.contains(x) || x == e,
{
    let es1 = dedup_entries(es, texts, text_of(e));
    let p = first_index(es1, is_unpinned());
    lemma_first_index_bound(es1, is_unpinned());
    let es2 = es1.insert(p, e);
    assert forall|x: ClipEntry| #[trigger] inserted_entries(es, texts, e).contains(x) implies es.contains(x) || x == e by {
        lemma_keep_recent_sub(es2, MAX_UNPINNED as int, x);
        let j = choose|j: int| 0 <= j < es2.len() && es2[j] == x;
        if x != e {
            let j1 = if j < p { j } else { j - 1 };
            assert(es1[j1] == x);
            match text_of(e) {
                Some(t) => {
                    let i = first_index(es, has_text(t));
                    lemma_first_index_bound(es, has_text(t));
                    if texts.contains(t) && i < es.len() {
                        let k = if j1 < i { j1 } else { j1 + 1 };
                        assert(es[k] == x);
                    } else {
                        assert(es[j1] == x);
                    }
                },
                None => {
                    assert(es[j1] == x);
                },
            }
        }
    }
}

proof fn lemma_all_derived_subseq(es: Seq<ClipEntry>, r: Seq<ClipEntry>)
    requires
        all_derived(es),
        forall|x: ClipEntry| #[trigger] r.contains(x) ==> es.contains(x),
    ensures
        all_derived(r),
{
    assert forall|i: int| 0 <= i < r.len() implies derived(#[trigger] r[i]) by {
        assert(r.contains(r[i]));
        let k = choose|k: int| 0 <= k < es.len() && es[k] == r[i];
        assert(derived(es[k]));
    }
}
} // verus!
