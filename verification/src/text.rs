//! Building strings: characters, decimal and hexadecimal numbers.
use vstd::prelude::*;

verus! {

/// Appends one character (`String::push`).
#[verifier::external_body]
pub fn push_char(s: &mut String, c: char)
    ensures
        final(s)@ == old(s)@.push(c),
{
    s.push(c);
}

/// Appends a string slice.
pub fn push_str(s: &mut String, t: &str)
    ensures
        final(s)@ == old(s)@ + t@,
{
    s.append(t);
}

/// The ASCII digit for 0 ..= 9.
pub open spec fn digit_char(d: int) -> char {
    ((d + 48) as u8) as char
}

/// Decimal representation of `n`, without leading zeros ("0" for zero).
pub open spec fn dec(n: nat) -> Seq<char>
    decreases n,
{
    if n < 10 {
        seq![digit_char(n as int)]
    } else {
        dec(n / 10).push(digit_char((n % 10) as int))
    }
}

pub open spec fn pow10(k: nat) -> nat
    decreases k,
{
    if k == 0 { 1 } else { 10 * pow10((k - 1) as nat) }
}

/// A number below 10^k (k >= 1) has at most k decimal digits, and at least one.
pub proof fn lemma_dec_len(n: nat, k: nat)
    requires
        k >= 1,
        n < pow10(k),
    ensures
        1 <= dec(n).len() <= k,
    decreases n,
{
    if n >= 10 {
        if k == 1 {
            assert(pow10(1) == 10 * pow10(0));
        }
        assert(n / 10 < pow10((k - 1) as nat));
        lemma_dec_len(n / 10, (k - 1) as nat);
    }
}

/// The number written by the decimal digits `s`, most significant first.
pub open spec fn digits_value(s: Seq<char>) -> int
    decreases s.len(),
{
    if s.len() == 0 {
        0
    } else {
        digits_value(s.drop_last()) * 10 + (s.last() as int - '0' as int)
    }
}

/// Every character of `s` is one of '0' ..= '9'.
pub open spec fn all_digits(s: Seq<char>) -> bool {
    forall|k: int| 0 <= k < s.len() ==> '0' <= #[trigger] s[k] <= '9'
}

proof fn lemma_digit_char(d: int)
    requires
        0 <= d < 10,
    ensures
        digit_char(d) as int == d + '0' as int,
        '0' <= digit_char(d) <= '9',
{
    assert(((d + 48) as u8) as int == d + 48);
}

/// `dec(n)` writes `n` in decimal: only digits, worth exactly `n`, and without a
/// leading zero (zero itself is "0").
pub proof fn lemma_dec(n: nat)
    ensures
        dec(n).len() >= 1,
        all_digits(dec(n)),
        digits_value(dec(n)) == n,
        n > 0 ==> dec(n)[0] != '0',
        n == 0 ==> dec(n) == seq!['0'],
    decreases n,
{
    if n < 10 {
        lemma_digit_char(n as int);
        let d = dec(n);
        assert(d.drop_last() =~= Seq::<char>::empty());
        assert(d.last() == d[0]);
        assert(digits_value(d.drop_last()) == 0);
        assert(digits_value(d) == digits_value(d.drop_last()) * 10 + (d.last() as int - '0' as int));
    } else {
        lemma_dec(n / 10);
        lemma_digit_char((n % 10) as int);
        let d = dec(n);
        assert(d.drop_last() =~= dec(n / 10));
        assert(d[0] == dec(n / 10)[0]);
        assert(d.last() == digit_char((n % 10) as int));
        assert(digits_value(d) == digits_value(d.drop_last()) * 10 + (d.last() as int - '0' as int));
        vstd::arithmetic::div_mod::lemma_fundamental_div_mod(n as int, 10);
        assert forall|k: int| 0 <= k < d.len() implies '0' <= #[trigger] d[k] <= '9' by {
            if k < d.len() - 1 {
                assert(d[k] == dec(n / 10)[k]);
            }
        }
    }
}

/// `two_digits(n)` writes `n` (0 ..= 99) as two decimal digits, zero-padded.
pub proof fn lemma_two_digits(n: int)
    requires
        0 <= n < 100,
    ensures
        two_digits(n).len() == 2,
        all_digits(two_digits(n)),
        digits_value(two_digits(n)) == n,
{
    lemma_digit_char(n / 10);
    lemma_digit_char(n % 10);
    let t = two_digits(n);
    assert(t.drop_last() =~= seq![digit_char(n / 10)]);
    assert(t.drop_last().drop_last() =~= Seq::<char>::empty());
    assert(digits_value(t.drop_last().drop_last()) == 0);
    assert(digits_value(t.drop_last()) == digits_value(t.drop_last().drop_last()) * 10 + (t.drop_last().last() as int
        - '0' as int));
    assert(digits_value(t) == digits_value(t.drop_last()) * 10 + (t.last() as int - '0' as int));
    vstd::arithmetic::div_mod::lemma_fundamental_div_mod(n, 10);
}

fn digit(d: u64) -> (c: char)
    requires
        d < 10,
    ensures
        c == digit_char(d as int),
{
    ((d as u8) + 48) as char
}

/// Appends the decimal representation of `n`.
pub fn push_dec(s: &mut String, n: u64)
    ensures
        final(s)@ == old(s)@ + dec(n as nat),
    decreases n,
{
    if n < 10 {
        push_char(s, digit(n));
    } else {
        push_dec(s, n / 10);
        push_char(s, digit(n % 10));
        proof {
            assert(old(s)@ + dec((n / 10) as nat) + seq![digit_char((n % 10) as int)] =~= old(s)@ + dec(n as nat));
        }
    }
}

/// The decimal representation of `n` as a new string (`n.to_string()`).
pub fn dec_string(n: u64) -> (r: String)
    ensures
        r@ == dec(n as nat),
{
    let mut s = String::new();
    push_dec(&mut s, n);
    proof {
        assert(Seq::<char>::empty() + dec(n as nat) =~= dec(n as nat));
    }
    s
}


/// Two decimal digits of `n` (0 ..= 99), zero-padded.
pub open spec fn two_digits(n: int) -> Seq<char> {
    seq![digit_char(n / 10), digit_char(n % 10)]
}

/// Appends `n` (below 100) as two zero-padded digits.
pub fn push_two_digits(s: &mut String, n: u32)
    requires
        n < 100,
    ensures
        final(s)@ == old(s)@ + two_digits(n as int),
{
    push_char(s, digit((n / 10) as u64));
    push_char(s, digit((n % 10) as u64));
    proof {
        assert(old(s)@.push(digit_char(n as int / 10)).push(digit_char(n as int % 10)) =~= old(s)@ + two_digits(n as int));
    }
}

/// The characters of `s`, in order.
pub fn chars_of(s: &str) -> (r: Vec<char>)
    ensures
        r@ == s@,
{
    let mut r: Vec<char> = Vec::new();
    for ch in it: s.chars()
        invariant
            it.seq() == s@,
            r@ == s@.take(it.index() as int),
    {
        proof {
            assert(s@.take(it.index() + 1) =~= s@.take(it.index() as int).push(ch));
        }
        r.push(ch);
    }
    proof {
        assert(s@.take(s@.len() as int) =~= s@);
    }
    r
}

/// A string made of `chars[from..to]`.
pub fn string_from_chars(chars: &Vec<char>, from: usize, to: usize) -> (r: String)
    requires
        from <= to <= chars@.len(),
    ensures
        r@ == chars@.subrange(from as int, to as int),
{
    let mut r = String::new();
    let mut i = from;
    while i < to
        invariant
            from <= i <= to,
            to <= chars@.len(),
            r@ == chars@.subrange(from as int, i as int),
        decreases to - i,
    {
        push_char(&mut r, chars[i]);
        proof {
            assert(chars@.subrange(from as int, i + 1) =~= chars@.subrange(from as int, i as int).push(chars@[i as int]));
        }
        i = i + 1;
    }
    r
}

/// `s` with leading and trailing whitespace removed, as a new string.
pub fn trim_to_string(s: &str) -> (r: String)
    ensures
        r@ == trimmed(s@),
{
    let chars = chars_of(s);
    let (a, b) = trim_bounds(&chars);
    string_from_chars(&chars, a, b)
}

// ── whitespace and lines ───────────────────────────────────────────────────

/// Unicode White_Space, as `char::is_whitespace` decides it.
pub open spec fn is_ws(c: char) -> bool {
    let v = c as u32;
    ||| v == 0x20
    ||| 0x09 <= v <= 0x0d
    ||| v == 0x85
    ||| v == 0xa0
    ||| v == 0x1680
    ||| 0x2000 <= v <= 0x200a
    ||| v == 0x2028
    ||| v == 0x2029
    ||| v == 0x202f
    ||| v == 0x205f
    ||| v == 0x3000
}

pub fn is_ws_char(c: char) -> (r: bool)
    ensures
        r == is_ws(c),
{
    let v = c as u32;
    v == 0x20 || (0x09 <= v && v <= 0x0d) || v == 0x85 || v == 0xa0 || v == 0x1680 || (0x2000 <= v && v
        <= 0x200a) || v == 0x2028 || v == 0x2029 || v == 0x202f || v == 0x205f || v == 0x3000
}

/// Number of whitespace characters at the start of `s`.
pub open spec fn lead_ws(s: Seq<char>) -> int
    decreases s.len(),
{
    if s.len() > 0 && is_ws(s[0]) {
        1 + lead_ws(s.subrange(1, s.len() as int))
    } else {
        0
    }
}

/// Number of whitespace characters at the end of `s`.
pub open spec fn trail_ws(s: Seq<char>) -> int
    decreases s.len(),
{
    if s.len() > 0 && is_ws(s.last()) {
        1 + trail_ws(s.drop_last())
    } else {
        0
    }
}

/// `s` without leading and trailing whitespace (`str::trim`).
pub open spec fn trimmed(s: Seq<char>) -> Seq<char> {
    let t = s.subrange(lead_ws(s), s.len() as int);
    t.subrange(0, t.len() - trail_ws(t))
}

proof fn lemma_lead_ws(s: Seq<char>, i: int)
    requires
        0 <= i <= s.len(),
        forall|k: int| 0 <= k < i ==> is_ws(#[trigger] s[k]),
        i == s.len() || !is_ws(s[i]),
    ensures
        lead_ws(s) == i,
    decreases i,
{
    if i > 0 {
        let t = s.subrange(1, s.len() as int);
        assert forall|k: int| 0 <= k < i - 1 implies is_ws(#[trigger] t[k]) by {
            assert(t[k] == s[k + 1]);
        }
        if i - 1 < t.len() {
            assert(t[i - 1] == s[i]);
        }
        lemma_lead_ws(t, i - 1);
        assert(is_ws(s[0]));
    }
}

proof fn lemma_trail_ws(s: Seq<char>, j: int)
    requires
        0 <= j <= s.len(),
        forall|k: int| j <= k < s.len() ==> is_ws(#[trigger] s[k]),
        j == 0 || !is_ws(s[j - 1]),
    ensures
        trail_ws(s) == s.len() - j,
    decreases s.len(),
{
    if s.len() > j {
        let t = s.drop_last();
        assert(is_ws(s[s.len() - 1]));
        assert forall|k: int| j <= k < t.len() implies is_ws(#[trigger] t[k]) by {
            assert(t[k] == s[k]);
        }
        if j > 0 {
            assert(t[j - 1] == s[j - 1]);
        }
        lemma_trail_ws(t, j);
    } else if s.len() > 0 {
        assert(!is_ws(s.last()));
    }
}

proof fn lemma_lead_ws_bounds(s: Seq<char>)
    ensures
        0 <= lead_ws(s) <= s.len(),
        forall|k: int| 0 <= k < lead_ws(s) ==> is_ws(#[trigger] s[k]),
        lead_ws(s) < s.len() ==> !is_ws(s[lead_ws(s)]),
    decreases s.len(),
{
    if s.len() > 0 && is_ws(s[0]) {
        let t = s.subrange(1, s.len() as int);
        lemma_lead_ws_bounds(t);
        assert forall|k: int| 0 <= k < lead_ws(s) implies is_ws(#[trigger] s[k]) by {
            if k > 0 {
                assert(s[k] == t[k - 1]);
            }
        }
        if lead_ws(s) < s.len() {
            assert(s[lead_ws(s)] == t[lead_ws(t)]);
        }
    }
}

proof fn lemma_trail_ws_bounds(s: Seq<char>)
    ensures
        0 <= trail_ws(s) <= s.len(),
        forall|k: int| s.len() - trail_ws(s) <= k < s.len() ==> is_ws(#[trigger] s[k]),
        trail_ws(s) < s.len() ==> !is_ws(s[s.len() - 1 - trail_ws(s)]),
    decreases s.len(),
{
    if s.len() > 0 && is_ws(s.last()) {
        let t = s.drop_last();
        lemma_trail_ws_bounds(t);
        assert forall|k: int| s.len() - trail_ws(s) <= k < s.len() implies is_ws(#[trigger] s[k]) by {
            if k < s.len() - 1 {
                assert(s[k] == t[k]);
            }
        }
        if trail_ws(s) < s.len() {
            assert(s[s.len() - 1 - trail_ws(s)] == t[t.len() - 1 - trail_ws(t)]);
        }
    }
}

/// Trimming removes whitespace at both ends and nothing else: the result is a
/// stretch `s[a..b]` with only whitespace before and after it, and, unless it is
/// empty, it starts and ends with a character that is not whitespace. So text that
/// is all whitespace trims to nothing.
pub proof fn lemma_trimmed(s: Seq<char>)
    ensures
        trimmed(s).len() <= s.len(),
        exists|a: int, b: int|
            0 <= a <= b <= s.len() && trimmed(s) == s.subrange(a, b) && (forall|k: int|
                0 <= k < a ==> is_ws(#[trigger] s[k])) && (forall|k: int| b <= k < s.len() ==> is_ws(#[trigger] s[k])) && (a
                < b ==> !is_ws(s[a]) && !is_ws(s[b - 1])),
        (forall|k: int| 0 <= k < s.len() ==> is_ws(#[trigger] s[k])) ==> trimmed(s).len() == 0,
        s.len() > 0 && !is_ws(s[0]) && !is_ws(s.last()) ==> trimmed(s) == s,
{
    let a = lead_ws(s);
    lemma_lead_ws_bounds(s);
    let t = s.subrange(a, s.len() as int);
    lemma_trail_ws_bounds(t);
    let b = s.len() - trail_ws(t);
    assert(trimmed(s) =~= s.subrange(a, b));
    assert forall|k: int| b <= k < s.len() implies is_ws(#[trigger] s[k]) by {
        assert(s[k] == t[k - a]);
    }
    if a < b {
        assert(s[b - 1] == t[t.len() - 1 - trail_ws(t)]);
    }
    if forall|k: int| 0 <= k < s.len() ==> is_ws(#[trigger] s[k]) {
        if a < b {
            assert(is_ws(s[a]));
        }
    }
    if s.len() > 0 && !is_ws(s[0]) && !is_ws(s.last()) {
        assert(a == 0);
        assert(s[s.len() - 1] == s.last());
        if b < s.len() {
            assert(is_ws(s[s.len() - 1]));
        }
        assert(trimmed(s) =~= s);
    }
    assert(0 <= a <= b <= s.len());
}

/// Bounds of `trimmed(s)` inside `chars`: `trimmed(s) == chars[a..b]`.
pub fn trim_bounds(chars: &Vec<char>) -> (r: (usize, usize))
    ensures
        r.0 <= r.1 <= chars@.len(),
        trimmed(chars@) == chars@.subrange(r.0 as int, r.1 as int),
{
    let n = chars.len();
    let mut a: usize = 0;
    while a < n && is_ws_char(chars[a])
        invariant
            a <= n,
            n == chars@.len(),
            forall|k: int| 0 <= k < a ==> is_ws(#[trigger] chars@[k]),
        decreases n - a,
    {
        a = a + 1;
    }
    proof {
        lemma_lead_ws(chars@, a as int);
    }
    let mut b: usize = n;
    while b > a && is_ws_char(chars[b - 1])
        invariant
            a <= b <= n,
            n == chars@.len(),
            forall|k: int| b <= k < n ==> is_ws(#[trigger] chars@[k]),
        decreases b - a,
    {
        b = b - 1;
    }
    proof {
        let t = chars@.subrange(a as int, n as int);
        assert forall|k: int| b - a <= k < t.len() implies is_ws(#[trigger] t[k]) by {
            assert(t[k] == chars@[a + k]);
        }
        if b > a {
            assert(t[b - a - 1] == chars@[b - 1]);
        }
        lemma_trail_ws(t, (b - a) as int);
        assert(t.subrange(0, t.len() - trail_ws(t)) =~= chars@.subrange(a as int, b as int));
    }
    (a, b)
}

/// Number of '\n' characters in `s`.
pub open spec fn newline_count(s: Seq<char>) -> int
    decreases s.len(),
{
    if s.len() == 0 {
        0
    } else {
        newline_count(s.drop_last()) + if s.last() == '\n' { 1int } else { 0int }
    }
}

/// Number of lines `str::lines` yields: lines end at '\n' ("\r\n" included), and a
/// final line ending is optional, so an empty string has none.
pub open spec fn line_count(s: Seq<char>) -> int {
    if s.len() == 0 {
        0
    } else if s.last() == '\n' {
        newline_count(s)
    } else {
        newline_count(s) + 1
    }
}

/// Lines are counted by their ends: one per '\n', plus one for a last line that
/// does not end with '\n'; text without characters has no line.
pub proof fn lemma_line_count(s: Seq<char>)
    ensures
        newline_count(s) == s.filter(|c: char| c == '\n').len(),
        line_count(s) == s.filter(|c: char| c == '\n').len() + if s.len() > 0 && s.last() != '\n' { 1int } else { 0int },
        line_count(s.push('\n')) == line_count(s) + if s.len() > 0 && s.last() != '\n' { 0int } else { 1int },
    decreases s.len(),
{
    reveal(Seq::filter);
    assert(s.push('\n').drop_last() =~= s);
    if s.len() > 0 {
        lemma_line_count(s.drop_last());
    }
}

/// Counts the lines of `s` as `str::lines().count()` does.
pub fn count_lines(s: &str) -> (r: usize)
    ensures
        r == line_count(s@),
{
    let n = s.unicode_len();
    let mut count: usize = 0;
    let mut last: Option<char> = None;
    for ch in it: s.chars()
        invariant
            it.seq() == s@,
            n == s@.len(),
            count == newline_count(s@.take(it.index() as int)),
            count <= it.index(),
            last == (if it.index() == 0 { None } else { Some(s@[it.index() - 1]) }),
    {
        proof {
            let k = it.index() as int;
            assert(s@.take(k + 1).drop_last() =~= s@.take(k));
            assert(s@.take(k + 1).last() == ch);
        }
        if ch == '\n' {
            count = count + 1;
        }
        last = Some(ch);
    }
    proof {
        assert(s@.take(s@.len() as int) =~= s@);
        if s@.len() > 0 {
            lemma_newline_count_bound(s@.drop_last());
        }
    }
    match last {
        None => 0,
        Some(c) => if c == '\n' { count } else { count + 1 },
    }
}

proof fn lemma_newline_count_bound(s: Seq<char>)
    ensures
        0 <= newline_count(s) <= s.len(),
    decreases s.len(),
{
    if s.len() > 0 {
        lemma_newline_count_bound(s.drop_last());
    }
}

/// Lower-cased text, as `str::to_lowercase` maps it (Unicode case tables).
pub uninterp spec fn lowercase(s: Seq<char>) -> Seq<char>;

/// `str::to_lowercase`: the result is the Unicode lower-case mapping of `s`, a
/// function of `s` alone; nothing more of it is stated here.
#[verifier::external_body]
pub fn to_lowercase(s: &str) -> (r: String)
    ensures
        r@ == lowercase(s@),
{
    s.to_lowercase()
}

} // verus!
