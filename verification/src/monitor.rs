//! Change detection for the clipboard watcher: a cheap image fingerprint and the
//! decision, on each poll, whether what the clipboard holds is new.
use vstd::prelude::*;

use crate::text::{trim_to_string, trimmed};

verus! {

/// FNV-1a offset basis.
pub const FNV_OFFSET: u64 = 0xcbf29ce484222325;

/// FNV-1a prime.
pub const FNV_PRIME: u64 = 0x100000001b3;

/// Number of leading bytes that the fingerprint reads.
pub const FNV_SAMPLE: usize = 8192;

/// One FNV-1a step: xor in `v`, then multiply by the prime modulo 2^64.
pub open spec fn fnv_mix(h: u64, v: u64) -> u64 {
    (h ^ v).wrapping_mul(FNV_PRIME)
}

/// FNV-1a steps over the bytes of `s`, in order, starting from `h`.
pub open spec fn fnv_fold(h: u64, s: Seq<u8>) -> u64
    decreases s.len(),
{
    if s.len() == 0 {
        h
    } else {
        fnv_mix(fnv_fold(h, s.drop_last()), s.last() as u64)
    }
}

/// The fingerprint of `data`: its length mixed into the offset basis, then the
/// first 8192 bytes (all of them when there are fewer).
pub open spec fn fingerprint(data: Seq<u8>) -> u64 {
    let n = if data.len() < FNV_SAMPLE { data.len() as int } else { FNV_SAMPLE as int };
    fnv_fold(fnv_mix(FNV_OFFSET, data.len() as u64), data.take(n))
}

/// Fast non-cryptographic hash for change detection: the length and the first
/// 8 KiB of the buffer.
pub fn fnv1a(data: &[u8]) -> (h: u64)
    ensures
        h == fingerprint(data@),
{
    let len = data.len();
    let mut h: u64 = FNV_OFFSET;
    h = h ^ (len as u64);
    h = h.wrapping_mul(FNV_PRIME);
    let ghost h0 = h;
    let n = if len < FNV_SAMPLE { len } else { FNV_SAMPLE };
    let mut i: usize = 0;
    while i < n
        invariant
            n <= data@.len(),
            n == (if data@.len() < FNV_SAMPLE { data@.len() as int } else { FNV_SAMPLE as int }),
            h0 == fnv_mix(FNV_OFFSET, data@.len() as u64),
            i <= n,
            h == fnv_fold(h0, data@.take(i as int)),
        decreases n - i,
    {
        proof {
            assert(data@.take(i + 1).drop_last() =~= data@.take(i as int));
        }
        h = h ^ (data[i] as u64);
        h = h.wrapping_mul(FNV_PRIME);
        i = i + 1;
    }
    h
}

/// What the watcher reports for clipboard text `raw` when it last reported
/// `last`: the trimmed text, when it is not empty and differs from `last`.
pub open spec fn reported_text(last: Seq<char>, raw: Seq<char>) -> Option<Seq<char>> {
    let t = trimmed(raw);
    if t.len() == 0 || t == last { None } else { Some(t) }
}

/// New text is reported, trimmed: text that is not blank after trimming and
/// differs from what was last reported comes back as its trimmed form; blank text
/// and a repeat of the last report are not reported.
pub proof fn lemma_reported_text(last: Seq<char>, raw: Seq<char>)
    ensures
        trimmed(raw).len() > 0 && trimmed(raw) != last ==> reported_text(last, raw) == Some(trimmed(raw)),
        trimmed(raw).len() == 0 || trimmed(raw) == last ==> reported_text(last, raw) is None,
        reported_text(last, raw) matches Some(t) ==> t.len() > 0 && t != last,
{
}

/// Text that was just reported is not reported again while the clipboard keeps it.
pub proof fn lemma_report_once(last: Seq<char>, raw: Seq<char>)
    ensures
        reported_text(last, raw) matches Some(t) ==> reported_text(t, raw) is None,
{
}

/// What the watcher last reported: the trimmed text and the image fingerprint.
pub struct ClipWatch {
    pub last_text: String,
    pub last_img_hash: u64,
}

impl ClipWatch {
    /// Nothing reported yet.
    pub fn new() -> (w: Self)
        ensures
            w.last_text@ == Seq::<char>::empty(),
            w.last_img_hash == 0,
    {
        ClipWatch { last_text: String::new(), last_img_hash: 0 }
    }

    /// Text read from the clipboard: reported as `reported_text` says, and the text
    /// reported, if any, is remembered.
    pub fn on_text(&mut self, raw: &str) -> (r: Option<String>)
        ensures
            r.deep_view() == reported_text(old(self).last_text@, raw@),
            final(self).last_text@ == (match reported_text(old(self).last_text@, raw@) {
                Some(t) => t,
                None => old(self).last_text@,
            }),
            final(self).last_img_hash == old(self).last_img_hash,
    {
        let text = trim_to_string(raw);
        if text.as_str().is_empty() || text == self.last_text {
            return None;
        }
        self.last_text = text.clone();
        Some(text)
    }

    /// Image bytes read from the clipboard. They are reported when their
    /// fingerprint differs from the one last reported, which is then remembered.
    pub fn on_image(&mut self, bytes: &[u8]) -> (changed: bool)
        ensures
            final(self).last_text@ == old(self).last_text@,
            changed == (fingerprint(bytes@) != old(self).last_img_hash),
            final(self).last_img_hash == fingerprint(bytes@),
    {
        let h = fnv1a(bytes);
        if h != self.last_img_hash {
            self.last_img_hash = h;
            true
        } else {
            false
        }
    }
}

} // verus!
