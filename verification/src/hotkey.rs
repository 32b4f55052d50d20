//! The capture hotkey: its label and the key it names.
use vstd::prelude::*;

use crate::text::{chars_of, dec, lemma_dec, push_str};

verus! {

/// A key the capture hotkey can use: a letter A-Z or a function key F1-F12.
#[derive(Clone, Copy, PartialEq, Eq, Structural, Debug)]
pub enum HotkeyKey {
    Letter(char),
    Function(u8),
}

/// Upper-cased text, as `str::to_uppercase` maps it (Unicode case tables).
pub uninterp spec fn uppercase(s: Seq<char>) -> Seq<char>;

/// `str::to_uppercase`: the result is the Unicode upper-case mapping of `s`, a
/// function of `s` alone; nothing more of it is stated here.
#[verifier::external_body]
pub fn to_uppercase(s: &str) -> (r: String)
    ensures
        r@ == uppercase(s@),
{
    s.to_uppercase()
}

/// The key named by an upper-case name: "A" .. "Z" and "F1" .. "F12".
pub open spec fn key_of_name(s: Seq<char>) -> Option<HotkeyKey> {
    if s.len() == 1 && 65 <= (s[0] as u32) <= 90 {
        Some(HotkeyKey::Letter(s[0]))
    } else if s.len() == 2 && s[0] == 'F' && 49 <= (s[1] as u32) <= 57 {
        Some(HotkeyKey::Function((s[1] as u32 - 48) as u8))
    } else if s.len() == 3 && s[0] == 'F' && s[1] == '1' && 48 <= (s[2] as u32) <= 50 {
        Some(HotkeyKey::Function((s[2] as u32 - 38) as u8))
    } else {
        None
    }
}

/// The key names: a single capital letter names that letter, and "F" followed by
/// a number from 1 to 12 written in decimal names that function key; no other name
/// names a key.
pub proof fn lemma_key_of_name(s: Seq<char>, c: char, n: nat)
    ensures
        'A' <= c <= 'Z' ==> key_of_name(seq![c]) == Some(HotkeyKey::Letter(c)),
        1 <= n <= 12 ==> key_of_name(seq!['F'] + dec(n)) == Some(HotkeyKey::Function(n as u8)),
        key_of_name(s) matches Some(HotkeyKey::Letter(l)) ==> s == seq![l] && 'A' <= l <= 'Z',
        key_of_name(s) matches Some(HotkeyKey::Function(f)) ==> {
            &&& 1 <= f <= 12
            &&& s.len() == dec(f as nat).len() + 1
            &&& s[0] == 'F'
            &&& forall|k: int| 0 <= k < dec(f as nat).len() ==> (s[k + 1] as u32) == (#[trigger] dec(f as nat)[k] as u32)
        },
{
    if 1 <= n <= 12 {
        lemma_dec(n);
        if n < 10 {
            assert(dec(n) == seq![(((n + 48) as u8) as char)]);
        } else {
            assert(dec(n) == dec(1).push((((n - 10 + 48) as u8) as char)));
            assert(dec(1) == seq!['1']);
        }
        let t = seq!['F'] + dec(n);
        assert(t.len() == 1 + dec(n).len());
        assert(t[0] == 'F');
        assert forall|k: int| 0 <= k < dec(n).len() implies t[k + 1] == dec(n)[k] by {}
    }
    if let Some(HotkeyKey::Function(f)) = key_of_name(s) {
        let fv = f as nat;
        lemma_dec(fv);
        if s.len() == 2 {
            assert(dec(fv) == seq![(((fv + 48) as u8) as char)]);
        } else {
            assert(dec(fv) == dec(1).push((((fv - 10 + 48) as u8) as char)));
            assert(dec(1) == seq![(((1nat + 48) as u8) as char)]);
        }
    }
}

/// Modifiers and key name of the capture hotkey.
#[derive(Clone, Debug)]
pub struct HotkeyConfig {
    pub ctrl: bool,
    pub shift: bool,
    pub alt: bool,
    pub key: String,
}

/// "Ctrl+Shift+Alt+KEY", listing only the modifiers that are set.
pub open spec fn hotkey_label(ctrl: bool, shift: bool, alt: bool, key: Seq<char>) -> Seq<char> {
    (if ctrl { "Ctrl+"@ } else { Seq::empty() }) + (if shift { "Shift+"@ } else { Seq::empty() }) + (if alt {
        "Alt+"@
    } else {
        Seq::empty()
    }) + key
}

impl Default for HotkeyConfig {
    /// F1 without modifiers.
    fn default() -> (r: Self)
        ensures
            !r.ctrl && !r.shift && !r.alt,
            r.key@ == "F1"@,
    {
        let mut key = String::new();
        push_str(&mut key, "F1");
        proof {
            assert(key@ =~= "F1"@);
        }
        HotkeyConfig { ctrl: false, shift: false, alt: false, key }
    }
}

impl HotkeyConfig {
    /// The hotkey as shown to the user, e.g. "Ctrl+Shift+F1".
    pub fn label(&self) -> (r: String)
        ensures
            r@ == hotkey_label(self.ctrl, self.shift, self.alt, self.key@),
    {
        let mut s = String::new();
        if self.ctrl {
            push_str(&mut s, "Ctrl+");
        }
        if self.shift {
            push_str(&mut s, "Shift+");
        }
        if self.alt {
            push_str(&mut s, "Alt+");
        }
        push_str(&mut s, self.key.as_str());
        proof {
            assert(s@ =~= hotkey_label(self.ctrl, self.shift, self.alt, self.key@));
        }
        s
    }

    /// The key named by `key`, read case-insensitively; `None` for any other name.
    pub fn key_code(&self) -> (r: Option<HotkeyKey>)
        ensures
            r == key_of_name(uppercase(self.key@)),
    {
        let up = to_uppercase(self.key.as_str());
        let cs = chars_of(up.as_str());
        let n = cs.len();
        if n == 1 && 65 <= (cs[0] as u32) && (cs[0] as u32) <= 90 {
            Some(HotkeyKey::Letter(cs[0]))
        } else if n == 2 && cs[0] == 'F' && 49 <= (cs[1] as u32) && (cs[1] as u32) <= 57 {
            Some(HotkeyKey::Function((cs[1] as u32 - 48) as u8))
        } else if n == 3 && cs[0] == 'F' && cs[1] == '1' && 48 <= (cs[2] as u32) && (cs[2] as u32) <= 50 {
            Some(HotkeyKey::Function((cs[2] as u32 - 38) as u8))
        } else {
            None
        }
    }

    /// The key whose press triggers the hotkey while exactly the modifiers
    /// `ctrl`, `shift`, `alt` are held; `None` when the modifiers differ or the
    /// key name is unknown.
    pub fn armed_key(&self, ctrl: bool, shift: bool, alt: bool) -> (r: Option<HotkeyKey>)
        ensures
            r == (if ctrl != self.ctrl || shift != self.shift || alt != self.alt {
                None
            } else {
                key_of_name(uppercase(self.key@))
            }),
    {
        if ctrl != self.ctrl || shift != self.shift || alt != self.alt {
            return None;
        }
        self.key_code()
    }

    /// The key registered system-wide: the named key, F1 when the name is unknown.
    pub fn global_key(&self) -> (r: HotkeyKey)
        ensures
            r == (match key_of_name(uppercase(self.key@)) {
                Some(k) => k,
                None => HotkeyKey::Function(1),
            }),
    {
        match self.key_code() {
            Some(k) => k,
            None => HotkeyKey::Function(1),
        }
    }
}

} // verus!
