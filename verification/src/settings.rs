//! What Musika remembers between launches: a plain text file of
//! `name = value` lines that a person can open and fix by hand.
//!
//! Reading is forgiving on purpose. A garbled line, an unknown name or an
//! out-of-range number each leave that one value at its default, because a
//! corrupt settings file must never be the reason the instrument won't open.
//! The tempo is the one value held as a float; its text is handed back for
//! the caller to read.

use vstd::prelude::*;

use crate::controls::decimal;
use crate::controls::decimal_string;
use crate::theory::{ArpPattern, Mode};

verus! {

pub const OCTAVE_MIN: i32 = -3;

pub const OCTAVE_MAX: i32 = 1;

pub open spec fn pattern_name_spec(p: ArpPattern) -> Seq<char> {
    match p {
        ArpPattern::Up => "up"@,
        ArpPattern::Down => "down"@,
        ArpPattern::UpDown => "updown"@,
    }
}

pub open spec fn pattern_from_spec(name: Seq<char>) -> Option<ArpPattern> {
    if name == "up"@ {
        Some(ArpPattern::Up)
    } else if name == "down"@ {
        Some(ArpPattern::Down)
    } else if name == "updown"@ {
        Some(ArpPattern::UpDown)
    } else {
        None
    }
}

/// The pattern's name in the settings file.
pub fn pattern_name(p: ArpPattern) -> (n: &'static str)
    ensures
        n@ == pattern_name_spec(p),
{
    match p {
        ArpPattern::Up => "up",
        ArpPattern::Down => "down",
        ArpPattern::UpDown => "updown",
    }
}

/// Whether two strings hold the same characters.
pub fn same_text(a: &str, b: &str) -> (same: bool)
    ensures
        same == (a@ == b@),
{
    let n = a.unicode_len();
    if n != b.unicode_len() {
        return false;
    }
    let mut i: usize = 0;
    while i < n
        invariant
            i <= n,
            n == a@.len(),
            n == b@.len(),
            forall|j: int| 0 <= j < i ==> a@[j] == b@[j],
        decreases n - i,
    {
        if a.get_char(i) != b.get_char(i) {
            return false;
        }
        i = i + 1;
    }
    assert(a@ =~= b@);
    true
}

/// The pattern a settings-file name stands for, if any.
pub fn pattern_from(name: &str) -> (p: Option<ArpPattern>)
    ensures
        p == pattern_from_spec(name@),
{
    if same_text(name, "up") {
        Some(ArpPattern::Up)
    } else if same_text(name, "down") {
        Some(ArpPattern::Down)
    } else if same_text(name, "updown") {
        Some(ArpPattern::UpDown)
    } else {
        None
    }
}

/// Each pattern's name reads back as that pattern.
pub proof fn lemma_pattern_names_round_trip(p: ArpPattern)
    ensures
        pattern_from_spec(pattern_name_spec(p)) == Some(p),
{
    reveal_strlit("up");
    reveal_strlit("down");
    reveal_strlit("updown");
    assert("up"@.len() == 2 && "down"@.len() == 4 && "updown"@.len() == 6);
    assert("up"@ != "down"@);
    assert("up"@ != "updown"@);
    assert("down"@ != "updown"@);
}

/// Unicode white space, as `char::is_whitespace` and `str::trim` read it.
pub open spec fn is_space(c: char) -> bool {
    let u = c as u32;
    u == 9 || u == 10 || u == 11 || u == 12 || u == 13 || u == 32 || u == 0x85 || u == 0xA0 || u
        == 0x1680 || (0x2000 <= u && u <= 0x200A) || u == 0x2028 || u == 0x2029 || u == 0x202F
        || u == 0x205F || u == 0x3000
}

pub open spec fn is_digit(c: char) -> bool {
    '0' <= c && c <= '9'
}

/// The first position in `a..b` that is not white space, or `b`.
pub open spec fn skip_fwd(s: Seq<char>, a: int, b: int) -> int
    decreases b - a,
{
    if a < b && is_space(s[a]) {
        skip_fwd(s, a + 1, b)
    } else {
        a
    }
}

/// The end of `a..b` once trailing white space is dropped.
pub open spec fn skip_back(s: Seq<char>, a: int, b: int) -> int
    decreases b - a,
{
    if a < b && is_space(s[b - 1]) {
        skip_back(s, a, b - 1)
    } else {
        b
    }
}

/// The first position of `c` in `a..b`, or `b`.
pub open spec fn find_from(s: Seq<char>, a: int, b: int, c: char) -> int
    decreases b - a,
{
    if a >= b {
        b
    } else if s[a] == c {
        a
    } else {
        find_from(s, a + 1, b, c)
    }
}

pub proof fn lemma_skip_fwd(s: Seq<char>, a: int, b: int)
    requires
        a <= b,
    ensures
        a <= skip_fwd(s, a, b) <= b,
    decreases b - a,
{
    if a < b && is_space(s[a]) {
        lemma_skip_fwd(s, a + 1, b);
    }
}

pub proof fn lemma_skip_back(s: Seq<char>, a: int, b: int)
    requires
        a <= b,
    ensures
        a <= skip_back(s, a, b) <= b,
    decreases b - a,
{
    if a < b && is_space(s[b - 1]) {
        lemma_skip_back(s, a, b - 1);
    }
}

pub proof fn lemma_find_from(s: Seq<char>, a: int, b: int, c: char)
    requires
        a <= b,
    ensures
        a <= find_from(s, a, b, c) <= b,
        find_from(s, a, b, c) < b ==> s[find_from(s, a, b, c)] == c,
    decreases b - a,
{
    if a < b && s[a] != c {
        lemma_find_from(s, a + 1, b, c);
    }
}

fn is_space_char(c: char) -> (b: bool)
    ensures
        b == is_space(c),
{
    let u = c as u32;
    u == 9 || u == 10 || u == 11 || u == 12 || u == 13 || u == 32 || u == 0x85 || u == 0xA0 || u
        == 0x1680 || (0x2000 <= u && u <= 0x200A) || u == 0x2028 || u == 0x2029 || u == 0x202F
        || u == 0x205F || u == 0x3000
}

/// The characters of `text`, one by one.
fn chars_of(text: &str) -> (v: Vec<char>)
    ensures
        v@ == text@,
{
    let n = text.unicode_len();
    let mut v: Vec<char> = Vec::new();
    let mut i: usize = 0;
    while i < n
        invariant
            i <= n,
            n == text@.len(),
            v@ == text@.take(i as int),
        decreases n - i,
    {
        v.push(text.get_char(i));
        i = i + 1;
        assert(v@ =~= text@.take(i as int));
    }
    assert(text@.take(n as int) =~= text@);
    v
}

fn skip_fwd_exec(s: &Vec<char>, a: usize, b: usize) -> (r: usize)
    requires
        a <= b <= s@.len(),
    ensures
        r == skip_fwd(s@, a as int, b as int),
        a <= r <= b,
{
    let mut i = a;
    while i < b && is_space_char(s[i])
        invariant
            a <= i <= b,
            b <= s@.len(),
            skip_fwd(s@, a as int, b as int) == skip_fwd(s@, i as int, b as int),
        decreases b - i,
    {
        i = i + 1;
    }
    i
}

fn skip_back_exec(s: &Vec<char>, a: usize, b: usize) -> (r: usize)
    requires
        a <= b <= s@.len(),
    ensures
        r == skip_back(s@, a as int, b as int),
        a <= r <= b,
{
    let mut j = b;
    while j > a && is_space_char(s[j - 1])
        invariant
            a <= j <= b,
            b <= s@.len(),
            skip_back(s@, a as int, b as int) == skip_back(s@, a as int, j as int),
        decreases j - a,
    {
        j = j - 1;
    }
    j
}

fn find_exec(s: &Vec<char>, a: usize, b: usize, c: char) -> (r: usize)
    requires
        a <= b <= s@.len(),
    ensures
        r == find_from(s@, a as int, b as int, c),
        a <= r <= b,
{
    let mut i = a;
    while i < b && s[i] != c
        invariant
            a <= i <= b,
            b <= s@.len(),
            find_from(s@, a as int, b as int, c) == find_from(s@, i as int, b as int, c),
        decreases b - i,
    {
        i = i + 1;
    }
    i
}

/// Whether `s[a..b]` spells `lit`.
fn range_is(s: &Vec<char>, a: usize, b: usize, lit: &str) -> (same: bool)
    requires
        a <= b <= s@.len(),
    ensures
        same == (s@.subrange(a as int, b as int) == lit@),
{
    let n = lit.unicode_len();
    if b - a != n {
        return false;
    }
    let mut i: usize = 0;
    while i < n
        invariant
            i <= n,
            n == lit@.len(),
            b - a == n,
            b <= s@.len(),
            forall|j: int| 0 <= j < i ==> s@[a + j] == lit@[j],
        decreases n - i,
    {
        if s[a + i] != lit.get_char(i) {
            assert(s@.subrange(a as int, b as int)[i as int] != lit@[i as int]);
            return false;
        }
        i = i + 1;
    }
    assert(s@.subrange(a as int, b as int) =~= lit@);
    true
}

/// The value of a run of decimal digits.
pub open spec fn digits_value(d: Seq<char>) -> int
    decreases d.len(),
{
    if d.len() == 0 {
        0
    } else {
        digits_value(d.drop_last()) * 10 + (d.last() as u32 - '0' as u32)
    }
}

/// `str::parse::<i32>`: an optional sign, then one or more decimal digits,
/// and a value that fits.
pub open spec fn all_digits(d: Seq<char>) -> bool {
    forall|i: int| 0 <= i < d.len() ==> is_digit(#[trigger] d[i])
}

/// The digits of a number, after its sign.
pub open spec fn int_body(t: Seq<char>) -> Seq<char> {
    if t[0] == '-' || t[0] == '+' {
        t.drop_first()
    } else {
        t
    }
}

pub open spec fn parse_i32_spec(t: Seq<char>) -> Option<i32> {
    if t.len() == 0 {
        None
    } else {
        let body = int_body(t);
        if body.len() == 0 || !all_digits(body) {
            None
        } else {
            let v = if t[0] == '-' {
                -digits_value(body)
            } else {
                digits_value(body)
            };
            if i32::MIN <= v <= i32::MAX {
                Some(v as i32)
            } else {
                None
            }
        }
    }
}

/// Extending a run of digits never makes its value smaller.
pub proof fn lemma_digits_grow(d: Seq<char>, i: int)
    requires
        0 <= i <= d.len(),
        forall|j: int| 0 <= j < d.len() ==> is_digit(#[trigger] d[j]),
    ensures
        0 <= digits_value(d.take(i)) <= digits_value(d),
    decreases d.len() - i,
{
    if i < d.len() {
        lemma_digits_grow(d, i + 1);
        assert(d.take(i + 1).drop_last() =~= d.take(i));
        assert(is_digit(d[i]));
    } else {
        assert(d.take(i) =~= d);
    }
    lemma_digits_nonneg(d);
}

pub proof fn lemma_digits_nonneg(d: Seq<char>)
    requires
        forall|j: int| 0 <= j < d.len() ==> is_digit(#[trigger] d[j]),
    ensures
        0 <= digits_value(d),
    decreases d.len(),
{
    if d.len() > 0 {
        assert(is_digit(d[d.len() - 1]));
        assert forall|j: int| 0 <= j < d.drop_last().len() implies is_digit(#[trigger] d.drop_last()[j]) by {
            assert(d.drop_last()[j] == d[j]);
        }
        lemma_digits_nonneg(d.drop_last());
    }
}

/// `s[a..b]` read as an `i32`, if it is one.
fn parse_i32(s: &Vec<char>, a: usize, b: usize) -> (v: Option<i32>)
    requires
        a <= b <= s@.len(),
    ensures
        v == parse_i32_spec(s@.subrange(a as int, b as int)),
{
    let ghost t = s@.subrange(a as int, b as int);
    if a == b {
        return None;
    }
    let neg = s[a] == '-';
    let start = if s[a] == '-' || s[a] == '+' {
        a + 1
    } else {
        a
    };
    let ghost body = s@.subrange(start as int, b as int);
    assert(body =~= int_body(t));
    if start == b {
        return None;
    }
    let mut acc: u64 = 0;
    let mut i = start;
    while i < b
        invariant
            start <= i <= b,
            b <= s@.len(),
            body == s@.subrange(start as int, b as int),
            t == s@.subrange(a as int, b as int),
            a < b,
            start < b,
            body == int_body(t),
            neg == (t[0] == '-'),
            forall|j: int| start <= j < i ==> is_digit(#[trigger] s@[j]),
            acc == digits_value(body.take(i - start)),
            acc <= 2147483648,
        decreases b - i,
    {
        let c = s[i];
        assert(body[i - start] == c);
        if !('0' <= c && c <= '9') {
            assert(!is_digit(body[i - start]));
            assert(!(forall|j: int| 0 <= j < body.len() ==> is_digit(#[trigger] body[j])));
            return None;
        }
        proof {
            assert(body.take(i - start + 1).drop_last() =~= body.take(i - start));
            assert(body.take(i - start + 1).last() == c);
        }
        let d = (c as u32 - '0' as u32) as u64;
        acc = acc * 10 + d;
        i = i + 1;
        assert(acc == digits_value(body.take(i - start)));
        if acc > 2147483648 {
            proof {
                if forall|j: int| 0 <= j < body.len() ==> is_digit(#[trigger] body[j]) {
                    lemma_digits_grow(body, i - start);
                    assert(digits_value(body) > 2147483648);
                }
            }
            return None;
        }
    }
    assert(body.take(b - start) =~= body);
    assert forall|j: int| 0 <= j < body.len() implies is_digit(#[trigger] body[j]) by {
        assert(body[j] == s@[start + j]);
    }
    if neg {
        let v: i64 = -(acc as i64);
        Some(v as i32)
    } else {
        if acc > 2147483647 {
            None
        } else {
            Some(acc as i32)
        }
    }
}

/// The settings as values.
pub struct SettingsView {
    pub key_pitch: i32,
    pub mode: Mode,
    pub octave: i32,
    pub patch: Seq<char>,
    pub arp_on: bool,
    pub arp_pattern: ArpPattern,
    pub bpm_entries: Seq<Seq<char>>,
    pub bindings: Seq<(Seq<char>, Seq<Seq<char>>)>,
}

/// Everything the settings file holds but the tempo, which the caller reads
/// as a float from `bpm_entries`.
#[derive(Debug, PartialEq)]
pub struct Settings {
    /// 0-11, 0 = C.
    pub key_pitch: i32,
    pub mode: Mode,
    pub octave: i32,
    pub patch: String,
    pub arp_on: bool,
    pub arp_pattern: ArpPattern,
    /// The text of every `bpm` line, in order.
    pub bpm_entries: Vec<String>,
    /// Action name -> key names, for each action the file mentions. An action
    /// that is missing gets its default keys; one listed with no keys stays
    /// deliberately unbound.
    pub bindings: Vec<(String, Vec<String>)>,
}

pub open spec fn strings_view(v: Seq<String>) -> Seq<Seq<char>> {
    v.map_values(|k: String| k@)
}

pub open spec fn bindings_view(v: Seq<(String, Vec<String>)>) -> Seq<(Seq<char>, Seq<Seq<char>>)> {
    v.map_values(|b: (String, Vec<String>)| (b.0@, strings_view(b.1@)))
}

impl View for Settings {
    type V = SettingsView;

    open spec fn view(&self) -> SettingsView {
        SettingsView {
            key_pitch: self.key_pitch,
            mode: self.mode,
            octave: self.octave,
            patch: self.patch@,
            arp_on: self.arp_on,
            arp_pattern: self.arp_pattern,
            bpm_entries: strings_view(self.bpm_entries@),
            bindings: bindings_view(self.bindings@),
        }
    }
}

/// What a missing or empty file gives.
pub open spec fn default_settings() -> SettingsView {
    SettingsView {
        key_pitch: 0,
        mode: Mode::Major,
        octave: -1i32,
        patch: "warm"@,
        arp_on: false,
        arp_pattern: ArpPattern::Up,
        bpm_entries: Seq::empty(),
        bindings: Seq::empty(),
    }
}

/// The bindings without any entry for `action`.
pub open spec fn drop_named(bs: Seq<(Seq<char>, Seq<Seq<char>>)>, action: Seq<char>) -> Seq<
    (Seq<char>, Seq<Seq<char>>),
>
    decreases bs.len(),
{
    if bs.len() == 0 {
        bs
    } else if bs.last().0 == action {
        drop_named(bs.drop_last(), action)
    } else {
        drop_named(bs.drop_last(), action).push(bs.last())
    }
}

/// The comma-separated key names in `s[a..b]`, trimmed, empty ones dropped.
pub open spec fn key_list(s: Seq<char>, a: int, b: int) -> Seq<Seq<char>>
    decreases b - a + 1,
{
    if a > b || b > s.len() || a < 0 {
        Seq::empty()
    } else {
        let c = find_from(s, a, b, ',');
        let pa = skip_fwd(s, a, c);
        let pb = skip_back(s, pa, c);
        let rest = if c < b {
            proof {
                lemma_find_from(s, a, b, ',');
            }
            key_list(s, c + 1, b)
        } else {
            Seq::empty()
        };
        if pa == pb {
            rest
        } else {
            seq![s.subrange(pa, pb)] + rest
        }
    }
}

/// One `name = value` line read into the settings, the value being `s[va..vb]`.
pub open spec fn applied_field(acc: SettingsView, name: Seq<char>, s: Seq<char>, va: int, vb: int) -> SettingsView {
    let value = s.subrange(va, vb);
    if name == "key"@ {
        match parse_i32_spec(value) {
            Some(v) => if 0 <= v < 12 {
                SettingsView { key_pitch: v, ..acc }
            } else {
                acc
            },
            None => acc,
        }
    } else if name == "mode"@ {
        if value == "major"@ {
            SettingsView { mode: Mode::Major, ..acc }
        } else if value == "minor"@ {
            SettingsView { mode: Mode::Minor, ..acc }
        } else {
            acc
        }
    } else if name == "octave"@ {
        match parse_i32_spec(value) {
            Some(v) => SettingsView {
                octave: if v < OCTAVE_MIN {
                    OCTAVE_MIN
                } else if v > OCTAVE_MAX {
                    OCTAVE_MAX
                } else {
                    v
                },
                ..acc
            },
            None => acc,
        }
    } else if name == "patch"@ {
        if value.len() > 0 {
            SettingsView { patch: value, ..acc }
        } else {
            acc
        }
    } else if name == "arp"@ {
        if value == "on"@ {
            SettingsView { arp_on: true, ..acc }
        } else if value == "off"@ {
            SettingsView { arp_on: false, ..acc }
        } else {
            acc
        }
    } else if name == "arp_pattern"@ {
        match pattern_from_spec(value) {
            Some(p) => SettingsView { arp_pattern: p, ..acc },
            None => acc,
        }
    } else if name == "bpm"@ {
        SettingsView { bpm_entries: acc.bpm_entries.push(value), ..acc }
    } else if name.len() >= 5 && name.take(5) == "bind."@ {
        let action = name.skip(5);
        SettingsView {
            bindings: drop_named(acc.bindings, action).push((action, key_list(s, va, vb))),
            ..acc
        }
    } else {
        acc
    }
}

/// The line `s[a..b]` read into the settings: blank lines, comments and
/// lines without `=` change nothing.
pub open spec fn applied_line(acc: SettingsView, s: Seq<char>, a: int, b: int) -> SettingsView {
    let ta = skip_fwd(s, a, b);
    let tb = skip_back(s, ta, b);
    if ta == tb || s[ta] == '#' {
        acc
    } else {
        let eq = find_from(s, ta, tb, '=');
        if eq == tb {
            acc
        } else {
            let na = skip_fwd(s, ta, eq);
            let nb = skip_back(s, na, eq);
            let va = skip_fwd(s, eq + 1, tb);
            let vb = skip_back(s, va, tb);
            applied_field(acc, s.subrange(na, nb), s, va, vb)
        }
    }
}

/// The lines of `s` from position `a` on, read in order into `acc`.
#[verifier::opaque]
pub open spec fn parsed_from(s: Seq<char>, a: int, acc: SettingsView) -> SettingsView
    decreases s.len() + 1 - a,
{
    if a > s.len() || a < 0 {
        acc
    } else {
        let e = find_from(s, a, s.len() as int, '\n');
        proof {
            lemma_find_from(s, a, s.len() as int, '\n');
        }
        parsed_from(s, e + 1, applied_line(acc, s, a, e))
    }
}

/// A settings file's text, read.
pub open spec fn parsed(text: Seq<char>) -> SettingsView {
    parsed_from(text, 0, default_settings())
}

/// A `name = value` line of the file.
pub open spec fn line_text(name: Seq<char>, value: Seq<char>) -> Seq<char> {
    name + seq![' ', '=', ' '] + value + seq!['\n']
}

/// `v` in decimal, with a minus sign when it is negative.
pub open spec fn signed_decimal(v: int) -> Seq<char> {
    if v < 0 {
        seq!['-'] + decimal((-v) as nat)
    } else {
        decimal(v as nat)
    }
}

/// The key names, separated by `", "`.
pub open spec fn joined(keys: Seq<Seq<char>>) -> Seq<char>
    decreases keys.len(),
{
    if keys.len() == 0 {
        Seq::empty()
    } else if keys.len() == 1 {
        keys[0]
    } else {
        keys[0] + seq![',', ' '] + joined(keys.drop_first())
    }
}

/// One `bind.<action> = <keys>` line for each binding, in order.
pub open spec fn binding_lines(bs: Seq<(Seq<char>, Seq<Seq<char>>)>) -> Seq<char>
    decreases bs.len(),
{
    if bs.len() == 0 {
        Seq::empty()
    } else {
        line_text("bind."@ + bs[0].0, joined(bs[0].1)) + binding_lines(bs.drop_first())
    }
}

pub open spec fn mode_text(m: Mode) -> Seq<char> {
    match m {
        Mode::Major => "major"@,
        Mode::Minor => "minor"@,
    }
}

pub open spec fn file_header() -> Seq<char> {
    "# Musika settings. Safe to edit by hand; delete this file to reset.\n"@
}

/// The file that holds `s`, with the tempo written as the whole number `bpm`.
pub open spec fn settings_text(s: SettingsView, bpm: nat) -> Seq<char> {
    file_header() + line_text("key"@, signed_decimal(s.key_pitch as int)) + line_text(
        "mode"@,
        mode_text(s.mode),
    ) + line_text("octave"@, signed_decimal(s.octave as int)) + line_text("patch"@, s.patch)
        + line_text("arp"@, if s.arp_on { "on"@ } else { "off"@ }) + line_text(
        "arp_pattern"@,
        pattern_name_spec(s.arp_pattern),
    ) + line_text("bpm"@, decimal(bpm)) + binding_lines(s.bindings)
}

impl Default for Settings {
    fn default() -> (s: Settings)
        ensures
            s@ == default_settings(),
    {
        Settings::defaults()
    }
}

/// The comma-separated key names in `s[a..b]`, trimmed, empty ones dropped.
fn key_list_exec(text: &str, s: &Vec<char>, a: usize, b: usize) -> (keys: Vec<String>)
    requires
        s@ == text@,
        a <= b <= s@.len(),
    ensures
        strings_view(keys@) == key_list(s@, a as int, b as int),
{
    let mut keys: Vec<String> = Vec::new();
    let mut pos = a;
    let mut done = false;
    while !done
        invariant
            a <= pos <= b,
            b <= s@.len(),
            s@ == text@,
            done ==> strings_view(keys@) == key_list(s@, a as int, b as int),
            !done ==> strings_view(keys@) + key_list(s@, pos as int, b as int) == key_list(
                s@,
                a as int,
                b as int,
            ),
        decreases b - pos + (if done { 0int } else { 1int }),
    {
        let c = find_exec(s, pos, b, ',');
        let pa = skip_fwd_exec(s, pos, c);
        let pb = skip_back_exec(s, pa, c);
        let ghost before = strings_view(keys@);
        proof {
            lemma_find_from(s@, pos as int, b as int, ',');
        }
        if pa < pb {
            let k = String::from_str(text.substring_char(pa, pb));
            keys.push(k);
            assert(strings_view(keys@) =~= before.push(s@.subrange(pa as int, pb as int)));
        }
        let ghost rest = if c < b {
            key_list(s@, c + 1, b as int)
        } else {
            Seq::<Seq<char>>::empty()
        };
        proof {
            if pa < pb {
                assert(before.push(s@.subrange(pa as int, pb as int)) + rest =~= before + (seq![
                    s@.subrange(pa as int, pb as int),
                ] + rest));
            }
            assert(strings_view(keys@) + rest == key_list(s@, a as int, b as int));
        }
        if c < b {
            pos = c + 1;
        } else {
            done = true;
            assert(strings_view(keys@) + Seq::<Seq<char>>::empty() =~= strings_view(keys@));
        }
    }
    keys
}

/// Append the line `name = value`.
fn push_line(out: &mut String, name: &str, value: &str)
    ensures
        final(out)@ == old(out)@ + line_text(name@, value@),
{
    out.append(name);
    out.append(" = ");
    out.append(value);
    out.append("\n");
    proof {
        reveal_strlit(" = ");
        reveal_strlit("\n");
        assert(final(out)@ =~= old(out)@ + line_text(name@, value@));
    }
}

fn signed_decimal_string(v: i32) -> (s: String)
    ensures
        s@ == signed_decimal(v as int),
{
    if v < 0 {
        let m: i64 = -(v as i64);
        let digits = decimal_string(m as u64);
        proof {
            reveal_strlit("-");
        }
        let s = String::from_str("-").concat(digits.as_str());
        assert(s@ =~= signed_decimal(v as int));
        s
    } else {
        decimal_string(v as u64)
    }
}

/// The key names, separated by `", "`.
fn joined_string(keys: &Vec<String>) -> (s: String)
    ensures
        s@ == joined(strings_view(keys@)),
{
    let ghost ks = strings_view(keys@);
    let n = keys.len();
    if n == 0 {
        return String::new();
    }
    let mut out = String::from_str(keys[n - 1].as_str());
    let mut i = n - 1;
    proof {
        assert(ks.skip(i as int) =~= seq![ks[i as int]]);
    }
    while i > 0
        invariant
            0 < n == keys@.len(),
            i < n,
            ks == strings_view(keys@),
            out@ == joined(ks.skip(i as int)),
        decreases i,
    {
        i = i - 1;
        let ghost tail = ks.skip(i + 1);
        proof {
            reveal_strlit(", ");
            assert(ks.skip(i as int).drop_first() =~= tail);
            assert(ks.skip(i as int)[0] == keys@[i as int]@);
        }
        let mut next = String::from_str(keys[i].as_str());
        next.append(", ");
        next.append(out.as_str());
        out = next;
        assert(out@ =~= joined(ks.skip(i as int)));
    }
    assert(ks.skip(0) =~= ks);
    out
}

/// The key names the first binding for `action` gives, if there is one.
pub open spec fn file_keys(bs: Seq<(Seq<char>, Seq<Seq<char>>)>, action: Seq<char>) -> Option<
    Seq<Seq<char>>,
>
    decreases bs.len(),
{
    if bs.len() == 0 {
        None
    } else if bs[0].0 == action {
        Some(bs[0].1)
    } else {
        file_keys(bs.drop_first(), action)
    }
}

impl Settings {
    /// The key names the file gives for `action`, if it mentions the action
    /// at all. An empty list means the action was deliberately unbound.
    pub fn keys_for(&self, action: &str) -> (keys: Option<&Vec<String>>)
        ensures
            match keys {
                Some(k) => file_keys(self@.bindings, action@) == Some(strings_view(k@)),
                None => file_keys(self@.bindings, action@) is None,
            },
            match keys {
                Some(k) => exists|i: int|
                    0 <= i < self.bindings@.len() && self.bindings@[i].0@ == action@
                        && self.bindings@[i].1 == *k && forall|j: int|
                        0 <= j < i ==> (#[trigger] self.bindings@[j]).0@ != action@,
                None => forall|i: int|
                    0 <= i < self.bindings@.len() ==> (#[trigger] self.bindings@[i]).0@ != action@,
            },
    {
        let ghost bs = self@.bindings;
        let mut i: usize = 0;
        assert(bs.skip(0) =~= bs);
        while i < self.bindings.len()
            invariant
                i <= self.bindings@.len(),
                bs == self@.bindings,
                bs.len() == self.bindings@.len(),
                file_keys(bs, action@) == file_keys(bs.skip(i as int), action@),
                forall|j: int| 0 <= j < i ==> (#[trigger] self.bindings@[j]).0@ != action@,
            decreases self.bindings@.len() - i,
        {
            let ghost rest = bs.skip(i as int);
            assert(rest[0] == bs[i as int]);
            assert(bs[i as int] == (self.bindings@[i as int].0@, strings_view(self.bindings@[i as int].1@)));
            assert(rest.drop_first() =~= bs.skip(i + 1));
            if same_text(self.bindings[i].0.as_str(), action) {
                return Some(&self.bindings[i].1);
            }
            i = i + 1;
        }
        assert(bs.skip(i as int) =~= Seq::<(Seq<char>, Seq<Seq<char>>)>::empty());
        None
    }
}

impl Settings {
    /// The text of the file that holds these settings, the tempo written as
    /// the whole number `bpm`.
    pub fn to_text(&self, bpm: u32) -> (text: String)
        ensures
            text@ == settings_text(self@, bpm as nat),
    {
        let mut out = String::from_str(
            "# Musika settings. Safe to edit by hand; delete this file to reset.\n",
        );
        let key = signed_decimal_string(self.key_pitch);
        push_line(&mut out, "key", key.as_str());
        push_line(&mut out, "mode", self.mode.name());
        let octave = signed_decimal_string(self.octave);
        push_line(&mut out, "octave", octave.as_str());
        push_line(&mut out, "patch", self.patch.as_str());
        push_line(&mut out, "arp", if self.arp_on { "on" } else { "off" });
        push_line(&mut out, "arp_pattern", pattern_name(self.arp_pattern));
        let tempo = decimal_string(bpm as u64);
        push_line(&mut out, "bpm", tempo.as_str());
        let ghost head = out@;
        let ghost bs = bindings_view(self.bindings@);
        let mut i: usize = 0;
        assert(bs.skip(0) =~= bs);
        while i < self.bindings.len()
            invariant
                i <= self.bindings@.len(),
                bs == bindings_view(self.bindings@),
                out@ + binding_lines(bs.skip(i as int)) == head + binding_lines(bs),
            decreases self.bindings@.len() - i,
        {
            let ghost before = out@;
            proof {
                reveal_strlit("bind.");
                assert(bs.skip(i as int).drop_first() =~= bs.skip(i + 1));
                assert(bs.skip(i as int)[0] == bs[i as int]);
            }
            let name = String::from_str("bind.").concat(self.bindings[i].0.as_str());
            let keys = joined_string(&self.bindings[i].1);
            push_line(&mut out, name.as_str(), keys.as_str());
            assert(out@ + binding_lines(bs.skip(i + 1)) =~= before + binding_lines(bs.skip(i as int)));
            i = i + 1;
        }
        assert(binding_lines(bs.skip(i as int)) =~= Seq::<char>::empty());
        assert(out@ =~= head + binding_lines(bs));
        out
    }
}

impl Settings {
    /// What a missing or empty file gives.
    pub fn defaults() -> (s: Settings)
        ensures
            s@ == default_settings(),
    {
        let s = Settings {
            key_pitch: 0,
            mode: Mode::Major,
            // An octave below middle C: the register that sits comfortably
            // under a melody rather than on top of it.
            octave: -1,
            patch: String::from_str("warm"),
            arp_on: false,
            arp_pattern: ArpPattern::Up,
            bpm_entries: Vec::new(),
            bindings: Vec::new(),
        };
        assert(strings_view(s.bpm_entries@) =~= Seq::<Seq<char>>::empty());
        assert(bindings_view(s.bindings@) =~= Seq::<(Seq<char>, Seq<Seq<char>>)>::empty());
        s
    }

    /// Bind `action` to `keys`, replacing whatever the file said before.
    fn set_binding(&mut self, action: String, keys: Vec<String>)
        ensures
            final(self)@ == (SettingsView {
                bindings: drop_named(old(self)@.bindings, action@).push((action@, strings_view(keys@))),
                ..old(self)@
            }),
    {
        let ghost orig = bindings_view(self.bindings@);
        let n = self.bindings.len();
        let mut r: usize = 0;
        let mut i: usize = 0;
        while r < n
            invariant
                r <= n,
                n == orig.len(),
                i <= r,
                i == drop_named(orig.take(r as int), action@).len(),
                bindings_view(self.bindings@) == drop_named(orig.take(r as int), action@) + orig.skip(r as int),
                self@ == (SettingsView { bindings: bindings_view(self.bindings@), ..old(self)@ }),
                orig == bindings_view(old(self).bindings@),
            decreases n - r,
        {
            let ghost before = bindings_view(self.bindings@);
            proof {
                assert(orig.take(r + 1).drop_last() =~= orig.take(r as int));
                assert(orig.take(r + 1).last() == orig[r as int]);
                assert(before[i as int] == orig[r as int]);
                assert(self.bindings@.len() == before.len());
            }
            if self.bindings[i].0 == action {
                let _ = self.bindings.remove(i);
                proof {
                    assert(bindings_view(self.bindings@) =~= before.remove(i as int));
                    assert(before.remove(i as int) =~= drop_named(orig.take(r + 1), action@) + orig.skip(r + 1));
                }
            } else {
                proof {
                    assert(before =~= drop_named(orig.take(r + 1), action@) + orig.skip(r + 1));
                }
                i = i + 1;
            }
            r = r + 1;
        }
        assert(orig.take(n as int) =~= orig);
        assert(bindings_view(self.bindings@) =~= drop_named(orig, action@));
        let ghost before = bindings_view(self.bindings@);
        let ghost entry = (action@, strings_view(keys@));
        self.bindings.push((action, keys));
        assert(bindings_view(self.bindings@) =~= before.push(entry));
    }

    /// One `name = value` line read into the settings.
    fn apply_line(&mut self, text: &str, s: &Vec<char>, a: usize, b: usize)
        requires
            s@ == text@,
            a <= b <= s@.len(),
        ensures
            final(self)@ == applied_line(old(self)@, s@, a as int, b as int),
    {
        let ta = skip_fwd_exec(s, a, b);
        let tb = skip_back_exec(s, ta, b);
        if ta == tb || s[ta] == '#' {
            return;
        }
        let eq = find_exec(s, ta, tb, '=');
        if eq == tb {
            return;
        }
        proof {
            lemma_find_from(s@, ta as int, tb as int, '=');
        }
        let na = skip_fwd_exec(s, ta, eq);
        let nb = skip_back_exec(s, na, eq);
        let va = skip_fwd_exec(s, eq + 1, tb);
        let vb = skip_back_exec(s, va, tb);
        let ghost name = s@.subrange(na as int, nb as int);
        let ghost value = s@.subrange(va as int, vb as int);
        proof {
            reveal_strlit("key");
            reveal_strlit("mode");
            reveal_strlit("octave");
            reveal_strlit("patch");
            reveal_strlit("arp");
            reveal_strlit("arp_pattern");
            reveal_strlit("bpm");
            reveal_strlit("bind.");
        }
        if range_is(s, na, nb, "key") {
            match parse_i32(s, va, vb) {
                Some(v) => {
                    if 0 <= v && v < 12 {
                        self.key_pitch = v;
                    }
                },
                None => {},
            }
        } else if range_is(s, na, nb, "mode") {
            if range_is(s, va, vb, "major") {
                self.mode = Mode::Major;
            } else if range_is(s, va, vb, "minor") {
                self.mode = Mode::Minor;
            }
        } else if range_is(s, na, nb, "octave") {
            match parse_i32(s, va, vb) {
                Some(v) => {
                    self.octave = if v < OCTAVE_MIN {
                        OCTAVE_MIN
                    } else if v > OCTAVE_MAX {
                        OCTAVE_MAX
                    } else {
                        v
                    };
                },
                None => {},
            }
        } else if range_is(s, na, nb, "patch") {
            if va < vb {
                self.patch = String::from_str(text.substring_char(va, vb));
            }
        } else if range_is(s, na, nb, "arp") {
            if range_is(s, va, vb, "on") {
                self.arp_on = true;
            } else if range_is(s, va, vb, "off") {
                self.arp_on = false;
            }
        } else if range_is(s, na, nb, "arp_pattern") {
            let word = text.substring_char(va, vb);
            match pattern_from(word) {
                Some(p) => self.arp_pattern = p,
                None => {},
            }
        } else if range_is(s, na, nb, "bpm") {
            let ghost before = strings_view(self.bpm_entries@);
            self.bpm_entries.push(String::from_str(text.substring_char(va, vb)));
            assert(strings_view(self.bpm_entries@) =~= before.push(value));
        } else if nb - na >= 5 && range_is(s, na, na + 5, "bind.") {
            assert(name.take(5) =~= s@.subrange(na as int, na + 5));
            let action = String::from_str(text.substring_char(na + 5, nb));
            assert(action@ =~= name.skip(5));
            let keys = key_list_exec(text, s, va, vb);
            self.set_binding(action, keys);
        } else {
            proof {
                if name.len() >= 5 {
                    assert(name.take(5) =~= s@.subrange(na as int, na + 5));
                }
            }
        }
    }

    /// Read a settings file. Every value the file gets wrong falls back to
    /// its default on its own.
    pub fn parse(text: &str) -> (s: Settings)
        ensures
            s@ == parsed(text@),
    {
        let chars = chars_of(text);
        let mut s = Settings::defaults();
        let n = chars.len();
        let mut a: usize = 0;
        let mut done = false;
        while !done
            invariant
                a <= n,
                n == chars@.len(),
                chars@ == text@,
                done ==> s@ == parsed(text@),
                !done ==> parsed_from(chars@, a as int, s@) == parsed(text@),
            decreases n - a + (if done { 0int } else { 1int }),
        {
            let e = find_exec(&chars, a, n, '\n');
            proof {
                lemma_find_from(chars@, a as int, n as int, '\n');
            }
            let ghost before = s@;
            s.apply_line(text, &chars, a, e);
            assert(parsed_from(chars@, a as int, before) == parsed_from(chars@, e + 1, s@)) by {
                reveal(parsed_from);
            }
            if e < n {
                a = e + 1;
            } else {
                done = true;
                assert(parsed_from(chars@, e + 1, s@) == s@) by {
                    reveal(parsed_from);
                }
            }
        }
        s
    }
}

} // verus!
