//! Keys by code. The windowing library names the keys; reading a name as a
//! key is the one thing asked of it here, and every binding is worked out
//! over the codes it gives.

use vstd::prelude::*;

use crate::controls::{action_at, action_name_spec, action_spec, ACTION_COUNT};
use crate::settings::{
    bindings_view, file_keys, is_space, parsed, same_text, settings_text, strings_view, Settings,
    SettingsView,
};
use crate::settings_proofs::{free_of, key_ok, lemma_settings_round_trip, writable};

verus! {

/// The code of the key the windowing library calls `name`, if it has one.
pub uninterp spec fn key_code_named(name: Seq<char>) -> Option<u32>;

/// `eframe::egui::Key::from_name`, giving the key's code. What it returns is
/// left unstated beyond being a function of the name: the library's table of
/// names is not restated here.
#[verifier::external_body]
fn code_named(name: &str) -> (code: Option<u32>)
    ensures
        code == key_code_named(name@),
{
    match eframe::egui::Key::from_name(name) {
        Some(key) => Some(key as u32),
        None => None,
    }
}

/// The codes of the named keys, in order, leaving out names that are no key.
pub open spec fn codes_named(names: Seq<Seq<char>>) -> Seq<u32>
    decreases names.len(),
{
    if names.len() == 0 {
        seq![]
    } else {
        let rest = codes_named(names.drop_last());
        match key_code_named(names.last()) {
            Some(c) => rest.push(c),
            None => rest,
        }
    }
}

/// The codes of the named keys, in order, leaving out names that are no key.
pub fn codes_for(names: &Vec<String>) -> (codes: Vec<u32>)
    ensures
        codes@ == codes_named(strings_view(names@)),
{
    let ghost all = strings_view(names@);
    let mut codes: Vec<u32> = Vec::new();
    let mut i: usize = 0;
    while i < names.len()
        invariant
            i <= names@.len(),
            all == strings_view(names@),
            codes@ == codes_named(all.take(i as int)),
        decreases names@.len() - i,
    {
        let c = code_named(names[i].as_str());
        proof {
            assert(all.take(i + 1).drop_last() =~= all.take(i as int));
            assert(all.take(i + 1).last() == names@[i as int]@);
        }
        match c {
            Some(k) => codes.push(k),
            None => {},
        }
        i = i + 1;
    }
    assert(all.take(names@.len() as int) =~= all);
    codes
}

fn codes_of(a: &str, b: &str) -> (codes: Vec<u32>)
    ensures
        codes@ == codes_named(seq![a@, b@]),
{
    let mut codes: Vec<u32> = Vec::new();
    match code_named(a) {
        Some(k) => codes.push(k),
        None => {},
    }
    match code_named(b) {
        Some(k) => codes.push(k),
        None => {},
    }
    proof {
        let s1 = seq![a@];
        let s2 = seq![a@, b@];
        assert(s2.drop_last() =~= s1);
        assert(s2.last() == b@);
        assert(s1.drop_last() =~= Seq::<Seq<char>>::empty());
        assert(s1.last() == a@);
        assert(codes_named(Seq::<Seq<char>>::empty()) == Seq::<u32>::empty());
        let c1 = codes_named(s1);
        assert(c1 == match key_code_named(a@) {
            Some(c) => Seq::<u32>::empty().push(c),
            None => Seq::<u32>::empty(),
        });
        assert(codes_named(s2) == match key_code_named(b@) {
            Some(c) => c1.push(c),
            None => c1,
        });
        assert(codes@ =~= codes_named(s2));
    }
    codes
}

fn code_of(a: &str) -> (codes: Vec<u32>)
    ensures
        codes@ == codes_named(seq![a@]),
{
    let mut codes: Vec<u32> = Vec::new();
    match code_named(a) {
        Some(k) => codes.push(k),
        None => {},
    }
    proof {
        let s1 = seq![a@];
        assert(s1.drop_last() =~= Seq::<Seq<char>>::empty());
        assert(s1.last() == a@);
        assert(codes_named(Seq::<Seq<char>>::empty()) == Seq::<u32>::empty());
        assert(codes@ =~= codes_named(s1));
    }
    codes
}

/// The keys each action starts with, by name, in the order of `action_at`:
/// the home row to play with, and the number row as well, because the pads
/// are labelled I..vii and sometimes the thing in your head is "chord five"
/// rather than "the G key". Clear starts unbound on purpose: it wipes every
/// layer at once, and that should not be one stray keystroke away. Undo,
/// which takes back one layer, is on backspace.
pub open spec fn default_key_names() -> Seq<Seq<Seq<char>>> {
    seq![
        seq!["A"@, "1"@],
        seq!["S"@, "2"@],
        seq!["D"@, "3"@],
        seq!["F"@, "4"@],
        seq!["G"@, "5"@],
        seq!["H"@, "6"@],
        seq!["J"@, "7"@],
        seq!["Space"@],
        seq!["Escape"@],
        seq!["Backspace"@],
        seq![],
        seq!["Q"@],
        seq!["Minus"@],
        seq!["Equals"@],
    ]
}

/// The keys each action starts with, by code.
pub fn default_bindings() -> (b: Vec<Vec<u32>>)
    ensures
        b@.len() == ACTION_COUNT,
        forall|i: int| 0 <= i < ACTION_COUNT ==> (#[trigger] b@[i])@ == codes_named(default_key_names()[i]),
{
    let mut b: Vec<Vec<u32>> = Vec::new();
    b.push(codes_of("A", "1"));
    b.push(codes_of("S", "2"));
    b.push(codes_of("D", "3"));
    b.push(codes_of("F", "4"));
    b.push(codes_of("G", "5"));
    b.push(codes_of("H", "6"));
    b.push(codes_of("J", "7"));
    b.push(code_of("Space"));
    b.push(code_of("Escape"));
    b.push(code_of("Backspace"));
    b.push(Vec::new());
    b.push(code_of("Q"));
    b.push(code_of("Minus"));
    b.push(code_of("Equals"));
    assert(codes_named(Seq::<Seq<char>>::empty()) =~= Seq::<u32>::empty());
    b
}

/// What action `i` is bound to once the file has had its say: the keys the
/// file names for it, if it mentions it, and its defaults otherwise.
pub open spec fn bound_keys(settings: crate::settings::SettingsView, i: int) -> Seq<u32> {
    match file_keys(settings.bindings, action_name_spec(action_spec(i))) {
        Some(names) => codes_named(names),
        None => codes_named(default_key_names()[i]),
    }
}

/// Defaults, overridden by whatever the settings file says for each action.
/// A name that is no key is left out.
pub fn bindings_from(settings: &Settings) -> (b: Vec<Vec<u32>>)
    ensures
        b@.len() == ACTION_COUNT,
        forall|i: int| 0 <= i < ACTION_COUNT ==> (#[trigger] b@[i])@ == bound_keys(settings@, i),
{
    let defaults = default_bindings();
    let mut b: Vec<Vec<u32>> = Vec::new();
    let mut i: usize = 0;
    while i < ACTION_COUNT
        invariant
            i <= ACTION_COUNT,
            b@.len() == i,
            defaults@.len() == ACTION_COUNT,
            forall|k: int| 0 <= k < ACTION_COUNT ==> (#[trigger] defaults@[k])@ == codes_named(default_key_names()[k]),
            forall|k: int| 0 <= k < i ==> (#[trigger] b@[k])@ == bound_keys(settings@, k),
        decreases ACTION_COUNT - i,
    {
        let name = action_at(i).name();
        match settings.keys_for(name) {
            Some(names) => b.push(codes_for(names)),
            None => {
                let mut copy: Vec<u32> = Vec::new();
                let d = &defaults[i];
                let mut j: usize = 0;
                while j < d.len()
                    invariant
                        j <= d@.len(),
                        copy@ == d@.take(j as int),
                    decreases d@.len() - j,
                {
                    copy.push(d[j]);
                    j = j + 1;
                    assert(copy@ =~= d@.take(j as int));
                }
                assert(d@.take(d@.len() as int) =~= d@);
                b.push(copy);
            },
        }
        i = i + 1;
    }
    b
}

/// The names actions are stored under are told apart by the settings file:
/// no two are the same, and each fits on the left of a `bind.` line.
pub proof fn lemma_action_names_distinct()
    ensures
        forall|i: int, j: int|
            0 <= i < j < ACTION_COUNT ==> action_name_spec(action_spec(i)) != action_name_spec(
                action_spec(j),
            ),
        forall|i: int|
            0 <= i < ACTION_COUNT ==> {
                let n = #[trigger] action_name_spec(action_spec(i));
                &&& n.len() > 0
                &&& free_of(n, '=')
                &&& free_of(n, '\n')
                &&& !is_space(n.last())
            },
{
    reveal_strlit("pad1");
    reveal_strlit("pad2");
    reveal_strlit("pad3");
    reveal_strlit("pad4");
    reveal_strlit("pad5");
    reveal_strlit("pad6");
    reveal_strlit("pad7");
    reveal_strlit("record");
    reveal_strlit("playstop");
    reveal_strlit("undo");
    reveal_strlit("clear");
    reveal_strlit("arp");
    reveal_strlit("octave_down");
    reveal_strlit("octave_up");
    assert forall|i: int, j: int|
        0 <= i < j < ACTION_COUNT implies action_name_spec(action_spec(i)) != action_name_spec(
            action_spec(j),
        ) by {
        let a = action_name_spec(action_spec(i));
        let b = action_name_spec(action_spec(j));
        if a.len() == b.len() {
            if a[0] == b[0] {
                if a.len() == 4 && a[0] == 'p' {
                    assert(a[3] != b[3]);
                } else if a.len() > 4 {
                    assert(a[a.len() - 1] != b[b.len() - 1] || a[1] != b[1]);
                }
            } else {
                assert(a[0] != b[0]);
            }
        }
    }
}

/// How many keys the windowing library's table of keys holds.
pub const KEY_TABLE_LEN: usize = 145;

/// Entry `i` of the windowing library's table of keys: the key's code and
/// the name the library gives it.
pub uninterp spec fn key_table_entry(i: int) -> Option<(u32, Seq<char>)>;

/// A name of letters and digits only, at least one of them.
pub open spec fn plain_word(n: Seq<char>) -> bool {
    &&& n.len() > 0
    &&& forall|j: int|
        0 <= j < n.len() ==> {
            let c = #[trigger] n[j];
            ('0' <= c <= '9') || ('A' <= c <= 'Z') || ('a' <= c <= 'z')
        }
}

/// `eframe::egui::Key::ALL`, entry `i`, as its code and its `Key::name`.
/// Each name the library gives is a word of letters and digits, and
/// `Key::from_name` reads it back as the same key (its documentation says it
/// parses what `name` gives). Which key sits where is left unstated beyond
/// being fixed by `i`.
#[verifier::external_body]
fn key_entry(i: usize) -> (e: Option<(u32, &'static str)>)
    ensures
        match e {
            Some((c, n)) => key_table_entry(i as int) == Some((c, n@)),
            None => key_table_entry(i as int) is None,
        },
        e matches Some((c, n)) ==> plain_word(n@) && key_code_named(n@) == Some(c),
{
    match eframe::egui::Key::ALL.get(i) {
        Some(key) => Some((*key as u32, key.name())),
        None => None,
    }
}

/// The name of the first key in the table, from entry `i` on, whose code is
/// `code`.
pub open spec fn table_name_from(code: u32, i: int) -> Option<Seq<char>>
    decreases KEY_TABLE_LEN - i,
{
    if i < 0 || i >= KEY_TABLE_LEN {
        None
    } else {
        match key_table_entry(i) {
            Some((k, n)) => if k == code {
                Some(n)
            } else {
                table_name_from(code, i + 1)
            },
            None => table_name_from(code, i + 1),
        }
    }
}

/// The name of the key with this code, if there is such a key.
pub open spec fn key_name_spec(code: u32) -> Option<Seq<char>> {
    table_name_from(code, 0)
}

/// The name the windowing library gives the key with this code, found by
/// looking through its table of keys; `None` for a code that is no key.
pub fn key_name(code: u32) -> (name: Option<&'static str>)
    ensures
        match name {
            Some(n) => key_name_spec(code) == Some(n@),
            None => key_name_spec(code) is None,
        },
        name matches Some(n) ==> plain_word(n@) && key_code_named(n@) == Some(code),
{
    let mut i: usize = 0;
    while i < KEY_TABLE_LEN
        invariant
            i <= KEY_TABLE_LEN,
            table_name_from(code, 0) == table_name_from(code, i as int),
        decreases KEY_TABLE_LEN - i,
    {
        match key_entry(i) {
            Some((k, n)) => {
                if k == code {
                    return Some(n);
                }
            },
            None => {},
        }
        i = i + 1;
    }
    None
}

/// The names of the keys with these codes, in order, leaving out codes that
/// are no key.
pub open spec fn names_for(codes: Seq<u32>) -> Seq<Seq<char>>
    decreases codes.len(),
{
    if codes.len() == 0 {
        seq![]
    } else {
        let rest = names_for(codes.drop_last());
        match key_name_spec(codes.last()) {
            Some(n) => rest.push(n),
            None => rest,
        }
    }
}

/// The codes that are keys, in order.
pub open spec fn key_codes(codes: Seq<u32>) -> Seq<u32>
    decreases codes.len(),
{
    if codes.len() == 0 {
        seq![]
    } else {
        let rest = key_codes(codes.drop_last());
        match key_name_spec(codes.last()) {
            Some(n) => rest.push(codes.last()),
            None => rest,
        }
    }
}

/// The names of the keys with these codes, each a word of letters and
/// digits that reads back as its code.
pub fn names_of(codes: &Vec<u32>) -> (names: Vec<String>)
    ensures
        strings_view(names@) == names_for(codes@),
        forall|j: int| 0 <= j < names@.len() ==> plain_word(#[trigger] names@[j]@),
        codes_named(strings_view(names@)) == key_codes(codes@),
{
    let mut names: Vec<String> = Vec::new();
    let mut i: usize = 0;
    while i < codes.len()
        invariant
            i <= codes@.len(),
            strings_view(names@) == names_for(codes@.take(i as int)),
            forall|j: int| 0 <= j < names@.len() ==> plain_word(#[trigger] names@[j]@),
            codes_named(strings_view(names@)) == key_codes(codes@.take(i as int)),
        decreases codes@.len() - i,
    {
        let ghost before = names@;
        proof {
            assert(codes@.take(i + 1).drop_last() =~= codes@.take(i as int));
            assert(codes@.take(i + 1).last() == codes@[i as int]);
        }
        match key_name(codes[i]) {
            Some(n) => {
                names.push(String::from_str(n));
                proof {
                    let v = strings_view(names@);
                    assert(v =~= strings_view(before).push(n@));
                    assert(v.drop_last() =~= strings_view(before));
                    assert(v.last() == n@);
                }
            },
            None => {},
        }
        i = i + 1;
    }
    assert(codes@.take(codes@.len() as int) =~= codes@);
    names
}

/// The bindings as the settings file stores them: for each action in order,
/// its name and the names of its keys.
pub open spec fn bindings_saved(b: Seq<Seq<u32>>) -> Seq<(Seq<char>, Seq<Seq<char>>)> {
    Seq::new(
        if b.len() < ACTION_COUNT {
            b.len()
        } else {
            ACTION_COUNT as nat
        },
        |i: int| (action_name_spec(action_spec(i)), names_for(b[i])),
    )
}

/// `saved` gives each action, in order, under its name, key names that are
/// words of letters and digits and read back as the codes `b` lists for it.
pub open spec fn saved_as(saved: Seq<(Seq<char>, Seq<Seq<char>>)>, b: Seq<Seq<u32>>) -> bool {
    &&& saved.len() == ACTION_COUNT
    &&& b.len() == ACTION_COUNT
    &&& forall|i: int|
        0 <= i < ACTION_COUNT ==> {
            &&& (#[trigger] saved[i]).0 == action_name_spec(action_spec(i))
            &&& forall|j: int| 0 <= j < saved[i].1.len() ==> plain_word(#[trigger] saved[i].1[j])
            &&& codes_named(saved[i].1) == b[i]
        }
}

/// The bindings as the settings file stores them: action name, key names.
/// A code that is no key is left out.
pub fn bindings_for_file(bindings: &Vec<Vec<u32>>) -> (saved: Vec<(String, Vec<String>)>)
    ensures
        bindings_view(saved@) == bindings_saved(bindings@.map_values(|v: Vec<u32>| v@)),
        bindings@.len() == ACTION_COUNT ==> saved_as(
            bindings_view(saved@),
            Seq::new(ACTION_COUNT as nat, |i: int| key_codes(bindings@[i]@)),
        ),
{
    let ghost b = bindings@.map_values(|v: Vec<u32>| v@);
    let n = if bindings.len() < ACTION_COUNT {
        bindings.len()
    } else {
        ACTION_COUNT
    };
    let mut saved: Vec<(String, Vec<String>)> = Vec::new();
    let mut i: usize = 0;
    while i < n
        invariant
            i <= n,
            n <= ACTION_COUNT,
            n <= bindings@.len(),
            b == bindings@.map_values(|v: Vec<u32>| v@),
            saved@.len() == i,
            forall|k: int|
                0 <= k < i ==> {
                    &&& (#[trigger] bindings_view(saved@)[k]) == (
                        action_name_spec(action_spec(k)),
                        names_for(b[k]),
                    )
                    &&& forall|j: int|
                        0 <= j < bindings_view(saved@)[k].1.len() ==> plain_word(
                            #[trigger] bindings_view(saved@)[k].1[j],
                        )
                    &&& codes_named(bindings_view(saved@)[k].1) == key_codes(b[k])
                },
        decreases n - i,
    {
        let names = names_of(&bindings[i]);
        let name = String::from_str(action_at(i).name());
        let ghost before = saved@;
        let ghost entry = (name@, strings_view(names@));
        saved.push((name, names));
        proof {
            assert(bindings_view(saved@) =~= bindings_view(before).push(entry));
            assert forall|k: int| 0 <= k < i + 1 implies (#[trigger] bindings_view(saved@)[k]) == (
                action_name_spec(action_spec(k)),
                names_for(b[k]),
            ) && (forall|j: int|
                0 <= j < bindings_view(saved@)[k].1.len() ==> plain_word(
                    #[trigger] bindings_view(saved@)[k].1[j],
                )) && codes_named(bindings_view(saved@)[k].1) == key_codes(b[k]) by {
                if k < i {
                    assert(bindings_view(saved@)[k] == bindings_view(before)[k]);
                } else {
                    assert(bindings_view(saved@)[k] == entry);
                    assert(b[k] == bindings@[k]@);
                }
            }
        }
        i = i + 1;
    }
    assert(bindings_view(saved@) =~= bindings_saved(b));
    saved
}

/// Among bindings whose names before `i` are not `action`, the binding `i`
/// for `action` is the one found.
proof fn lemma_file_keys_at(bs: Seq<(Seq<char>, Seq<Seq<char>>)>, action: Seq<char>, i: int)
    requires
        0 <= i < bs.len(),
        bs[i].0 == action,
        forall|k: int| 0 <= k < i ==> #[trigger] bs[k].0 != action,
    ensures
        file_keys(bs, action) == Some(bs[i].1),
    decreases i,
{
    if i > 0 {
        let rest = bs.drop_first();
        assert(bs[0].0 != action);
        assert forall|k: int| 0 <= k < i - 1 implies #[trigger] rest[k].0 != action by {
            assert(rest[k] == bs[k + 1]);
        }
        lemma_file_keys_at(rest, action, i - 1);
    }
}

/// Saved bindings come back the same: settings whose bindings list each
/// action by name with key names that read back as its codes, written to the
/// file and read again, give every action exactly those codes.
pub proof fn lemma_saved_bindings_come_back(s: SettingsView, bpm: nat, b: Seq<Seq<u32>>)
    requires
        writable(SettingsView { bindings: Seq::empty(), ..s }),
        saved_as(s.bindings, b),
    ensures
        forall|i: int|
            0 <= i < ACTION_COUNT ==> #[trigger] bound_keys(parsed(settings_text(s, bpm)), i)
                == b[i],
{
    lemma_action_names_distinct();
    assert forall|i: int| 0 <= i < s.bindings.len() implies crate::settings_proofs::binding_ok(
        #[trigger] s.bindings[i],
    ) by {
        let n = s.bindings[i].0;
        assert(n == action_name_spec(action_spec(i)));
        assert forall|k: int| 0 <= k < s.bindings[i].1.len() implies key_ok(
            #[trigger] s.bindings[i].1[k],
        ) by {
            let w = s.bindings[i].1[k];
            assert(plain_word(w));
            assert(w[w.len() - 1] == w.last());
        }
    }
    assert forall|i: int, j: int| 0 <= i < j < s.bindings.len() implies #[trigger] s.bindings[i].0
        != #[trigger] s.bindings[j].0 by {
        assert(s.bindings[i].0 == action_name_spec(action_spec(i)));
        assert(s.bindings[j].0 == action_name_spec(action_spec(j)));
    }
    assert(writable(s));
    lemma_settings_round_trip(s, bpm);
    let p = parsed(settings_text(s, bpm));
    assert(p.bindings == s.bindings);
    assert forall|i: int| 0 <= i < ACTION_COUNT implies #[trigger] bound_keys(p, i) == b[i] by {
        let a = action_name_spec(action_spec(i));
        assert(s.bindings[i].0 == a);
        assert forall|k: int| 0 <= k < i implies #[trigger] s.bindings[k].0 != a by {
            assert(s.bindings[k].0 == action_name_spec(action_spec(k)));
        }
        lemma_file_keys_at(s.bindings, a, i);
    }
}

/// How a key is shown on the face: space, escape and backspace by a short
/// word, minus and equals by their sign, a digit key by its digit, any
/// other key by its name, and a code that is no key as `?`.
pub open spec fn key_label_spec(code: u32) -> Seq<char> {
    match key_name_spec(code) {
        None => "?"@,
        Some(n) => if n == "Space"@ {
            "space"@
        } else if n == "Escape"@ {
            "esc"@
        } else if n == "Backspace"@ {
            "bksp"@
        } else if n == "Minus"@ {
            "-"@
        } else if n == "Equals"@ {
            "="@
        } else if n.len() >= 3 && n.take(3) == "Num"@ {
            n.skip(3)
        } else {
            n
        },
    }
}

/// The labels of the keys, in order, separated by `" · "`.
pub open spec fn keys_label_spec(codes: Seq<u32>) -> Seq<char>
    decreases codes.len(),
{
    if codes.len() == 0 {
        seq![]
    } else if codes.len() == 1 {
        key_label_spec(codes[0])
    } else {
        keys_label_spec(codes.drop_last()) + " · "@ + key_label_spec(codes.last())
    }
}

/// How the key with this code is shown on the face.
pub fn key_label(code: u32) -> (label: String)
    ensures
        label@ == key_label_spec(code),
{
    match key_name(code) {
        None => String::from_str("?"),
        Some(n) => {
            if same_text(n, "Space") {
                String::from_str("space")
            } else if same_text(n, "Escape") {
                String::from_str("esc")
            } else if same_text(n, "Backspace") {
                String::from_str("bksp")
            } else if same_text(n, "Minus") {
                String::from_str("-")
            } else if same_text(n, "Equals") {
                String::from_str("=")
            } else {
                let len = n.unicode_len();
                if len >= 3 && same_text(n.substring_char(0, 3), "Num") {
                    proof {
                        assert(n@.subrange(0, 3) =~= n@.take(3));
                        assert(n@.subrange(3, len as int) =~= n@.skip(3));
                    }
                    String::from_str(n.substring_char(3, len))
                } else {
                    proof {
                        if n@.len() >= 3 {
                            assert(n@.subrange(0, 3) =~= n@.take(3));
                        }
                    }
                    String::from_str(n)
                }
            }
        },
    }
}

/// How the keys bound to an action are shown on the face.
pub fn keys_label(codes: &Vec<u32>) -> (label: String)
    ensures
        label@ == keys_label_spec(codes@),
{
    if codes.len() == 0 {
        proof {
            reveal_strlit("");
        }
        return String::from_str("");
    }
    let mut label = key_label(codes[0]);
    proof {
        let s1 = codes@.take(1);
        assert(s1.len() == 1 && s1[0] == codes@[0]);
    }
    let mut i: usize = 1;
    while i < codes.len()
        invariant
            1 <= i <= codes@.len(),
            label@ == keys_label_spec(codes@.take(i as int)),
        decreases codes@.len() - i,
    {
        let next = key_label(codes[i]);
        proof {
            let t = codes@.take(i + 1);
            assert(t.drop_last() =~= codes@.take(i as int));
            assert(t.last() == codes@[i as int]);
        }
        label.append(" · ");
        label.append(next.as_str());
        i = i + 1;
    }
    assert(codes@.take(codes@.len() as int) =~= codes@);
    label
}

} // verus!
