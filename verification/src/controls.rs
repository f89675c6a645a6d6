//! What a key can do, how keys are bound to it, and the labels the controls
//! are drawn with. Keys are held by their numeric code, so this logic does
//! not depend on any windowing library.

use vstd::prelude::*;

use crate::engine::AUTO_ID_BASE;
use crate::theory::ArpPattern;

verus! {

#[derive(Clone, Copy, PartialEq, Eq, Debug, Structural)]
pub enum Action {
    Pad(usize),
    Record,
    PlayStop,
    Undo,
    Clear,
    Arp,
    OctaveDown,
    OctaveUp,
}

/// How many bindable actions there are.
pub const ACTION_COUNT: usize = 14;

/// Every bindable action, in the order bindings are stored.
pub open spec fn action_spec(i: int) -> Action {
    if 0 <= i < 7 {
        Action::Pad(i as usize)
    } else if i == 7 {
        Action::Record
    } else if i == 8 {
        Action::PlayStop
    } else if i == 9 {
        Action::Undo
    } else if i == 10 {
        Action::Clear
    } else if i == 11 {
        Action::Arp
    } else if i == 12 {
        Action::OctaveDown
    } else {
        Action::OctaveUp
    }
}

/// The action stored at position `i` of the bindings.
pub fn action_at(i: usize) -> (a: Action)
    requires
        i < ACTION_COUNT,
    ensures
        a == action_spec(i as int),
{
    if i < 7 {
        Action::Pad(i)
    } else if i == 7 {
        Action::Record
    } else if i == 8 {
        Action::PlayStop
    } else if i == 9 {
        Action::Undo
    } else if i == 10 {
        Action::Clear
    } else if i == 11 {
        Action::Arp
    } else if i == 12 {
        Action::OctaveDown
    } else {
        Action::OctaveUp
    }
}

/// The digits of `n` in decimal.
pub open spec fn decimal(n: nat) -> Seq<char>
    decreases n,
{
    if n < 10 {
        seq![digit_char(n)]
    } else {
        decimal(n / 10) + seq![digit_char(n % 10)]
    }
}

pub open spec fn digit_char(d: nat) -> char {
    if d == 0 {
        '0'
    } else if d == 1 {
        '1'
    } else if d == 2 {
        '2'
    } else if d == 3 {
        '3'
    } else if d == 4 {
        '4'
    } else if d == 5 {
        '5'
    } else if d == 6 {
        '6'
    } else if d == 7 {
        '7'
    } else if d == 8 {
        '8'
    } else {
        '9'
    }
}

fn digit_str(d: u64) -> (s: &'static str)
    requires
        d < 10,
    ensures
        s@ == seq![digit_char(d as nat)],
{
    proof {
        reveal_strlit("0");
        reveal_strlit("1");
        reveal_strlit("2");
        reveal_strlit("3");
        reveal_strlit("4");
        reveal_strlit("5");
        reveal_strlit("6");
        reveal_strlit("7");
        reveal_strlit("8");
        reveal_strlit("9");
    }
    let s = if d == 0 {
        "0"
    } else if d == 1 {
        "1"
    } else if d == 2 {
        "2"
    } else if d == 3 {
        "3"
    } else if d == 4 {
        "4"
    } else if d == 5 {
        "5"
    } else if d == 6 {
        "6"
    } else if d == 7 {
        "7"
    } else if d == 8 {
        "8"
    } else {
        "9"
    };
    assert(s@ =~= seq![digit_char(d as nat)]);
    s
}

/// `n` written in decimal.
pub fn decimal_string(n: u64) -> (s: String)
    ensures
        s@ == decimal(n as nat),
    decreases n,
{
    if n < 10 {
        String::from_str(digit_str(n))
    } else {
        decimal_string(n / 10).concat(digit_str(n % 10))
    }
}

/// The names actions are stored under in the settings file.
pub open spec fn action_name_spec(a: Action) -> Seq<char> {
    match a {
        Action::Pad(i) => if i == 0 {
            "pad1"@
        } else if i == 1 {
            "pad2"@
        } else if i == 2 {
            "pad3"@
        } else if i == 3 {
            "pad4"@
        } else if i == 4 {
            "pad5"@
        } else if i == 5 {
            "pad6"@
        } else {
            "pad7"@
        },
        Action::Record => "record"@,
        Action::PlayStop => "playstop"@,
        Action::Undo => "undo"@,
        Action::Clear => "clear"@,
        Action::Arp => "arp"@,
        Action::OctaveDown => "octave_down"@,
        Action::OctaveUp => "octave_up"@,
    }
}

/// The names shown to a person.
pub open spec fn action_label_spec(a: Action) -> Seq<char> {
    match a {
        Action::Pad(i) => "pad "@ + decimal((i + 1) as nat),
        Action::Record => "record"@,
        Action::PlayStop => "play / stop"@,
        Action::Undo => "undo layer"@,
        Action::Clear => "clear"@,
        Action::Arp => "arp"@,
        Action::OctaveDown => "octave down"@,
        Action::OctaveUp => "octave up"@,
    }
}

impl Action {
    /// The name used in the settings file. Pads past the seventh share its name.
    pub fn name(self) -> (n: &'static str)
        ensures
            n@ == action_name_spec(self),
    {
        match self {
            Action::Pad(i) => if i == 0 {
                "pad1"
            } else if i == 1 {
                "pad2"
            } else if i == 2 {
                "pad3"
            } else if i == 3 {
                "pad4"
            } else if i == 4 {
                "pad5"
            } else if i == 5 {
                "pad6"
            } else {
                "pad7"
            },
            Action::Record => "record",
            Action::PlayStop => "playstop",
            Action::Undo => "undo",
            Action::Clear => "clear",
            Action::Arp => "arp",
            Action::OctaveDown => "octave_down",
            Action::OctaveUp => "octave_up",
        }
    }

    /// The name shown to a person.
    pub fn label(self) -> (l: String)
        requires
            self matches Action::Pad(i) ==> i < u64::MAX,
        ensures
            l@ == action_label_spec(self),
    {
        match self {
            Action::Pad(i) => String::from_str("pad ").concat(
                decimal_string(i as u64 + 1).as_str(),
            ),
            Action::Record => String::from_str("record"),
            Action::PlayStop => String::from_str("play / stop"),
            Action::Undo => String::from_str("undo layer"),
            Action::Clear => String::from_str("clear"),
            Action::Arp => String::from_str("arp"),
            Action::OctaveDown => String::from_str("octave down"),
            Action::OctaveUp => String::from_str("octave up"),
        }
    }

    /// Where the action's bindings are stored.
    pub fn index(self) -> (i: usize)
        requires
            self matches Action::Pad(p) ==> p < 7,
        ensures
            i < ACTION_COUNT,
            action_spec(i as int) == self,
    {
        match self {
            Action::Pad(p) => p,
            Action::Record => 7,
            Action::PlayStop => 8,
            Action::Undo => 9,
            Action::Clear => 10,
            Action::Arp => 11,
            Action::OctaveDown => 12,
            Action::OctaveUp => 13,
        }
    }
}

/// Every action sits at exactly one position, and its index finds it.
pub proof fn lemma_action_index_round_trip(i: int)
    requires
        0 <= i < ACTION_COUNT,
    ensures
        action_spec(i) matches Action::Pad(p) ==> p < 7,
        forall|j: int| 0 <= j < ACTION_COUNT && action_spec(j) == action_spec(i) ==> j == i,
{
}

/// `keys` without `key`.
pub open spec fn without_key(keys: Seq<u32>, key: u32) -> Seq<u32> {
    keys.filter(|k: u32| k != key)
}

/// Give key code `key` to one action, taking it off anything else that had
/// it. Rebinding replaces that action's keys rather than adding to them.
pub fn bind(bindings: &mut Vec<Vec<u32>>, target: usize, key: u32)
    requires
        target < old(bindings)@.len(),
    ensures
        final(bindings)@.len() == old(bindings)@.len(),
        final(bindings)@[target as int]@ == seq![key],
        forall|i: int|
            0 <= i < old(bindings)@.len() && i != target ==> #[trigger] final(bindings)@[i]@
                == without_key(old(bindings)@[i]@, key),
{
    let n = bindings.len();
    let mut i: usize = 0;
    while i < n
        invariant
            i <= n,
            n == old(bindings)@.len(),
            bindings@.len() == n,
            forall|j: int| 0 <= j < i ==> #[trigger] bindings@[j]@ == without_key(old(bindings)@[j]@, key),
            forall|j: int| i <= j < n ==> #[trigger] bindings@[j] == old(bindings)@[j],
        decreases n - i,
    {
        let old_keys = &bindings[i];
        let mut kept: Vec<u32> = Vec::new();
        let mut r: usize = 0;
        while r < old_keys.len()
            invariant
                r <= old_keys@.len(),
                kept@ == without_key(old_keys@.take(r as int), key),
            decreases old_keys@.len() - r,
        {
            let k = old_keys[r];
            proof {
                assert(old_keys@.take(r + 1).drop_last() =~= old_keys@.take(r as int));
                assert(old_keys@.take(r + 1).last() == k);
                reveal(Seq::filter);
                assert(old_keys@.take(r + 1).drop_last() =~= old_keys@.take(r as int));
            }
            if k != key {
                kept.push(k);
            }
            proof {
                assert(old_keys@.take(r + 1) =~= old_keys@.take(r as int).push(k));
            }
            r = r + 1;
        }
        assert(old_keys@.take(old_keys@.len() as int) =~= old_keys@);
        bindings.set(i, kept);
        i = i + 1;
    }
    let mut only: Vec<u32> = Vec::new();
    only.push(key);
    bindings.set(target, only);
    assert(bindings@[target as int]@ =~= seq![key]);
}

/// After binding, the key belongs to the one action it was given to.
pub proof fn lemma_bound_key_has_one_action(before: Seq<Seq<u32>>, after: Seq<Seq<u32>>, target: int, key: u32)
    requires
        0 <= target < before.len(),
        after.len() == before.len(),
        after[target] == seq![key],
        forall|i: int| 0 <= i < before.len() && i != target ==> #[trigger] after[i] == without_key(before[i], key),
    ensures
        forall|i: int| 0 <= i < after.len() && #[trigger] after[i].contains(key) ==> i == target,
        after[target].contains(key),
{
    assert forall|i: int| 0 <= i < after.len() && #[trigger] after[i].contains(key) implies i == target by {
        if i != target {
            let j = choose|j: int| 0 <= j < after[i].len() && after[i][j] == key;
            before[i].lemma_filter_pred(|k: u32| k != key, j);
        }
    }
    assert(after[target][0] == key);
}

/// Where a note came from, so letting go of one input cannot silence
/// another: a key (by its code), the mouse, or a finger on a touchscreen.
#[derive(Clone, Copy, PartialEq, Eq, Debug, Structural)]
pub enum Source {
    Key(u32),
    Pointer,
    Touch(u64),
}

/// The id a source's note on pad `degree` is sent with.
pub open spec fn source_id_spec(s: Source, degree: u64) -> u64 {
    let (kind, sub) = match s {
        Source::Key(k) => (1u64, k as u64),
        Source::Pointer => (2u64, 0u64),
        Source::Touch(t) => (3u64, t & 0xFF_FFFF),
    };
    (kind << 40u64) | (sub << 8u64) | degree
}

impl Source {
    /// A stable id the audio thread can match a note-off against, always
    /// below `AUTO_ID_BASE`.
    pub fn id(self, degree: usize) -> (id: u64)
        requires
            degree < 256,
        ensures
            id == source_id_spec(self, degree as u64),
            id < AUTO_ID_BASE,
    {
        let (kind, sub): (u64, u64) = match self {
            Source::Key(k) => (1, k as u64),
            Source::Pointer => (2, 0),
            Source::Touch(t) => (3, t & 0xFF_FFFF),
        };
        let d = degree as u64;
        proof {
            if let Source::Touch(t) = self {
                assert(t & 0xFF_FFFF <= 0xFF_FFFFu64) by (bit_vector);
            }
            assert(sub <= 0xFFFF_FFFF);
            assert(1 <= kind <= 3);
            assert(((kind << 40u64) | (sub << 8u64) | d) < 0x1_0000_0000_0000u64) by (bit_vector)
                requires
                    1 <= kind <= 3,
                    sub <= 0xFFFF_FFFFu64,
                    d < 256,
            ;
        }
        (kind << 40) | (sub << 8) | d
    }
}

/// Two notes get the same id only when they come from the same source on
/// the same pad.
pub proof fn lemma_source_ids_distinct(a: Source, b: Source, da: u64, db: u64)
    requires
        da < 256,
        db < 256,
        source_id_spec(a, da) == source_id_spec(b, db),
    ensures
        da == db,
        a matches Source::Key(_) <==> b matches Source::Key(_),
        a matches Source::Pointer <==> b matches Source::Pointer,
        a matches Source::Key(x) ==> b == Source::Key(x),
        a matches Source::Touch(x) ==> b matches Source::Touch(y) && x & 0xFF_FFFF == y & 0xFF_FFFF,
{
    let (ka, sa) = match a {
        Source::Key(k) => (1u64, k as u64),
        Source::Pointer => (2u64, 0u64),
        Source::Touch(t) => (3u64, t & 0xFF_FFFF),
    };
    let (kb, sb) = match b {
        Source::Key(k) => (1u64, k as u64),
        Source::Pointer => (2u64, 0u64),
        Source::Touch(t) => (3u64, t & 0xFF_FFFF),
    };
    if let Source::Touch(t) = a {
        assert(t & 0xFF_FFFF <= 0xFF_FFFFu64) by (bit_vector);
    }
    if let Source::Touch(t) = b {
        assert(t & 0xFF_FFFF <= 0xFF_FFFFu64) by (bit_vector);
    }
    assert(sa <= 0xFFFF_FFFF && sb <= 0xFFFF_FFFF);
    assert(ka == kb && sa == sb && da == db) by (bit_vector)
        requires
            1 <= ka <= 3,
            1 <= kb <= 3,
            sa <= 0xFFFF_FFFFu64,
            sb <= 0xFFFF_FFFFu64,
            da < 256,
            db < 256,
            ((ka << 40u64) | (sa << 8u64) | da) == ((kb << 40u64) | (sb << 8u64) | db),
    ;
}

/// "1 bar", "2 bars", ...
pub open spec fn bars_label_spec(bars: u8) -> Seq<char> {
    if bars == 1 {
        "1 bar"@
    } else {
        decimal(bars as nat) + " bars"@
    }
}

pub fn bars_label(bars: u8) -> (l: String)
    ensures
        l@ == bars_label_spec(bars),
{
    if bars == 1 {
        String::from_str("1 bar")
    } else {
        decimal_string(bars as u64).concat(" bars")
    }
}

pub open spec fn pattern_label_spec(p: ArpPattern) -> Seq<char> {
    match p {
        ArpPattern::Up => "up"@,
        ArpPattern::Down => "down"@,
        ArpPattern::UpDown => "up-down"@,
    }
}

/// The pattern's name on its button.
pub fn pattern_label(p: ArpPattern) -> (l: &'static str)
    ensures
        l@ == pattern_label_spec(p),
{
    match p {
        ArpPattern::Up => "up",
        ArpPattern::Down => "down",
        ArpPattern::UpDown => "up-down",
    }
}

} // verus!
