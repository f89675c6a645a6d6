//! What a written settings file reads back as.

use vstd::prelude::*;

use crate::controls::decimal;
use crate::controls::digit_char;
use crate::settings::{
    all_digits, applied_field, applied_line, binding_lines, default_settings, digits_value,
    drop_named, file_header, find_from, int_body, is_digit, is_space, joined, key_list,
    lemma_pattern_names_round_trip, line_text, mode_text, parse_i32_spec, parsed, parsed_from,
    pattern_name_spec, settings_text, signed_decimal, skip_back, skip_fwd, SettingsView,
    OCTAVE_MAX, OCTAVE_MIN,
};
use crate::theory::{ArpPattern, Mode};

verus! {

/// No character of `w` is `c`.
pub open spec fn free_of(w: Seq<char>, c: char) -> bool {
    forall|i: int| 0 <= i < w.len() ==> w[i] != c
}

/// Non-empty, with no white space at either end.
pub open spec fn trimmed_word(w: Seq<char>) -> bool {
    w.len() > 0 && !is_space(w[0]) && !is_space(w.last())
}

/// A key name that a `bind.` line can hold and give back.
pub open spec fn key_ok(k: Seq<char>) -> bool {
    trimmed_word(k) && free_of(k, ',') && free_of(k, '\n')
}

/// A binding that a `bind.` line can hold and give back.
pub open spec fn binding_ok(b: (Seq<char>, Seq<Seq<char>>)) -> bool {
    &&& free_of(b.0, '=')
    &&& free_of(b.0, '\n')
    &&& b.0.len() > 0 ==> !is_space(b.0.last())
    &&& forall|k: int| 0 <= k < b.1.len() ==> key_ok(#[trigger] b.1[k])
}

/// Settings that the file can hold exactly: values that reading would keep
/// as they are, text that fits on its line, one binding per action.
pub open spec fn writable(s: SettingsView) -> bool {
    &&& 0 <= s.key_pitch < 12
    &&& OCTAVE_MIN <= s.octave <= OCTAVE_MAX
    &&& trimmed_word(s.patch)
    &&& free_of(s.patch, '\n')
    &&& forall|i: int| 0 <= i < s.bindings.len() ==> binding_ok(#[trigger] s.bindings[i])
    &&& forall|i: int, j: int|
        0 <= i < j < s.bindings.len() ==> #[trigger] s.bindings[i].0 != #[trigger] s.bindings[j].0
}

spec fn name_ok(name: Seq<char>) -> bool {
    trimmed_word(name) && name[0] != '#' && free_of(name, '=') && free_of(name, '\n')
}

spec fn value_ok(value: Seq<char>) -> bool {
    free_of(value, '\n') && (value.len() == 0 || trimmed_word(value))
}

proof fn lemma_find_exact(s: Seq<char>, a: int, b: int, c: char, e: int)
    requires
        0 <= a <= e <= b <= s.len(),
        e < b ==> s[e] == c,
        forall|i: int| a <= i < e ==> s[i] != c,
    ensures
        find_from(s, a, b, c) == e,
    decreases e - a,
{
    if a < e {
        lemma_find_exact(s, a + 1, b, c, e);
    }
}

proof fn lemma_digit_char(d: nat)
    requires
        d < 10,
    ensures
        is_digit(digit_char(d)),
        digit_char(d) as u32 - '0' as u32 == d,
{
}

/// `n` written in decimal reads back as `n`.
proof fn lemma_decimal_reads_back(n: nat)
    ensures
        decimal(n).len() > 0,
        all_digits(decimal(n)),
        digits_value(decimal(n)) == n,
    decreases n,
{
    let d = decimal(n);
    lemma_digit_char(n % 10);
    if n >= 10 {
        lemma_decimal_reads_back(n / 10);
        let h = decimal(n / 10);
        assert(d.drop_last() =~= h);
        assert(d.last() == digit_char(n % 10));
        assert forall|i: int| 0 <= i < d.len() implies is_digit(#[trigger] d[i]) by {
            if i < h.len() {
                assert(d[i] == h[i]);
            }
        }
        assert(digits_value(d) == digits_value(h) * 10 + (n % 10));
        assert((n / 10) * 10 + n % 10 == n) by (nonlinear_arith);
    } else {
        assert(d.drop_last() =~= Seq::<char>::empty());
        assert(d.last() == digit_char(n));
        assert(digits_value(d.drop_last()) == 0);
    }
}

/// A number written with its sign reads back as that number.
proof fn lemma_signed_reads_back(v: i32)
    ensures
        parse_i32_spec(signed_decimal(v as int)) == Some(v),
{
    let t = signed_decimal(v as int);
    if v < 0 {
        let m = (-v) as nat;
        lemma_decimal_reads_back(m);
        assert(t.drop_first() =~= decimal(m));
        assert(int_body(t) == decimal(m));
    } else {
        lemma_decimal_reads_back(v as nat);
        assert(is_digit(t[0]));
        assert(int_body(t) == t);
    }
}

/// A number written with its sign is a value a line can hold.
proof fn lemma_signed_shape(v: int)
    ensures
        value_ok(signed_decimal(v)),
        signed_decimal(v).len() > 0,
{
    let m: nat = if v < 0 {
        (-v) as nat
    } else {
        v as nat
    };
    lemma_decimal_reads_back(m);
    let d = decimal(m);
    let t = signed_decimal(v);
    assert(is_digit(d[0]) && is_digit(d[d.len() - 1]));
    if v < 0 {
        assert forall|i: int| 0 <= i < t.len() implies t[i] != '\n' by {
            if i > 0 {
                assert(t[i] == d[i - 1]);
                assert(is_digit(d[i - 1]));
            }
        }
        assert(t.last() == d.last());
    } else {
        assert forall|i: int| 0 <= i < t.len() implies t[i] != '\n' by {
            assert(is_digit(d[i]));
        }
    }
}

/// The key names joined by `", "` form one value a line can hold.
proof fn lemma_joined_shape(ks: Seq<Seq<char>>)
    requires
        forall|k: int| 0 <= k < ks.len() ==> key_ok(#[trigger] ks[k]),
    ensures
        value_ok(joined(ks)),
        ks.len() == 0 <==> joined(ks).len() == 0,
        ks.len() > 0 ==> joined(ks)[0] == ks[0][0],
    decreases ks.len(),
{
    if ks.len() >= 2 {
        let rest = ks.drop_first();
        assert forall|k: int| 0 <= k < rest.len() implies key_ok(#[trigger] rest[k]) by {
            assert(rest[k] == ks[k + 1]);
        }
        lemma_joined_shape(rest);
        assert(key_ok(ks[0]));
        let j = joined(ks);
        let head = ks[0];
        let tail = joined(rest);
        assert(j == head + seq![',', ' '] + tail);
        assert(j.last() == tail.last());
        assert forall|i: int| 0 <= i < j.len() implies j[i] != '\n' by {
            if i < head.len() {
                assert(j[i] == head[i]);
            } else if i >= head.len() + 2 {
                assert(j[i] == tail[i - head.len() - 2]);
            }
        }
    } else if ks.len() == 1 {
        assert(key_ok(ks[0]));
    }
}

/// The comma-separated list `s[a..b]`, after `lead` spaces, reads back as
/// the key names it was written from.
proof fn lemma_key_list_reads_back(s: Seq<char>, a: int, b: int, lead: int, ks: Seq<Seq<char>>)
    requires
        0 <= a,
        a + lead <= b <= s.len(),
        lead == 0 || lead == 1,
        lead == 1 ==> s[a] == ' ',
        ks.len() == 0 ==> lead == 0,
        s.subrange(a + lead, b) == joined(ks),
        forall|k: int| 0 <= k < ks.len() ==> key_ok(#[trigger] ks[k]),
    ensures
        key_list(s, a, b) == ks,
    decreases ks.len(),
{
    if ks.len() == 0 {
        assert(joined(ks).len() == 0);
        assert(s.subrange(a + lead, b).len() == b - a - lead);
        assert(b == a);
        assert(find_from(s, a, b, ',') == a);
        assert(skip_fwd(s, a, a) == a);
        assert(skip_back(s, a, a) == a);
        assert(key_list(s, a, b) =~= ks);
    } else {
        let k0 = ks[0];
        assert(key_ok(k0));
        let p = a + lead;
        assert(s[p] == k0[0]) by {
            lemma_joined_shape(ks);
            assert(s.subrange(a + lead, b)[0] == s[p]);
        }
        if lead == 1 {
            assert(skip_fwd(s, p, b) == p);
            assert(skip_fwd(s, a, b) == p);
        } else {
            assert(skip_fwd(s, a, b) == p);
        }
        if ks.len() == 1 {
            assert(joined(ks) == k0);
            assert forall|i: int| a <= i < b implies s[i] != ',' by {
                if i >= p {
                    assert(s[i] == s.subrange(a + lead, b)[i - p]);
                }
            }
            lemma_find_exact(s, a, b, ',', b);
            assert(s[b - 1] == s.subrange(a + lead, b)[b - 1 - p]);
            assert(skip_back(s, p, b) == b);
            assert(s.subrange(p, b) =~= k0);
            assert(key_list(s, a, b) =~= ks);
        } else {
            let rest = ks.drop_first();
            let c = p + k0.len();
            assert(joined(ks) == k0 + seq![',', ' '] + joined(rest));
            assert forall|i: int| a <= i < c implies s[i] != ',' by {
                if i >= p {
                    assert(s[i] == s.subrange(a + lead, b)[i - p]);
                    assert(s[i] == k0[i - p]);
                }
            }
            assert(s[c] == s.subrange(a + lead, b)[k0.len() as int]);
            assert(s[c + 1] == s.subrange(a + lead, b)[k0.len() as int + 1]);
            lemma_find_exact(s, a, b, ',', c);
            assert(s[c - 1] == s.subrange(a + lead, b)[c - 1 - p]);
            assert(s[c - 1] == k0.last());
            assert(skip_fwd(s, a, c) == p) by {
                if lead == 1 {
                    assert(skip_fwd(s, p, c) == p);
                }
            }
            assert(skip_back(s, p, c) == c);
            assert(s.subrange(p, c) =~= k0);
            assert(s.subrange(c + 2, b) =~= joined(rest)) by {
                let j = joined(ks);
                assert(j.len() == k0.len() + 2 + joined(rest).len());
                assert forall|i: int| 0 <= i < b - (c + 2) implies s.subrange(c + 2, b)[i]
                    == joined(rest)[i] by {
                    assert(s.subrange(a + lead, b)[k0.len() + 2 + i] == s[c + 2 + i]);
                    assert(j[k0.len() + 2 + i] == joined(rest)[i]);
                }
            }
            assert forall|k: int| 0 <= k < rest.len() implies key_ok(#[trigger] rest[k]) by {
                assert(rest[k] == ks[k + 1]);
            }
            lemma_key_list_reads_back(s, c + 1, b, 1, rest);
            assert(key_list(s, a, b) == seq![k0] + rest);
            assert(key_list(s, a, b) =~= ks);
        }
    }
}

/// Reading the line `name = value` that starts at `s[a]`: the line's
/// name and value are read back as written.
proof fn lemma_read_line(s: Seq<char>, a: int, name: Seq<char>, value: Seq<char>, acc: SettingsView)
    requires
        0 <= a,
        a + line_text(name, value).len() <= s.len(),
        s.subrange(a, a + line_text(name, value).len()) == line_text(name, value),
        name_ok(name),
        value_ok(value),
    ensures
        ({
            let e = a + name.len() + 3 + value.len();
            let va = if value.len() == 0 {
                e - 1
            } else {
                a + name.len() + 3
            };
            let vb = if value.len() == 0 {
                e - 1
            } else {
                e
            };
            &&& parsed_from(s, a, acc) == parsed_from(s, e + 1, applied_field(acc, name, s, va, vb))
            &&& s.subrange(va, vb) == value
            &&& a <= va <= vb <= e
        }),
{
    let l = line_text(name, value);
    let n = name.len() as int;
    let e = a + n + 3 + value.len();
    assert(l.len() == n + 4 + value.len());
    assert forall|i: int| 0 <= i < l.len() implies s[a + i] == #[trigger] l[i] by {
        assert(s.subrange(a, a + l.len())[i] == s[a + i]);
    }
    assert forall|i: int| 0 <= i < n implies s[a + i] == #[trigger] name[i] by {
        assert(l[i] == name[i]);
        assert(s[a + i] == l[i]);
    }
    assert forall|i: int| 0 <= i < value.len() implies s[a + n + 3 + i] == #[trigger] value[i] by {
        assert(l[n + 3 + i] == value[i]);
        assert(s[a + (n + 3 + i)] == l[n + 3 + i]);
    }
    assert(s[a + n] == ' ') by {
        assert(l[n] == ' ');
        assert(s[a + n] == l[n]);
    }
    assert(s[a + n + 1] == '=') by {
        assert(l[n + 1] == '=');
        assert(s[a + (n + 1)] == l[n + 1]);
    }
    assert(s[a + n + 2] == ' ') by {
        assert(l[n + 2] == ' ');
        assert(s[a + (n + 2)] == l[n + 2]);
    }
    assert(s[e] == '\n') by {
        assert(l[l.len() - 1] == '\n');
        assert(s[a + (l.len() - 1)] == l[l.len() - 1]);
    }
    // The line ends at its newline.
    assert forall|i: int| a <= i < e implies s[i] != '\n' by {
        if i < a + n {
            assert(s[a + (i - a)] == name[i - a]);
        } else if i >= a + n + 3 {
            assert(s[a + n + 3 + (i - a - n - 3)] == value[i - a - n - 3]);
        }
    }
    lemma_find_exact(s, a, s.len() as int, '\n', e);
    assert(parsed_from(s, a, acc) == parsed_from(s, e + 1, applied_line(acc, s, a, e))) by {
        reveal(parsed_from);
    }
    // Trimming the line.
    assert(s[a] == name[0]);
    assert(skip_fwd(s, a, e) == a);
    let tb = if value.len() == 0 {
        e - 1
    } else {
        e
    };
    if value.len() == 0 {
        assert(skip_back(s, a, e - 1) == e - 1);
        assert(skip_back(s, a, e) == e - 1);
    } else {
        assert(s[e - 1] == value[value.len() - 1]);
        assert(skip_back(s, a, e) == e);
    }
    // The first `=` follows the name.
    let eq = a + n + 1;
    assert forall|i: int| a <= i < eq implies s[i] != '=' by {
        if i < a + n {
            assert(s[a + (i - a)] == name[i - a]);
        }
    }
    lemma_find_exact(s, a, tb, '=', eq);
    assert(skip_fwd(s, a, eq) == a);
    assert(s[a + n - 1] == name[n - 1]);
    assert(skip_back(s, a, eq - 1) == eq - 1);
    assert(skip_back(s, a, eq) == a + n);
    assert(s.subrange(a, a + n) =~= name);
    let va = if value.len() == 0 {
        e - 1
    } else {
        a + n + 3
    };
    if value.len() > 0 {
        assert(s[a + n + 3] == value[0]);
        assert(skip_fwd(s, eq + 2, tb) == eq + 2);
        assert(skip_fwd(s, eq + 1, tb) == eq + 2);
        assert(skip_back(s, va, tb) == tb);
        assert(s.subrange(va, tb) =~= value);
    } else {
        assert(skip_fwd(s, eq + 1, tb) == tb);
        assert(skip_back(s, tb, tb) == tb);
        assert(s.subrange(va, tb) =~= value);
    }
    assert(applied_line(acc, s, a, e) == applied_field(acc, name, s, va, tb));
}

/// A line that starts with `#` is passed over.
proof fn lemma_read_comment(s: Seq<char>, a: int, text: Seq<char>, acc: SettingsView)
    requires
        0 <= a,
        a + text.len() + 1 <= s.len(),
        s.subrange(a, a + text.len() + 1) == text + seq!['\n'],
        text.len() > 0,
        text[0] == '#',
        free_of(text, '\n'),
    ensures
        parsed_from(s, a, acc) == parsed_from(s, a + text.len() + 1, acc),
{
    let l = text + seq!['\n'];
    let e = a + text.len();
    assert forall|i: int| a <= i < e implies s[i] != '\n' by {
        assert(s.subrange(a, a + l.len())[i - a] == s[i]);
        assert(l[i - a] == text[i - a]);
    }
    assert(s[e] == '\n') by {
        assert(s.subrange(a, a + l.len())[e - a] == s[e]);
    }
    lemma_find_exact(s, a, s.len() as int, '\n', e);
    assert(s[a] == '#') by {
        assert(s.subrange(a, a + l.len())[0] == s[a]);
    }
    assert(skip_fwd(s, a, e) == a);
    assert(applied_line(acc, s, a, e) == acc);
    reveal(parsed_from);
}

/// With no binding for `action`, dropping it changes nothing.
proof fn lemma_drop_absent(bs: Seq<(Seq<char>, Seq<Seq<char>>)>, action: Seq<char>)
    requires
        forall|i: int| 0 <= i < bs.len() ==> (#[trigger] bs[i]).0 != action,
    ensures
        drop_named(bs, action) == bs,
    decreases bs.len(),
{
    if bs.len() > 0 {
        assert(bs.last() == bs[bs.len() - 1]);
        let init = bs.drop_last();
        assert forall|i: int| 0 <= i < init.len() implies (#[trigger] init[i]).0 != action by {
            assert(init[i] == bs[i]);
        }
        lemma_drop_absent(init, action);
        assert(init.push(bs.last()) =~= bs);
    }
}

/// Reading the `bind.` lines that end the file adds each binding in turn.
proof fn lemma_read_bindings(
    s: Seq<char>,
    p: int,
    acc: SettingsView,
    bs: Seq<(Seq<char>, Seq<Seq<char>>)>,
)
    requires
        0 <= p,
        p + binding_lines(bs).len() == s.len(),
        s.subrange(p, s.len() as int) == binding_lines(bs),
        forall|i: int| 0 <= i < bs.len() ==> binding_ok(#[trigger] bs[i]),
        forall|i: int, j: int| 0 <= i < j < bs.len() ==> #[trigger] bs[i].0 != #[trigger] bs[j].0,
        forall|i: int, j: int|
            0 <= i < acc.bindings.len() && 0 <= j < bs.len() ==> #[trigger] acc.bindings[i].0
                != #[trigger] bs[j].0,
    ensures
        parsed_from(s, p, acc) == (SettingsView { bindings: acc.bindings + bs, ..acc }),
    decreases bs.len(),
{
    if bs.len() == 0 {
        assert(p == s.len());
        assert(find_from(s, p, s.len() as int, '\n') == p);
        assert(skip_fwd(s, p, p) == p);
        assert(applied_line(acc, s, p, p) == acc);
        reveal(parsed_from);
        assert(parsed_from(s, p + 1, acc) == acc);
        assert(acc.bindings + bs =~= acc.bindings);
    } else {
        let b0 = bs[0];
        let rest = bs.drop_first();
        assert(binding_ok(b0));
        reveal_strlit("bind.");
        let name = "bind."@ + b0.0;
        let value = joined(b0.1);
        let l = line_text(name, value);
        assert(binding_lines(bs) == l + binding_lines(rest));
        assert(s.subrange(p, p + l.len()) =~= l) by {
            assert forall|i: int| 0 <= i < l.len() implies s.subrange(p, p + l.len())[i] == l[i] by {
                assert(s.subrange(p, s.len() as int)[i] == binding_lines(bs)[i]);
            }
        }
        assert(s.subrange(p + l.len(), s.len() as int) =~= binding_lines(rest)) by {
            assert forall|i: int| 0 <= i < binding_lines(rest).len() implies s.subrange(
                p + l.len(),
                s.len() as int,
            )[i] == binding_lines(rest)[i] by {
                assert(s.subrange(p, s.len() as int)[l.len() + i] == binding_lines(bs)[l.len() + i]);
            }
        }
        lemma_joined_shape(b0.1);
        assert(name_ok(name)) by {
            assert(name[0] == 'b');
            if b0.0.len() > 0 {
                assert(name.last() == b0.0.last());
            } else {
                assert(name.last() == '.');
            }
            assert forall|i: int| 0 <= i < name.len() implies name[i] != '=' && name[i] != '\n' by {
                if i >= 5 {
                    assert(name[i] == b0.0[i - 5]);
                }
            }
        }
        lemma_read_line(s, p, name, value, acc);
        let e = p + name.len() + 3 + value.len();
        let va = if value.len() == 0 {
            e - 1
        } else {
            p + name.len() + 3
        };
        let vb = if value.len() == 0 {
            e - 1
        } else {
            e
        };
        lemma_key_list_reads_back(s, va, vb, 0, b0.1);
        assert forall|i: int| 0 <= i < acc.bindings.len() implies (#[trigger] acc.bindings[i]).0
            != b0.0 by {
            assert(acc.bindings[i].0 != bs[0].0);
        }
        lemma_drop_absent(acc.bindings, b0.0);
        assert(name.len() >= 5 && name.take(5) =~= "bind."@);
        assert(name.skip(5) =~= b0.0);
        lemma_names_differ_from_fields(name);
        let next = SettingsView { bindings: acc.bindings.push(b0), ..acc };
        assert(applied_field(acc, name, s, va, vb) == next);
        assert forall|i: int, j: int| 0 <= i < j < rest.len() implies #[trigger] rest[i].0
            != #[trigger] rest[j].0 by {
            assert(rest[i] == bs[i + 1] && rest[j] == bs[j + 1]);
        }
        assert forall|i: int| 0 <= i < rest.len() implies binding_ok(#[trigger] rest[i]) by {
            assert(rest[i] == bs[i + 1]);
        }
        assert forall|i: int, j: int|
            0 <= i < next.bindings.len() && 0 <= j < rest.len() implies #[trigger] next.bindings[i].0
            != #[trigger] rest[j].0 by {
            assert(rest[j] == bs[j + 1]);
            if i < acc.bindings.len() {
                assert(next.bindings[i] == acc.bindings[i]);
            } else {
                assert(next.bindings[i] == bs[0]);
            }
        }
        assert(l.len() == e + 1 - p);
        lemma_read_bindings(s, e + 1, next, rest);
        assert(next.bindings + rest =~= acc.bindings + bs);
    }
}

/// A `bind.` line's name is none of the other fields' names.
proof fn lemma_names_differ_from_fields(name: Seq<char>)
    requires
        name.len() >= 5,
        name.take(5) == "bind."@,
    ensures
        name != "key"@,
        name != "mode"@,
        name != "octave"@,
        name != "patch"@,
        name != "arp"@,
        name != "arp_pattern"@,
        name != "bpm"@,
{
    reveal_strlit("bind.");
    reveal_strlit("key");
    reveal_strlit("mode");
    reveal_strlit("octave");
    reveal_strlit("patch");
    reveal_strlit("arp");
    reveal_strlit("arp_pattern");
    reveal_strlit("bpm");
    assert(name[0] == name.take(5)[0]);
    assert(name[1] == name.take(5)[1]);
    assert(name[0] == 'b' && name[1] == 'i');
    assert(name.len() == 5 ==> name[0] != "patch"@[0]);
    assert(name.len() == 6 ==> name[0] != "octave"@[0]);
    assert(name.len() == 11 ==> name[0] != "arp_pattern"@[0]);
}

/// The line `name = value` at the front of `s[p..]`, then `rest`.
proof fn lemma_step(
    s: Seq<char>,
    p: int,
    name: Seq<char>,
    value: Seq<char>,
    rest: Seq<char>,
    acc: SettingsView,
)
    requires
        0 <= p <= s.len(),
        s.subrange(p, s.len() as int) == line_text(name, value) + rest,
        name_ok(name),
        value_ok(value),
    ensures
        ({
            let q = p + line_text(name, value).len();
            let e = q - 1;
            let va = if value.len() == 0 {
                e - 1
            } else {
                p + name.len() + 3
            };
            let vb = if value.len() == 0 {
                e - 1
            } else {
                e
            };
            &&& parsed_from(s, p, acc) == parsed_from(s, q, applied_field(acc, name, s, va, vb))
            &&& s.subrange(va, vb) == value
            &&& va <= vb
            &&& s.subrange(q, s.len() as int) == rest
            &&& q <= s.len()
        }),
{
    let l = line_text(name, value);
    let q = p + l.len();
    lemma_split(s, p, l, rest);
    lemma_read_line(s, p, name, value, acc);
}

/// `s[p..]` is `x + y`: its two parts, where they stand.
proof fn lemma_split(s: Seq<char>, p: int, x: Seq<char>, y: Seq<char>)
    requires
        0 <= p <= s.len(),
        s.subrange(p, s.len() as int) == x + y,
    ensures
        p + x.len() <= s.len(),
        s.subrange(p, p + x.len()) == x,
        s.subrange(p + x.len(), s.len() as int) == y,
{
    let q = p + x.len();
    assert(s.subrange(p, s.len() as int).len() == s.len() - p);
    assert((x + y).len() == x.len() + y.len());
    assert forall|i: int| 0 <= i < x.len() implies s.subrange(p, q)[i] == x[i] by {
        assert(s.subrange(p, s.len() as int)[i] == (x + y)[i]);
        assert(s.subrange(p, s.len() as int)[i] == s[p + i]);
        assert(s.subrange(p, q)[i] == s[p + i]);
    }
    assert forall|i: int| 0 <= i < y.len() implies s.subrange(q, s.len() as int)[i] == y[i] by {
        assert(s.subrange(p, s.len() as int)[x.len() + i] == (x + y)[x.len() + i]);
        assert(s.subrange(p, s.len() as int)[x.len() + i] == s[p + x.len() + i]);
        assert(s.subrange(q, s.len() as int)[i] == s[q + i]);
    }
    assert(s.subrange(p, q) =~= x);
    assert(s.subrange(q, s.len() as int) =~= y);
}

proof fn lemma_apply_key(acc: SettingsView, s: Seq<char>, va: int, vb: int, k: i32)
    requires
        s.subrange(va, vb) == signed_decimal(k as int),
        0 <= k < 12,
    ensures
        applied_field(acc, "key"@, s, va, vb) == (SettingsView { key_pitch: k, ..acc }),
{
    lemma_signed_reads_back(k);
}

proof fn lemma_apply_mode(acc: SettingsView, s: Seq<char>, va: int, vb: int, m: Mode)
    requires
        s.subrange(va, vb) == mode_text(m),
    ensures
        applied_field(acc, "mode"@, s, va, vb) == (SettingsView { mode: m, ..acc }),
{
    reveal_strlit("key");
    reveal_strlit("mode");
    reveal_strlit("major");
    reveal_strlit("minor");
    assert("mode"@.len() != "key"@.len());
    assert("minor"@ != "major"@) by {
        assert("minor"@[1] != "major"@[1]);
    }
}

proof fn lemma_apply_octave(acc: SettingsView, s: Seq<char>, va: int, vb: int, o: i32)
    requires
        s.subrange(va, vb) == signed_decimal(o as int),
        OCTAVE_MIN <= o <= OCTAVE_MAX,
    ensures
        applied_field(acc, "octave"@, s, va, vb) == (SettingsView { octave: o, ..acc }),
{
    reveal_strlit("key");
    reveal_strlit("mode");
    reveal_strlit("octave");
    assert("octave"@.len() != "key"@.len() && "octave"@.len() != "mode"@.len());
    lemma_signed_reads_back(o);
}

proof fn lemma_apply_patch(acc: SettingsView, s: Seq<char>, va: int, vb: int, patch: Seq<char>)
    requires
        s.subrange(va, vb) == patch,
        patch.len() > 0,
    ensures
        applied_field(acc, "patch"@, s, va, vb) == (SettingsView { patch, ..acc }),
{
    reveal_strlit("key");
    reveal_strlit("mode");
    reveal_strlit("octave");
    reveal_strlit("patch");
    assert("patch"@.len() != "key"@.len() && "patch"@.len() != "mode"@.len() && "patch"@.len()
        != "octave"@.len());
}

proof fn lemma_apply_arp(acc: SettingsView, s: Seq<char>, va: int, vb: int, on: bool)
    requires
        s.subrange(va, vb) == (if on {
            "on"@
        } else {
            "off"@
        }),
    ensures
        applied_field(acc, "arp"@, s, va, vb) == (SettingsView { arp_on: on, ..acc }),
{
    reveal_strlit("key");
    reveal_strlit("mode");
    reveal_strlit("octave");
    reveal_strlit("patch");
    reveal_strlit("arp");
    reveal_strlit("on");
    reveal_strlit("off");
    assert("arp"@ != "key"@) by {
        assert("arp"@[0] != "key"@[0]);
    }
    assert("arp"@.len() != "mode"@.len() && "arp"@.len() != "octave"@.len() && "arp"@.len()
        != "patch"@.len());
    assert("on"@.len() != "off"@.len());
}

proof fn lemma_apply_pattern(acc: SettingsView, s: Seq<char>, va: int, vb: int, p: ArpPattern)
    requires
        s.subrange(va, vb) == pattern_name_spec(p),
    ensures
        applied_field(acc, "arp_pattern"@, s, va, vb) == (SettingsView { arp_pattern: p, ..acc }),
{
    reveal_strlit("key");
    reveal_strlit("mode");
    reveal_strlit("octave");
    reveal_strlit("patch");
    reveal_strlit("arp");
    reveal_strlit("arp_pattern");
    assert("arp_pattern"@.len() != "key"@.len() && "arp_pattern"@.len() != "mode"@.len()
        && "arp_pattern"@.len() != "octave"@.len() && "arp_pattern"@.len() != "patch"@.len()
        && "arp_pattern"@.len() != "arp"@.len());
    lemma_pattern_names_round_trip(p);
}

proof fn lemma_apply_bpm(acc: SettingsView, s: Seq<char>, va: int, vb: int, tempo: Seq<char>)
    requires
        s.subrange(va, vb) == tempo,
    ensures
        applied_field(acc, "bpm"@, s, va, vb) == (SettingsView {
            bpm_entries: acc.bpm_entries.push(tempo),
            ..acc
        }),
{
    reveal_strlit("key");
    reveal_strlit("mode");
    reveal_strlit("octave");
    reveal_strlit("patch");
    reveal_strlit("arp");
    reveal_strlit("arp_pattern");
    reveal_strlit("bpm");
    assert("bpm"@ != "key"@) by {
        assert("bpm"@[0] != "key"@[0]);
    }
    assert("bpm"@ != "arp"@) by {
        assert("bpm"@[0] != "arp"@[0]);
    }
    assert("bpm"@.len() != "mode"@.len() && "bpm"@.len() != "octave"@.len() && "bpm"@.len()
        != "patch"@.len() && "bpm"@.len() != "arp_pattern"@.len());
}

/// The fixed field names are names a line can hold.
proof fn lemma_field_names_ok()
    ensures
        name_ok("key"@),
        name_ok("mode"@),
        name_ok("octave"@),
        name_ok("patch"@),
        name_ok("arp"@),
        name_ok("arp_pattern"@),
        name_ok("bpm"@),
{
    reveal_strlit("key");
    reveal_strlit("mode");
    reveal_strlit("octave");
    reveal_strlit("patch");
    reveal_strlit("arp");
    reveal_strlit("arp_pattern");
    reveal_strlit("bpm");
}

/// The fixed values are values a line can hold.
proof fn lemma_field_values_ok(m: Mode, on: bool, p: ArpPattern)
    ensures
        value_ok(mode_text(m)),
        value_ok(
            if on {
                "on"@
            } else {
                "off"@
            },
        ),
        value_ok(pattern_name_spec(p)),
{
    reveal_strlit("major");
    reveal_strlit("minor");
    reveal_strlit("on");
    reveal_strlit("off");
    reveal_strlit("up");
    reveal_strlit("down");
    reveal_strlit("updown");
    let mt = mode_text(m);
    assert(forall|i: int| 0 <= i < mt.len() ==> mt[i] != '\n');
    let o = if on {
        "on"@
    } else {
        "off"@
    };
    assert(forall|i: int| 0 <= i < o.len() ==> o[i] != '\n');
    let pn = pattern_name_spec(p);
    assert(forall|i: int| 0 <= i < pn.len() ==> pn[i] != '\n');
}

/// Reading the line `name = value` at the front of `s[p..]` gives `next`.
spec fn reads_line(
    s: Seq<char>,
    p: int,
    name: Seq<char>,
    value: Seq<char>,
    rest: Seq<char>,
    acc: SettingsView,
    next: SettingsView,
) -> bool {
    let q = p + line_text(name, value).len();
    &&& q <= s.len()
    &&& parsed_from(s, p, acc) == parsed_from(s, q, next)
    &&& s.subrange(q, s.len() as int) == rest
}

proof fn lemma_read_key(s: Seq<char>, p: int, k: i32, rest: Seq<char>, acc: SettingsView)
    requires
        0 <= p <= s.len(),
        s.subrange(p, s.len() as int) == line_text("key"@, signed_decimal(k as int)) + rest,
        0 <= k < 12,
    ensures
        reads_line(s, p, "key"@, signed_decimal(k as int), rest, acc, SettingsView { key_pitch: k, ..acc }),
{
    let v = signed_decimal(k as int);
    lemma_field_names_ok();
    lemma_signed_shape(k as int);
    reveal_strlit("key");
    lemma_step(s, p, "key"@, v, rest, acc);
    let e = p + line_text("key"@, v).len() - 1;
    lemma_apply_key(acc, s, p + 6, e, k);
}

proof fn lemma_read_mode(s: Seq<char>, p: int, m: Mode, rest: Seq<char>, acc: SettingsView)
    requires
        0 <= p <= s.len(),
        s.subrange(p, s.len() as int) == line_text("mode"@, mode_text(m)) + rest,
    ensures
        reads_line(s, p, "mode"@, mode_text(m), rest, acc, SettingsView { mode: m, ..acc }),
{
    let v = mode_text(m);
    lemma_field_names_ok();
    lemma_field_values_ok(m, true, ArpPattern::Up);
    reveal_strlit("major");
    reveal_strlit("minor");
    reveal_strlit("mode");
    lemma_step(s, p, "mode"@, v, rest, acc);
    let e = p + line_text("mode"@, v).len() - 1;
    lemma_apply_mode(acc, s, p + 7, e, m);
}

proof fn lemma_read_octave(s: Seq<char>, p: int, o: i32, rest: Seq<char>, acc: SettingsView)
    requires
        0 <= p <= s.len(),
        s.subrange(p, s.len() as int) == line_text("octave"@, signed_decimal(o as int)) + rest,
        OCTAVE_MIN <= o <= OCTAVE_MAX,
    ensures
        reads_line(s, p, "octave"@, signed_decimal(o as int), rest, acc, SettingsView { octave: o, ..acc }),
{
    let v = signed_decimal(o as int);
    lemma_field_names_ok();
    lemma_signed_shape(o as int);
    reveal_strlit("octave");
    lemma_step(s, p, "octave"@, v, rest, acc);
    let e = p + line_text("octave"@, v).len() - 1;
    lemma_apply_octave(acc, s, p + 9, e, o);
}

proof fn lemma_read_patch(s: Seq<char>, p: int, patch: Seq<char>, rest: Seq<char>, acc: SettingsView)
    requires
        0 <= p <= s.len(),
        s.subrange(p, s.len() as int) == line_text("patch"@, patch) + rest,
        trimmed_word(patch),
        free_of(patch, '\n'),
    ensures
        reads_line(s, p, "patch"@, patch, rest, acc, SettingsView { patch, ..acc }),
{
    lemma_field_names_ok();
    reveal_strlit("patch");
    lemma_step(s, p, "patch"@, patch, rest, acc);
    let e = p + line_text("patch"@, patch).len() - 1;
    lemma_apply_patch(acc, s, p + 8, e, patch);
}

proof fn lemma_read_arp(s: Seq<char>, p: int, on: bool, rest: Seq<char>, acc: SettingsView)
    requires
        0 <= p <= s.len(),
        s.subrange(p, s.len() as int) == line_text("arp"@, if on { "on"@ } else { "off"@ }) + rest,
    ensures
        reads_line(s, p, "arp"@, if on { "on"@ } else { "off"@ }, rest, acc, SettingsView { arp_on: on, ..acc }),
{
    let v = if on {
        "on"@
    } else {
        "off"@
    };
    lemma_field_names_ok();
    lemma_field_values_ok(Mode::Major, on, ArpPattern::Up);
    reveal_strlit("arp");
    reveal_strlit("on");
    reveal_strlit("off");
    lemma_step(s, p, "arp"@, v, rest, acc);
    let e = p + line_text("arp"@, v).len() - 1;
    lemma_apply_arp(acc, s, p + 6, e, on);
}

proof fn lemma_read_pattern(s: Seq<char>, p: int, pat: ArpPattern, rest: Seq<char>, acc: SettingsView)
    requires
        0 <= p <= s.len(),
        s.subrange(p, s.len() as int) == line_text("arp_pattern"@, pattern_name_spec(pat)) + rest,
    ensures
        reads_line(s, p, "arp_pattern"@, pattern_name_spec(pat), rest, acc, SettingsView { arp_pattern: pat, ..acc }),
{
    let v = pattern_name_spec(pat);
    lemma_field_names_ok();
    lemma_field_values_ok(Mode::Major, true, pat);
    reveal_strlit("arp_pattern");
    reveal_strlit("up");
    reveal_strlit("down");
    reveal_strlit("updown");
    lemma_step(s, p, "arp_pattern"@, v, rest, acc);
    let e = p + line_text("arp_pattern"@, v).len() - 1;
    lemma_apply_pattern(acc, s, p + 14, e, pat);
}

proof fn lemma_read_bpm(s: Seq<char>, p: int, bpm: nat, rest: Seq<char>, acc: SettingsView)
    requires
        0 <= p <= s.len(),
        s.subrange(p, s.len() as int) == line_text("bpm"@, decimal(bpm)) + rest,
    ensures
        reads_line(s, p, "bpm"@, decimal(bpm), rest, acc, SettingsView {
            bpm_entries: acc.bpm_entries.push(decimal(bpm)),
            ..acc
        }),
{
    let v = decimal(bpm);
    lemma_field_names_ok();
    lemma_signed_shape(bpm as int);
    assert(signed_decimal(bpm as int) == v);
    reveal_strlit("bpm");
    lemma_step(s, p, "bpm"@, v, rest, acc);
    let e = p + line_text("bpm"@, v).len() - 1;
    lemma_apply_bpm(acc, s, p + 6, e, v);
}

/// The settings file's text, a line at a time from the front.
proof fn lemma_text_lines(s: SettingsView, bpm: nat)
    ensures
        settings_text(s, bpm) == file_header() + (line_text("key"@, signed_decimal(s.key_pitch as int))
            + (line_text("mode"@, mode_text(s.mode)) + (line_text(
            "octave"@,
            signed_decimal(s.octave as int),
        ) + (line_text("patch"@, s.patch) + (line_text(
            "arp"@,
            if s.arp_on {
                "on"@
            } else {
                "off"@
            },
        ) + (line_text("arp_pattern"@, pattern_name_spec(s.arp_pattern)) + (line_text(
            "bpm"@,
            decimal(bpm),
        ) + binding_lines(s.bindings)))))))),
{
    let t = settings_text(s, bpm);
    let r = file_header() + (line_text("key"@, signed_decimal(s.key_pitch as int))
        + (line_text("mode"@, mode_text(s.mode)) + (line_text(
        "octave"@,
        signed_decimal(s.octave as int),
    ) + (line_text("patch"@, s.patch) + (line_text(
        "arp"@,
        if s.arp_on {
            "on"@
        } else {
            "off"@
        },
    ) + (line_text("arp_pattern"@, pattern_name_spec(s.arp_pattern)) + (line_text(
        "bpm"@,
        decimal(bpm),
    ) + binding_lines(s.bindings))))))));
    assert(t =~= r);
}

/// Writing settings the file can hold exactly, then reading the file, gives
/// the same settings back, with the tempo line as the one tempo entry.
pub proof fn lemma_settings_round_trip(s: SettingsView, bpm: nat)
    requires
        writable(s),
    ensures
        parsed(settings_text(s, bpm)) == (SettingsView { bpm_entries: seq![decimal(bpm)], ..s }),
{
    let h = file_header();
    let v1 = signed_decimal(s.key_pitch as int);
    let v3 = signed_decimal(s.octave as int);
    let onoff = if s.arp_on {
        "on"@
    } else {
        "off"@
    };
    let pn = pattern_name_spec(s.arp_pattern);
    let tempo = decimal(bpm);
    let bl = binding_lines(s.bindings);
    let r7 = line_text("bpm"@, tempo) + bl;
    let r6 = line_text("arp_pattern"@, pn) + r7;
    let r5 = line_text("arp"@, onoff) + r6;
    let r4 = line_text("patch"@, s.patch) + r5;
    let r3 = line_text("octave"@, v3) + r4;
    let r2 = line_text("mode"@, mode_text(s.mode)) + r3;
    let r1 = line_text("key"@, v1) + r2;
    let t = settings_text(s, bpm);
    lemma_text_lines(s, bpm);
    assert(t.subrange(0, t.len() as int) =~= t);
    let htext = h.drop_last();
    assert(h =~= htext + seq!['\n'] && htext.len() > 0 && htext[0] == '#' && free_of(htext, '\n'))
        by {
        reveal_strlit("# Musika settings. Safe to edit by hand; delete this file to reset.\n");
    }
    lemma_split(t, 0, h, r1);
    lemma_read_comment(t, 0, htext, default_settings());
    let a0 = default_settings();
    let p1 = h.len() as int;
    lemma_read_key(t, p1, s.key_pitch, r2, a0);
    let a1 = SettingsView { key_pitch: s.key_pitch, ..a0 };
    let p2 = p1 + line_text("key"@, v1).len();
    lemma_read_mode(t, p2, s.mode, r3, a1);
    let a2 = SettingsView { mode: s.mode, ..a1 };
    let p3 = p2 + line_text("mode"@, mode_text(s.mode)).len();
    lemma_read_octave(t, p3, s.octave, r4, a2);
    let a3 = SettingsView { octave: s.octave, ..a2 };
    let p4 = p3 + line_text("octave"@, v3).len();
    lemma_read_patch(t, p4, s.patch, r5, a3);
    let a4 = SettingsView { patch: s.patch, ..a3 };
    let p5 = p4 + line_text("patch"@, s.patch).len();
    lemma_read_arp(t, p5, s.arp_on, r6, a4);
    let a5 = SettingsView { arp_on: s.arp_on, ..a4 };
    let p6 = p5 + line_text("arp"@, onoff).len();
    lemma_read_pattern(t, p6, s.arp_pattern, r7, a5);
    let a6 = SettingsView { arp_pattern: s.arp_pattern, ..a5 };
    let p7 = p6 + line_text("arp_pattern"@, pn).len();
    lemma_read_bpm(t, p7, bpm, bl, a6);
    let a7 = SettingsView { bpm_entries: a6.bpm_entries.push(tempo), ..a6 };
    let p8 = p7 + line_text("bpm"@, tempo).len();
    assert(a7.bpm_entries =~= seq![tempo]);
    lemma_read_bindings(t, p8, a7, s.bindings);
    assert(a7.bindings + s.bindings =~= s.bindings);
}

} // verus!
