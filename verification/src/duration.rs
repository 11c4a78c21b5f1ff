//! Writing numbers and durations as text.
use vstd::prelude::*;
use vstd::arithmetic::div_mod::{lemma_fundamental_div_mod, lemma_mod_bound};

verus! {

/// The decimal digit `d` (0-9) as a character.
pub open spec fn digit_char(d: int) -> char {
    (d + 48) as char
}

/// The decimal digits of `n`, most significant first, without leading zeros.
pub open spec fn decimal(n: nat) -> Seq<char>
    decreases n,
{
    if n < 10 {
        seq![digit_char(n as int)]
    } else {
        decimal(n / 10) + seq![digit_char((n % 10) as int)]
    }
}

/// `n` (below 100) written with at least two digits, as `{:02}` writes it.
pub open spec fn two_digits(n: nat) -> Seq<char> {
    if n < 10 {
        seq!['0'] + decimal(n)
    } else {
        decimal(n)
    }
}

/// Joins the parts with single spaces.
pub open spec fn join_with_spaces(parts: Seq<Seq<char>>) -> Seq<char>
    decreases parts.len(),
{
    if parts.len() == 0 {
        seq![]
    } else if parts.len() == 1 {
        parts[0]
    } else {
        join_with_spaces(parts.drop_last()) + seq![' '] + parts.last()
    }
}

/// The hours, minutes and seconds of a positive duration that are written out:
/// each nonzero one, and the seconds also when nothing else is.
pub open spec fn duration_parts(total: int) -> Seq<Seq<char>> {
    let hours = total / 3600;
    let minutes = (total % 3600) / 60;
    let seconds = total % 60;
    let with_hours = if hours > 0 {
        seq![decimal(hours as nat) + seq!['h']]
    } else {
        Seq::<Seq<char>>::empty()
    };
    let with_minutes = if minutes > 0 {
        with_hours.push(decimal(minutes as nat) + seq!['m'])
    } else {
        with_hours
    };
    if seconds > 0 || with_minutes.len() == 0 {
        with_minutes.push(decimal(seconds as nat) + seq!['s'])
    } else {
        with_minutes
    }
}

/// A duration in seconds as text: "0s" for none (or a negative one), else
/// e.g. "1h 2m 3s", leaving out the zero parts.
pub open spec fn spec_format_duration(total: int) -> Seq<char> {
    if total <= 0 {
        seq!['0', 's']
    } else {
        join_with_spaces(duration_parts(total))
    }
}

/// The text of one decimal digit.
fn digit_str(d: u64) -> (s: &'static str)
    requires
        d < 10,
    ensures
        s@ == seq![digit_char(d as int)],
{
    let s = match d {
        0 => "0",
        1 => "1",
        2 => "2",
        3 => "3",
        4 => "4",
        5 => "5",
        6 => "6",
        7 => "7",
        8 => "8",
        _ => "9",
    };
    proof {
        reveal_strlit("0");
        reveal_strlit("1");
        reveal_strlit("2");
        reveal_strlit("3");
        reveal_strlit("4");
        reveal_strlit("5");
        reveal_strlit("6");
        reveal_strlit("7");
        reveal_strlit("8");
        reveal_strlit("9");
        assert(s@ =~= seq![digit_char(d as int)]);
    }
    s
}

/// `n` in decimal, as `format!("{}", n)` writes it.
pub fn decimal_string(n: u64) -> (s: String)
    ensures
        s@ == decimal(n as nat),
    decreases n,
{
    if n < 10 {
        String::from_str(digit_str(n))
    } else {
        let mut s = decimal_string(n / 10);
        s.append(digit_str(n % 10));
        s
    }
}

/// `n` with at least two digits, as `format!("{:02}", n)` writes it.
pub fn two_digit_string(n: u64) -> (s: String)
    requires
        n < 100,
    ensures
        s@ == two_digits(n as nat),
{
    if n < 10 {
        let mut s = String::from_str("0");
        proof {
            reveal_strlit("0");
        }
        s.append(digit_str(n));
        proof {
            assert(s@ =~= seq!['0'] + decimal(n as nat));
        }
        s
    } else {
        decimal_string(n)
    }
}

/// Appends one part to a space-separated list.
fn push_part(out: &mut String, count: &mut usize, part: &str, Ghost(parts): Ghost<Seq<Seq<char>>>)
    requires
        old(out)@ == join_with_spaces(parts),
        *old(count) == parts.len(),
        parts.len() < 3,
    ensures
        final(out)@ == join_with_spaces(parts.push(part@)),
        *final(count) == parts.len() + 1,
{
    if *count > 0 {
        out.append(" ");
        proof {
            reveal_strlit(" ");
        }
    }
    out.append(part);
    proof {
        let pushed = parts.push(part@);
        assert(pushed.drop_last() =~= parts);
        if parts.len() == 0 {
            assert(final(out)@ =~= part@);
        }
    }
    *count = *count + 1;
}

/// A duration in seconds as text: "0s" for none or a negative one, otherwise
/// hours, minutes and seconds, e.g. "1h 5s", leaving out the parts that are
/// zero (the seconds stay when nothing else is left).
pub fn format_duration(total_seconds: i64) -> (s: String)
    ensures
        s@ == spec_format_duration(total_seconds as int),
{
    if total_seconds <= 0 {
        let s = String::from_str("0s");
        proof {
            reveal_strlit("0s");
            assert(s@ =~= seq!['0', 's']);
        }
        return s;
    }
    let total = total_seconds as u64;
    let hours = total / 3600;
    let minutes = (total % 3600) / 60;
    let seconds = total % 60;
    let ghost t = total_seconds as int;
    let ghost with_hours = if hours > 0 {
        seq![decimal(hours as nat) + seq!['h']]
    } else {
        Seq::<Seq<char>>::empty()
    };
    let ghost with_minutes = if minutes > 0 {
        with_hours.push(decimal(minutes as nat) + seq!['m'])
    } else {
        with_hours
    };
    let mut out = String::new();
    let mut count: usize = 0;
    proof {
        reveal_strlit("h");
        reveal_strlit("m");
        reveal_strlit("s");
        assert("h"@ =~= seq!['h']);
        assert("m"@ =~= seq!['m']);
        assert("s"@ =~= seq!['s']);
        assert(out@ =~= join_with_spaces(Seq::<Seq<char>>::empty()));
    }
    if hours > 0 {
        let mut part = decimal_string(hours);
        part.append("h");
        push_part(&mut out, &mut count, part.as_str(), Ghost(Seq::<Seq<char>>::empty()));
        assert(Seq::<Seq<char>>::empty().push(part@) =~= with_hours);
    }
    assert(out@ == join_with_spaces(with_hours) && count == with_hours.len());
    if minutes > 0 {
        let mut part = decimal_string(minutes);
        part.append("m");
        push_part(&mut out, &mut count, part.as_str(), Ghost(with_hours));
    }
    assert(out@ == join_with_spaces(with_minutes) && count == with_minutes.len());
    if seconds > 0 || count == 0 {
        let mut part = decimal_string(seconds);
        part.append("s");
        push_part(&mut out, &mut count, part.as_str(), Ghost(with_minutes));
    }
    assert(duration_parts(t) == (if seconds > 0 || with_minutes.len() == 0 {
        with_minutes.push(decimal(seconds as nat) + seq!['s'])
    } else {
        with_minutes
    }));
    out
}

/// One step of reading a duration text: a digit extends the number being
/// read, a unit adds it to the total (times the unit's seconds), a space
/// starts a new number.
pub open spec fn read_step(state: (int, int), c: char) -> (int, int) {
    if '0' <= c && c <= '9' {
        (state.0 * 10 + (c as int - 48), state.1)
    } else if c == 'h' {
        (0, state.1 + state.0 * 3600)
    } else if c == 'm' {
        (0, state.1 + state.0 * 60)
    } else if c == 's' {
        (0, state.1 + state.0)
    } else {
        (0, state.1)
    }
}

/// The number being read and the total read so far, after reading `text`.
pub open spec fn read_state(text: Seq<char>) -> (int, int)
    decreases text.len(),
{
    if text.len() == 0 {
        (0, 0)
    } else {
        read_step(read_state(text.drop_last()), text.last())
    }
}

/// Reading the digits of `n` after a text that left no number pending
/// leaves `n` pending.
proof fn lemma_read_decimal(t: Seq<char>, n: nat)
    requires
        read_state(t).0 == 0,
    ensures
        read_state(t + decimal(n)) == (n as int, read_state(t).1),
    decreases n,
{
    if n < 10 {
        assert((t + decimal(n)).drop_last() =~= t);
        assert((t + decimal(n)).last() == digit_char(n as int));
    } else {
        lemma_read_decimal(t, n / 10);
        let u = t + decimal(n);
        assert(u.drop_last() =~= t + decimal(n / 10));
        assert(u.last() == digit_char((n % 10) as int));
        lemma_fundamental_div_mod(n as int, 10);
        lemma_mod_bound(n as int, 10);
    }
}

/// Reading a part `<n><unit>` adds `n` times the unit's seconds.
proof fn lemma_read_part(t: Seq<char>, n: nat, unit: char)
    requires
        read_state(t).0 == 0,
        unit == 'h' || unit == 'm' || unit == 's',
    ensures
        read_state(t + (decimal(n) + seq![unit])) == (
            0int,
            read_state(t).1 + n * (if unit == 'h' {
                3600int
            } else if unit == 'm' {
                60int
            } else {
                1int
            }),
        ),
{
    lemma_read_decimal(t, n);
    let u = t + (decimal(n) + seq![unit]);
    assert(u.drop_last() =~= t + decimal(n));
    assert(u.last() == unit);
}

/// A space leaves the total and no number pending.
proof fn lemma_read_space(t: Seq<char>)
    requires
        read_state(t).0 == 0,
    ensures
        read_state(t + seq![' ']) == read_state(t),
{
    assert((t + seq![' ']).drop_last() =~= t);
}

/// Joining one, two or three parts.
proof fn lemma_join_small(a: Seq<char>, b: Seq<char>, c: Seq<char>)
    ensures
        join_with_spaces(seq![a]) == a,
        join_with_spaces(seq![a, b]) == a + seq![' '] + b,
        join_with_spaces(seq![a, b, c]) == a + seq![' '] + b + seq![' '] + c,
{
    assert(seq![a, b].drop_last() =~= seq![a]);
    assert(seq![a, b, c].drop_last() =~= seq![a, b]);
    assert(join_with_spaces(seq![a]) == a);
    assert(join_with_spaces(seq![a, b]) == a + seq![' '] + b);
}

/// Reading the text of a positive duration gives the duration back.
proof fn lemma_read_duration(total: int)
    requires
        total > 0,
    ensures
        read_state(spec_format_duration(total)) == (0int, total),
{
    let hours = total / 3600;
    let minutes = (total % 3600) / 60;
    let seconds = total % 60;
    lemma_fundamental_div_mod(total, 3600);
    lemma_mod_bound(total, 3600);
    lemma_fundamental_div_mod(total % 3600, 60);
    lemma_mod_bound(total % 3600, 60);
    lemma_fundamental_div_mod(total, 60);
    lemma_mod_bound(total, 60);
    assert(seconds == (total % 3600) % 60) by {
        assert(total == 60 * (60 * hours + minutes) + (total % 3600) % 60);
        vstd::arithmetic::div_mod::lemma_fundamental_div_mod_converse(
            total,
            60,
            60 * hours + minutes,
            (total % 3600) % 60,
        );
    }
    let e: Seq<char> = Seq::empty();
    assert(read_state(e) == (0int, 0int));
    let ph = decimal(hours as nat) + seq!['h'];
    let pm = decimal(minutes as nat) + seq!['m'];
    let ps = decimal(seconds as nat) + seq!['s'];
    let parts = duration_parts(total);
    if hours > 0 {
        lemma_read_part(e, hours as nat, 'h');
        assert(e + ph =~= ph);
        if minutes > 0 {
            lemma_read_space(ph);
            lemma_read_part(ph + seq![' '], minutes as nat, 'm');
            let t2 = ph + seq![' '] + pm;
            lemma_join_small(ph, pm, ps);
            if seconds > 0 {
                assert(parts =~= seq![ph, pm, ps]);
                lemma_read_space(t2);
                lemma_read_part(t2 + seq![' '], seconds as nat, 's');
                assert(join_with_spaces(parts) == t2 + seq![' '] + ps);
            } else {
                assert(parts =~= seq![ph, pm]);
            }
        } else if seconds > 0 {
            assert(parts =~= seq![ph, ps]);
            lemma_read_space(ph);
            lemma_read_part(ph + seq![' '], seconds as nat, 's');
            lemma_join_small(ph, ps, ps);
        } else {
            assert(parts =~= seq![ph]);
            lemma_join_small(ph, ph, ph);
        }
    } else if minutes > 0 {
        lemma_read_part(e, minutes as nat, 'm');
        assert(e + pm =~= pm);
        if seconds > 0 {
            assert(parts =~= seq![pm, ps]);
            lemma_read_space(pm);
            lemma_read_part(pm + seq![' '], seconds as nat, 's');
            lemma_join_small(pm, ps, ps);
        } else {
            assert(parts =~= seq![pm]);
            lemma_join_small(pm, pm, pm);
        }
    } else {
        assert(parts =~= seq![ps]);
        lemma_read_part(e, seconds as nat, 's');
        assert(e + ps =~= ps);
        lemma_join_small(ps, ps, ps);
    }
}

/// Distinct positive durations are written differently: the text of a
/// positive duration determines it.
pub proof fn lemma_format_duration_injective(a: int, b: int)
    requires
        a > 0,
        b > 0,
        spec_format_duration(a) == spec_format_duration(b),
    ensures
        a == b,
{
    lemma_read_duration(a);
    lemma_read_duration(b);
}

} // verus!
