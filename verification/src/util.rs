//! Human-readable durations.

use vstd::prelude::*;

use crate::text::{decimal, digit_char, push_char, push_decimal};

verus! {

/// The compact text of a duration of `total` seconds: `42s`, `3m 5s`,
/// `1h 2m 5s`. Hours are not wrapped; minutes and seconds are below 60.
pub open spec fn duration_text(total: nat) -> Seq<char> {
    let secs = total % 60;
    let mins = (total / 60) % 60;
    let hours = total / 3600;
    if hours > 0 {
        decimal(hours) + seq!['h', ' '] + decimal(mins) + seq!['m', ' '] + decimal(secs) + seq!['s']
    } else if mins > 0 {
        decimal(mins) + seq!['m', ' '] + decimal(secs) + seq!['s']
    } else {
        decimal(secs) + seq!['s']
    }
}

/// A decimal digit character.
pub open spec fn is_digit_char(c: char) -> bool {
    '0' <= c <= '9'
}

/// Reading a duration text from the left: the seconds of the fields finished
/// so far, and the number being read. Digits extend the number; a unit letter
/// (`h`, `m`, `s`) adds the number times its weight (3600, 60, 1) and starts a
/// new one; anything else is skipped.
pub open spec fn reading_state(t: Seq<char>) -> (nat, nat)
    decreases t.len(),
{
    if t.len() == 0 {
        (0, 0)
    } else {
        let (total, cur) = reading_state(t.drop_last());
        let c = t.last();
        if is_digit_char(c) {
            (total, cur * 10 + ((c as u32) - 48) as nat)
        } else if c == 'h' {
            (total + cur * 3600, 0)
        } else if c == 'm' {
            (total + cur * 60, 0)
        } else if c == 's' {
            (total + cur, 0)
        } else {
            (total, cur)
        }
    }
}

/// The seconds a duration text stands for: the sum of its numbers, each
/// weighted by the unit after it.
pub open spec fn read_duration(t: Seq<char>) -> nat {
    reading_state(t).0
}

/// Reading a numeral after a finished field gives its value as the number
/// being read.
proof fn lemma_read_decimal(p: Seq<char>, n: nat)
    requires
        reading_state(p).1 == 0,
    ensures
        reading_state(p + decimal(n)) == (reading_state(p).0, n),
    decreases n,
{
    if n < 10 {
        assert((p + decimal(n)).drop_last() == p);
    } else {
        lemma_read_decimal(p, n / 10);
        assert((p + decimal(n)).drop_last() == p + decimal(n / 10));
        assert((n / 10) * 10 + n % 10 == n) by (nonlinear_arith);
    }
}

/// A unit letter after a number adds it with its weight; a space is skipped.
proof fn lemma_read_unit(p: Seq<char>, u: char)
    requires
        u == 'h' || u == 'm' || u == 's' || u == ' ',
    ensures
        reading_state(p.push(u)) == (if u == 'h' {
            (reading_state(p).0 + reading_state(p).1 * 3600, 0nat)
        } else if u == 'm' {
            (reading_state(p).0 + reading_state(p).1 * 60, 0nat)
        } else if u == 's' {
            (reading_state(p).0 + reading_state(p).1, 0nat)
        } else {
            reading_state(p)
        }),
{
    assert(p.push(u).drop_last() == p);
}

/// A duration splits into whole hours, minutes below 60 and seconds below 60.
proof fn lemma_split_duration(n: nat)
    ensures
        n == (n / 3600) * 3600 + ((n / 60) % 60) * 60 + n % 60,
        (n / 60) % 60 < 60,
        n % 60 < 60,
        n / 3600 == 0 ==> (n / 60) % 60 == n / 60,
        n / 3600 == 0 && (n / 60) % 60 == 0 ==> n % 60 == n,
{
    let q = n / 60;
    assert(n == q * 60 + n % 60) by (nonlinear_arith)
        requires
            q == n / 60,
    ;
    assert(q == (q / 60) * 60 + q % 60) by (nonlinear_arith);
    assert(q / 60 == n / 3600) by {
        vstd::arithmetic::div_mod::lemma_div_denominator(n as int, 60, 60);
    }
    assert(n == (n / 3600) * 3600 + (q % 60) * 60 + n % 60) by (nonlinear_arith)
        requires
            n == q * 60 + n % 60,
            q == (q / 60) * 60 + q % 60,
            q / 60 == n / 3600,
    ;
}

/// Law: the text of a duration reads back to the duration; its minutes and
/// seconds are below 60, and it always ends with a seconds field.
pub proof fn law_duration_text_reads_back(n: nat)
    ensures
        read_duration(duration_text(n)) == n,
        (n / 60) % 60 < 60,
        n % 60 < 60,
        duration_text(n).last() == 's',
{
    lemma_split_duration(n);
    let h = n / 3600;
    let m = (n / 60) % 60;
    let sec = n % 60;
    let e = Seq::<char>::empty();
    assert(reading_state(e) == (0nat, 0nat));
    if h > 0 {
        let p1 = e + decimal(h);
        lemma_read_decimal(e, h);
        lemma_read_unit(p1, 'h');
        lemma_read_unit(p1.push('h'), ' ');
        let p2 = p1.push('h').push(' ');
        lemma_read_decimal(p2, m);
        let p3 = p2 + decimal(m);
        lemma_read_unit(p3, 'm');
        lemma_read_unit(p3.push('m'), ' ');
        let p4 = p3.push('m').push(' ');
        lemma_read_decimal(p4, sec);
        let p5 = p4 + decimal(sec);
        lemma_read_unit(p5, 's');
        assert(duration_text(n) =~= p5.push('s'));
    } else if m > 0 {
        let p3 = e + decimal(m);
        lemma_read_decimal(e, m);
        lemma_read_unit(p3, 'm');
        lemma_read_unit(p3.push('m'), ' ');
        let p4 = p3.push('m').push(' ');
        lemma_read_decimal(p4, sec);
        let p5 = p4 + decimal(sec);
        lemma_read_unit(p5, 's');
        assert(duration_text(n) =~= p5.push('s'));
    } else {
        let p5 = e + decimal(sec);
        lemma_read_decimal(e, sec);
        lemma_read_unit(p5, 's');
        assert(duration_text(n) =~= p5.push('s'));
    }
}

/// Law: a decimal numeral is made of digits only, has no leading zero, and
/// reads back to its number.
pub proof fn law_decimal_reads_back(n: nat)
    ensures
        forall|i: int| 0 <= i < decimal(n).len() ==> is_digit_char(#[trigger] decimal(n)[i]),
        decimal(n).len() > 0,
        n > 0 ==> decimal(n)[0] != '0',
        reading_state(decimal(n)) == (0nat, n),
    decreases n,
{
    let e = Seq::<char>::empty();
    assert(reading_state(e) == (0nat, 0nat));
    lemma_read_decimal(e, n);
    assert(e + decimal(n) == decimal(n));
    if n >= 10 {
        law_decimal_reads_back(n / 10);
        let d = decimal(n / 10);
        assert(decimal(n) == d.push(digit_char(n % 10)));
        assert(decimal(n)[0] == d[0]);
        assert forall|i: int| 0 <= i < decimal(n).len() implies is_digit_char(
            #[trigger] decimal(n)[i],
        ) by {
            if i < d.len() {
                assert(decimal(n)[i] == d[i]);
            }
        }
    }
}

/// Law: no two durations have the same text.
pub proof fn law_duration_text_injective(a: nat, b: nat)
    ensures
        duration_text(a) == duration_text(b) ==> a == b,
{
    law_duration_text_reads_back(a);
    law_duration_text_reads_back(b);
}

/// Formats a duration in seconds as compact human-readable text:
/// `42s`, `3m 5s`, `1h 2m 5s`.
pub fn format_duration(total_secs: u64) -> (text: String)
    ensures
        text@ == duration_text(total_secs as nat),
{
    let secs = total_secs % 60;
    let mins = (total_secs / 60) % 60;
    let hours = total_secs / 3600;
    let mut text = String::new();
    if hours > 0 {
        push_decimal(&mut text, hours);
        push_char(&mut text, 'h');
        push_char(&mut text, ' ');
        push_decimal(&mut text, mins);
        push_char(&mut text, 'm');
        push_char(&mut text, ' ');
    } else if mins > 0 {
        push_decimal(&mut text, mins);
        push_char(&mut text, 'm');
        push_char(&mut text, ' ');
    }
    push_decimal(&mut text, secs);
    push_char(&mut text, 's');
    text
}

} // verus!
