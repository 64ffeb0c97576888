//! The timestamp value used by karaoke tags.
//!
//! A timestamp is written `HH:MM:SS.mmm`: two hour digits, two minute
//! digits, two second digits and three millisecond digits.  Parsing and
//! rendering are exact inverses of one another on well-formed values, so
//! that a rendered timestamp re-parses to the same value.

use vstd::prelude::*;

verus! {

/// A moment inside a cue, with millisecond precision.
#[derive(Clone, Copy, PartialEq, Eq, Structural, Debug, Hash)]
pub struct VttTimestamp {
    pub hours: u8,
    pub minutes: u8,
    pub seconds: u8,
    pub milliseconds: u16,
}

impl VttTimestamp {
    /// Field bounds under which the textual form is faithful.
    pub open spec fn wf(self) -> bool {
        self.hours <= 99 && self.minutes <= 59 && self.seconds <= 59 && self.milliseconds <= 999
    }
}

/// Whether `c` is a decimal digit.
pub open spec fn is_digit(c: char) -> bool {
    48 <= c as int && c as int <= 57
}

/// The numeric value of a decimal digit character.
pub open spec fn digit_val(c: char) -> int {
    c as int - 48
}

/// The character for a decimal digit value in 0..=9.
pub open spec fn digit_char(d: int) -> char {
    if d == 0 {
        '0'
    } else if d == 1 {
        '1'
    } else if d == 2 {
        '2'
    } else if d == 3 {
        '3'
    } else if d == 4 {
        '4'
    } else if d == 5 {
        '5'
    } else if d == 6 {
        '6'
    } else if d == 7 {
        '7'
    } else if d == 8 {
        '8'
    } else {
        '9'
    }
}

/// The twelve characters of a timestamp's textual form.
pub open spec fn timestamp_chars(ts: VttTimestamp) -> Seq<char> {
    seq![
        digit_char((ts.hours as int / 10) % 10),
        digit_char(ts.hours as int % 10),
        ':',
        digit_char((ts.minutes as int / 10) % 10),
        digit_char(ts.minutes as int % 10),
        ':',
        digit_char((ts.seconds as int / 10) % 10),
        digit_char(ts.seconds as int % 10),
        '.',
        digit_char((ts.milliseconds as int / 100) % 10),
        digit_char((ts.milliseconds as int / 10) % 10),
        digit_char(ts.milliseconds as int % 10),
    ]
}

/// The timestamp a character sequence denotes, or `None` when the sequence
/// does not match the `HH:MM:SS.mmm` grammar (with minutes and seconds
/// below sixty).
pub open spec fn timestamp_of_chars(s: Seq<char>) -> Option<VttTimestamp> {
    if s.len() == 12 && s[2] == ':' && s[5] == ':' && s[8] == '.' && is_digit(s[0]) && is_digit(
        s[1],
    ) && is_digit(s[3]) && is_digit(s[4]) && is_digit(s[6]) && is_digit(s[7]) && is_digit(s[9])
        && is_digit(s[10]) && is_digit(s[11]) && digit_val(s[3]) <= 5 && digit_val(s[6]) <= 5 {
        Some(
            VttTimestamp {
                hours: (digit_val(s[0]) * 10 + digit_val(s[1])) as u8,
                minutes: (digit_val(s[3]) * 10 + digit_val(s[4])) as u8,
                seconds: (digit_val(s[6]) * 10 + digit_val(s[7])) as u8,
                milliseconds: (digit_val(s[9]) * 100 + digit_val(s[10]) * 10 + digit_val(
                    s[11],
                )) as u16,
            },
        )
    } else {
        None
    }
}

/// A parsed timestamp always satisfies the field bounds.
pub proof fn lemma_parsed_timestamp_wf(s: Seq<char>)
    ensures
        timestamp_of_chars(s) is Some ==> timestamp_of_chars(s).unwrap().wf(),
{
}

/// Every character of a timestamp's textual form is a digit, a colon or a
/// full stop; in particular none is `<` or `>`.
pub proof fn lemma_timestamp_chars_shape(ts: VttTimestamp)
    ensures
        timestamp_chars(ts).len() == 12,
        forall|i: int|
            0 <= i < 12 ==> timestamp_chars(ts)[i] != '<' && timestamp_chars(ts)[i] != '>',
{
    let s = timestamp_chars(ts);
    assert forall|i: int| 0 <= i < 12 implies s[i] != '<' && s[i] != '>' by {
        assert(':' as int == 58);
        assert('.' as int == 46);
        assert('<' as int == 60);
        assert('>' as int == 62);
    }
}

/// Rendering then parsing restores a well-formed timestamp unchanged.
pub proof fn lemma_timestamp_round_trip(ts: VttTimestamp)
    requires
        ts.wf(),
    ensures
        timestamp_of_chars(timestamp_chars(ts)) == Some(ts),
{
    let s = timestamp_chars(ts);
    let h = ts.hours as int;
    let m = ts.minutes as int;
    let sec = ts.seconds as int;
    let ms = ts.milliseconds as int;
    assert(h == (h / 10) * 10 + h % 10) by (nonlinear_arith);
    assert(0 <= h / 10 <= 9 && (h / 10) % 10 == h / 10) by (nonlinear_arith)
        requires
            0 <= h <= 99,
    ;
    assert(m == (m / 10) * 10 + m % 10) by (nonlinear_arith);
    assert(0 <= m / 10 <= 5 && (m / 10) % 10 == m / 10) by (nonlinear_arith)
        requires
            0 <= m <= 59,
    ;
    assert(sec == (sec / 10) * 10 + sec % 10) by (nonlinear_arith);
    assert(0 <= sec / 10 <= 5 && (sec / 10) % 10 == sec / 10) by (nonlinear_arith)
        requires
            0 <= sec <= 59,
    ;
    assert(ms == (ms / 100) * 100 + (ms / 10) % 10 * 10 + ms % 10) by (nonlinear_arith);
    assert(0 <= ms / 100 <= 9 && (ms / 100) % 10 == ms / 100) by (nonlinear_arith)
        requires
            0 <= ms <= 999,
    ;
    assert(timestamp_of_chars(s) == Some(ts));
}

/// A digit character is recovered from its numeric value.
proof fn lemma_digit_char_inverse(c: char)
    requires
        is_digit(c),
    ensures
        digit_char(digit_val(c)) == c,
{
    if c as int == 48 {
        assert(c == '0');
    } else if c as int == 49 {
        assert(c == '1');
    } else if c as int == 50 {
        assert(c == '2');
    } else if c as int == 51 {
        assert(c == '3');
    } else if c as int == 52 {
        assert(c == '4');
    } else if c as int == 53 {
        assert(c == '5');
    } else if c as int == 54 {
        assert(c == '6');
    } else if c as int == 55 {
        assert(c == '7');
    } else if c as int == 56 {
        assert(c == '8');
    } else {
        assert(c == '9');
    }
}

/// The grammar is canonical: parsing then rendering restores the very
/// characters the timestamp came from.
pub proof fn lemma_timestamp_chars_canonical(s: Seq<char>)
    requires
        timestamp_of_chars(s) is Some,
    ensures
        timestamp_chars(timestamp_of_chars(s).unwrap()) == s,
{
    let ts = timestamp_of_chars(s).unwrap();
    let d0 = digit_val(s[0]);
    let d1 = digit_val(s[1]);
    let d3 = digit_val(s[3]);
    let d4 = digit_val(s[4]);
    let d6 = digit_val(s[6]);
    let d7 = digit_val(s[7]);
    let d9 = digit_val(s[9]);
    let d10 = digit_val(s[10]);
    let d11 = digit_val(s[11]);
    let h = ts.hours as int;
    let m = ts.minutes as int;
    let sec = ts.seconds as int;
    let ms = ts.milliseconds as int;
    assert(h == d0 * 10 + d1 && m == d3 * 10 + d4 && sec == d6 * 10 + d7 && ms == d9 * 100 + d10
        * 10 + d11);
    assert((h / 10) % 10 == d0 && h % 10 == d1) by (nonlinear_arith)
        requires
            h == d0 * 10 + d1 && 0 <= d0 <= 9 && 0 <= d1 <= 9,
    ;
    assert((m / 10) % 10 == d3 && m % 10 == d4) by (nonlinear_arith)
        requires
            m == d3 * 10 + d4 && 0 <= d3 <= 9 && 0 <= d4 <= 9,
    ;
    assert((sec / 10) % 10 == d6 && sec % 10 == d7) by (nonlinear_arith)
        requires
            sec == d6 * 10 + d7 && 0 <= d6 <= 9 && 0 <= d7 <= 9,
    ;
    assert((ms / 100) % 10 == d9 && (ms / 10) % 10 == d10 && ms % 10 == d11) by (nonlinear_arith)
        requires
            ms == d9 * 100 + d10 * 10 + d11 && 0 <= d9 <= 9 && 0 <= d10 <= 9 && 0 <= d11 <= 9,
    ;
    lemma_digit_char_inverse(s[0]);
    lemma_digit_char_inverse(s[1]);
    lemma_digit_char_inverse(s[3]);
    lemma_digit_char_inverse(s[4]);
    lemma_digit_char_inverse(s[6]);
    lemma_digit_char_inverse(s[7]);
    lemma_digit_char_inverse(s[9]);
    lemma_digit_char_inverse(s[10]);
    lemma_digit_char_inverse(s[11]);
    assert(timestamp_chars(ts) =~= s);
}

/// The numeric value of a digit character, where there is one.
fn digit_value(c: char) -> (r: Option<u8>)
    ensures
        r is Some <==> is_digit(c),
        r is Some ==> r.unwrap() as int == digit_val(c),
{
    let u: u32 = c as u32;
    if 48 <= u && u <= 57 {
        Some((u - 48) as u8)
    } else {
        None
    }
}

/// The one-character string for a digit value.
fn digit_str(d: u8) -> (r: &'static str)
    requires
        d <= 9,
    ensures
        r@ =~= seq![digit_char(d as int)],
{
    proof {
        reveal_strlit("0");
        reveal_strlit("1");
        reveal_strlit("2");
        reveal_strlit("3");
        reveal_strlit("4");
        reveal_strlit("5");
        reveal_strlit("6");
        reveal_strlit("7");
        reveal_strlit("8");
        reveal_strlit("9");
    }
    if d == 0 {
        "0"
    } else if d == 1 {
        "1"
    } else if d == 2 {
        "2"
    } else if d == 3 {
        "3"
    } else if d == 4 {
        "4"
    } else if d == 5 {
        "5"
    } else if d == 6 {
        "6"
    } else if d == 7 {
        "7"
    } else if d == 8 {
        "8"
    } else {
        "9"
    }
}

impl VttTimestamp {
    /// Parses `HH:MM:SS.mmm`; rejects anything else.
    pub fn parse(s: &str) -> (r: Option<VttTimestamp>)
        ensures
            r == timestamp_of_chars(s@),
    {
        if s.unicode_len() != 12 {
            return None;
        }
        if s.get_char(2) != ':' || s.get_char(5) != ':' || s.get_char(8) != '.' {
            return None;
        }
        let d0 = match digit_value(s.get_char(0)) {
            Some(d) => d,
            None => { return None },
        };
        let d1 = match digit_value(s.get_char(1)) {
            Some(d) => d,
            None => { return None },
        };
        let d3 = match digit_value(s.get_char(3)) {
            Some(d) => d,
            None => { return None },
        };
        let d4 = match digit_value(s.get_char(4)) {
            Some(d) => d,
            None => { return None },
        };
        let d6 = match digit_value(s.get_char(6)) {
            Some(d) => d,
            None => { return None },
        };
        let d7 = match digit_value(s.get_char(7)) {
            Some(d) => d,
            None => { return None },
        };
        let d9 = match digit_value(s.get_char(9)) {
            Some(d) => d,
            None => { return None },
        };
        let d10 = match digit_value(s.get_char(10)) {
            Some(d) => d,
            None => { return None },
        };
        let d11 = match digit_value(s.get_char(11)) {
            Some(d) => d,
            None => { return None },
        };
        if d3 > 5 || d6 > 5 {
            return None;
        }
        Some(
            VttTimestamp {
                hours: d0 * 10 + d1,
                minutes: d3 * 10 + d4,
                seconds: d6 * 10 + d7,
                milliseconds: d9 as u16 * 100 + d10 as u16 * 10 + d11 as u16,
            },
        )
    }

    /// Renders the timestamp as `HH:MM:SS.mmm`.
    pub fn render(&self) -> (r: String)
        ensures
            r@ == timestamp_chars(*self),
    {
        proof {
            reveal_strlit(":");
            reveal_strlit(".");
        }
        let mut r = String::new();
        r.append(digit_str((self.hours / 10) % 10));
        r.append(digit_str(self.hours % 10));
        r.append(":");
        r.append(digit_str((self.minutes / 10) % 10));
        r.append(digit_str(self.minutes % 10));
        r.append(":");
        r.append(digit_str((self.seconds / 10) % 10));
        r.append(digit_str(self.seconds % 10));
        r.append(".");
        r.append(digit_str(((self.milliseconds / 100) % 10) as u8));
        r.append(digit_str(((self.milliseconds / 10) % 10) as u8));
        r.append(digit_str((self.milliseconds % 10) as u8));
        proof {
            assert(r@ =~= timestamp_chars(*self));
        }
        r
    }

    /// Whether the fields lie within the bounds the textual form can carry.
    pub fn is_wf(&self) -> (b: bool)
        ensures
            b == self.wf(),
    {
        self.hours <= 99 && self.minutes <= 59 && self.seconds <= 59 && self.milliseconds <= 999
    }
}

} // verus!
