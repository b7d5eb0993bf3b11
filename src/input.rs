//! Turning command-line text into policies and date lines into entries.
use crate::retention::PeriodicRetentionPolicy;
use std::collections::BTreeMap;
use vstd::prelude::*;

verus! {

/// A decimal digit.
pub open spec fn is_digit(c: char) -> bool {
    '0' <= c && c <= '9'
}

pub open spec fn all_digits(d: Seq<char>) -> bool {
    forall|i: int| 0 <= i < d.len() ==> is_digit(#[trigger] d[i])
}

/// The number that a run of decimal digits spells.
pub open spec fn digits_value(d: Seq<char>) -> nat
    decreases d.len(),
{
    if d.len() == 0 {
        0
    } else {
        digits_value(d.drop_last()) * 10 + (d.last() as u32 - 48) as nat
    }
}

/// The digits of an unsigned decimal: the text with one leading `+` removed.
pub open spec fn unsigned_digits(s: Seq<char>) -> Seq<char> {
    if s.len() > 0 && s[0] == '+' {
        s.drop_first()
    } else {
        s
    }
}

/// What `s` reads as an unsigned decimal no larger than `max`: an optional
/// `+`, then one or more digits and nothing else.
pub open spec fn decimal_at_most(s: Seq<char>, max: nat) -> Option<nat> {
    let d = unsigned_digits(s);
    if d.len() > 0 && all_digits(d) && digits_value(d) <= max {
        Some(digits_value(d))
    } else {
        None
    }
}

/// A longer run of digits spells at least as much as its prefix.
proof fn lemma_digits_value_prefix(d: Seq<char>, k: int)
    requires
        0 <= k <= d.len(),
        all_digits(d),
    ensures
        digits_value(d.take(k)) <= digits_value(d),
    decreases d.len(),
{
    if k < d.len() {
        let rest = d.drop_last();
        assert(all_digits(rest)) by {
            assert forall|i: int| 0 <= i < rest.len() implies is_digit(#[trigger] rest[i]) by {
                assert(rest[i] == d[i]);
            }
        }
        lemma_digits_value_prefix(rest, k);
        assert(rest.take(k) =~= d.take(k));
    } else {
        assert(d.take(k) =~= d);
    }
}

/// Digits whose prefix already spells more than `max` spell more than `max`.
proof fn lemma_too_large(d: Seq<char>, k: int, max: nat)
    requires
        0 <= k <= d.len(),
        digits_value(d.take(k)) > max,
    ensures
        !(all_digits(d) && digits_value(d) <= max),
{
    if all_digits(d) {
        lemma_digits_value_prefix(d, k);
    }
}

/// Text with a character outside ASCII reads as no decimal.
proof fn lemma_not_ascii(s: Seq<char>, k: int, max: nat)
    requires
        0 <= k < s.len(),
        !('\0' <= s[k] && s[k] <= '\u{7f}'),
    ensures
        decimal_at_most(s, max) is None,
{
    let d = unsigned_digits(s);
    if s[0] == '+' {
        assert(d[k - 1] == s[k]);
    } else {
        assert(d[k] == s[k]);
    }
}

/// Read `s` as an unsigned decimal number no larger than `max`.
pub fn parse_decimal(s: &str, max: u64) -> (r: Option<u64>)
    ensures
        match decimal_at_most(s@, max as nat) {
            Some(v) => r == Some(v as u64),
            None => r is None,
        },
{
    if !s.is_ascii() {
        proof {
            let k = choose|k: int| 0 <= k < s@.len() && !('\0' <= s@[k] && s@[k] <= '\u{7f}');
            lemma_not_ascii(s@, k, max as nat);
        }
        return None;
    }
    let b = s.as_bytes();
    proof {
        vstd::string::is_ascii_spec_bytes(s);
    }
    let ghost cs = s@;
    let ghost d = unsigned_digits(cs);
    assert(b@.len() == cs.len());
    let mut start: usize = 0;
    if b.len() > 0 && b[0] == 43 {
        assert(cs[0] as u8 == 43);
        assert(cs[0] == '+');
        start = 1;
    } else if b.len() > 0 {
        assert(cs[0] != '+');
    }
    assert(d =~= cs.subrange(start as int, cs.len() as int));
    if start == b.len() {
        return None;
    }
    let mut acc: u64 = 0;
    let mut i: usize = start;
    while i < b.len()
        invariant
            start <= i <= b.len(),
            b@.len() == cs.len(),
            forall|j: int| 0 <= j < cs.len() ==> #[trigger] b@[j] == cs[j] as u8,
            forall|j: int| 0 <= j < cs.len() ==> '\0' <= #[trigger] cs[j] <= '\u{7f}',
            d == cs.subrange(start as int, cs.len() as int),
            d == unsigned_digits(cs),
            cs == s@,
            acc <= max,
            all_digits(d.take(i - start)),
            acc == digits_value(d.take(i - start)),
        decreases b.len() - i,
    {
        let c = b[i];
        assert(d[i - start] == cs[i as int]);
        assert(c == cs[i as int] as u8);
        if c < 48 || c > 57 {
            assert(!is_digit(d[i - start]));
            assert(!all_digits(d));
            return None;
        }
        let digit: u64 = (c - 48) as u64;
        assert(d.take(i - start + 1).drop_last() =~= d.take(i - start));
        let ghost next = d.take(i - start + 1);
        assert(next.last() == cs[i as int]);
        assert(is_digit(next.last()));
        assert(all_digits(next));
        assert(digits_value(next) == acc * 10 + digit);
        if acc > max / 10 {
            assert(acc * 10 > max) by (nonlinear_arith)
                requires
                    acc > max / 10,
            ;
            proof {
                lemma_too_large(d, i - start + 1, max as nat);
            }
            return None;
        }
        assert(acc * 10 <= max) by (nonlinear_arith)
            requires
                acc <= max / 10,
        ;
        let tens: u64 = acc * 10;
        if digit > max - tens {
            proof {
                lemma_too_large(d, i - start + 1, max as nat);
            }
            return None;
        }
        acc = tens + digit;
        i += 1;
    }
    assert(d.take(i - start) =~= d);
    Some(acc)
}

/// Why a policy given as text was refused.
#[derive(Debug, Clone, Copy, PartialEq, Eq, Structural)]
pub enum PolicyError {
    /// The interval is not an unsigned decimal that fits in 64 bits.
    BadInterval,
    /// The interval is zero, which would make every bucket empty.
    ZeroInterval,
    /// The count is not an unsigned decimal that fits in 32 bits.
    BadCount,
}

/// Build a policy from its interval (seconds) and count, as text.
pub fn parse_policy(interval: &str, count: &str) -> (r: Result<PeriodicRetentionPolicy, PolicyError>)
    ensures
        match decimal_at_most(interval@, u64::MAX as nat) {
            None => r matches Err(PolicyError::BadInterval),
            Some(i) => if i == 0 {
                r matches Err(PolicyError::ZeroInterval)
            } else {
                match decimal_at_most(count@, u32::MAX as nat) {
                    None => r matches Err(PolicyError::BadCount),
                    Some(c) => r matches Ok(p) && p.interval == i && p.count == c,
                }
            },
        },
{
    let interval = match parse_decimal(interval, u64::MAX) {
        Some(v) => v,
        None => return Err(PolicyError::BadInterval),
    };
    if interval == 0 {
        return Err(PolicyError::ZeroInterval);
    }
    match parse_decimal(count, u32::MAX as u64) {
        Some(c) => Ok(PeriodicRetentionPolicy { interval, count: c as u32 }),
        None => Err(PolicyError::BadCount),
    }
}

/// Seconds from 1970-01-01 00:00:00 to the date and time that `line` spells
/// in the strftime-style `format`, if it spells one; no time zone applies.
pub uninterp spec fn parsed_seconds(line: Seq<char>, format: Seq<char>) -> Option<i64>;

/// Relies on chrono's `NaiveDateTime::parse_from_str`, read through
/// `and_utc().timestamp()`: the seconds since the epoch of the parsed local
/// date and time, or nothing when the text does not match the format. The
/// outcome depends on the two strings alone.
#[verifier::external_body]
fn parse_seconds(line: &str, format: &str) -> (r: Option<i64>)
    ensures
        r == parsed_seconds(line@, format@),
{
    match chrono::NaiveDateTime::parse_from_str(line, format) {
        Ok(d) => Some(d.and_utc().timestamp()),
        Err(_) => None,
    }
}

/// The timestamp that a parsed date gives: its seconds, when it is not
/// before the epoch.
pub open spec fn stamp_of(seconds: Option<i64>) -> Option<u64> {
    match seconds {
        Some(t) => if t >= 0 {
            Some(t as u64)
        } else {
            None
        },
        None => None,
    }
}

/// The timestamp that a line stands for in `format`.
pub open spec fn line_timestamp(line: Seq<char>, format: Seq<char>) -> Option<u64> {
    stamp_of(parsed_seconds(line, format))
}

/// The entries that `lines` give, in order: each line that stands for a
/// timestamp is filed under it, a later line replacing an earlier one.
pub open spec fn entries_from(lines: Seq<Seq<char>>, format: Seq<char>) -> Map<u64, Seq<char>>
    decreases lines.len(),
{
    if lines.len() == 0 {
        Map::empty()
    } else {
        let before = entries_from(lines.drop_last(), format);
        match line_timestamp(lines.last(), format) {
            Some(t) => before.insert(t, lines.last()),
            None => before,
        }
    }
}

/// The lines that stand for no timestamp, in order.
pub open spec fn unparsed_from(lines: Seq<Seq<char>>, format: Seq<char>) -> Seq<Seq<char>>
    decreases lines.len(),
{
    if lines.len() == 0 {
        Seq::empty()
    } else {
        let before = unparsed_from(lines.drop_last(), format);
        match line_timestamp(lines.last(), format) {
            Some(t) => before,
            None => before.push(lines.last()),
        }
    }
}

/// Snapshot names read from a listing, keyed by their timestamps, and the
/// names that could not be read as dates.
pub struct Collected {
    pub entries: BTreeMap<u64, String>,
    pub unparsed: Vec<String>,
}

pub open spec fn text_of(s: String) -> Seq<char> {
    s@
}

/// File one line whose date was read as `seconds` (if at all): under its
/// timestamp, replacing an earlier line of the same instant, or with the
/// unreadable lines when there is no timestamp.
pub fn file_line(c: &mut Collected, line: String, seconds: Option<i64>)
    ensures
        match stamp_of(seconds) {
            Some(t) => {
                &&& final(c).entries@ == old(c).entries@.insert(t, line)
                &&& final(c).unparsed@ == old(c).unparsed@
            },
            None => {
                &&& final(c).entries@ == old(c).entries@
                &&& final(c).unparsed@ == old(c).unparsed@.push(line)
            },
        },
{
    match seconds {
        Some(t) => {
            if t >= 0 {
                c.entries.insert(t as u64, line);
            } else {
                c.unparsed.push(line);
            }
        },
        None => {
            c.unparsed.push(line);
        },
    }
}

/// File each line under the timestamp it spells in `format`; set aside the
/// lines that spell none (or a date before the epoch).
pub fn collect_entries(lines: &Vec<String>, format: &str) -> (r: Collected)
    ensures
        r.entries@.map_values(|s: String| text_of(s)) == entries_from(
            lines@.map_values(|s: String| text_of(s)),
            format@,
        ),
        r.unparsed@.map_values(|s: String| text_of(s)) == unparsed_from(
            lines@.map_values(|s: String| text_of(s)),
            format@,
        ),
{
    let ghost texts = lines@.map_values(|s: String| text_of(s));
    let mut c = Collected { entries: BTreeMap::new(), unparsed: Vec::new() };
    let mut i: usize = 0;
    assert(c.entries@.map_values(|s: String| text_of(s)) =~= Map::<u64, Seq<char>>::empty());
    assert(c.unparsed@.map_values(|s: String| text_of(s)) =~= Seq::<Seq<char>>::empty());
    while i < lines.len()
        invariant
            0 <= i <= lines.len(),
            texts == lines@.map_values(|s: String| text_of(s)),
            c.entries@.map_values(|s: String| text_of(s)) == entries_from(
                texts.take(i as int),
                format@,
            ),
            c.unparsed@.map_values(|s: String| text_of(s)) == unparsed_from(
                texts.take(i as int),
                format@,
            ),
        decreases lines.len() - i,
    {
        let line = &lines[i];
        assert(texts.take(i + 1).drop_last() =~= texts.take(i as int));
        assert(texts.take(i + 1).last() == line@);
        let ghost before = c;
        let seconds = parse_seconds(line.as_str(), format);
        file_line(&mut c, line.clone(), seconds);
        proof {
            match stamp_of(seconds) {
                Some(t) => {
                    assert(c.entries@.map_values(|s: String| text_of(s))
                        =~= before.entries@.map_values(|s: String| text_of(s)).insert(t, line@));
                },
                None => {
                    assert(c.unparsed@.map_values(|s: String| text_of(s))
                        =~= before.unparsed@.map_values(|s: String| text_of(s)).push(line@));
                },
            }
        }
        i += 1;
    }
    assert(texts.take(lines.len() as int) =~= texts);
    c
}

} // verus!
