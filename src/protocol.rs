use vstd::prelude::*;
use vstd::string::*;

use crate::reading::{Reading, decimal_value, is_digit, mantissa, parse_decimal, lemma_prefix_bounds};
use crate::text::chars_of;

verus! {

/// Why a data line was rejected.
#[derive(Clone, Copy, Debug, PartialEq, Eq, Structural)]
pub enum ProtocolParseError {
    /// Field 0 is not an unsigned integer that fits in a `u64`.
    BadTimestamp,
    /// The reading field of this channel is neither empty nor a number.
    BadReading { channel: usize },
}

/// One decoded data line: the device timestamp and one optional reading per channel.
#[derive(Debug)]
pub struct Record {
    pub timestamp: u64,
    pub readings: Vec<Option<Reading>>,
}

/// What one line of the wire protocol decodes to.
#[derive(Debug)]
pub enum ParsedLine {
    /// A status or info line; the payload is the text after the prefix character.
    Control(String),
    Data(Record),
}

pub open spec fn is_control_char(c: char) -> bool {
    c == '#' || c == '?' || c == '/' || c == '-'
}

pub open spec fn is_control_line(s: Seq<char>) -> bool {
    s.len() > 0 && is_control_char(s[0])
}

/// The comma-separated fields of `s`, in order; a line without commas is one field.
pub open spec fn fields(s: Seq<char>) -> Seq<Seq<char>>
    decreases s.len(),
{
    if s.len() == 0 {
        seq![Seq::<char>::empty()]
    } else {
        let f = fields(s.drop_last());
        if s.last() == ',' {
            f.push(Seq::<char>::empty())
        } else {
            f.update(f.len() - 1, f.last().push(s.last()))
        }
    }
}

/// `s` with every trailing unit suffix `C` removed.
pub open spec fn strip_unit(s: Seq<char>) -> Seq<char>
    decreases s.len(),
{
    if s.len() > 0 && s.last() == 'C' {
        strip_unit(s.drop_last())
    } else {
        s
    }
}

pub open spec fn without_plus(s: Seq<char>) -> Seq<char> {
    if s.len() > 0 && s[0] == '+' {
        s.drop_first()
    } else {
        s
    }
}

pub open spec fn all_digits(s: Seq<char>) -> bool {
    forall|i: int| 0 <= i < s.len() ==> is_digit(#[trigger] s[i])
}

/// The timestamp that field `s` writes: an optional `+`, then one or more digits that
/// read as at most `u64::MAX`.
pub open spec fn timestamp_value(s: Seq<char>) -> Option<u64> {
    let b = without_plus(s);
    if b.len() > 0 && all_digits(b) && mantissa(b) <= u64::MAX {
        Some(mantissa(b) as u64)
    } else {
        None
    }
}

/// The reading field of channel `i`: field `i + 1`, or empty where the line is shorter.
pub open spec fn channel_field(fs: Seq<Seq<char>>, i: int) -> Seq<char> {
    if i + 1 < fs.len() {
        fs[i + 1]
    } else {
        Seq::<char>::empty()
    }
}

/// A reading field is well formed when it is empty or a number with its unit stripped.
pub open spec fn field_ok(f: Seq<char>) -> bool {
    f.len() == 0 || decimal_value(strip_unit(f)) is Some
}

/// The reading a well-formed field holds: none for an empty field.
pub open spec fn field_reading(f: Seq<char>) -> Option<Reading> {
    if f.len() == 0 {
        None
    } else {
        decimal_value(strip_unit(f))
    }
}

/// The lowest channel from `i` on, below `n`, whose field is malformed; `n` if none is.
pub open spec fn first_bad_channel(fs: Seq<Seq<char>>, n: nat, i: nat) -> nat
    decreases n - i,
{
    if i >= n {
        n
    } else if !field_ok(channel_field(fs, i as int)) {
        i
    } else {
        first_bad_channel(fs, n, i + 1)
    }
}

/// What a data line with `n` channels decodes to: its timestamp and the reading of each
/// channel, or the first field, in order, that is malformed. Fields past channel `n`
/// are ignored.
pub open spec fn data_line(s: Seq<char>, n: nat) -> Result<
    (u64, Seq<Option<Reading>>),
    ProtocolParseError,
> {
    let fs = fields(s);
    match timestamp_value(fs[0]) {
        None => Err(ProtocolParseError::BadTimestamp),
        Some(t) => {
            let k = first_bad_channel(fs, n, 0);
            if k < n {
                Err(ProtocolParseError::BadReading { channel: k as usize })
            } else {
                Ok((t, Seq::new(n, |i: int| field_reading(channel_field(fs, i)))))
            }
        },
    }
}

/// What `parse_line` returns for the line `s`, as a specification.
pub open spec fn parse_result_matches(
    s: Seq<char>,
    n: nat,
    r: Result<ParsedLine, ProtocolParseError>,
) -> bool {
    if is_control_line(s) {
        &&& r is Ok
        &&& r->Ok_0 is Control
        &&& r->Ok_0->Control_0@ == s.drop_first()
    } else {
        match r {
            Ok(ParsedLine::Data(d)) => data_line(s, n) == Ok::<
                (u64, Seq<Option<Reading>>),
                ProtocolParseError,
            >((d.timestamp, d.readings@)),
            Ok(ParsedLine::Control(_)) => false,
            Err(e) => data_line(s, n) == Err::<(u64, Seq<Option<Reading>>), ProtocolParseError>(e),
        }
    }
}

pub proof fn lemma_fields_nonempty(s: Seq<char>)
    ensures
        fields(s).len() >= 1,
    decreases s.len(),
{
    if s.len() > 0 {
        lemma_fields_nonempty(s.drop_last());
    }
}

/// The span `(start, end)` of each comma-separated field of `cs`, in order.
pub fn split_fields(cs: &Vec<char>) -> (r: Vec<(usize, usize)>)
    ensures
        r.len() == fields(cs@).len(),
        forall|k: int|
            0 <= k < r.len() ==> #[trigger] r[k].0 <= r[k].1 <= cs.len() && cs@.subrange(
                r[k].0 as int,
                r[k].1 as int,
            ) == fields(cs@)[k],
{
    let mut spans: Vec<(usize, usize)> = Vec::new();
    let mut start: usize = 0;
    let mut i: usize = 0;
    assert(cs@.subrange(0, 0) =~= Seq::<char>::empty());
    while i < cs.len()
        invariant
            start <= i <= cs.len(),
            spans.len() + 1 == fields(cs@.subrange(0, i as int)).len(),
            forall|k: int|
                0 <= k < spans.len() ==> #[trigger] spans[k].0 <= spans[k].1 <= i && cs@.subrange(
                    spans[k].0 as int,
                    spans[k].1 as int,
                ) == fields(cs@.subrange(0, i as int))[k],
            cs@.subrange(start as int, i as int) == fields(cs@.subrange(0, i as int))[spans.len() as int],
        decreases cs.len() - i,
    {
        let c = cs[i];
        let ghost p = cs@.subrange(0, i as int);
        let ghost grown = cs@.subrange(0, i + 1);
        assert(grown.drop_last() =~= p);
        if c == ',' {
            spans.push((start, i));
            start = i + 1;
            assert(cs@.subrange(start as int, i + 1) =~= Seq::<char>::empty());
        } else {
            assert(cs@.subrange(start as int, i + 1) =~= cs@.subrange(start as int, i as int).push(c));
        }
        i = i + 1;
    }
    spans.push((start, i));
    assert(cs@.subrange(0, i as int) =~= cs@);
    spans
}

/// The end of `cs[lo..hi]` once every trailing unit suffix is removed.
pub fn strip_unit_end(cs: &Vec<char>, lo: usize, hi: usize) -> (e: usize)
    requires
        lo <= hi <= cs.len(),
    ensures
        lo <= e <= hi,
        cs@.subrange(lo as int, e as int) == strip_unit(cs@.subrange(lo as int, hi as int)),
{
    let mut e: usize = hi;
    while e > lo && cs[e - 1] == 'C'
        invariant
            lo <= e <= hi <= cs.len(),
            strip_unit(cs@.subrange(lo as int, e as int)) == strip_unit(
                cs@.subrange(lo as int, hi as int),
            ),
        decreases e,
    {
        assert(cs@.subrange(lo as int, e as int).drop_last() =~= cs@.subrange(lo as int, e - 1));
        e = e - 1;
    }
    e
}

/// Reads the timestamp that `cs[lo..hi]` writes.
pub fn parse_timestamp(cs: &Vec<char>, lo: usize, hi: usize) -> (r: Option<u64>)
    requires
        lo <= hi <= cs.len(),
    ensures
        r == timestamp_value(cs@.subrange(lo as int, hi as int)),
{
    let ghost t = cs@.subrange(lo as int, hi as int);
    let mut b: usize = lo;
    if lo < hi && cs[lo] == '+' {
        b = lo + 1;
    }
    let ghost body = cs@.subrange(b as int, hi as int);
    assert(body =~= without_plus(t));
    if b == hi {
        return None;
    }
    let mut i: usize = b;
    let mut mag: u64 = 0;
    while i < hi
        invariant
            b <= i <= hi <= cs.len(),
            t == cs@.subrange(lo as int, hi as int),
            body == cs@.subrange(b as int, hi as int),
            body == without_plus(t),
            body.len() > 0,
            forall|k: int| b <= k < i ==> is_digit(#[trigger] cs@[k]),
            mag == mantissa(cs@.subrange(b as int, i as int)),
        decreases hi - i,
    {
        let c = cs[i];
        let ghost p = cs@.subrange(b as int, i as int);
        let ghost grown = cs@.subrange(b as int, i + 1);
        assert(grown.drop_last() =~= p);
        assert(grown =~= body.subrange(0, i + 1 - b));
        if '0' <= c && c <= '9' {
            let d = (c as u32 - '0' as u32) as u64;
            if mag > (18446744073709551615u64 - d) / 10 {
                proof {
                    assert(mag * 10 + d > u64::MAX) by (nonlinear_arith)
                        requires
                            mag > (18446744073709551615u64 - d) / 10,
                            d <= 9,
                    ;
                    assert(mantissa(grown) == mag * 10 + d);
                    lemma_prefix_bounds(body, i + 1 - b);
                }
                return None;
            }
            assert(mag * 10 + d <= u64::MAX) by (nonlinear_arith)
                requires
                    mag <= (18446744073709551615u64 - d) / 10,
                    d <= 9,
            ;
            mag = mag * 10 + d;
        } else {
            assert(body[i - b] == c);
            assert(!is_digit(body[i - b]));
            assert(!all_digits(body));
            return None;
        }
        i = i + 1;
    }
    assert(cs@.subrange(b as int, i as int) =~= body);
    Some(mag)
}

/// Decodes one line of the wire protocol for a device with `n` channels.
///
/// A line that starts with `#`, `?`, `/` or `-` is a control line. Any other line is a
/// data line: a timestamp, then one reading field per channel, each empty or a number
/// with an optional trailing unit `C`. Channels the line gives no field for read as
/// empty; fields past the last channel are ignored.
pub fn parse_line(line: &str, n: usize) -> (r: Result<ParsedLine, ProtocolParseError>)
    ensures
        parse_result_matches(line@, n as nat, r),
{
    let cs = chars_of(line);
    if cs.len() > 0 && (cs[0] == '#' || cs[0] == '?' || cs[0] == '/' || cs[0] == '-') {
        let payload = line.substring_char(1, cs.len());
        return Ok(ParsedLine::Control(String::from_str(payload)));
    }
    let ghost fs = fields(cs@);
    proof {
        lemma_fields_nonempty(cs@);
    }
    let spans = split_fields(&cs);
    let (a, b) = spans[0];
    assert(fs[0] == cs@.subrange(a as int, b as int));
    let timestamp = match parse_timestamp(&cs, a, b) {
        None => {
            return Err(ProtocolParseError::BadTimestamp);
        },
        Some(t) => t,
    };
    let mut readings: Vec<Option<Reading>> = Vec::new();
    let mut i: usize = 0;
    while i < n
        invariant
            i <= n,
            fs == fields(cs@),
            fs.len() >= 1,
            cs@ == line@,
            !is_control_line(line@),
            spans.len() == fs.len(),
            forall|k: int|
                0 <= k < spans.len() ==> #[trigger] spans[k].0 <= spans[k].1 <= cs.len()
                    && cs@.subrange(spans[k].0 as int, spans[k].1 as int) == fs[k],
            timestamp_value(fs[0]) == Some(timestamp),
            readings.len() == i,
            forall|j: int| 0 <= j < i ==> readings[j] == field_reading(channel_field(fs, j)),
            first_bad_channel(fs, n as nat, 0) == first_bad_channel(fs, n as nat, i as nat),
        decreases n - i,
    {
        if i + 1 < spans.len() {
            let (a, b) = spans[i + 1];
            assert(channel_field(fs, i as int) == cs@.subrange(a as int, b as int));
            if a == b {
                readings.push(None);
            } else {
                let e = strip_unit_end(&cs, a, b);
                match parse_decimal(&cs, a, e) {
                    None => {
                        assert(channel_field(fs, i as int).len() > 0);
                        assert(!field_ok(channel_field(fs, i as int)));
                        assert(first_bad_channel(fs, n as nat, i as nat) == i);
                        return Err(ProtocolParseError::BadReading { channel: i });
                    },
                    Some(v) => {
                        readings.push(Some(v));
                    },
                }
            }
        } else {
            readings.push(None);
        }
        i = i + 1;
    }
    assert(readings@ =~= Seq::new(n as nat, |j: int| field_reading(channel_field(fs, j))));
    Ok(ParsedLine::Data(Record { timestamp, readings }))
}

} // verus!
