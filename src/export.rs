use vstd::prelude::*;
use vstd::string::*;

use crate::protocol::timestamp_value;
use crate::reading::{
    Reading, decimal_value, whole_text, reading_text, push_whole, reading_chars, parse_decimal,
    lemma_whole_text, lemma_reading_text_round_trip,
};
use crate::protocol::parse_timestamp;
use crate::store::{ChannelStore, Row, row_views};
use crate::clock::{FILE_TIME_FORMAT, chrono_text, local_now_formatted};
use crate::text::{chars_of, string_from_chars};

verus! {

/// The header of the timestamp column.
pub const TIMESTAMP_HEADER: &'static str = "Time since start (ms)";

/// The header of the receipt date and time column.
pub const DATETIME_HEADER: &'static str = "datetime of data";

/// What each channel column's header starts with; the channel's number follows.
pub const SENSOR_HEADER_PREFIX: &'static str = "Sensor ";

/// The header row for `n` channels: timestamp, receipt time, then `Sensor 1` to `Sensor n`.
pub open spec fn header_text(n: nat) -> Seq<Seq<char>> {
    seq![TIMESTAMP_HEADER@, DATETIME_HEADER@] + Seq::new(
        n,
        |i: int| SENSOR_HEADER_PREFIX@ + whole_text((i + 1) as nat),
    )
}

/// A reading's cell: its decimal text, or empty where there is no reading.
pub open spec fn cell_text(r: Option<Reading>) -> Seq<char> {
    match r {
        Some(v) => reading_text(v),
        None => Seq::<char>::empty(),
    }
}

/// The row of a stored line: timestamp, receipt time, then one cell per channel.
pub open spec fn record_text(row: (u64, Seq<char>, Seq<Option<Reading>>)) -> Seq<Seq<char>> {
    seq![whole_text(row.0 as nat), row.1] + Seq::new(row.2.len(), |i: int| cell_text(row.2[i]))
}

/// The whole exported table: the header, then one record per stored row, in order.
pub open spec fn table_text(n: nat, rows: Seq<(u64, Seq<char>, Seq<Option<Reading>>)>) -> Seq<
    Seq<Seq<char>>,
> {
    seq![header_text(n)] + Seq::new(rows.len(), |k: int| record_text(rows[k]))
}

/// The cell of channel `i` in a record: field `i + 2`, or empty past the record's end.
pub open spec fn record_cell(fs: Seq<Seq<char>>, i: int) -> Seq<char> {
    if i + 2 < fs.len() {
        fs[i + 2]
    } else {
        Seq::<char>::empty()
    }
}

pub open spec fn cell_ok(c: Seq<char>) -> bool {
    c.len() == 0 || decimal_value(c) is Some
}

pub open spec fn cell_reading(c: Seq<char>) -> Option<Reading> {
    if c.len() == 0 {
        None
    } else {
        decimal_value(c)
    }
}

/// What an exported record reads back as for `n` channels: its timestamp and readings,
/// where the timestamp and every channel's cell are well formed.
pub open spec fn record_value(fs: Seq<Seq<char>>, n: nat) -> Option<(u64, Seq<Option<Reading>>)> {
    if fs.len() >= 1 && timestamp_value(fs[0]) is Some && forall|i: int|
        0 <= i < n ==> #[trigger] cell_ok(record_cell(fs, i)) {
        Some((timestamp_value(fs[0])->Some_0, Seq::new(n, |i: int| cell_reading(record_cell(fs, i)))))
    } else {
        None
    }
}

/// The timestamp as decimal text.
pub fn timestamp_string(t: u64) -> (s: String)
    ensures
        s@ == whole_text(t as nat),
{
    let mut cs: Vec<char> = Vec::new();
    push_whole(t, &mut cs);
    assert(cs@ =~= whole_text(t as nat));
    string_from_chars(&cs)
}

/// A reading's cell text: its decimal text, or empty.
pub fn cell_string(r: Option<Reading>) -> (s: String)
    ensures
        s@ == cell_text(r),
{
    match r {
        Some(v) => {
            let cs = reading_chars(v);
            string_from_chars(&cs)
        },
        None => String::new(),
    }
}

/// The header row for `n` channels.
pub fn export_header(n: usize) -> (r: Vec<String>)
    ensures
        r.deep_view() == header_text(n as nat),
{
    let mut out: Vec<String> = Vec::new();
    out.push(String::from_str(TIMESTAMP_HEADER));
    out.push(String::from_str(DATETIME_HEADER));
    let mut i: usize = 0;
    while i < n
        invariant
            i <= n,
            out.len() == i + 2,
            forall|k: int| 0 <= k < out.len() ==> (#[trigger] out@[k])@ == header_text(n as nat)[k],
        decreases n - i,
    {
        let mut digits: Vec<char> = Vec::new();
        push_whole(i as u64 + 1, &mut digits);
        assert(digits@ =~= whole_text((i + 1) as nat));
        let number = string_from_chars(&digits);
        let mut name = String::from_str(SENSOR_HEADER_PREFIX);
        name.append(number.as_str());
        out.push(name);
        i = i + 1;
    }
    assert(out.deep_view() =~= header_text(n as nat));
    out
}

/// The record of one stored row.
pub fn export_record(row: &Row) -> (r: Vec<String>)
    ensures
        r.deep_view() == record_text(row@),
{
    let mut out: Vec<String> = Vec::new();
    out.push(timestamp_string(row.timestamp));
    out.push(row.datetime.clone());
    let mut i: usize = 0;
    while i < row.readings.len()
        invariant
            i <= row.readings.len(),
            out.len() == i + 2,
            forall|k: int| 0 <= k < out.len() ==> (#[trigger] out@[k])@ == record_text(row@)[k],
        decreases row.readings.len() - i,
    {
        out.push(cell_string(row.readings[i]));
        i = i + 1;
    }
    assert(out.deep_view() =~= record_text(row@));
    out
}

/// The table a snapshot of `n` channels is exported as: the header, then one record
/// per row, in order.
pub fn export_table(n: usize, rows: &Vec<Row>) -> (r: Vec<Vec<String>>)
    ensures
        r.deep_view() == table_text(n as nat, row_views(rows@)),
{
    let mut out: Vec<Vec<String>> = Vec::new();
    out.push(export_header(n));
    let mut k: usize = 0;
    while k < rows.len()
        invariant
            k <= rows.len(),
            out.len() == k + 1,
            forall|j: int|
                0 <= j < out.len() ==> (#[trigger] out@[j]).deep_view() == table_text(
                    n as nat,
                    row_views(rows@),
                )[j],
        decreases rows.len() - k,
    {
        out.push(export_record(&rows[k]));
        k = k + 1;
    }
    assert(out.deep_view() =~= table_text(n as nat, row_views(rows@)));
    out
}

/// Reads an exported record back for `n` channels.
pub fn parse_record(fields: &Vec<String>, n: usize) -> (r: Option<(u64, Vec<Option<Reading>>)>)
    ensures
        match r {
            Some(v) => record_value(fields.deep_view(), n as nat) == Some((v.0, v.1@)),
            None => record_value(fields.deep_view(), n as nat) is None,
        },
{
    let ghost fs = fields.deep_view();
    if fields.len() == 0 {
        return None;
    }
    let first = chars_of(fields[0].as_str());
    let timestamp = match parse_timestamp(&first, 0, first.len()) {
        None => {
            assert(first@.subrange(0, first@.len() as int) =~= fs[0]);
            return None;
        },
        Some(t) => t,
    };
    assert(first@.subrange(0, first@.len() as int) =~= fs[0]);
    let mut readings: Vec<Option<Reading>> = Vec::new();
    let mut i: usize = 0;
    while i < n
        invariant
            i <= n,
            fs == fields.deep_view(),
            fs.len() >= 1,
            timestamp_value(fs[0]) == Some(timestamp),
            readings.len() == i,
            forall|j: int| 0 <= j < i ==> cell_ok(record_cell(fs, j)),
            forall|j: int| 0 <= j < i ==> readings@[j] == cell_reading(record_cell(fs, j)),
        decreases n - i,
    {
        if i < fields.len() && fields.len() - i > 2 {
            let cs = chars_of(fields[i + 2].as_str());
            assert(cs@ == record_cell(fs, i as int));
            if cs.len() == 0 {
                readings.push(None);
            } else {
                assert(cs@.subrange(0, cs@.len() as int) =~= cs@);
                match parse_decimal(&cs, 0, cs.len()) {
                    None => {
                        assert(!cell_ok(record_cell(fs, i as int)));
                        return None;
                    },
                    Some(v) => readings.push(Some(v)),
                }
            }
        } else {
            readings.push(None);
        }
        i = i + 1;
    }
    assert(readings@ =~= Seq::new(n as nat, |j: int| cell_reading(record_cell(fs, j))));
    Some((timestamp, readings))
}

/// Exporting and reading back: each exported record of a row with `n` readings reads
/// back as that row's timestamp and readings, an empty cell as no reading.
pub proof fn lemma_export_round_trip(n: nat, rows: Seq<(u64, Seq<char>, Seq<Option<Reading>>)>)
    requires
        forall|k: int| 0 <= k < rows.len() ==> (#[trigger] rows[k]).2.len() == n,
    ensures
        table_text(n, rows).len() == rows.len() + 1,
        table_text(n, rows)[0] == header_text(n),
        forall|k: int|
            0 <= k < rows.len() ==> record_value(#[trigger] table_text(n, rows)[k + 1], n) == Some(
                (rows[k].0, rows[k].2),
            ),
{
    assert forall|k: int| 0 <= k < rows.len() implies record_value(
        #[trigger] table_text(n, rows)[k + 1],
        n,
    ) == Some((rows[k].0, rows[k].2)) by {
        let row = rows[k];
        let fs = record_text(row);
        assert(table_text(n, rows)[k + 1] == fs);
        lemma_timestamp_text_round_trip(row.0);
        assert forall|i: int| 0 <= i < n implies cell_ok(#[trigger] record_cell(fs, i))
            && cell_reading(record_cell(fs, i)) == row.2[i] by {
            assert(record_cell(fs, i) == cell_text(row.2[i]));
            match row.2[i] {
                Some(v) => {
                    assert(rows[k].2[i] is Some);
                    lemma_reading_text_round_trip(v);
                    lemma_reading_text_nonempty(v);
                },
                None => {},
            }
        }
        assert(Seq::new(n, |i: int| cell_reading(record_cell(fs, i))) =~= row.2);
    }
}

/// Every record of a well-formed store's export reads back as its row's timestamp and
/// readings.
pub proof fn lemma_store_export_round_trip(s: &ChannelStore)
    requires
        s.wf(),
    ensures
        table_text(s.count(), s.rows()).len() == s.rows().len() + 1,
        forall|k: int|
            0 <= k < s.rows().len() ==> record_value(
                #[trigger] table_text(s.count(), s.rows())[k + 1],
                s.count(),
            ) == Some((s.rows()[k].0, s.rows()[k].2)),
{
    s.lemma_rows_hold_count();
    lemma_export_round_trip(s.count(), s.rows());
}

/// A timestamp written out reads back as the same timestamp.
pub proof fn lemma_timestamp_text_round_trip(t: u64)
    ensures
        timestamp_value(whole_text(t as nat)) == Some(t),
{
    lemma_whole_text(t as nat);
    let w = whole_text(t as nat);
    assert(w[0] != '+');
}

proof fn lemma_reading_text_nonempty(r: Reading)
    ensures
        reading_text(r).len() >= 1,
{
    crate::reading::lemma_number_text(crate::reading::magnitude(r.units), r.scale as nat);
}

/// What an export file's name starts with; the export time and `.csv` follow.
pub const FILE_NAME_PREFIX: &'static str = "data ";

pub const FILE_NAME_SUFFIX: &'static str = ".csv";

/// The name of the file an export made at the time written `stamp` goes to.
pub fn export_file_name(stamp: &str) -> (r: String)
    ensures
        r@ == FILE_NAME_PREFIX@ + stamp@ + FILE_NAME_SUFFIX@,
{
    String::from_str(FILE_NAME_PREFIX).concat(stamp).concat(FILE_NAME_SUFFIX)
}

/// The name of the file an export made now goes to: the local time is written year
/// first, so the names of successive exports sort in the order they were made.
pub fn current_export_file_name() -> (r: String)
    ensures
        exists|t: (int, int, int, int, int, int, int)|
            r@ == FILE_NAME_PREFIX@ + chrono_text(t, FILE_TIME_FORMAT@) + FILE_NAME_SUFFIX@,
{
    let stamp = local_now_formatted(FILE_TIME_FORMAT);
    export_file_name(stamp.as_str())
}

/// Keeps exports of one store from overlapping: an export starts only when none is
/// running, and a trigger that comes while one runs is skipped.
pub struct ExportGuard {
    running: bool,
}

impl ExportGuard {
    pub closed spec fn is_running(&self) -> bool {
        self.running
    }

    pub fn new() -> (g: ExportGuard)
        ensures
            !g.is_running(),
    {
        ExportGuard { running: false }
    }

    /// Claims the guard for one export; false, with nothing changed, while one runs.
    pub fn try_begin(&mut self) -> (started: bool)
        ensures
            started == !old(self).is_running(),
            final(self).is_running(),
    {
        if self.running {
            false
        } else {
            self.running = true;
            true
        }
    }

    /// Releases the guard once an export has ended, whether or not it succeeded.
    pub fn finish(&mut self)
        ensures
            !final(self).is_running(),
    {
        self.running = false;
    }
}

} // verus!
