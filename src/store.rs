use vstd::prelude::*;

use crate::reading::Reading;

verus! {

/// One point of a channel's series: the device timestamp and the reading, if any.
#[derive(Clone, Copy, Debug, PartialEq, Eq, Structural)]
pub struct Sample {
    pub timestamp: u64,
    pub reading: Option<Reading>,
}

/// One ingested data line as the store keeps it: the device timestamp, the local
/// date and time it was received at, and one optional reading per channel.
#[derive(Debug)]
pub struct Row {
    pub timestamp: u64,
    pub datetime: String,
    pub readings: Vec<Option<Reading>>,
}

impl View for Row {
    type V = (u64, Seq<char>, Seq<Option<Reading>>);

    open spec fn view(&self) -> (u64, Seq<char>, Seq<Option<Reading>>) {
        (self.timestamp, self.datetime@, self.readings@)
    }
}

/// The view of each row, in order.
pub open spec fn row_views(rows: Seq<Row>) -> Seq<(u64, Seq<char>, Seq<Option<Reading>>)> {
    rows.map_values(|x: Row| x@)
}

pub fn copy_readings(v: &Vec<Option<Reading>>) -> (r: Vec<Option<Reading>>)
    ensures
        r@ == v@,
{
    let mut out: Vec<Option<Reading>> = Vec::new();
    let mut i: usize = 0;
    while i < v.len()
        invariant
            i <= v.len(),
            out@ == v@.subrange(0, i as int),
        decreases v.len() - i,
    {
        out.push(v[i]);
        i = i + 1;
    }
    assert(out@ =~= v@);
    out
}

impl Row {
    pub fn copy(&self) -> (r: Row)
        ensures
            r@ == self@,
    {
        Row {
            timestamp: self.timestamp,
            datetime: self.datetime.clone(),
            readings: copy_readings(&self.readings),
        }
    }
}

/// The series of a fixed number of channels, grown one ingested line at a time.
///
/// Each stored row holds one reading per channel, so every channel always has as many
/// samples as the receipt log has entries. Rows are only ever appended.
pub struct ChannelStore {
    n: usize,
    rows: Vec<Row>,
}

impl ChannelStore {
    /// The number of channels.
    pub closed spec fn count(&self) -> nat {
        self.n as nat
    }

    /// The rows in the order they were appended.
    pub closed spec fn rows(&self) -> Seq<(u64, Seq<char>, Seq<Option<Reading>>)> {
        row_views(self.rows@)
    }

    pub closed spec fn wf(&self) -> bool {
        forall|k: int| 0 <= k < self.rows@.len() ==> (#[trigger] self.rows@[k]).readings@.len() == self.n
    }

    /// The series of channel `i`: one sample per row, in order.
    pub open spec fn channel(&self, i: int) -> Seq<Sample> {
        Seq::new(
            self.rows().len(),
            |k: int| Sample { timestamp: self.rows()[k].0, reading: self.rows()[k].2[i] },
        )
    }

    /// The receipt log: the device timestamp and local receipt time of each row.
    pub open spec fn receipts(&self) -> Seq<(u64, Seq<char>)> {
        Seq::new(self.rows().len(), |k: int| (self.rows()[k].0, self.rows()[k].1))
    }

    /// In a well-formed store every row holds one reading per channel.
    pub proof fn lemma_rows_hold_count(&self)
        requires
            self.wf(),
        ensures
            forall|k: int| 0 <= k < self.rows().len() ==> (#[trigger] self.rows()[k]).2.len() == self.count(),
    {
    }

    /// An empty store of `n` channels.
    pub fn new(n: usize) -> (s: ChannelStore)
        ensures
            s.wf(),
            s.count() == n,
            s.rows() == Seq::<(u64, Seq<char>, Seq<Option<Reading>>)>::empty(),
    {
        let s = ChannelStore { n, rows: Vec::new() };
        assert(s.rows() =~= Seq::<(u64, Seq<char>, Seq<Option<Reading>>)>::empty());
        s
    }

    pub fn channel_count(&self) -> (r: usize)
        ensures
            r == self.count(),
    {
        self.n
    }

    /// The number of rows, which is the length of the receipt log and of every channel.
    pub fn len(&self) -> (r: usize)
        ensures
            r == self.rows().len(),
    {
        self.rows.len()
    }

    /// Adds one sample to every channel and one entry to the receipt log.
    pub fn append(&mut self, timestamp: u64, readings: Vec<Option<Reading>>, datetime: String)
        requires
            old(self).wf(),
            readings.len() == old(self).count(),
        ensures
            final(self).wf(),
            final(self).count() == old(self).count(),
            final(self).rows() == old(self).rows().push((timestamp, datetime@, readings@)),
    {
        let row = Row { timestamp, datetime, readings };
        let ghost r = row@;
        self.rows.push(row);
        assert(self.rows() =~= old(self).rows().push(r));
    }

    /// The last sample of each channel; none for a channel that has no sample yet.
    pub fn latest(&self) -> (r: Vec<Option<Sample>>)
        requires
            self.wf(),
        ensures
            r.len() == self.count(),
            forall|i: int|
                0 <= i < self.count() ==> #[trigger] r[i] == if self.rows().len() == 0 {
                    None
                } else {
                    Some(self.channel(i).last())
                },
    {
        let mut out: Vec<Option<Sample>> = Vec::new();
        let len = self.rows.len();
        let mut i: usize = 0;
        while i < self.n
            invariant
                self.wf(),
                len == self.rows().len(),
                i <= self.n,
                out.len() == i,
                forall|j: int|
                    0 <= j < i ==> #[trigger] out[j] == if self.rows().len() == 0 {
                        None
                    } else {
                        Some(self.channel(j).last())
                    },
            decreases self.n - i,
        {
            if len == 0 {
                out.push(None);
            } else {
                let row = &self.rows[len - 1];
                assert(self.rows@[len - 1].readings@.len() == self.n);
                out.push(Some(Sample { timestamp: row.timestamp, reading: row.readings[i] }));
            }
            i = i + 1;
        }
        out
    }

    /// A copy of every row, in order: a snapshot of the whole store at one instant.
    pub fn export_view(&self) -> (r: Vec<Row>)
        ensures
            row_views(r@) == self.rows(),
    {
        let mut out: Vec<Row> = Vec::new();
        let mut k: usize = 0;
        while k < self.rows.len()
            invariant
                k <= self.rows.len(),
                out.len() == k,
                forall|j: int| 0 <= j < k ==> (#[trigger] out@[j])@ == self.rows@[j]@,
            decreases self.rows.len() - k,
        {
            let row = self.rows[k].copy();
            out.push(row);
            k = k + 1;
        }
        assert(row_views(out@) =~= self.rows());
        out
    }

    /// A copy of the series of channel `i`.
    pub fn channel_samples(&self, i: usize) -> (r: Vec<Sample>)
        requires
            self.wf(),
            i < self.count(),
        ensures
            r@ == self.channel(i as int),
    {
        let mut out: Vec<Sample> = Vec::new();
        let mut k: usize = 0;
        while k < self.rows.len()
            invariant
                self.wf(),
                i < self.n,
                k <= self.rows.len(),
                out@ == self.channel(i as int).subrange(0, k as int),
            decreases self.rows.len() - k,
        {
            let row = &self.rows[k];
            assert(self.rows@[k as int].readings@.len() == self.n);
            out.push(Sample { timestamp: row.timestamp, reading: row.readings[i] });
            assert(out@ =~= self.channel(i as int).subrange(0, k + 1));
            k = k + 1;
        }
        assert(out@ =~= self.channel(i as int));
        out
    }
}

/// Every channel has as many samples as the receipt log has entries.
pub proof fn lemma_lock_step(s: &ChannelStore)
    ensures
        forall|i: int| 0 <= i < s.count() ==> (#[trigger] s.channel(i)).len() == s.receipts().len(),
{
}

/// Appending a row grows every channel and the receipt log by exactly one, keeps what
/// was there, and puts the new row's sample last in each channel.
pub proof fn lemma_append_grows_by_one(
    before: &ChannelStore,
    after: &ChannelStore,
    row: (u64, Seq<char>, Seq<Option<Reading>>),
)
    requires
        after.rows() == before.rows().push(row),
    ensures
        after.receipts().len() == before.receipts().len() + 1,
        forall|i: int| #![trigger after.channel(i)]
            0 <= i < after.count() ==> after.channel(i).len() == before.channel(i).len() + 1
                && after.channel(i).subrange(0, before.channel(i).len() as int) == before.channel(i)
                && after.channel(i).last() == (Sample { timestamp: row.0, reading: row.2[i] }),
{
    assert forall|i: int| #![trigger after.channel(i)] 0 <= i < after.count() implies after.channel(i).subrange(0, before.channel(i).len() as int) == before.channel(i) by {
        assert(after.channel(i).subrange(0, before.channel(i).len() as int) =~= before.channel(i));
    }
}

/// A colour as red, green, blue and alpha.
#[derive(Clone, Copy, Debug, PartialEq, Eq, Structural)]
pub struct Rgba {
    pub r: u8,
    pub g: u8,
    pub b: u8,
    pub a: u8,
}

/// How a channel is drawn: whether it is shown, and its colour. These are kept apart
/// from the series, and only the display changes them.
#[derive(Clone, Copy, Debug, PartialEq, Eq, Structural)]
pub struct ChannelDisplay {
    pub enabled: bool,
    pub colour: Rgba,
}

impl ChannelDisplay {
    /// A shown channel of the given colour.
    pub fn new(colour: Rgba) -> (d: ChannelDisplay)
        ensures
            d.enabled,
            d.colour == colour,
    {
        ChannelDisplay { enabled: true, colour }
    }
}

} // verus!
