use vstd::prelude::*;

use crate::clock::{RECEIPT_TIME_FORMAT, chrono_text, local_now_formatted};
use crate::protocol::{
    ParsedLine, ProtocolParseError, data_line, is_control_line, parse_line, parse_result_matches,
};
use crate::reading::Reading;
use crate::{BAUD_RATE, READ_TIMEOUT_MS};
use crate::store::ChannelStore;
use crate::text::{decode_lossy, utf8_lossy};

verus! {

/// The byte that ends a line on the wire.
pub const LINE_END: u8 = 13;

/// `s` cut at each carriage return; the last piece is what follows the last one.
pub open spec fn cr_pieces(s: Seq<u8>) -> Seq<Seq<u8>>
    decreases s.len(),
{
    if s.len() == 0 {
        seq![Seq::<u8>::empty()]
    } else {
        let f = cr_pieces(s.drop_last());
        if s.last() == LINE_END {
            f.push(Seq::<u8>::empty())
        } else {
            f.update(f.len() - 1, f.last().push(s.last()))
        }
    }
}

pub proof fn lemma_cr_pieces_nonempty(s: Seq<u8>)
    ensures
        cr_pieces(s).len() >= 1,
    decreases s.len(),
{
    if s.len() > 0 {
        lemma_cr_pieces_nonempty(s.drop_last());
    }
}

pub proof fn lemma_cr_pieces_no_end(s: Seq<u8>)
    requires
        forall|i: int| 0 <= i < s.len() ==> s[i] != LINE_END,
    ensures
        cr_pieces(s) == seq![s],
    decreases s.len(),
{
    if s.len() > 0 {
        lemma_cr_pieces_no_end(s.drop_last());
        assert(s.drop_last().push(s.last()) =~= s);
    } else {
        assert(s =~= Seq::<u8>::empty());
    }
}

/// The last piece of `s` holds no line end.
pub proof fn lemma_last_piece_no_end(s: Seq<u8>)
    ensures
        cr_pieces(s).len() >= 1,
        forall|i: int| 0 <= i < cr_pieces(s).last().len() ==> cr_pieces(s).last()[i] != LINE_END,
    decreases s.len(),
{
    lemma_cr_pieces_nonempty(s);
    if s.len() > 0 {
        lemma_last_piece_no_end(s.drop_last());
    }
}

/// Cutting `s + t` is cutting `s`, then cutting what was left of `s` followed by `t`.
pub proof fn lemma_cr_pieces_concat(s: Seq<u8>, t: Seq<u8>)
    ensures
        cr_pieces(s + t) == cr_pieces(s).drop_last() + cr_pieces(cr_pieces(s).last() + t),
    decreases t.len(),
{
    lemma_last_piece_no_end(s);
    let d = cr_pieces(s).drop_last();
    let l = cr_pieces(s).last();
    if t.len() == 0 {
        assert(s + t =~= s);
        assert(l + t =~= l);
        lemma_cr_pieces_no_end(l);
        assert(cr_pieces(s) =~= d + seq![l]);
    } else {
        let u = t.drop_last();
        let c = t.last();
        lemma_cr_pieces_concat(s, u);
        lemma_cr_pieces_nonempty(l + u);
        assert((s + t).drop_last() =~= s + u);
        assert((s + t).last() == c);
        assert((l + t).drop_last() =~= l + u);
        assert((l + t).last() == c);
        let x = cr_pieces(l + u);
        if c == LINE_END {
            assert((d + x).push(Seq::<u8>::empty()) =~= d + x.push(Seq::<u8>::empty()));
        } else {
            assert((d + x).update((d + x).len() - 1, (d + x).last().push(c)) =~= d + x.update(
                x.len() - 1,
                x.last().push(c),
            ));
        }
    }
}

/// Reassembles lines from the chunks a serial read hands over.
pub struct LineAssembler {
    pending: Vec<u8>,
}

impl LineAssembler {
    /// The bytes received since the last line end.
    pub closed spec fn pending(&self) -> Seq<u8> {
        self.pending@
    }

    pub open spec fn wf(&self) -> bool {
        forall|i: int| 0 <= i < self.pending().len() ==> self.pending()[i] != LINE_END
    }

    pub fn new() -> (a: LineAssembler)
        ensures
            a.wf(),
            a.pending() == Seq::<u8>::empty(),
    {
        LineAssembler { pending: Vec::new() }
    }

    /// Takes in one chunk and hands out, in order, each line it completes, without its
    /// line end. What follows the last line end waits for the next chunk.
    pub fn push_bytes(&mut self, data: &[u8]) -> (lines: Vec<Vec<u8>>)
        requires
            old(self).wf(),
        ensures
            final(self).wf(),
            lines.len() + 1 == cr_pieces(old(self).pending() + data@).len(),
            forall|k: int|
                0 <= k < lines.len() ==> (#[trigger] lines@[k])@ == cr_pieces(
                    old(self).pending() + data@,
                )[k],
            final(self).pending() == cr_pieces(old(self).pending() + data@).last(),
    {
        let ghost start = self.pending@;
        assert(start == old(self).pending());
        assert(forall|k: int| 0 <= k < start.len() ==> start[k] != LINE_END);
        proof {
            lemma_cr_pieces_no_end(start);
        }
        let mut lines: Vec<Vec<u8>> = Vec::new();
        let mut i: usize = 0;
        assert(start + data@.subrange(0, 0) =~= start);
        while i < data.len()
            invariant
                i <= data.len(),
                forall|k: int| 0 <= k < self.pending@.len() ==> self.pending@[k] != LINE_END,
                lines.len() + 1 == cr_pieces(start + data@.subrange(0, i as int)).len(),
                forall|k: int|
                    0 <= k < lines.len() ==> (#[trigger] lines@[k])@ == cr_pieces(
                        start + data@.subrange(0, i as int),
                    )[k],
                cr_pieces(start + data@.subrange(0, i as int)).last() == self.pending@,
            decreases data.len() - i,
        {
            let b = data[i];
            let ghost s = start + data@.subrange(0, i as int);
            let ghost grown = start + data@.subrange(0, i + 1);
            assert(grown.drop_last() =~= s);
            assert(grown.last() == b);
            if b == LINE_END {
                let mut line: Vec<u8> = Vec::new();
                core::mem::swap(&mut line, &mut self.pending);
                lines.push(line);
                assert(self.pending@ =~= Seq::<u8>::empty());
            } else {
                self.pending.push(b);
            }
            i = i + 1;
        }
        assert(start + data@.subrange(0, i as int) =~= start + data@);
        lines
    }
}

/// What became of one line taken off the wire.
#[derive(Debug)]
pub enum LineOutcome {
    /// A data line: one sample was added to every channel.
    Appended,
    /// A control line, with its payload; the store is unchanged.
    Control(String),
    /// A malformed data line, dropped; the store is unchanged.
    Rejected(ProtocolParseError),
}

/// What `line` adds to a store of `n` channels: its timestamp and readings, where it is
/// a well-formed data line.
pub open spec fn line_data(line: Seq<char>, n: nat) -> Option<(u64, Seq<Option<Reading>>)> {
    if !is_control_line(line) && data_line(line, n) is Ok {
        Some(data_line(line, n)->Ok_0)
    } else {
        None
    }
}

/// The outcome `r` is the one the protocol gives `line` for `n` channels.
pub open spec fn outcome_matches(line: Seq<char>, n: nat, r: LineOutcome) -> bool {
    match r {
        LineOutcome::Appended => line_data(line, n) is Some,
        LineOutcome::Control(p) => is_control_line(line) && p@ == line.drop_first(),
        LineOutcome::Rejected(e) => !is_control_line(line) && data_line(line, n) == Err::<
            (u64, Seq<Option<Reading>>),
            ProtocolParseError,
        >(e),
    }
}

/// Decodes `line` and applies it to `store`: a data line adds one sample to every
/// channel and one entry, stamped with the local time now, to the receipt log; a
/// control line or a malformed data line leaves the store as it was.
pub fn ingest_line(store: &mut ChannelStore, line: &str) -> (r: LineOutcome)
    requires
        old(store).wf(),
    ensures
        final(store).wf(),
        final(store).count() == old(store).count(),
        outcome_matches(line@, old(store).count(), r),
        match line_data(line@, old(store).count()) {
            Some(d) => {
                &&& final(store).rows().len() == old(store).rows().len() + 1
                &&& final(store).rows().drop_last() == old(store).rows()
                &&& final(store).rows().last().0 == d.0
                &&& final(store).rows().last().2 == d.1
                &&& exists|t: (int, int, int, int, int, int, int)|
                    final(store).rows().last().1 == chrono_text(t, RECEIPT_TIME_FORMAT@)
                &&& forall|i: int|
                    0 <= i < final(store).count() ==> (#[trigger] final(store).channel(i)).len()
                        == old(store).channel(i).len() + 1
                &&& final(store).receipts().len() == old(store).receipts().len() + 1
            },
            None => *final(store) == *old(store),
        },
{
    let n = store.channel_count();
    let parsed = parse_line(line, n);
    assert(parse_result_matches(line@, n as nat, parsed));
    match parsed {
        Ok(ParsedLine::Control(payload)) => LineOutcome::Control(payload),
        Ok(ParsedLine::Data(record)) => {
            let datetime = local_now_formatted(RECEIPT_TIME_FORMAT);
            store.append(record.timestamp, record.readings, datetime);
            assert(final(store).rows().drop_last() =~= old(store).rows());
            LineOutcome::Appended
        },
        Err(e) => LineOutcome::Rejected(e),
    }
}

/// The data of the well-formed data lines among `lines`, in order.
pub open spec fn appended_data(lines: Seq<Seq<char>>, n: nat) -> Seq<(u64, Seq<Option<Reading>>)>
    decreases lines.len(),
{
    if lines.len() == 0 {
        Seq::empty()
    } else {
        let before = appended_data(lines.drop_last(), n);
        match line_data(lines.last(), n) {
            Some(d) => before.push(d),
            None => before,
        }
    }
}

/// The text of each line that the bytes `s` complete.
pub open spec fn complete_lines(s: Seq<u8>) -> Seq<Seq<char>> {
    let p = cr_pieces(s);
    Seq::new((p.len() - 1) as nat, |k: int| utf8_lossy(p[k]))
}

/// The data lines of two runs of lines, in order, are those of the first, then those of
/// the second.
pub proof fn lemma_appended_data_concat(a: Seq<Seq<char>>, b: Seq<Seq<char>>, n: nat)
    ensures
        appended_data(a + b, n) == appended_data(a, n) + appended_data(b, n),
    decreases b.len(),
{
    if b.len() == 0 {
        assert(a + b =~= a);
        assert(appended_data(a, n) + appended_data(b, n) =~= appended_data(a, n));
    } else {
        lemma_appended_data_concat(a, b.drop_last(), n);
        assert((a + b).drop_last() =~= a + b.drop_last());
        assert((a + b).last() == b.last());
        match line_data(b.last(), n) {
            Some(x) => {
                assert((appended_data(a, n) + appended_data(b.drop_last(), n)).push(x)
                    =~= appended_data(a, n) + appended_data(b.drop_last(), n).push(x));
            },
            None => {},
        }
    }
}

/// Reading a stream in two chunks completes the same lines, in the same order, as
/// reading it in one, and so adds the same data lines to the store: the lines of the
/// first read, then those the second completes with what the first left pending.
pub proof fn lemma_reads_compose(pending: Seq<u8>, first: Seq<u8>, second: Seq<u8>, n: nat)
    ensures
        complete_lines(pending + first) + complete_lines(cr_pieces(pending + first).last() + second)
            == complete_lines(pending + first + second),
        appended_data(complete_lines(pending + first + second), n) == appended_data(
            complete_lines(pending + first),
            n,
        ) + appended_data(complete_lines(cr_pieces(pending + first).last() + second), n),
{
    let s = pending + first;
    let l = cr_pieces(s).last();
    lemma_cr_pieces_concat(s, second);
    lemma_cr_pieces_nonempty(s);
    lemma_cr_pieces_nonempty(l + second);
    let a = complete_lines(s);
    let b = complete_lines(l + second);
    assert(a + b =~= complete_lines(s + second));
    lemma_appended_data_concat(a, b, n);
}

/// Where the ingestion loop stands.
#[derive(Clone, Copy, Debug, PartialEq, Eq, Structural)]
pub enum IngestPhase {
    /// No port has been chosen yet.
    AwaitingPortSelection,
    /// A port was chosen and is being opened.
    Connected,
    /// The port is open and lines are being read.
    Streaming,
    /// The port could not be opened; this loop is over.
    Stopped,
}

/// What the loop around the device saw since its last action.
#[derive(Debug)]
pub enum IngestEvent {
    /// The port identifier currently published; empty while none is chosen.
    SelectionSeen(String),
    PortOpened,
    PortOpenFailed,
    /// A read returned bytes, already handed to `Ingestor::on_bytes`.
    DataRead,
    /// A read timed out: expected, and retried.
    ReadTimedOut,
    /// A read failed otherwise.
    ReadFailed,
}

/// What the loop around the device is to do next.
#[derive(Debug)]
pub enum IngestAction {
    /// Wait until a port identifier is published, then report it.
    WaitForSelection,
    /// Open the named port at this baud rate, with this read timeout.
    OpenPort { name: String, baud_rate: u32, timeout_ms: u64 },
    Read,
    /// Report the failed read, then read again.
    ReportErrorThenRead,
    /// Give up: the ingestion thread ends, nothing else does.
    Stop,
}

/// The phase after `e` in phase `p`. Events that do not belong to a phase leave it.
pub open spec fn next_phase(p: IngestPhase, e: IngestEvent) -> IngestPhase {
    match p {
        IngestPhase::AwaitingPortSelection => match e {
            IngestEvent::SelectionSeen(name) => if name@.len() > 0 {
                IngestPhase::Connected
            } else {
                p
            },
            _ => p,
        },
        IngestPhase::Connected => match e {
            IngestEvent::PortOpened => IngestPhase::Streaming,
            IngestEvent::PortOpenFailed => IngestPhase::Stopped,
            _ => p,
        },
        _ => p,
    }
}

/// `a` is what the loop is to do in phase `p`, after event `e`, with `port` chosen.
pub open spec fn action_matches(p: IngestPhase, e: IngestEvent, port: Seq<char>, a: IngestAction) -> bool {
    match p {
        IngestPhase::AwaitingPortSelection => a is WaitForSelection,
        IngestPhase::Connected => match a {
            IngestAction::OpenPort { name, baud_rate, timeout_ms } => name@ == port && baud_rate
                == BAUD_RATE && timeout_ms == READ_TIMEOUT_MS,
            _ => false,
        },
        IngestPhase::Streaming => if e is ReadFailed {
            a is ReportErrorThenRead
        } else {
            a is Read
        },
        IngestPhase::Stopped => a is Stop,
    }
}

/// The decisions of the ingestion loop: the handshake that waits for a port, and the
/// reassembly of lines from what the port delivers.
pub struct Ingestor {
    phase: IngestPhase,
    port: String,
    assembler: LineAssembler,
}

impl Ingestor {
    pub closed spec fn phase(&self) -> IngestPhase {
        self.phase
    }

    /// The port chosen; empty until one is.
    pub closed spec fn port(&self) -> Seq<char> {
        self.port@
    }

    pub closed spec fn pending(&self) -> Seq<u8> {
        self.assembler.pending()
    }

    pub closed spec fn wf(&self) -> bool {
        self.assembler.wf()
    }

    /// In a well-formed ingestor no line end waits among the pending bytes, so a read
    /// of no bytes completes no line.
    pub proof fn lemma_pending_holds_no_line_end(&self)
        requires
            self.wf(),
        ensures
            forall|i: int| 0 <= i < self.pending().len() ==> self.pending()[i] != LINE_END,
            complete_lines(self.pending()).len() == 0,
    {
        lemma_cr_pieces_no_end(self.pending());
    }

    pub fn new() -> (r: Ingestor)
        ensures
            r.wf(),
            r.phase() == IngestPhase::AwaitingPortSelection,
            r.port() == Seq::<char>::empty(),
            r.pending() == Seq::<u8>::empty(),
    {
        Ingestor { phase: IngestPhase::AwaitingPortSelection, port: String::new(), assembler: LineAssembler::new() }
    }

    pub fn current_phase(&self) -> (p: IngestPhase)
        ensures
            p == self.phase(),
    {
        self.phase
    }

    /// Moves to the next phase on `event` and says what to do next.
    pub fn handle(&mut self, event: IngestEvent) -> (a: IngestAction)
        ensures
            final(self).wf() == old(self).wf(),
            final(self).pending() == old(self).pending(),
            final(self).phase() == next_phase(old(self).phase(), event),
            final(self).port() == (match event {
                IngestEvent::SelectionSeen(name) => if old(self).phase() is AwaitingPortSelection
                    && name@.len() > 0 {
                    name@
                } else {
                    old(self).port()
                },
                _ => old(self).port(),
            }),
            action_matches(final(self).phase(), event, final(self).port(), a),
    {
        let failed = matches!(event, IngestEvent::ReadFailed);
        match self.phase {
            IngestPhase::AwaitingPortSelection => {
                match event {
                    IngestEvent::SelectionSeen(name) => {
                        if !name.as_str().is_empty() {
                            self.port = name;
                            self.phase = IngestPhase::Connected;
                        }
                    },
                    _ => {},
                }
            },
            IngestPhase::Connected => {
                match event {
                    IngestEvent::PortOpened => {
                        self.phase = IngestPhase::Streaming;
                    },
                    IngestEvent::PortOpenFailed => {
                        self.phase = IngestPhase::Stopped;
                    },
                    _ => {},
                }
            },
            _ => {},
        }
        match self.phase {
            IngestPhase::AwaitingPortSelection => IngestAction::WaitForSelection,
            IngestPhase::Connected => IngestAction::OpenPort {
                name: self.port.clone(),
                baud_rate: BAUD_RATE,
                timeout_ms: READ_TIMEOUT_MS,
            },
            IngestPhase::Streaming => {
                if failed {
                    IngestAction::ReportErrorThenRead
                } else {
                    IngestAction::Read
                }
            },
            IngestPhase::Stopped => IngestAction::Stop,
        }
    }

    /// Takes in the bytes of one read: each line they complete is decoded and applied
    /// to `store` in order, and what became of each is handed back.
    pub fn on_bytes(&mut self, store: &mut ChannelStore, data: &[u8]) -> (r: Vec<LineOutcome>)
        requires
            old(self).wf(),
            old(store).wf(),
        ensures
            final(self).wf(),
            final(self).phase() == old(self).phase(),
            final(self).port() == old(self).port(),
            final(self).pending() == cr_pieces(old(self).pending() + data@).last(),
            final(store).wf(),
            final(store).count() == old(store).count(),
            r.len() == complete_lines(old(self).pending() + data@).len(),
            forall|k: int|
                0 <= k < r.len() ==> outcome_matches(
                    complete_lines(old(self).pending() + data@)[k],
                    old(store).count(),
                    #[trigger] r@[k],
                ),
            final(store).rows().len() == old(store).rows().len() + appended_data(
                complete_lines(old(self).pending() + data@),
                old(store).count(),
            ).len(),
            final(store).rows().subrange(0, old(store).rows().len() as int) == old(store).rows(),
            forall|j: int|
                0 <= j < appended_data(
                    complete_lines(old(self).pending() + data@),
                    old(store).count(),
                ).len() ==> {
                    let d = #[trigger] appended_data(
                        complete_lines(old(self).pending() + data@),
                        old(store).count(),
                    )[j];
                    &&& final(store).rows()[old(store).rows().len() + j].0 == d.0
                    &&& final(store).rows()[old(store).rows().len() + j].2 == d.1
                },
    {
        let ghost ls = complete_lines(old(self).pending() + data@);
        let ghost n = old(store).count();
        let ghost base = old(store).rows();
        proof {
            lemma_cr_pieces_nonempty(old(self).pending() + data@);
        }
        let lines = self.assembler.push_bytes(data);
        let mut out: Vec<LineOutcome> = Vec::new();
        let mut k: usize = 0;
        assert(ls.subrange(0, 0) =~= Seq::<Seq<char>>::empty());
        while k < lines.len()
            invariant
                k <= lines.len(),
                ls.len() == lines.len(),
                forall|j: int| 0 <= j < lines.len() ==> ls[j] == utf8_lossy((#[trigger] lines@[j])@),
                store.wf(),
                store.count() == n,
                out.len() == k,
                forall|j: int| 0 <= j < k ==> outcome_matches(ls[j], n, #[trigger] out@[j]),
                store.rows().len() == base.len() + appended_data(ls.subrange(0, k as int), n).len(),
                store.rows().subrange(0, base.len() as int) == base,
                forall|j: int|
                    0 <= j < appended_data(ls.subrange(0, k as int), n).len() ==> {
                        let d = #[trigger] appended_data(ls.subrange(0, k as int), n)[j];
                        &&& store.rows()[base.len() + j].0 == d.0
                        &&& store.rows()[base.len() + j].2 == d.1
                    },
            decreases lines.len() - k,
        {
            let text = decode_lossy(&lines[k]);
            let ghost prev_rows = store.rows();
            let outcome = ingest_line(store, text.as_str());
            out.push(outcome);
            let ghost pre = ls.subrange(0, k + 1);
            assert(pre.drop_last() =~= ls.subrange(0, k as int));
            assert(pre.last() == ls[k as int]);
            assert(store.rows().subrange(0, base.len() as int) =~= base) by {
                if line_data(ls[k as int], n) is Some {
                    assert(store.rows().subrange(0, base.len() as int) =~= prev_rows.subrange(0, base.len() as int));
                }
            }
            k = k + 1;
        }
        assert(ls.subrange(0, k as int) =~= ls);
        out
    }
}

} // verus!
