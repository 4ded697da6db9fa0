use vstd::prelude::*;
use crate::columns::{
    Columns, canonical_columns, canonical_header, header_spec, lemma_canonical_header, lemma_row_fields_read_back, parse_header,
    row_fields, row_spec,
};
use crate::csv::{
    Pending, Read, comma_joined, eof, eof_read, field_read_back, fields_lines, fresh_pending, lemma_record_reads_back,
    lemma_word_reads_back, line_after, next_record, scan_byte, scan_until, writable_field, written_field, written_record,
};
use crate::errors::{Fault, FatalError, RowError, fault_text};
use crate::ledger::{
    Ledger, LedgerView, amounts_nonnegative, apply_spec, lemma_apply_keeps_totals_fit, totals_fit, empty_ledger, holds_disputed, lemma_apply_keeps_held_disputed,
    lemma_apply_keeps_amounts_nonnegative, lemma_apply_keeps_wf, lemma_held_nonnegative, ledger_wf, row_amount_nonnegative,
};
use crate::record::Record;
use crate::render::{render, render_text};
use crate::scan::{Scan, fresh_scan};
use crate::config::MAX_RECORD_BYTES;
use crate::text::{ascii, decimal, push_ascii, push_decimal, word_text};
use crate::row::Row;

verus! {

/// Everything the processing of a stream keeps between bytes.
pub struct Engine {
    pub ledger: Ledger,
    /// The columns the header named, once it has been read.
    pub columns: Option<Columns>,
    pub scan: Scan,
    pub record: Record,
}

/// The engine as values.
pub struct EngineView {
    pub ledger: LedgerView,
    pub columns: Option<Columns>,
    pub scan: Scan,
    pub pending: Pending,
}

impl View for Engine {
    type V = EngineView;

    open spec fn view(&self) -> EngineView {
        EngineView { ledger: self.ledger@, columns: self.columns, scan: self.scan, pending: self.record.pending() }
    }
}

/// The engine before any input: no accounts, no header yet, at line 1.
pub open spec fn initial_engine() -> EngineView {
    EngineView { ledger: empty_ledger(), columns: None, scan: fresh_scan(1), pending: fresh_pending(1) }
}

/// The report line of a rejected record: `line N: ...` for a record on one
/// line, `line N-M: ...` for one that spans lines N to M.
pub open spec fn span_text(first_line: u64, last_line: u64, e: Fault) -> Seq<u8> {
    ascii("line "@) + decimal(first_line as nat) + (if first_line == last_line {
        Seq::<u8>::empty()
    } else {
        seq![45u8] + decimal(last_line as nat)
    }) + ascii(": "@) + fault_text(e) + seq![10u8]
}

pub open spec fn ascii_space(b: u8) -> bool {
    b == 32 || b == 9 || b == 10 || b == 12 || b == 13
}

/// A record of one field that holds nothing but ASCII whitespace.
pub open spec fn is_blank(fields: Seq<Seq<u8>>) -> bool {
    &&& fields.len() == 1
    &&& forall|i: int| 0 <= i < fields[0].len() ==> ascii_space(#[trigger] fields[0][i])
}

/// How a bad header stops the run.
pub open spec fn header_failure(e: RowError) -> FatalError {
    match e {
        RowError::Malformed => FatalError::Header,
        other => FatalError::Corrupt(other),
    }
}

/// What a complete record does: blank records are skipped; the first other
/// record must be the header; each later one is read through the header's
/// columns and applied to the ledger, and a rejection is reported.
pub open spec fn handle_spec(
    l: LedgerView,
    columns: Option<Columns>,
    fields: Seq<Seq<u8>>,
    first_line: u64,
    last_line: u64,
) -> (LedgerView, Option<Columns>, Seq<u8>, Option<FatalError>) {
    if is_blank(fields) {
        (l, columns, Seq::empty(), None)
    } else {
        match columns {
            None => match header_spec(fields) {
                Ok(cols) => (l, Some(cols), Seq::empty(), None),
                Err(e) => (l, None, Seq::empty(), Some(header_failure(e))),
            },
            Some(cols) => match row_spec(cols, fields) {
                Err(e) => (l, columns, span_text(first_line, last_line, e), None),
                Ok(row) => {
                    let (l2, r) = apply_spec(l, row);
                    match r {
                        Ok(()) => (l2, columns, Seq::empty(), None),
                        Err(e) => (l2, columns, span_text(first_line, last_line, e@), None),
                    }
                },
            },
        }
    }
}

/// The engine after the scanner has handed on `read`, with the record `p`.
pub open spec fn after_read(e: EngineView, read: Read, p: Pending) -> (EngineView, Seq<u8>, Option<FatalError>) {
    match read {
        Read::Row { first_line, last_line } => {
            let (l, c, text, fatal) = handle_spec(e.ledger, e.columns, p.fields, first_line, last_line);
            let next = line_after(last_line);
            (EngineView { ledger: l, columns: c, scan: fresh_scan(next), pending: fresh_pending(next) }, text, fatal)
        },
        Read::Malformed { first_line, last_line, error } => {
            let next = line_after(last_line);
            (
                EngineView { scan: fresh_scan(next), pending: fresh_pending(next), ..e },
                span_text(first_line, last_line, error@),
                None,
            )
        },
        Read::Done => (e, Seq::empty(), None),
    }
}

/// One byte of input.
pub open spec fn engine_byte(e: EngineView, b: u8) -> (EngineView, Seq<u8>, Option<FatalError>) {
    let (s, p, r) = scan_byte(e.scan, e.pending, b);
    let e1 = EngineView { scan: s, pending: p, ..e };
    match r {
        None => (e1, Seq::empty(), None),
        Some(read) => after_read(e1, read, p),
    }
}

/// The engine after `bytes`, the report text they caused, and the fatal
/// error that stopped it, if any (the bytes after it are not read).
pub open spec fn feed_spec(e: EngineView, bytes: Seq<u8>) -> (EngineView, Seq<u8>, Option<FatalError>)
    decreases bytes.len(),
{
    if bytes.len() == 0 {
        (e, Seq::empty(), None)
    } else {
        let (e1, t1, f1) = engine_byte(e, bytes[0]);
        if f1 is Some {
            (e1, t1, f1)
        } else {
            let (e2, t2, f2) = feed_spec(e1, bytes.drop_first());
            (e2, t1 + t2, f2)
        }
    }
}

/// The end of input: the report text it causes, and the output, or the
/// fatal error.
pub open spec fn finish_spec(e: EngineView) -> (Seq<u8>, Result<Seq<u8>, FatalError>) {
    match eof_read(e.scan, e.pending) {
        Err(f) => (Seq::empty(), Err(f)),
        Ok((p, read)) => {
            let (e1, text, fatal) = after_read(EngineView { pending: p, ..e }, read, p);
            match fatal {
                Some(f) => (text, Err(f)),
                None => (text, Ok(render_text(e1.ledger))),
            }
        },
    }
}

/// A whole run over `input`: the report text, and the output or the fatal error.
pub open spec fn run_spec(input: Seq<u8>) -> (Seq<u8>, Result<Seq<u8>, FatalError>) {
    let (e, text, fatal) = feed_spec(initial_engine(), input);
    match fatal {
        Some(f) => (text, Err(f)),
        None => {
            let (text2, out) = finish_spec(e);
            (text + text2, out)
        },
    }
}

/// A step's outcome with `t` reported before it.
pub open spec fn prefixed(t: Seq<u8>, r: (EngineView, Seq<u8>, Option<FatalError>)) -> (EngineView, Seq<u8>, Option<FatalError>) {
    (r.0, t + r.1, r.2)
}

proof fn lemma_scan_until_feeds(e: EngineView, bytes: Seq<u8>)
    ensures
        ({
            let (s, p, r, n) = scan_until(e.scan, e.pending, bytes);
            let e1 = EngineView { scan: s, pending: p, ..e };
            &&& n <= bytes.len()
            &&& r is None ==> n == bytes.len() && feed_spec(e, bytes) == (e1, Seq::<u8>::empty(), None::<FatalError>)
            &&& r is Some ==> n >= 1 && feed_spec(e, bytes) == ({
                let (e2, t2, f2) = after_read(e1, r->0, p);
                if f2 is Some {
                    (e2, t2, f2)
                } else {
                    let (e3, t3, f3) = feed_spec(e2, bytes.skip(n as int));
                    (e3, t2 + t3, f3)
                }
            })
        }),
    decreases bytes.len(),
{
    if bytes.len() > 0 {
        let (s1, p1, r) = scan_byte(e.scan, e.pending, bytes[0]);
        let e1 = EngineView { scan: s1, pending: p1, ..e };
        if r is Some {
            assert(bytes.skip(1) == bytes.drop_first());
            let (e2, t2, f2) = after_read(e1, r->0, p1);
            if f2 is None {
                assert(t2 + Seq::<u8>::empty() == t2);
            }
        } else {
            lemma_scan_until_feeds(e1, bytes.drop_first());
            let (s, p, r2, n) = scan_until(s1, p1, bytes.drop_first());
            assert(bytes.drop_first().skip(n as int) == bytes.skip(n + 1 as int));
            assert(Seq::<u8>::empty() + Seq::<u8>::empty() == Seq::<u8>::empty());
            if r2 is Some {
                let (e2, t2, f2) = after_read(EngineView { scan: s, pending: p, ..e1 }, r2->0, p);
                if f2 is Some {
                    assert(Seq::<u8>::empty() + t2 == t2);
                } else {
                    let (e3, t3, f3) = feed_spec(e2, bytes.skip(n + 1 as int));
                    assert(Seq::<u8>::empty() + (t2 + t3) == t2 + t3);
                }
            }
        }
    }
}

/// Feeding two pieces of input one after the other is feeding them
/// together: where the input is split into reads does not matter.
pub proof fn lemma_feed_split(e: EngineView, a: Seq<u8>, b: Seq<u8>)
    ensures
        feed_spec(e, a + b) == ({
            let (e1, t1, f1) = feed_spec(e, a);
            if f1 is Some {
                (e1, t1, f1)
            } else {
                let (e2, t2, f2) = feed_spec(e1, b);
                (e2, t1 + t2, f2)
            }
        }),
    decreases a.len(),
{
    if a.len() == 0 {
        assert(a + b == b);
        let (e2, t2, f2) = feed_spec(e, b);
        assert(Seq::<u8>::empty() + t2 == t2);
    } else {
        assert((a + b)[0] == a[0]);
        assert((a + b).drop_first() == a.drop_first() + b);
        let (e1, t1, f1) = engine_byte(e, a[0]);
        if f1 is None {
            lemma_feed_split(e1, a.drop_first(), b);
            let (e2, t2, f2) = feed_spec(e1, a.drop_first());
            if f2 is None {
                let (e3, t3, f3) = feed_spec(e2, b);
                assert(t1 + (t2 + t3) == (t1 + t2) + t3);
            }
        }
    }
}

fn ascii_space_byte(b: u8) -> (r: bool)
    ensures
        r == ascii_space(b),
{
    b == 32 || b == 9 || b == 10 || b == 12 || b == 13
}

/// Whether the record is one field of nothing but ASCII whitespace.
fn field_blank(record: &Record) -> (r: bool)
    requires
        record.wf(),
    ensures
        r == is_blank(record.fields()),
{
    if record.width != 1 {
        return false;
    }
    let bytes = match record.field(0) {
        Ok(b) => b,
        Err(_) => return false,
    };
    let mut i: usize = 0;
    while i < bytes.len()
        invariant
            i <= bytes.len(),
            record.wf(),
            record.width == 1,
            bytes@ == record.fields()[0],
            forall|j: int| 0 <= j < i ==> ascii_space(#[trigger] bytes@[j]),
        decreases bytes.len() - i,
    {
        if !ascii_space_byte(bytes[i]) {
            return false;
        }
        i = i + 1;
    }
    true
}

fn bad_header(bad: RowError) -> (r: FatalError)
    ensures
        r == header_failure(bad),
{
    match bad {
        RowError::Malformed => FatalError::Header,
        other => FatalError::Corrupt(other),
    }
}

/// Appends the report line of a rejected record.
fn report_span(report: &mut Vec<u8>, first_line: u64, last_line: u64, e: &RowError)
    ensures
        final(report)@ == old(report)@ + span_text(first_line, last_line, e@),
{
    let ghost start = report@;
    proof {
        reveal_strlit("line ");
        reveal_strlit(": ");
    }
    push_ascii(report, "line ");
    push_decimal(report, first_line);
    if first_line != last_line {
        report.push(45u8);
        push_decimal(report, last_line);
    }
    push_ascii(report, ": ");
    e.write_message(report);
    report.push(10u8);
    assert(report@ =~= start + span_text(first_line, last_line, e@));
}

impl Engine {
    pub open spec fn ok(&self) -> bool {
        self.record.wf()
    }

    /// An engine before any input.
    pub fn new() -> (e: Engine)
        ensures
            e.ok(),
            e@ == initial_engine(),
    {
        Engine { ledger: Ledger::new(), columns: None, scan: Scan::new(1), record: Record::new(1) }
    }

    /// Reads the data rows of one record through the header's columns and
    /// applies them, reporting a rejection.
    fn apply_row(&mut self, cols: Columns, first_line: u64, last_line: u64, report: &mut Vec<u8>)
        requires
            old(self).ok(),
        ensures
            final(self).ok(),
            final(self).record == old(self).record,
            final(self).scan == old(self).scan,
            final(self).columns == old(self).columns,
            ({
                let (l, r) = match row_spec(cols, old(self).record.fields()) {
                    Err(e) => (old(self)@.ledger, span_text(first_line, last_line, e)),
                    Ok(row) => {
                        let (l2, res) = apply_spec(old(self)@.ledger, row);
                        match res {
                            Ok(()) => (l2, Seq::<u8>::empty()),
                            Err(e) => (l2, span_text(first_line, last_line, e@)),
                        }
                    },
                };
                final(self)@.ledger == l && final(report)@ == old(report)@ + r
            }),
    {
        let row = match cols.parse_row(&self.record) {
            Ok(row) => row,
            Err(e) => {
                report_span(report, first_line, last_line, &e);
                return;
            },
        };
        match self.ledger.apply(&row) {
            Ok(()) => {
                assert(report@ == old(report)@ + Seq::<u8>::empty());
            },
            Err(e) => {
                report_span(report, first_line, last_line, &e);
            },
        }
    }

    /// Handles a complete record.
    fn handle(&mut self, first_line: u64, last_line: u64, report: &mut Vec<u8>) -> (r: Result<(), FatalError>)
        requires
            old(self).ok(),
        ensures
            final(self).ok(),
            final(self).record == old(self).record,
            final(self).scan == old(self).scan,
            ({
                let (l, c, t, f) = handle_spec(
                    old(self)@.ledger,
                    old(self).columns,
                    old(self).record.fields(),
                    first_line,
                    last_line,
                );
                &&& final(self)@.ledger == l
                &&& final(self).columns == c
                &&& final(report)@ == old(report)@ + t
                &&& match f {
                    None => r is Ok,
                    Some(x) => r == Err::<(), FatalError>(x),
                }
            }),
    {
        if field_blank(&self.record) {
            assert(report@ == old(report)@ + Seq::<u8>::empty());
            return Ok(());
        }
        match self.columns {
            Some(cols) => {
                self.apply_row(cols, first_line, last_line, report);
                Ok(())
            },
            None => {
                match parse_header(&self.record) {
                    Ok(cols) => {
                        self.columns = Some(cols);
                        assert(report@ == old(report)@ + Seq::<u8>::empty());
                        Ok(())
                    },
                    Err(e) => {
                        assert(report@ == old(report)@ + Seq::<u8>::empty());
                        Err(bad_header(e))
                    },
                }
            },
        }
    }

    /// Acts on what the scanner handed on, and starts the next record.
    fn take(&mut self, read: Read, report: &mut Vec<u8>) -> (r: Result<(), FatalError>)
        requires
            old(self).ok(),
        ensures
            final(self).ok(),
            ({
                let (e2, t, f) = after_read(old(self)@, read, old(self).record.pending());
                &&& final(self)@ == e2
                &&& final(report)@ == old(report)@ + t
                &&& match f {
                    None => r is Ok,
                    Some(x) => r == Err::<(), FatalError>(x),
                }
            }),
    {
        match read {
            Read::Row { first_line, last_line } => {
                let result = self.handle(first_line, last_line, report);
                let next = if last_line < u64::MAX { last_line + 1 } else { last_line };
                self.scan.reset(next);
                self.record.reset(next);
                result
            },
            Read::Malformed { first_line, last_line, error } => {
                report_span(report, first_line, last_line, &error);
                let next = if last_line < u64::MAX { last_line + 1 } else { last_line };
                self.scan.reset(next);
                self.record.reset(next);
                Ok(())
            },
            Read::Done => {
                assert(report@ == old(report)@ + Seq::<u8>::empty());
                Ok(())
            },
        }
    }

    /// Reads a piece of input, acting on every record it completes; stops
    /// at a fatal error.  Pieces may split records anywhere.
    pub fn feed(&mut self, input: &[u8], report: &mut Vec<u8>) -> (r: Result<(), FatalError>)
        requires
            old(self).ok(),
        ensures
            final(self).ok(),
            ({
                let (e, t, f) = feed_spec(old(self)@, input@);
                &&& final(self)@ == e
                &&& final(report)@ == old(report)@ + t
                &&& match f {
                    None => r is Ok,
                    Some(x) => r == Err::<(), FatalError>(x),
                }
            }),
    {
        let ghost start = old(self)@;
        let ghost mut so_far: Seq<u8> = Seq::empty();
        let mut pos: usize = 0;
        proof {
            assert(input@.skip(0) == input@);
            let (e, t, f) = feed_spec(start, input@);
            assert(Seq::<u8>::empty() + t == t);
        }
        while pos < input.len()
            invariant
                pos <= input.len(),
                self.ok(),
                report@ == old(report)@ + so_far,
                start == old(self)@,
                feed_spec(start, input@) == prefixed(so_far, feed_spec(self@, input@.skip(pos as int))),
            decreases input.len() - pos,
        {
            let ghost before = self@;
            let ghost rest = input@.skip(pos as int);
            proof {
                lemma_scan_until_feeds(before, rest);
            }
            let (next, read) = next_record(&mut self.scan, &mut self.record, input, pos);
            let ghost outcome = scan_until(before.scan, before.pending, rest);
            proof {
                let (s, p, r, n) = outcome;
                assert(rest.skip(n as int) == input@.skip(next as int));
                assert(self@ == EngineView { scan: s, pending: p, ..before });
            }
            pos = next;
            match read {
                Some(read) => {
                    let ghost mid = self@;
                    let ghost mid_pending = self.record.pending();
                    let ghost report_before = report@;
                    let result = self.take(read, report);
                    proof {
                        let (e2, t2, f2) = after_read(mid, read, mid_pending);
                        assert(outcome.2 == Some(read));
                        assert(mid_pending == outcome.1);
                        assert(feed_spec(before, rest) == (if f2 is Some {
                            (e2, t2, f2)
                        } else {
                            let (e3, t3, f3) = feed_spec(e2, rest.skip(outcome.3 as int));
                            (e3, t2 + t3, f3)
                        }));
                        assert(report@ == old(report)@ + (so_far + t2));
                        if f2 is None {
                            let (e3, t3, f3) = feed_spec(e2, input@.skip(pos as int));
                            assert(so_far + (t2 + t3) == (so_far + t2) + t3);
                        }
                        so_far = so_far + t2;
                    }
                    if result.is_err() {
                        return result;
                    }
                },
                None => {
                    proof {
                        assert(input@.skip(pos as int) == Seq::<u8>::empty());
                        assert(so_far + Seq::<u8>::empty() == so_far);
                    }
                },
            }
        }
        proof {
            assert(input@.skip(pos as int) == Seq::<u8>::empty());
            assert(so_far + Seq::<u8>::empty() == so_far);
        }
        Ok(())
    }

    /// Ends the input: settles the last record, then writes the whole
    /// output, unless a fatal error stops the run.
    pub fn finish(&mut self, out: &mut Vec<u8>, report: &mut Vec<u8>) -> (r: Result<(), FatalError>)
        requires
            old(self).ok(),
        ensures
            final(self).ok(),
            ({
                let (t, res) = finish_spec(old(self)@);
                &&& final(report)@ == old(report)@ + t
                &&& match res {
                    Ok(text) => r is Ok && final(out)@ == old(out)@ + text,
                    Err(x) => r == Err::<(), FatalError>(x) && final(out)@ == old(out)@,
                }
            }),
    {
        let ghost e0 = old(self)@;
        let read = match eof(&mut self.scan, &mut self.record) {
            Ok(read) => read,
            Err(fatal) => {
                assert(report@ == old(report)@ + Seq::<u8>::empty());
                return Err(fatal);
            },
        };
        proof {
            assert(self@ == EngineView { pending: self.record.pending(), scan: self.scan, ..e0 });
        }
        match self.take(read, report) {
            Ok(()) => {},
            Err(fatal) => return Err(fatal),
        }
        render(&self.ledger, out);
        Ok(())
    }
}

/// Processes a whole input held in memory: row reports are appended to
/// `report`, and the output to `out` unless a fatal error stops the run.
pub fn run(input: &[u8], out: &mut Vec<u8>, report: &mut Vec<u8>) -> (r: Result<(), FatalError>)
    ensures
        ({
            let (t, res) = run_spec(input@);
            &&& final(report)@ == old(report)@ + t
            &&& match res {
                Ok(text) => r is Ok && final(out)@ == old(out)@ + text,
                Err(x) => r == Err::<(), FatalError>(x) && final(out)@ == old(out)@,
            }
        }),
{
    let mut engine = Engine::new();
    match engine.feed(input, report) {
        Ok(()) => {},
        Err(fatal) => return Err(fatal),
    }
    let ghost mid = report@;
    let r = engine.finish(out, report);
    proof {
        assert(report@ =~= old(report)@ + (mid.skip(old(report)@.len() as int) + report@.skip(mid.len() as int)));
    }
    r
}


proof fn lemma_handle_fatal_is_header(l: LedgerView, columns: Option<Columns>, fields: Seq<Seq<u8>>, first_line: u64, last_line: u64)
    ensures
        handle_spec(l, columns, fields, first_line, last_line).3 is Some
            ==> handle_spec(l, columns, fields, first_line, last_line).3 == Some(FatalError::Header),
{
}

proof fn lemma_feed_fatal_is_header(e: EngineView, bytes: Seq<u8>)
    ensures
        feed_spec(e, bytes).2 is Some ==> feed_spec(e, bytes).2 == Some(FatalError::Header),
    decreases bytes.len(),
{
    if bytes.len() > 0 {
        let (s, p, r) = scan_byte(e.scan, e.pending, bytes[0]);
        let e1 = EngineView { scan: s, pending: p, ..e };
        if let Some(read) = r {
            if let Read::Row { first_line, last_line } = read {
                lemma_handle_fatal_is_header(e1.ledger, e1.columns, p.fields, first_line, last_line);
            }
        }
        let (e2, t2, f2) = engine_byte(e, bytes[0]);
        if f2 is None {
            lemma_feed_fatal_is_header(e2, bytes.drop_first());
        }
    }
}

/// Rejected rows never stop a run: the only fatal errors are a missing or
/// bad header and a quote left open at the end of the input.
pub proof fn lemma_only_header_or_open_quote_is_fatal(input: Seq<u8>)
    ensures
        run_spec(input).1 is Err ==> run_spec(input).1 == Err::<Seq<u8>, FatalError>(FatalError::Header)
            || run_spec(input).1 == Err::<Seq<u8>, FatalError>(FatalError::UnterminatedQuote),
{
    lemma_feed_fatal_is_header(initial_engine(), input);
    let (e, t, f) = feed_spec(initial_engine(), input);
    if f is None {
        match eof_read(e.scan, e.pending) {
            Ok((p, read)) => {
                if let Read::Row { first_line, last_line } = read {
                    lemma_handle_fatal_is_header(e.ledger, e.columns, p.fields, first_line, last_line);
                }
            },
            Err(_) => {},
        }
    }
}

/// A run's output always starts with the header line.
pub proof fn lemma_output_starts_with_header(input: Seq<u8>)
    ensures
        run_spec(input).1 matches Ok(text) ==> text.take(crate::render::header_line().len() as int)
            == crate::render::header_line(),
{
    let (e, t, f) = feed_spec(initial_engine(), input);
    if f is None {
        let (t2, res) = finish_spec(e);
        if let Ok(text) = res {
            assert(text.take(crate::render::header_line().len() as int) =~= crate::render::header_line());
        }
    }
}

/// The ledger a run over `input` renders, unless a fatal error stops it.
pub open spec fn final_ledger(input: Seq<u8>) -> Option<LedgerView> {
    let (e, t, fatal) = feed_spec(initial_engine(), input);
    if fatal is Some {
        None
    } else {
        match eof_read(e.scan, e.pending) {
            Err(_) => None,
            Ok((p, read)) => {
                let (e1, text, f) = after_read(EngineView { pending: p, ..e }, read, p);
                if f is Some {
                    None
                } else {
                    Some(e1.ledger)
                }
            },
        }
    }
}

/// What stays true of the ledger from record to record.
pub open spec fn ledger_sound(l: LedgerView) -> bool {
    &&& ledger_wf(l)
    &&& holds_disputed(l)
    &&& amounts_nonnegative(l)
    &&& totals_fit(l)
}

proof fn lemma_handle_sound(l: LedgerView, columns: Option<Columns>, fields: Seq<Seq<u8>>, first_line: u64, last_line: u64)
    requires
        ledger_sound(l),
    ensures
        ledger_sound(handle_spec(l, columns, fields, first_line, last_line).0),
{
    if !is_blank(fields) {
        if let Some(cols) = columns {
            if let Ok(row) = row_spec(cols, fields) {
                assert(row_amount_nonnegative(row));
                lemma_apply_keeps_wf(l, row);
                lemma_apply_keeps_held_disputed(l, row);
                lemma_apply_keeps_amounts_nonnegative(l, row);
                lemma_apply_keeps_totals_fit(l, row);
            }
        }
    }
}

proof fn lemma_after_read_sound(e: EngineView, read: Read, p: Pending)
    requires
        ledger_sound(e.ledger),
    ensures
        ledger_sound(after_read(e, read, p).0.ledger),
{
    if let Read::Row { first_line, last_line } = read {
        lemma_handle_sound(e.ledger, e.columns, p.fields, first_line, last_line);
    }
}

proof fn lemma_feed_sound(e: EngineView, bytes: Seq<u8>)
    requires
        ledger_sound(e.ledger),
    ensures
        ledger_sound(feed_spec(e, bytes).0.ledger),
    decreases bytes.len(),
{
    if bytes.len() > 0 {
        let (s, p, r) = scan_byte(e.scan, e.pending, bytes[0]);
        let e1 = EngineView { scan: s, pending: p, ..e };
        if let Some(read) = r {
            lemma_after_read_sound(e1, read, p);
        }
        let (e2, t2, f2) = engine_byte(e, bytes[0]);
        if f2 is None {
            lemma_feed_sound(e2, bytes.drop_first());
        }
    }
}

/// Held funds are exactly what is under dispute, and totals stay printable:
/// whatever the input, the output of a run is the rendering of a ledger in
/// which every account holds the sum of the amounts of its transactions
/// under dispute, so never a negative amount, and whose every total fits in
/// `i64`.
pub proof fn lemma_run_ledger_invariants(input: Seq<u8>)
    ensures
        run_spec(input).1 matches Ok(text) ==> final_ledger(input) matches Some(l) && text == render_text(l),
        final_ledger(input) matches Some(l) ==> {
            &&& holds_disputed(l)
            &&& forall|c: u16| #[trigger] l.accounts.contains_key(c) ==> l.accounts[c].held.0 >= 0
            &&& totals_fit(l)
        },
{
    assert(ledger_sound(empty_ledger()));
    lemma_feed_sound(initial_engine(), input);
    let (e, t, f) = feed_spec(initial_engine(), input);
    if f is None {
        if let Ok((p, read)) = eof_read(e.scan, e.pending) {
            let e0 = EngineView { pending: p, ..e };
            lemma_after_read_sound(e0, read, p);
            lemma_held_nonnegative(after_read(e0, read, p).0.ledger);
        }
    }
}
} // verus!

verus! {

/// A byte that may fill a blank line: space, tab, form feed, carriage return.
pub open spec fn blank_byte(b: u8) -> bool {
    b == 32 || b == 9 || b == 12 || b == 13
}

/// Inside a line that has held nothing but blanks so far, on line `n`.
pub open spec fn in_blank_line(e: EngineView, n: u64) -> bool {
    &&& !e.scan.in_quotes
    &&& !e.scan.just_closed
    &&& !e.scan.bad
    &&& !e.scan.capped
    &&& e.scan.line == n
    &&& e.pending.first_line == n
    &&& e.pending.fields.len() == 0
    &&& e.pending.size == e.pending.current.len()
    &&& forall|i: int| 0 <= i < e.pending.current.len() ==> ascii_space(#[trigger] e.pending.current[i])
}

proof fn lemma_blank_rest(e: EngineView, n: u64, ws: Seq<u8>)
    requires
        in_blank_line(e, n),
        n < u64::MAX,
        e.pending.size + ws.len() <= MAX_RECORD_BYTES,
        forall|i: int| 0 <= i < ws.len() ==> blank_byte(#[trigger] ws[i]),
    ensures
        feed_spec(e, ws.push(10)) == (
            EngineView {
                ledger: e.ledger,
                columns: e.columns,
                scan: fresh_scan((n + 1) as u64),
                pending: fresh_pending((n + 1) as u64),
            },
            Seq::<u8>::empty(),
            None::<FatalError>,
        ),
    decreases ws.len(),
{
    let bytes = ws.push(10);
    let (e1, t1, f1) = engine_byte(e, bytes[0]);
    if ws.len() == 0 {
        assert(bytes.drop_first() =~= Seq::<u8>::empty());
        let cur = e.pending.current;
        assert(e.pending.fields.push(cur) =~= seq![cur]);
        assert(is_blank(seq![cur]));
        assert(bytes[0] == 10);
        let (s, p, r) = scan_byte(e.scan, e.pending, 10);
        assert(p.fields =~= seq![cur]);
        assert(r == Some(Read::Row { first_line: n, last_line: n }));
        assert(t1 =~= Seq::<u8>::empty());
        assert(feed_spec(e1, bytes.drop_first()) == (e1, Seq::<u8>::empty(), None::<FatalError>));
    } else {
        assert(bytes.drop_first() =~= ws.drop_first().push(10));
        let b = ws[0];
        assert(blank_byte(b));
        let e_next = e1;
        assert(in_blank_line(e_next, n)) by {
            let (s, p, r) = scan_byte(e.scan, e.pending, b);
            if p.current.len() > e.pending.current.len() {
                assert(p.current =~= e.pending.current.push(b));
                assert forall|i: int| 0 <= i < p.current.len() implies ascii_space(#[trigger] p.current[i]) by {
                    if i < e.pending.current.len() {
                        assert(p.current[i] == e.pending.current[i]);
                    }
                }
            }
        }
        lemma_blank_rest(e_next, n, ws.drop_first());
        assert(Seq::<u8>::empty() + Seq::<u8>::empty() =~= Seq::<u8>::empty());
    }
}

/// Blank lines are skipped silently: between records, a line of nothing but
/// spaces, tabs, form feeds and carriage returns changes nothing and reports
/// nothing, before the header and after it; only the line count moves on.
pub proof fn lemma_blank_line_is_skipped(e: EngineView, ws: Seq<u8>)
    requires
        e.scan == fresh_scan(e.scan.line),
        e.pending == fresh_pending(e.scan.line),
        e.scan.line < u64::MAX,
        ws.len() <= MAX_RECORD_BYTES,
        forall|i: int| 0 <= i < ws.len() ==> blank_byte(#[trigger] ws[i]),
    ensures
        feed_spec(e, ws.push(10)) == (
            EngineView {
                scan: fresh_scan((e.scan.line + 1) as u64),
                pending: fresh_pending((e.scan.line + 1) as u64),
                ..e
            },
            Seq::<u8>::empty(),
            None::<FatalError>,
        ),
{
    lemma_blank_rest(e, e.scan.line, ws);
}

} // verus!

verus! {

/// Where a piece of a run's text is written.
#[derive(Clone, Copy, Debug, PartialEq, Eq)]
pub enum Sink {
    /// The accounts.
    Output,
    /// The row reports.
    Report,
}

/// What the outcome of writing to a sink means for the run: a failed write
/// of the accounts is an I/O failure, a failed write of row reports a
/// report-sink failure, and either ends the run.
pub fn after_write(sink: Sink, written: Result<(), std::io::Error>) -> (r: Result<(), FatalError>)
    ensures
        match written {
            Ok(()) => r is Ok,
            Err(e) => r == Err::<(), FatalError>(
                match sink {
                    Sink::Output => FatalError::Io(e),
                    Sink::Report => FatalError::Report(e),
                },
            ),
        },
{
    match written {
        Ok(()) => Ok(()),
        Err(e) => match sink {
            Sink::Output => Err(FatalError::Io(e)),
            Sink::Report => Err(FatalError::Report(e)),
        },
    }
}

} // verus!

verus! {

/// Pieces of input put back together.
pub open spec fn joined(pieces: Seq<Seq<u8>>) -> Seq<u8>
    decreases pieces.len(),
{
    if pieces.len() == 0 {
        Seq::empty()
    } else {
        pieces[0] + joined(pieces.drop_first())
    }
}

/// Feeding the pieces one after the other, as reads deliver them, up to the
/// first fatal error.
pub open spec fn feed_pieces(e: EngineView, pieces: Seq<Seq<u8>>) -> (EngineView, Seq<u8>, Option<FatalError>)
    decreases pieces.len(),
{
    if pieces.len() == 0 {
        (e, Seq::empty(), None)
    } else {
        let (e1, t1, f1) = feed_spec(e, pieces[0]);
        if f1 is Some {
            (e1, t1, f1)
        } else {
            let (e2, t2, f2) = feed_pieces(e1, pieces.drop_first());
            (e2, t1 + t2, f2)
        }
    }
}

/// Feeding any number of pieces is feeding them put together.
pub proof fn lemma_feed_pieces(e: EngineView, pieces: Seq<Seq<u8>>)
    ensures
        feed_pieces(e, pieces) == feed_spec(e, joined(pieces)),
    decreases pieces.len(),
{
    if pieces.len() > 0 {
        lemma_feed_split(e, pieces[0], joined(pieces.drop_first()));
        let (e1, t1, f1) = feed_spec(e, pieces[0]);
        if f1 is None {
            lemma_feed_pieces(e1, pieces.drop_first());
        }
    }
}

/// How the input is cut into reads never matters: two ways of cutting the
/// same bytes leave the engine in the same state, with the same reports and
/// the same fatal error, if any.
pub proof fn lemma_any_cut_gives_the_same_run(e: EngineView, a: Seq<Seq<u8>>, b: Seq<Seq<u8>>)
    requires
        joined(a) == joined(b),
    ensures
        feed_pieces(e, a) == feed_pieces(e, b),
{
    lemma_feed_pieces(e, a);
    lemma_feed_pieces(e, b);
}

} // verus!

verus! {

/// Fields written as one line: separated by commas, ended by a line break.
pub open spec fn line_of(fs: Seq<Seq<u8>>) -> Seq<u8> {
    comma_joined(fs).push(10)
}

/// Rows written one line each under the header `type,client,tx,amount`.
pub open spec fn rows_text(rows: Seq<Row>) -> Seq<u8>
    decreases rows.len(),
{
    if rows.len() == 0 {
        Seq::empty()
    } else {
        line_of(row_fields(rows[0])) + rows_text(rows.drop_first())
    }
}

/// A whole input written from rows: the header line, then the rows.
pub open spec fn csv_of(rows: Seq<Row>) -> Seq<u8> {
    line_of(canonical_header()) + rows_text(rows)
}

/// The ledger after applying the rows in order, each whether it is
/// accepted or refused.
pub open spec fn apply_rows(l: LedgerView, rows: Seq<Row>) -> LedgerView
    decreases rows.len(),
{
    if rows.len() == 0 {
        l
    } else {
        apply_rows(apply_spec(l, rows[0]).0, rows.drop_first())
    }
}

/// The engine between records on line `n`, with the header read.
pub open spec fn engine_at(l: LedgerView, n: u64) -> EngineView {
    EngineView { ledger: l, columns: Some(canonical_columns()), scan: fresh_scan(n), pending: fresh_pending(n) }
}

proof fn lemma_feed_word_line(e: EngineView, fs: Seq<Seq<u8>>)
    requires
        e.scan == fresh_scan(e.scan.line),
        e.pending == fresh_pending(e.scan.line),
        e.scan.line + 1 < u64::MAX,
        fs.len() == 4,
        forall|i: int| 0 <= i < 4 ==> word_text(#[trigger] fs[i]) && fs[i].len() <= 25,
    ensures
        ({
            let n = e.scan.line;
            let (l, c, t, f) = handle_spec(e.ledger, e.columns, fs, n, n);
            feed_spec(e, line_of(fs)) == (
                EngineView { ledger: l, columns: c, scan: fresh_scan((n + 1) as u64), pending: fresh_pending((n + 1) as u64) },
                t,
                f,
            )
        }),
{
    let n = e.scan.line;
    let bf = fs.map_values(|f: Seq<u8>| (false, f));
    assert forall|i: int| 0 <= i < 4 implies writable_field(#[trigger] bf[i]) && field_read_back(bf[i]) == fs[i] by {
        lemma_word_reads_back(fs[i]);
    }
    assert(bf.map_values(|f: (bool, Seq<u8>)| written_field(f)) =~= fs);
    assert(bf.map_values(|f: (bool, Seq<u8>)| field_read_back(f)) =~= fs);
    assert(fields_lines(bf) == 0) by {
        reveal_with_fuel(fields_lines, 5);
    }
    assert(comma_joined(fs) == fs[0] + seq![44u8] + (fs[1] + seq![44u8] + (fs[2] + seq![44u8] + fs[3]))) by {
        reveal_with_fuel(comma_joined, 4);
        assert(fs.drop_first().drop_first().drop_first() =~= seq![fs[3]]);
    }
    assert(written_record(bf) == comma_joined(fs));
    lemma_record_reads_back(bf, n);
    lemma_scan_until_feeds(e, line_of(fs));
    let (s, p, r, k) = scan_until(e.scan, e.pending, line_of(fs));
    assert(line_of(fs).skip(k as int) =~= Seq::<u8>::empty());
    let e1 = EngineView { scan: s, pending: p, ..e };
    let (e2, t2, f2) = after_read(e1, r->0, p);
    assert(t2 + Seq::<u8>::empty() =~= t2);
}

proof fn lemma_feed_header()
    ensures
        feed_spec(initial_engine(), line_of(canonical_header())) == (engine_at(empty_ledger(), 2), Seq::<u8>::empty(), None::<FatalError>),
{
    lemma_canonical_header();
    let h = canonical_header();
    assert forall|i: int| 0 <= i < 4 implies word_text(#[trigger] h[i]) && h[i].len() <= 25 by {
        reveal_strlit("type");
        reveal_strlit("client");
        reveal_strlit("tx");
        reveal_strlit("amount");
    }
    lemma_feed_word_line(initial_engine(), h);
}

proof fn lemma_feed_rows(l: LedgerView, n: u64, rows: Seq<Row>)
    requires
        forall|i: int| 0 <= i < rows.len() ==> row_amount_nonnegative(#[trigger] rows[i]),
        n + rows.len() + 1 < u64::MAX,
    ensures
        feed_spec(engine_at(l, n), rows_text(rows)).0 == engine_at(apply_rows(l, rows), (n + rows.len()) as u64),
        feed_spec(engine_at(l, n), rows_text(rows)).2 is None,
    decreases rows.len(),
{
    if rows.len() > 0 {
        let r = rows[0];
        let rest = rows.drop_first();
        lemma_row_fields_read_back(r);
        lemma_feed_word_line(engine_at(l, n), row_fields(r));
        assert(row_fields(r).len() == 4);
        lemma_feed_split(engine_at(l, n), line_of(row_fields(r)), rows_text(rest));
        assert forall|i: int| 0 <= i < rest.len() implies row_amount_nonnegative(#[trigger] rest[i]) by {
            assert(rest[i] == rows[i + 1]);
        }
        lemma_feed_rows(apply_spec(l, r).0, (n + 1) as u64, rest);
    }
}

/// A run reads back what was written: rows without negative amounts,
/// written one line each (type word, client, transaction, and the amount of
/// a deposit or withdrawal, empty for the others) under the header
/// `type,client,tx,amount`, give exactly the output of the ledger that
/// applying the rows in order, from no accounts, produces.
pub proof fn lemma_written_rows_replay(rows: Seq<Row>)
    requires
        forall|i: int| 0 <= i < rows.len() ==> row_amount_nonnegative(#[trigger] rows[i]),
        rows.len() + 3 < u64::MAX,
    ensures
        run_spec(csv_of(rows)).1 == Ok::<Seq<u8>, FatalError>(render_text(apply_rows(empty_ledger(), rows))),
{
    lemma_feed_header();
    lemma_feed_split(initial_engine(), line_of(canonical_header()), rows_text(rows));
    lemma_feed_rows(empty_ledger(), 2, rows);
    let e = engine_at(apply_rows(empty_ledger(), rows), (2 + rows.len()) as u64);
    assert(eof_read(e.scan, e.pending) == Ok::<(Pending, Read), FatalError>((e.pending, Read::Done)));
}

} // verus!
