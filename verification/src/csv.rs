use vstd::prelude::*;
use crate::config::MAX_RECORD_BYTES;
use crate::errors::{FatalError, RowError};
use crate::record::Record;
use crate::scan::Scan;

verus! {

/// What the scanner hands on.
#[derive(Debug)]
pub enum Read {
    /// A complete record, spanning these physical lines; its fields are in
    /// the record buffer.
    Row { first_line: u64, last_line: u64 },
    /// A broken record, spanning these physical lines.
    Malformed { first_line: u64, last_line: u64, error: RowError },
    /// The input is used up.
    Done,
}

/// The record read so far: its finished fields, the field being read, the
/// bytes kept, and the line it started on.
pub struct Pending {
    pub fields: Seq<Seq<u8>>,
    pub current: Seq<u8>,
    pub size: nat,
    pub first_line: u64,
}

impl Record {
    /// The record as the scanner sees it.
    pub open spec fn pending(&self) -> Pending {
        Pending {
            fields: self.fields(),
            current: self.current(),
            size: self.bytes@.len(),
            first_line: self.first_line,
        }
    }
}

/// The last line the record buffer names after a read: that of a row the
/// read completed, else the one it named before.
pub open spec fn last_line_after(before: u64, r: Option<Read>) -> u64 {
    match r {
        Some(Read::Row { last_line, .. }) => last_line,
        _ => before,
    }
}

/// An empty record starting at `first_line`.
pub open spec fn fresh_pending(first_line: u64) -> Pending {
    Pending { fields: Seq::empty(), current: Seq::empty(), size: 0, first_line }
}

/// The line after `line` (lines stop counting at the largest `u64`).
pub open spec fn line_after(line: u64) -> u64 {
    if line < u64::MAX {
        (line + 1) as u64
    } else {
        line
    }
}

/// Keeps byte `b` in the current field, unless the record has grown past the cap.
pub open spec fn store(s: Scan, p: Pending, b: u8) -> (Scan, Pending) {
    if s.capped {
        (s, p)
    } else if p.size + 1 > MAX_RECORD_BYTES {
        (Scan { capped: true, ..s }, p)
    } else {
        (s, Pending { current: p.current.push(b), size: p.size + 1, ..p })
    }
}

/// Ends the current field.
pub open spec fn flush(s: Scan, p: Pending) -> (Scan, Pending) {
    if s.capped {
        (s, p)
    } else if p.fields.len() + 2 >= usize::MAX {
        (Scan { capped: true, ..s }, p)
    } else {
        (s, Pending { fields: p.fields.push(p.current), current: Seq::empty(), ..p })
    }
}

/// A line break that ends the record.
pub open spec fn end_record(s: Scan, p: Pending) -> (Scan, Pending, Option<Read>) {
    let (s2, p2) = flush(s, p);
    let line = line_after(s.line);
    let s3 = Scan { line, ..s2 };
    if s3.capped {
        (s3, p2, Some(Read::Malformed { first_line: p.first_line, last_line: (line - 1) as u64, error: RowError::Malformed }))
    } else {
        (s3, p2, Some(Read::Row { first_line: p.first_line, last_line: (line - 1) as u64 }))
    }
}

/// A byte inside a quoted field: a quote closes the field, anything else,
/// a line break too, is part of it.
pub open spec fn quoted_step(s: Scan, p: Pending, b: u8) -> (Scan, Pending, Option<Read>) {
    if b == 34 {
        (Scan { in_quotes: false, just_closed: true, ..s }, p, None)
    } else if b == 10 {
        let (s2, p2) = store(s, p, 10);
        (Scan { line: line_after(s.line), ..s2 }, p2, None)
    } else {
        let (s2, p2) = store(s, p, b);
        (s2, p2, None)
    }
}

/// A byte just after a closing quote: a second quote is a literal quote and
/// reopens the field; a comma or line break ends the field; carriage
/// returns are skipped; anything else, a space too, breaks the record.
pub open spec fn closed_step(s: Scan, p: Pending, b: u8) -> (Scan, Pending, Option<Read>) {
    if b == 34 {
        let (s2, p2) = store(s, p, 34);
        (Scan { just_closed: false, in_quotes: true, ..s2 }, p2, None)
    } else if b == 44 {
        let (s2, p2) = flush(s, p);
        (Scan { just_closed: false, field_start: true, spaced: false, ..s2 }, p2, None)
    } else if b == 10 {
        end_record(s, p)
    } else if b == 13 {
        (s, p, None)
    } else {
        (Scan { bad: true, ..s }, p, None)
    }
}

/// A byte of an unquoted field: a quote opens a quoted field only as the
/// field's very first byte and breaks the record anywhere else, after
/// leading spaces too; carriage returns, and every leading space, are not kept.
pub open spec fn bare_step(s: Scan, p: Pending, b: u8) -> (Scan, Pending, Option<Read>) {
    if b == 34 && s.field_start && !s.spaced {
        (Scan { in_quotes: true, field_start: false, ..s }, p, None)
    } else if b == 34 {
        (Scan { bad: true, ..s }, p, None)
    } else if b == 44 {
        let (s2, p2) = flush(s, p);
        (Scan { field_start: true, spaced: false, ..s2 }, p2, None)
    } else if b == 10 {
        end_record(s, p)
    } else if b == 13 {
        (s, p, None)
    } else if b == 32 && s.field_start {
        (Scan { spaced: true, ..s }, p, None)
    } else {
        let (s2, p2) = store(s, p, b);
        (Scan { field_start: false, spaced: false, ..s2 }, p2, None)
    }
}

/// One byte of input.  A broken record is skipped up to its line break.
pub open spec fn scan_byte(s: Scan, p: Pending, b: u8) -> (Scan, Pending, Option<Read>) {
    if s.bad {
        if b == 10 {
            let line = line_after(s.line);
            (
                Scan { line, ..s },
                p,
                Some(Read::Malformed { first_line: p.first_line, last_line: (line - 1) as u64, error: RowError::Malformed }),
            )
        } else {
            (s, p, None)
        }
    } else {
        let s1 = Scan { saw_any: true, ..s };
        if s1.in_quotes {
            quoted_step(Scan { quoted_any: true, ..s1 }, p, b)
        } else if s1.just_closed {
            closed_step(s1, p, b)
        } else {
            bare_step(s1, p, b)
        }
    }
}

/// Reads `bytes` until a record is complete: the scanner and record after,
/// what was read, and how many bytes were used.
pub open spec fn scan_until(s: Scan, p: Pending, bytes: Seq<u8>) -> (Scan, Pending, Option<Read>, nat)
    decreases bytes.len(),
{
    if bytes.len() == 0 {
        (s, p, None, 0)
    } else {
        let (s1, p1, r) = scan_byte(s, p, bytes[0]);
        if r is Some {
            (s1, p1, r, 1)
        } else {
            let (s2, p2, r2, n) = scan_until(s1, p1, bytes.drop_first());
            (s2, p2, r2, n + 1)
        }
    }
}

/// What the end of input makes of the record being read.
pub open spec fn eof_read(s: Scan, p: Pending) -> Result<(Pending, Read), FatalError> {
    if s.in_quotes {
        Err(FatalError::UnterminatedQuote)
    } else if !s.saw_any {
        Ok((p, Read::Done))
    } else if s.bad || s.capped {
        Ok((p, Read::Malformed { first_line: p.first_line, last_line: s.line, error: RowError::Malformed }))
    } else {
        let (s2, p2) = flush(s, p);
        if s2.capped {
            Ok((p2, Read::Malformed { first_line: p.first_line, last_line: s.line, error: RowError::Malformed }))
        } else {
            Ok((p2, Read::Row { first_line: p.first_line, last_line: s.line }))
        }
    }
}

fn store_byte(scan: &mut Scan, record: &mut Record, b: u8)
    requires
        old(record).wf(),
    ensures
        final(record).last_line == old(record).last_line,
        final(record).wf(),
        (*final(scan), final(record).pending()) == store(*old(scan), old(record).pending(), b),
{
    if scan.capped {
    } else if record.bytes.len() >= MAX_RECORD_BYTES {
        scan.capped = true;
    } else {
        record.push(b);
    }
}

fn flush_field(scan: &mut Scan, record: &mut Record)
    requires
        old(record).wf(),
    ensures
        final(record).last_line == old(record).last_line,
        final(record).wf(),
        (*final(scan), final(record).pending()) == flush(*old(scan), old(record).pending()),
{
    if scan.capped {
    } else if record.width >= usize::MAX - 2 {
        scan.capped = true;
    } else {
        record.close_field();
    }
}

fn newline(scan: &mut Scan, record: &mut Record) -> (r: Option<Read>)
    requires
        old(record).wf(),
    ensures
        final(record).last_line == last_line_after(old(record).last_line, r),
        final(record).wf(),
        (*final(scan), final(record).pending(), r) == end_record(*old(scan), old(record).pending()),
{
    let first_line = record.first_line;
    let line = if scan.line < u64::MAX { scan.line + 1 } else { scan.line };
    flush_field(scan, record);
    scan.line = line;
    if scan.capped {
        Some(malformed(first_line, line - 1))
    } else {
        record.last_line = line - 1;
        Some(Read::Row { first_line, last_line: line - 1 })
    }
}

fn step_quoted(scan: &mut Scan, record: &mut Record, b: u8) -> (r: Option<Read>)
    requires
        old(record).wf(),
    ensures
        final(record).last_line == last_line_after(old(record).last_line, r),
        final(record).wf(),
        (*final(scan), final(record).pending(), r) == quoted_step(*old(scan), old(record).pending(), b),
{
    if b == 34 {
        scan.in_quotes = false;
        scan.just_closed = true;
    } else if b == 10 {
        let line = if scan.line < u64::MAX { scan.line + 1 } else { scan.line };
        store_byte(scan, record, 10);
        scan.line = line;
    } else {
        store_byte(scan, record, b);
    }
    None
}

fn step_closed(scan: &mut Scan, record: &mut Record, b: u8) -> (r: Option<Read>)
    requires
        old(record).wf(),
    ensures
        final(record).last_line == last_line_after(old(record).last_line, r),
        final(record).wf(),
        (*final(scan), final(record).pending(), r) == closed_step(*old(scan), old(record).pending(), b),
{
    if b == 34 {
        store_byte(scan, record, 34);
        scan.just_closed = false;
        scan.in_quotes = true;
        None
    } else if b == 44 {
        flush_field(scan, record);
        scan.just_closed = false;
        scan.field_start = true;
        scan.spaced = false;
        None
    } else if b == 10 {
        newline(scan, record)
    } else if b == 13 {
        None
    } else {
        scan.bad = true;
        None
    }
}

fn step_bare(scan: &mut Scan, record: &mut Record, b: u8) -> (r: Option<Read>)
    requires
        old(record).wf(),
    ensures
        final(record).last_line == last_line_after(old(record).last_line, r),
        final(record).wf(),
        (*final(scan), final(record).pending(), r) == bare_step(*old(scan), old(record).pending(), b),
{
    if b == 34 && scan.field_start && !scan.spaced {
        scan.in_quotes = true;
        scan.field_start = false;
        None
    } else if b == 34 {
        scan.bad = true;
        None
    } else if b == 44 {
        flush_field(scan, record);
        scan.field_start = true;
        scan.spaced = false;
        None
    } else if b == 10 {
        newline(scan, record)
    } else if b == 13 {
        None
    } else if b == 32 && scan.field_start {
        scan.spaced = true;
        None
    } else {
        store_byte(scan, record, b);
        scan.field_start = false;
        scan.spaced = false;
        None
    }
}

/// The report of a broken record over these lines.
fn malformed(first_line: u64, last_line: u64) -> (r: Read)
    ensures
        r == (Read::Malformed { first_line, last_line, error: RowError::Malformed }),
{
    Read::Malformed { first_line, last_line, error: RowError::Malformed }
}

/// A byte of a broken record: everything up to its line break is skipped,
/// and the line break reports the record.
fn skip_to_eol(scan: &mut Scan, record: &Record, b: u8) -> (r: Option<Read>)
    requires
        old(scan).bad,
    ensures
        (*final(scan), record.pending(), r) == scan_byte(*old(scan), record.pending(), b),
{
    if b == 10 {
        let line = if scan.line < u64::MAX { scan.line + 1 } else { scan.line };
        scan.line = line;
        Some(malformed(record.first_line, line - 1))
    } else {
        None
    }
}

/// Reads one byte.
pub fn consume(scan: &mut Scan, record: &mut Record, b: u8) -> (r: Option<Read>)
    requires
        old(record).wf(),
    ensures
        final(record).last_line == last_line_after(old(record).last_line, r),
        final(record).wf(),
        (*final(scan), final(record).pending(), r) == scan_byte(*old(scan), old(record).pending(), b),
{
    if scan.bad {
        return skip_to_eol(scan, record, b);
    }
    scan.saw_any = true;
    if scan.in_quotes {
        scan.quoted_any = true;
        step_quoted(scan, record, b)
    } else if scan.just_closed {
        step_closed(scan, record, b)
    } else {
        step_bare(scan, record, b)
    }
}

/// Reads `input` from `pos` on until a record is complete or the input is
/// used up; returns where it stopped and what it read.
pub fn next_record(scan: &mut Scan, record: &mut Record, input: &[u8], pos: usize) -> (r: (usize, Option<Read>))
    requires
        old(record).wf(),
        pos <= input.len(),
    ensures
        final(record).last_line == last_line_after(old(record).last_line, r.1),
        final(record).wf(),
        ({
            let (s, p, read, n) = scan_until(*old(scan), old(record).pending(), input@.skip(pos as int));
            &&& *final(scan) == s
            &&& final(record).pending() == p
            &&& r.1 == read
            &&& r.0 == pos + n
        }),
{
    let mut i = pos;
    while i < input.len()
        invariant
            pos <= i <= input.len(),
            record.wf(),
            record.last_line == old(record).last_line,
            scan_until(*old(scan), old(record).pending(), input@.skip(pos as int)) == ({
                let (s, p, read, n) = scan_until(*scan, record.pending(), input@.skip(i as int));
                (s, p, read, (n + (i - pos)) as nat)
            }),
        decreases input.len() - i,
    {
        let b = input[i];
        proof {
            assert(input@.skip(i as int)[0] == b);
            assert(input@.skip(i as int).drop_first() =~= input@.skip(i + 1));
        }
        let r = consume(scan, record, b);
        i = i + 1;
        if r.is_some() {
            return (i, r);
        }
    }
    proof {
        assert(input@.skip(i as int) =~= Seq::<u8>::empty());
    }
    (i, None)
}

/// What the end of input makes of the record being read: a broken file
/// when a quote is still open, nothing when the record is empty, else the
/// last record, whose last line need not end in a line break.
pub fn eof(scan: &mut Scan, record: &mut Record) -> (r: Result<Read, FatalError>)
    requires
        old(record).wf(),
    ensures
        final(record).last_line == match r {
            Ok(Read::Row { last_line, .. }) => last_line,
            _ => old(record).last_line,
        },
        final(record).wf(),
        match eof_read(*old(scan), old(record).pending()) {
            Ok((p, read)) => r == Ok::<Read, FatalError>(read) && final(record).pending() == p,
            Err(e) => r == Err::<Read, FatalError>(e),
        },
{
    if scan.in_quotes {
        return Err(FatalError::UnterminatedQuote);
    }
    if !scan.saw_any {
        return Ok(Read::Done);
    }
    let first_line = record.first_line;
    let last_line = scan.line;
    if scan.bad || scan.capped {
        return Ok(malformed(first_line, last_line));
    }
    flush_field(scan, record);
    if scan.capped {
        return Ok(malformed(first_line, last_line));
    }
    record.last_line = last_line;
    Ok(Read::Row { first_line, last_line })
}

} // verus!

verus! {

/// A field's bytes written inside quotes: every quote doubled.
pub open spec fn escape(f: Seq<u8>) -> Seq<u8>
    decreases f.len(),
{
    if f.len() == 0 {
        Seq::empty()
    } else {
        escape(f.drop_last()) + if f.last() == 34 {
            seq![34u8, 34u8]
        } else {
            seq![f.last()]
        }
    }
}

/// The number of line breaks in `f`.
pub open spec fn newlines(f: Seq<u8>) -> nat
    decreases f.len(),
{
    if f.len() == 0 {
        0
    } else {
        newlines(f.drop_last()) + if f.last() == 10 {
            1nat
        } else {
            0nat
        }
    }
}

proof fn lemma_scan_until_concat(s: Scan, p: Pending, a: Seq<u8>, b: Seq<u8>)
    requires
        scan_until(s, p, a).2 is None,
    ensures
        ({
            let (s1, p1, r1, n1) = scan_until(s, p, a);
            let (s2, p2, r2, n2) = scan_until(s1, p1, b);
            &&& n1 == a.len()
            &&& scan_until(s, p, a + b) == (s2, p2, r2, n2 + a.len())
        }),
    decreases a.len(),
{
    if a.len() == 0 {
        assert(a + b == b);
    } else {
        let (s1, p1, r) = scan_byte(s, p, a[0]);
        assert((a + b)[0] == a[0]);
        assert((a + b).drop_first() == a.drop_first() + b);
        lemma_scan_until_concat(s1, p1, a.drop_first(), b);
    }
}

proof fn lemma_scan_one(s: Scan, p: Pending, b: u8)
    ensures
        ({
            let (s1, p1, r) = scan_byte(s, p, b);
            scan_until(s, p, seq![b]) == (s1, p1, r, 1nat)
        }),
{
    let (s1, p1, r) = scan_byte(s, p, b);
    assert(seq![b].drop_first() =~= Seq::<u8>::empty());
    assert(scan_until(s1, p1, Seq::<u8>::empty()) == (s1, p1, None::<Read>, 0nat));
}

proof fn lemma_escape_in_quotes(s: Scan, p: Pending, f: Seq<u8>)
    requires
        s.in_quotes,
        !s.bad,
        !s.capped,
        !s.just_closed,
        s.saw_any,
        p.size + f.len() <= MAX_RECORD_BYTES,
        s.line + newlines(f) < u64::MAX,
    ensures
        ({
            let (s1, p1, r, n) = scan_until(s, p, escape(f));
            &&& r is None
            &&& n == escape(f).len()
            &&& s1 == Scan { line: (s.line + newlines(f)) as u64, quoted_any: s.quoted_any || f.len() > 0, ..s }
            &&& p1 == Pending { current: p.current + f, size: p.size + f.len(), ..p }
        }),
    decreases f.len(),
{
    if f.len() == 0 {
        assert(p.current + f =~= p.current);
        assert(escape(f) =~= Seq::<u8>::empty());
    } else {
        let g = f.drop_last();
        let b = f.last();
        lemma_escape_in_quotes(s, p, g);
        let (s1, p1, r1, n1) = scan_until(s, p, escape(g));
        let chunk: Seq<u8> = if b == 34 { seq![34u8, 34u8] } else { seq![b] };
        assert(escape(f) == escape(g) + chunk);
        lemma_scan_until_concat(s, p, escape(g), chunk);
        assert(p.current + f =~= (p.current + g).push(b));
        let q = Scan { quoted_any: true, ..s1 };
        if b == 34 {
            let (s2, p2, r2) = scan_byte(s1, p1, 34);
            assert(s2 == Scan { in_quotes: false, just_closed: true, ..q });
            assert(p2 == p1);
            assert(r2 is None);
            let (s3, p3, r3) = scan_byte(s2, p2, 34);
            assert(r3 is None);
            assert(chunk.drop_first() =~= seq![34u8]);
            lemma_scan_one(s2, p2, 34);
            assert(scan_until(s2, p2, chunk.drop_first()) == (s3, p3, r3, 1nat));
            assert(newlines(f) == newlines(g));
        } else {
            let (s2, p2, r2) = scan_byte(s1, p1, b);
            assert(r2 is None);
            lemma_scan_one(s1, p1, b);
            if b == 10 {
                assert(newlines(f) == newlines(g) + 1);
            } else {
                assert(newlines(f) == newlines(g));
            }
        }
    }
}

} // verus!

verus! {

/// Where the scanner stands in the grammar, leaving out whether the record
/// has grown past the cap.
pub open spec fn grammar_state(s: Scan) -> Scan {
    Scan { capped: false, ..s }
}

/// The lines a read record spans, whether it is a row or broken.
pub open spec fn read_span(r: Option<Read>) -> Option<(u64, u64)> {
    match r {
        Some(Read::Row { first_line, last_line }) => Some((first_line, last_line)),
        Some(Read::Malformed { first_line, last_line, .. }) => Some((first_line, last_line)),
        _ => None,
    }
}

proof fn lemma_store_blind(s: Scan, p: Pending, b: u8)
    ensures
        grammar_state(store(s, p, b).0) == grammar_state(s),
        store(s, p, b).1.first_line == p.first_line,
        s.capped ==> store(s, p, b).0.capped,
{
}

proof fn lemma_flush_blind(s: Scan, p: Pending)
    ensures
        grammar_state(flush(s, p).0) == grammar_state(s),
        flush(s, p).1.first_line == p.first_line,
        s.capped ==> flush(s, p).0.capped,
{
}

proof fn lemma_end_record_blind(s1: Scan, p1: Pending, s2: Scan, p2: Pending)
    requires
        grammar_state(s1) == grammar_state(s2),
        p1.first_line == p2.first_line,
    ensures
        grammar_state(end_record(s1, p1).0) == grammar_state(end_record(s2, p2).0),
        read_span(end_record(s1, p1).2) == read_span(end_record(s2, p2).2),
        end_record(s1, p1).1.first_line == p1.first_line,
        end_record(s2, p2).1.first_line == p2.first_line,
        s2.capped ==> end_record(s2, p2).0.capped,
        s2.capped ==> !(end_record(s2, p2).2 matches Some(Read::Row { .. })),
{
    lemma_flush_blind(s1, p1);
    lemma_flush_blind(s2, p2);
}

#[verifier::spinoff_prover]
proof fn lemma_cap_blind_byte(s1: Scan, p1: Pending, s2: Scan, p2: Pending, b: u8)
    requires
        grammar_state(s1) == grammar_state(s2),
        p1.first_line == p2.first_line,
    ensures
        grammar_state(scan_byte(s1, p1, b).0) == grammar_state(scan_byte(s2, p2, b).0),
        read_span(scan_byte(s1, p1, b).2) == read_span(scan_byte(s2, p2, b).2),
        scan_byte(s1, p1, b).1.first_line == p1.first_line,
        scan_byte(s2, p2, b).1.first_line == p2.first_line,
        s2.capped ==> scan_byte(s2, p2, b).0.capped,
        s2.capped ==> !(scan_byte(s2, p2, b).2 matches Some(Read::Row { .. })),
{
    if !s1.bad {
        let t1 = Scan { saw_any: true, ..s1 };
        let t2 = Scan { saw_any: true, ..s2 };
        assert(grammar_state(t1) == grammar_state(t2));
        if t1.in_quotes {
            let q1 = Scan { quoted_any: true, ..t1 };
            let q2 = Scan { quoted_any: true, ..t2 };
            lemma_store_blind(q1, p1, b);
            lemma_store_blind(q2, p2, b);
        } else if t1.just_closed {
            if b == 34 {
                lemma_store_blind(t1, p1, 34);
                lemma_store_blind(t2, p2, 34);
            } else if b == 44 {
                lemma_flush_blind(t1, p1);
                lemma_flush_blind(t2, p2);
            } else if b == 10 {
                lemma_end_record_blind(t1, p1, t2, p2);
            }
        } else {
            if b == 44 {
                lemma_flush_blind(t1, p1);
                lemma_flush_blind(t2, p2);
            } else if b == 10 {
                lemma_end_record_blind(t1, p1, t2, p2);
            } else {
                lemma_store_blind(t1, p1, b);
                lemma_store_blind(t2, p2, b);
            }
        }
    }
}

/// The size cap never moves a record's end.  Two scans that stand at the
/// same place in the grammar, one keeping bytes and one over the cap, end
/// the record at the same byte and report it over the same lines, quotes
/// tracked all the way; the one over the cap reports it broken, and the
/// end of the input finds a quote open for both or for neither.
#[verifier::spinoff_prover]
pub proof fn lemma_cap_keeps_record_bounds(s1: Scan, p1: Pending, s2: Scan, p2: Pending, bytes: Seq<u8>)
    requires
        grammar_state(s1) == grammar_state(s2),
        p1.first_line == p2.first_line,
    ensures
        ({
            let (a1, q1, r1, n1) = scan_until(s1, p1, bytes);
            let (a2, q2, r2, n2) = scan_until(s2, p2, bytes);
            &&& n1 == n2
            &&& read_span(r1) == read_span(r2)
            &&& grammar_state(a1) == grammar_state(a2)
            &&& s2.capped ==> !(r2 matches Some(Read::Row { .. }))
            &&& (eof_read(a1, q1) is Err) == (eof_read(a2, q2) is Err)
        }),
    decreases bytes.len(),
{
    if bytes.len() > 0 {
        lemma_cap_blind_byte(s1, p1, s2, p2, bytes[0]);
        let (t1, o1, x1) = scan_byte(s1, p1, bytes[0]);
        let (t2, o2, x2) = scan_byte(s2, p2, bytes[0]);
        if x1 is None {
            assert(x2 is None);
            lemma_cap_keeps_record_bounds(t1, o1, t2, o2, bytes.drop_first());
        } else {
            assert(x2 is Some);
        }
    }
}

} // verus!

verus! {

/// The bytes of an unquoted field that are kept after its leading spaces:
/// all but carriage returns.
pub open spec fn kept_bytes(f: Seq<u8>) -> Seq<u8>
    decreases f.len(),
{
    if f.len() == 0 {
        Seq::empty()
    } else {
        (if f[0] == 13 {
            Seq::<u8>::empty()
        } else {
            seq![f[0]]
        }) + kept_bytes(f.drop_first())
    }
}

/// What an unquoted field reads as: its leading spaces and its carriage
/// returns are dropped, every other byte is kept.
pub open spec fn bare_text(f: Seq<u8>) -> Seq<u8>
    decreases f.len(),
{
    if f.len() == 0 {
        Seq::empty()
    } else if f[0] == 13 || f[0] == 32 {
        bare_text(f.drop_first())
    } else {
        kept_bytes(f)
    }
}

/// Text that may stand unquoted in a field: no quote, comma or line break.
pub open spec fn plain(f: Seq<u8>) -> bool {
    forall|i: int| 0 <= i < f.len() ==> #[trigger] f[i] != 34 && f[i] != 44 && f[i] != 10
}

/// The scanner inside an unquoted field of a record that is neither broken
/// nor over the cap.
pub open spec fn in_bare_field(s: Scan, line: u64) -> bool {
    &&& !s.in_quotes
    &&& !s.just_closed
    &&& !s.bad
    &&& !s.capped
    &&& s.line == line
}

proof fn lemma_kept_bytes_len(f: Seq<u8>)
    ensures
        kept_bytes(f).len() <= f.len(),
    decreases f.len(),
{
    if f.len() > 0 {
        lemma_kept_bytes_len(f.drop_first());
    }
}

proof fn lemma_bare_text_len(f: Seq<u8>)
    ensures
        bare_text(f).len() <= f.len(),
    decreases f.len(),
{
    if f.len() > 0 {
        if f[0] == 13 || f[0] == 32 {
            lemma_bare_text_len(f.drop_first());
        } else {
            lemma_kept_bytes_len(f);
        }
    }
}

proof fn lemma_scan_kept(s: Scan, p: Pending, f: Seq<u8>)
    requires
        in_bare_field(s, s.line),
        !s.field_start,
        plain(f),
        p.size + f.len() <= MAX_RECORD_BYTES,
    ensures
        ({
            let (s1, p1, r, n) = scan_until(s, p, f);
            &&& r is None
            &&& n == f.len()
            &&& in_bare_field(s1, s.line)
            &&& !s1.field_start
            &&& p1 == Pending { current: p.current + kept_bytes(f), size: p.size + kept_bytes(f).len(), ..p }
        }),
    decreases f.len(),
{
    if f.len() == 0 {
        assert(p.current + kept_bytes(f) =~= p.current);
    } else {
        let b = f[0];
        assert(b != 34 && b != 44 && b != 10);
        let (s1, p1, r1) = scan_byte(s, p, b);
        assert(plain(f.drop_first())) by {
            assert forall|i: int| 0 <= i < f.drop_first().len() implies #[trigger] f.drop_first()[i] != 34
                && f.drop_first()[i] != 44 && f.drop_first()[i] != 10 by {
                assert(f.drop_first()[i] == f[i + 1]);
            }
        }
        lemma_kept_bytes_len(f.drop_first());
        lemma_scan_kept(s1, p1, f.drop_first());
        let head: Seq<u8> = if b == 13 { Seq::empty() } else { seq![b] };
        assert(p.current + kept_bytes(f) =~= p1.current + kept_bytes(f.drop_first()));
        assert(kept_bytes(f).len() == head.len() + kept_bytes(f.drop_first()).len());
    }
}

proof fn lemma_scan_bare(s: Scan, p: Pending, f: Seq<u8>)
    requires
        in_bare_field(s, s.line),
        s.field_start,
        p.current.len() == 0,
        plain(f),
        p.size + f.len() <= MAX_RECORD_BYTES,
    ensures
        ({
            let (s1, p1, r, n) = scan_until(s, p, f);
            &&& r is None
            &&& n == f.len()
            &&& in_bare_field(s1, s.line)
            &&& p1 == Pending { current: bare_text(f), size: p.size + bare_text(f).len(), ..p }
        }),
    decreases f.len(),
{
    if f.len() == 0 {
        assert(p.current =~= Seq::<u8>::empty());
    } else {
        let b = f[0];
        assert(b != 34 && b != 44 && b != 10);
        let (s1, p1, r1) = scan_byte(s, p, b);
        assert(plain(f.drop_first())) by {
            assert forall|i: int| 0 <= i < f.drop_first().len() implies #[trigger] f.drop_first()[i] != 34
                && f.drop_first()[i] != 44 && f.drop_first()[i] != 10 by {
                assert(f.drop_first()[i] == f[i + 1]);
            }
        }
        if b == 13 || b == 32 {
            lemma_scan_bare(s1, p1, f.drop_first());
        } else {
            assert(p1.current =~= seq![b]);
            lemma_scan_kept(s1, p1, f.drop_first());
            assert(seq![b] + kept_bytes(f.drop_first()) =~= kept_bytes(f));
            assert(bare_text(f) == kept_bytes(f));
        }
    }
}

} // verus!

verus! {

/// Fields written one after another with a comma between each two.
pub open spec fn comma_joined(fs: Seq<Seq<u8>>) -> Seq<u8>
    decreases fs.len(),
{
    if fs.len() == 0 {
        Seq::empty()
    } else if fs.len() == 1 {
        fs[0]
    } else {
        fs[0] + seq![44u8] + comma_joined(fs.drop_first())
    }
}

} // verus!

verus! {

/// How a field is written: quoted, with its quotes doubled, when its flag
/// says so, else as it is.
pub open spec fn written_field(f: (bool, Seq<u8>)) -> Seq<u8> {
    if f.0 {
        seq![34u8] + escape(f.1) + seq![34u8]
    } else {
        f.1
    }
}

/// What a written field reads back as: a quoted one exactly, a bare one
/// without its leading spaces and carriage returns.
pub open spec fn field_read_back(f: (bool, Seq<u8>)) -> Seq<u8> {
    if f.0 {
        f.1
    } else {
        bare_text(f.1)
    }
}

/// Any text can be written quoted; bare, only text without quotes, commas
/// or line breaks.
pub open spec fn writable_field(f: (bool, Seq<u8>)) -> bool {
    f.0 || plain(f.1)
}

/// The line breaks a written field spans.
pub open spec fn field_lines(f: (bool, Seq<u8>)) -> nat {
    if f.0 {
        newlines(f.1)
    } else {
        0
    }
}

/// The line breaks a written record's fields span.
pub open spec fn fields_lines(fs: Seq<(bool, Seq<u8>)>) -> nat
    decreases fs.len(),
{
    if fs.len() == 0 {
        0
    } else {
        field_lines(fs[0]) + fields_lines(fs.drop_first())
    }
}

/// A record's fields written one after another, separated by commas.
pub open spec fn written_record(fs: Seq<(bool, Seq<u8>)>) -> Seq<u8> {
    comma_joined(fs.map_values(|f: (bool, Seq<u8>)| written_field(f)))
}

/// The scanner at the start of a field of a record that is neither broken
/// nor over the cap.
pub open spec fn at_field_start(s: Scan) -> bool {
    &&& !s.in_quotes
    &&& !s.just_closed
    &&& !s.bad
    &&& !s.capped
    &&& s.field_start
    &&& !s.spaced
}

proof fn lemma_escape_len(f: Seq<u8>)
    ensures
        escape(f).len() >= f.len(),
    decreases f.len(),
{
    if f.len() > 0 {
        lemma_escape_len(f.drop_last());
    }
}

proof fn lemma_scan_field(s: Scan, p: Pending, f: (bool, Seq<u8>))
    requires
        at_field_start(s),
        p.current.len() == 0,
        writable_field(f),
        p.size + written_field(f).len() <= MAX_RECORD_BYTES,
        s.line + field_lines(f) < u64::MAX,
    ensures
        ({
            let (s1, p1, r, n) = scan_until(s, p, written_field(f));
            &&& r is None
            &&& n == written_field(f).len()
            &&& !s1.in_quotes && !s1.bad && !s1.capped
            &&& s1.line == s.line + field_lines(f)
            &&& p1.fields == p.fields
            &&& p1.current == field_read_back(f)
            &&& p1.first_line == p.first_line
            &&& p1.size <= p.size + written_field(f).len()
        }),
{
    if !f.0 {
        lemma_scan_bare(s, p, f.1);
        lemma_bare_text_len(f.1);
    } else {
        let t = f.1;
        let open = seq![34u8];
        let close = seq![34u8];
        lemma_escape_len(t);
        let (s1, p1, r1) = scan_byte(s, p, 34);
        assert(r1 is None && p1 == p && s1.in_quotes && !s1.just_closed && s1.saw_any);
        lemma_scan_one(s, p, 34);
        lemma_escape_in_quotes(s1, p1, t);
        let (s2, p2, r2, n2) = scan_until(s1, p1, escape(t));
        lemma_scan_until_concat(s, p, open, escape(t));
        let (s3, p3, r3) = scan_byte(s2, p2, 34);
        assert(r3 is None && !s3.in_quotes);
        lemma_scan_one(s2, p2, 34);
        lemma_scan_until_concat(s, p, open + escape(t), close);
        assert(written_field(f) == open + escape(t) + close);
        assert(p.current + t =~= t);
    }
}

proof fn lemma_scan_written(s: Scan, p: Pending, fs: Seq<(bool, Seq<u8>)>)
    requires
        at_field_start(s),
        p.current.len() == 0,
        fs.len() >= 1,
        forall|i: int| 0 <= i < fs.len() ==> writable_field(#[trigger] fs[i]),
        p.size + written_record(fs).len() <= MAX_RECORD_BYTES,
        p.fields.len() + written_record(fs).len() + 3 < usize::MAX,
        s.line + fields_lines(fs) < u64::MAX,
    ensures
        ({
            let (s1, p1, r, n) = scan_until(s, p, written_record(fs));
            &&& r is None
            &&& n == written_record(fs).len()
            &&& !s1.in_quotes && !s1.bad && !s1.capped
            &&& s1.line == s.line + fields_lines(fs)
            &&& p1.fields == p.fields + fs.drop_last().map_values(|f: (bool, Seq<u8>)| field_read_back(f))
            &&& p1.current == field_read_back(fs.last())
            &&& p1.first_line == p.first_line
            &&& p1.size <= p.size + written_record(fs).len()
            &&& p1.fields.len() <= p.fields.len() + written_record(fs).len()
        }),
    decreases fs.len(),
{
    let ws = fs.map_values(|f: (bool, Seq<u8>)| written_field(f));
    assert(ws[0] == written_field(fs[0]));
    if fs.len() == 1 {
        assert(written_record(fs) == written_field(fs[0]));
        assert(fields_lines(fs.drop_first()) == 0);
        assert(fields_lines(fs) == field_lines(fs[0]));
        lemma_scan_field(s, p, fs[0]);
        assert(fs.drop_last().map_values(|f: (bool, Seq<u8>)| field_read_back(f)) =~= Seq::<Seq<u8>>::empty());
        assert(p.fields + Seq::<Seq<u8>>::empty() =~= p.fields);
    } else {
        let rest = fs.drop_first();
        let f = fs[0];
        assert(ws.drop_first() =~= rest.map_values(|g: (bool, Seq<u8>)| written_field(g)));
        let head = written_field(f) + seq![44u8];
        assert(written_record(fs) == head + written_record(rest));
        assert(fields_lines(fs) == field_lines(f) + fields_lines(rest));
        lemma_scan_field(s, p, f);
        let (s1, p1, r1, n1) = scan_until(s, p, written_field(f));
        lemma_scan_until_concat(s, p, written_field(f), seq![44u8]);
        lemma_scan_one(s1, p1, 44);
        let (s2, p2, r2) = scan_byte(s1, p1, 44);
        assert(p2.fields == p.fields.push(field_read_back(f)));
        assert(p2.current.len() == 0);
        assert(at_field_start(s2));
        lemma_scan_until_concat(s, p, head, written_record(rest));
        assert forall|i: int| 0 <= i < rest.len() implies writable_field(#[trigger] rest[i]) by {
            assert(rest[i] == fs[i + 1]);
        }
        lemma_scan_written(s2, p2, rest);
        assert(rest.last() == fs.last());
        assert(p.fields.push(field_read_back(f)) + rest.drop_last().map_values(|g: (bool, Seq<u8>)| field_read_back(g))
            =~= p.fields + fs.drop_last().map_values(|g: (bool, Seq<u8>)| field_read_back(g)));
    }
}

/// What a written record reads back as: fields written bare or quoted, with
/// commas between them and a line break after them, are one record over as
/// many physical lines as its quoted fields hold line breaks; each quoted
/// field reads back exactly, commas, quotes and line breaks included, and
/// each bare one without its leading spaces and carriage returns.
pub proof fn lemma_record_reads_back(fs: Seq<(bool, Seq<u8>)>, line: u64)
    requires
        fs.len() >= 1,
        forall|i: int| 0 <= i < fs.len() ==> writable_field(#[trigger] fs[i]),
        written_record(fs).len() <= MAX_RECORD_BYTES,
        line + fields_lines(fs) + 1 < u64::MAX,
    ensures
        ({
            let input = written_record(fs).push(10);
            let (s, p, r, n) = scan_until(crate::scan::fresh_scan(line), fresh_pending(line), input);
            &&& n == input.len()
            &&& r == Some(Read::Row { first_line: line, last_line: (line + fields_lines(fs)) as u64 })
            &&& p.fields == fs.map_values(|f: (bool, Seq<u8>)| field_read_back(f))
        }),
{
    let s0 = crate::scan::fresh_scan(line);
    let p0 = fresh_pending(line);
    lemma_scan_written(s0, p0, fs);
    let (s1, p1, r1, n1) = scan_until(s0, p0, written_record(fs));
    lemma_scan_until_concat(s0, p0, written_record(fs), seq![10u8]);
    lemma_scan_one(s1, p1, 10);
    assert(written_record(fs).push(10) == written_record(fs) + seq![10u8]);
    assert(Seq::<Seq<u8>>::empty() + fs.drop_last().map_values(|f: (bool, Seq<u8>)| field_read_back(f))
        =~= fs.drop_last().map_values(|f: (bool, Seq<u8>)| field_read_back(f)));
    assert(fs.drop_last().map_values(|f: (bool, Seq<u8>)| field_read_back(f)).push(field_read_back(fs.last()))
        =~= fs.map_values(|f: (bool, Seq<u8>)| field_read_back(f)));
}

} // verus!

verus! {

proof fn lemma_kept_bytes_word(s: Seq<u8>)
    requires
        crate::text::word_text(s),
    ensures
        kept_bytes(s) == s,
    decreases s.len(),
{
    if s.len() > 0 {
        let rest = s.drop_first();
        assert forall|i: int| 0 <= i < rest.len() implies (48 <= #[trigger] rest[i] <= 57 || 97 <= rest[i] <= 122
            || rest[i] == 46) by {
            assert(rest[i] == s[i + 1]);
        }
        lemma_kept_bytes_word(rest);
        assert(seq![s[0]] + rest =~= s);
    }
}

/// Digits, lower-case letters and points stand unquoted and read back as
/// they are.
pub proof fn lemma_word_reads_back(s: Seq<u8>)
    requires
        crate::text::word_text(s),
    ensures
        plain(s),
        bare_text(s) == s,
{
    assert forall|i: int| 0 <= i < s.len() implies #[trigger] s[i] != 34 && s[i] != 44 && s[i] != 10 by {
        assert(48 <= s[i] <= 57 || 97 <= s[i] <= 122 || s[i] == 46);
    }
    if s.len() > 0 {
        assert(48 <= s[0] <= 57 || 97 <= s[0] <= 122 || s[0] == 46);
        lemma_kept_bytes_word(s);
    }
}

} // verus!
