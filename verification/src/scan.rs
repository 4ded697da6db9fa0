use vstd::prelude::*;

verus! {

/// Where the CSV scanner stands inside the record being read.
#[derive(Clone, Copy, Debug, PartialEq, Eq)]
pub struct Scan {
    /// Inside a quoted field.
    pub in_quotes: bool,
    /// No byte of the current field has been taken yet.
    pub field_start: bool,
    /// Leading spaces of the current field have been skipped.
    pub spaced: bool,
    /// Just after the closing quote of a quoted field.
    pub just_closed: bool,
    /// Some byte of this record has been read.
    pub saw_any: bool,
    /// The record is broken: the rest of its line is skipped.
    pub bad: bool,
    /// Some quoted field has been seen in this record.
    pub quoted_any: bool,
    /// The record grew past the size cap: its bytes are no longer kept.
    pub capped: bool,
    /// The physical line being read.
    pub line: u64,
}

/// The scanner at the start of a record on line `first_line`.
pub open spec fn fresh_scan(first_line: u64) -> Scan {
    Scan {
        in_quotes: false,
        field_start: true,
        spaced: false,
        just_closed: false,
        saw_any: false,
        bad: false,
        quoted_any: false,
        capped: false,
        line: first_line,
    }
}

impl Scan {
    pub fn new(first_line: u64) -> (s: Scan)
        ensures
            s == fresh_scan(first_line),
    {
        Scan {
            in_quotes: false,
            field_start: true,
        spaced: false,
            just_closed: false,
            saw_any: false,
            bad: false,
            quoted_any: false,
            capped: false,
            line: first_line,
        }
    }

    /// Starts over for a record on line `first_line`.
    pub fn reset(&mut self, first_line: u64)
        ensures
            *final(self) == fresh_scan(first_line),
    {
        self.in_quotes = false;
        self.field_start = true;
        self.spaced = false;
        self.just_closed = false;
        self.saw_any = false;
        self.bad = false;
        self.quoted_any = false;
        self.capped = false;
        self.line = first_line;
    }
}

} // verus!
