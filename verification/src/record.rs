use vstd::prelude::*;

verus! {

/// One CSV record: the bytes of all its fields, one after another, and
/// where each field starts and ends.  The buffers are reused from record to
/// record.
pub struct Record {
    pub bytes: Vec<u8>,
    /// `bounds[i]` is where field `i` starts and `bounds[i + 1]` where it
    /// ends; the last entry is where the field being read starts.
    pub bounds: Vec<usize>,
    /// The number of finished fields.
    pub width: usize,
    /// The line the record starts on.
    pub first_line: u64,
    /// The line the record ends on, once the scanner has read all of it.
    pub last_line: u64,
}

/// Asking for a field the record does not have.
#[derive(Debug, PartialEq, Eq)]
pub enum FieldError {
    OutOfRange,
}

impl Record {
    /// The bounds describe the bytes.
    pub open spec fn wf(&self) -> bool {
        &&& self.bounds@.len() == self.width + 1
        &&& self.bounds@[0] == 0
        &&& forall|i: int, j: int| 0 <= i <= j <= self.width ==> self.bounds@[i] <= self.bounds@[j]
        &&& self.bounds@[self.width as int] <= self.bytes@.len()
    }

    /// The finished fields.
    pub open spec fn fields(&self) -> Seq<Seq<u8>> {
        Seq::new(
            self.width as nat,
            |i: int| self.bytes@.subrange(self.bounds@[i] as int, self.bounds@[i + 1] as int),
        )
    }

    /// The field being read.
    pub open spec fn current(&self) -> Seq<u8> {
        self.bytes@.skip(self.bounds@[self.width as int] as int)
    }

    /// An empty record that starts at line `first_line`.
    pub fn new(first_line: u64) -> (r: Record)
        ensures
            r.wf(),
            r.fields() == Seq::<Seq<u8>>::empty(),
            r.current() == Seq::<u8>::empty(),
            r.bytes@.len() == 0,
            r.first_line == first_line,
            r.last_line == first_line,
    {
        let mut bounds: Vec<usize> = Vec::new();
        bounds.push(0);
        let r = Record { bytes: Vec::new(), bounds, width: 0, first_line, last_line: first_line };
        assert(r.fields() =~= Seq::<Seq<u8>>::empty());
        assert(r.current() =~= Seq::<u8>::empty());
        r
    }

    /// Empties the record, keeping its buffers, for a record that starts at
    /// line `first_line`.
    pub fn reset(&mut self, first_line: u64)
        ensures
            final(self).wf(),
            final(self).fields() == Seq::<Seq<u8>>::empty(),
            final(self).current() == Seq::<u8>::empty(),
            final(self).bytes@.len() == 0,
            final(self).first_line == first_line,
            final(self).last_line == first_line,
    {
        self.bytes.clear();
        self.bounds.clear();
        self.bounds.push(0);
        self.width = 0;
        self.first_line = first_line;
        self.last_line = first_line;
        assert(self.fields() =~= Seq::<Seq<u8>>::empty());
        assert(self.current() =~= Seq::<u8>::empty());
    }

    /// Appends a byte to the field being read.
    pub fn push(&mut self, b: u8)
        requires
            old(self).wf(),
        ensures
            final(self).wf(),
            final(self).fields() == old(self).fields(),
            final(self).current() == old(self).current().push(b),
            final(self).bytes@.len() == old(self).bytes@.len() + 1,
            final(self).first_line == old(self).first_line,
            final(self).last_line == old(self).last_line,
    {
        self.bytes.push(b);
        assert(self.fields() =~= old(self).fields()) by {
            assert forall|i: int| 0 <= i < self.width implies #[trigger] self.fields()[i] == old(self).fields()[i] by {
                assert(self.bounds@[i] <= self.bounds@[i + 1] <= self.bounds@[self.width as int]);
                assert(self.bytes@.subrange(self.bounds@[i] as int, self.bounds@[i + 1] as int) =~= old(
                    self,
                ).bytes@.subrange(self.bounds@[i] as int, self.bounds@[i + 1] as int));
            }
        }
        assert(self.current() =~= old(self).current().push(b));
    }

    /// Ends the field being read; the next byte starts a new field.
    pub fn close_field(&mut self)
        requires
            old(self).wf(),
            old(self).width < usize::MAX,
        ensures
            final(self).wf(),
            final(self).fields() == old(self).fields().push(old(self).current()),
            final(self).current() == Seq::<u8>::empty(),
            final(self).bytes@ == old(self).bytes@,
            final(self).first_line == old(self).first_line,
            final(self).last_line == old(self).last_line,
    {
        let end = self.bytes.len();
        self.bounds.push(end);
        self.width = self.width + 1;
        assert forall|i: int, j: int| 0 <= i <= j <= self.width implies self.bounds@[i] <= self.bounds@[j] by {
            if j == self.width && i < j {
                assert(old(self).bounds@[i] <= old(self).bounds@[old(self).width as int]);
            }
        }
        assert(self.fields() =~= old(self).fields().push(old(self).current()));
        assert(self.current() =~= Seq::<u8>::empty());
    }

    /// The bytes of field `index`.
    pub fn field(&self, index: usize) -> (r: Result<&[u8], FieldError>)
        ensures
            self.wf() && index < self.width ==> (r matches Ok(f) && f@ == self.fields()[index as int]),
            self.wf() && index >= self.width ==> r == Err::<&[u8], FieldError>(FieldError::OutOfRange),
    {
        if index >= self.width || index >= self.bounds.len() {
            return Err(FieldError::OutOfRange);
        }
        let next = index + 1;
        if next >= self.bounds.len() {
            return Err(FieldError::OutOfRange);
        }
        let start = self.bounds[index];
        let end = self.bounds[next];
        if start > end || end > self.bytes.len() {
            return Err(FieldError::OutOfRange);
        }
        Ok(&self.bytes.as_slice()[start..end])
    }
}

} // verus!
