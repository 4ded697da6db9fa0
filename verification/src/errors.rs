use vstd::prelude::*;
use crate::text::{ascii, push_ascii, push_bytes};

verus! {

#[verifier::external_type_specification]
#[verifier::external_body]
pub struct ExIoError(std::io::Error);

/// Why one row of input was rejected; processing goes on with the next row.
#[derive(Debug)]
pub enum RowError {
    Malformed,
    UnknownType,
    /// The offending client field and why it is not an id.
    BadClient(Vec<u8>),
    /// The offending transaction field and why it is not an id.
    BadTx(Vec<u8>),
    BadAmount,
    DuplicateTx,
    UnknownTx,
    NotDisputed,
    AlreadyDisputed,
    InsufficientFunds,
    AccountLocked,
    WithdrawalDispute,
}

/// Why a whole run stopped.
#[derive(Debug)]
pub enum FatalError {
    /// Reading the input or writing the output failed.
    Io(std::io::Error),
    /// Writing a row report failed.
    Report(std::io::Error),
    Corrupt(RowError),
    /// The first record is not a header naming type, client, tx and amount once each.
    Header,
    /// The input ended inside a quoted field.
    UnterminatedQuote,
}

/// A row error as a value of specifications: the evidence as bytes.
pub enum Fault {
    Malformed,
    UnknownType,
    BadClient(Seq<u8>),
    BadTx(Seq<u8>),
    BadAmount,
    DuplicateTx,
    UnknownTx,
    NotDisputed,
    AlreadyDisputed,
    InsufficientFunds,
    AccountLocked,
    WithdrawalDispute,
}

impl View for RowError {
    type V = Fault;

    open spec fn view(&self) -> Fault {
        match self {
            RowError::Malformed => Fault::Malformed,
            RowError::UnknownType => Fault::UnknownType,
            RowError::BadClient(text) => Fault::BadClient(text@),
            RowError::BadTx(text) => Fault::BadTx(text@),
            RowError::BadAmount => Fault::BadAmount,
            RowError::DuplicateTx => Fault::DuplicateTx,
            RowError::UnknownTx => Fault::UnknownTx,
            RowError::NotDisputed => Fault::NotDisputed,
            RowError::AlreadyDisputed => Fault::AlreadyDisputed,
            RowError::InsufficientFunds => Fault::InsufficientFunds,
            RowError::AccountLocked => Fault::AccountLocked,
            RowError::WithdrawalDispute => Fault::WithdrawalDispute,
        }
    }
}

/// A result with its error seen as a `Fault`.
pub open spec fn faulted<T>(r: Result<T, RowError>) -> Result<T, Fault> {
    match r {
        Ok(v) => Ok(v),
        Err(e) => Err(e@),
    }
}

/// The text that reports a row error.
pub open spec fn fault_text(e: Fault) -> Seq<u8> {
    match e {
        Fault::Malformed => ascii("malformed row"@),
        Fault::UnknownType => ascii("unknown transaction type"@),
        Fault::BadClient(text) => ascii("invalid client id: "@) + text,
        Fault::BadTx(text) => ascii("invalid transaction id: "@) + text,
        Fault::BadAmount => ascii("invalid amount"@),
        Fault::DuplicateTx => ascii("duplicate transaction id"@),
        Fault::UnknownTx => ascii("unknown transaction id"@),
        Fault::NotDisputed => ascii("transaction not under dispute"@),
        Fault::AlreadyDisputed => ascii("transaction already under dispute"@),
        Fault::InsufficientFunds => ascii("insufficient funds"@),
        Fault::AccountLocked => ascii("account locked"@),
        Fault::WithdrawalDispute => ascii("withdrawals cannot be disputed"@),
    }
}

/// The text that reports a row error.
pub open spec fn row_error_text(e: RowError) -> Seq<u8> {
    fault_text(e@)
}

/// The text of a fatal error that carries no outside error.
pub open spec fn fatal_text(e: FatalError) -> Seq<u8> {
    match e {
        FatalError::Corrupt(inner) => ascii("corrupt ledger state: "@) + row_error_text(inner),
        FatalError::Header => ascii(
            "missing or invalid header: expected columns type,client,tx,amount in any order"@,
        ),
        FatalError::UnterminatedQuote => ascii("broken file: quoted field opened but never closed"@),
        FatalError::Io(_) => ascii("io failure: "@),
        FatalError::Report(_) => ascii("report sink failure: "@),
    }
}

/// `std::io::Error`'s `Display` text, as bytes.  Nothing is claimed of it.
#[verifier::external_body]
fn io_error_text(e: &std::io::Error) -> Vec<u8> {
    format!("{e}").into_bytes()
}

impl RowError {
    /// Appends the text that reports this error.
    pub fn write_message(&self, out: &mut Vec<u8>)
        ensures
            final(out)@ == old(out)@ + row_error_text(*self),
    {
        match self {
            RowError::Malformed => {
                proof { reveal_strlit("malformed row"); }
                push_ascii(out, "malformed row");
            },
            RowError::UnknownType => {
                proof { reveal_strlit("unknown transaction type"); }
                push_ascii(out, "unknown transaction type");
            },
            RowError::BadClient(text) => {
                proof { reveal_strlit("invalid client id: "); }
                push_ascii(out, "invalid client id: ");
                push_bytes(out, text.as_slice());
            },
            RowError::BadTx(text) => {
                proof { reveal_strlit("invalid transaction id: "); }
                push_ascii(out, "invalid transaction id: ");
                push_bytes(out, text.as_slice());
            },
            RowError::BadAmount => {
                proof { reveal_strlit("invalid amount"); }
                push_ascii(out, "invalid amount");
            },
            RowError::DuplicateTx => {
                proof { reveal_strlit("duplicate transaction id"); }
                push_ascii(out, "duplicate transaction id");
            },
            RowError::UnknownTx => {
                proof { reveal_strlit("unknown transaction id"); }
                push_ascii(out, "unknown transaction id");
            },
            RowError::NotDisputed => {
                proof { reveal_strlit("transaction not under dispute"); }
                push_ascii(out, "transaction not under dispute");
            },
            RowError::AlreadyDisputed => {
                proof { reveal_strlit("transaction already under dispute"); }
                push_ascii(out, "transaction already under dispute");
            },
            RowError::InsufficientFunds => {
                proof { reveal_strlit("insufficient funds"); }
                push_ascii(out, "insufficient funds");
            },
            RowError::AccountLocked => {
                proof { reveal_strlit("account locked"); }
                push_ascii(out, "account locked");
            },
            RowError::WithdrawalDispute => {
                proof { reveal_strlit("withdrawals cannot be disputed"); }
                push_ascii(out, "withdrawals cannot be disputed");
            },
        }
    }

    /// The text that reports this error.
    pub fn message(&self) -> (r: Vec<u8>)
        ensures
            r@ == row_error_text(*self),
    {
        let mut out: Vec<u8> = Vec::new();
        self.write_message(&mut out);
        out
    }
}

impl FatalError {
    /// The text that reports this error; for an outside failure, its own
    /// text follows the prefix.
    pub fn message(&self) -> (r: Vec<u8>)
        ensures
            match *self {
                FatalError::Io(_) | FatalError::Report(_) => r@.take(fatal_text(*self).len() as int) == fatal_text(*self)
                    && fatal_text(*self).len() <= r@.len(),
                _ => r@ == fatal_text(*self),
            },
    {
        let mut out: Vec<u8> = Vec::new();
        match self {
            FatalError::Io(e) => {
                proof { reveal_strlit("io failure: "); }
                push_ascii(&mut out, "io failure: ");
                let detail = io_error_text(e);
                push_bytes(&mut out, detail.as_slice());
                assert(out@.take(fatal_text(*self).len() as int) =~= fatal_text(*self));
            },
            FatalError::Report(e) => {
                proof { reveal_strlit("report sink failure: "); }
                push_ascii(&mut out, "report sink failure: ");
                let detail = io_error_text(e);
                push_bytes(&mut out, detail.as_slice());
                assert(out@.take(fatal_text(*self).len() as int) =~= fatal_text(*self));
            },
            FatalError::Corrupt(inner) => {
                proof { reveal_strlit("corrupt ledger state: "); }
                push_ascii(&mut out, "corrupt ledger state: ");
                inner.write_message(&mut out);
            },
            FatalError::Header => {
                proof {
                    reveal_strlit(
                        "missing or invalid header: expected columns type,client,tx,amount in any order",
                    );
                }
                push_ascii(
                    &mut out,
                    "missing or invalid header: expected columns type,client,tx,amount in any order",
                );
            },
            FatalError::UnterminatedQuote => {
                proof { reveal_strlit("broken file: quoted field opened but never closed"); }
                push_ascii(&mut out, "broken file: quoted field opened but never closed");
            },
        }
        out
    }
}

impl From<std::io::Error> for FatalError {
    fn from(e: std::io::Error) -> (r: FatalError)
        ensures
            r == FatalError::Io(e),
    {
        FatalError::Io(e)
    }
}

impl vstd::std_specs::convert::FromSpecImpl<std::io::Error> for FatalError {
    open spec fn obeys_from_spec() -> bool {
        true
    }

    open spec fn from_spec(v: std::io::Error) -> FatalError {
        FatalError::Io(v)
    }
}

impl From<RowError> for FatalError {
    fn from(e: RowError) -> (r: FatalError)
        ensures
            r == FatalError::Corrupt(e),
    {
        FatalError::Corrupt(e)
    }
}

impl vstd::std_specs::convert::FromSpecImpl<RowError> for FatalError {
    open spec fn obeys_from_spec() -> bool {
        true
    }

    open spec fn from_spec(v: RowError) -> FatalError {
        FatalError::Corrupt(v)
    }
}

} // verus!
