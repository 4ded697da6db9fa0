use vstd::prelude::*;
use vstd::utf8::valid_utf8;
use crate::errors::{Fault, RowError, faulted};
use crate::ids::{ClientId, TxId};
use crate::money::{Money, money_text, parse_money};
use crate::record::Record;
use crate::row::{Row, RowKind};
use crate::text::{
    ascii, decimal, eq_ignore_case, equals_ignore_case, lower, parse_uint, parse_uint_bytes, push_ascii,
    push_bytes, trim, trim_bounds, is_utf8, IntError,
};

verus! {

/// Which field of a record holds one column, once the header has named it.
#[derive(Clone, Copy, Debug, PartialEq, Eq)]
pub struct Slot {
    pub seen: bool,
    pub index: usize,
}

/// Where each column stands in a record, and how many fields a record has.
#[derive(Clone, Copy, Debug, PartialEq, Eq)]
pub struct Columns {
    pub kind: usize,
    pub client: usize,
    pub tx: usize,
    pub amount: usize,
    pub width: usize,
}

impl Slot {
    pub fn empty() -> (s: Slot)
        ensures
            !s.seen,
            s.index == 0,
    {
        Slot { seen: false, index: 0 }
    }

    /// Records that field `index` holds this column; a column named twice is malformed.
    pub fn claim(&mut self, index: usize) -> (r: Result<(), RowError>)
        ensures
            old(self).seen ==> r == Err::<(), RowError>(RowError::Malformed) && *final(self) == *old(self),
            !old(self).seen ==> r is Ok && *final(self) == (Slot { seen: true, index }),
    {
        if self.seen {
            return Err(RowError::Malformed);
        }
        self.seen = true;
        self.index = index;
        Ok(())
    }

    /// The field that holds this column; a column never named is malformed.
    pub fn position(&self) -> (r: Result<usize, RowError>)
        ensures
            self.seen ==> r == Ok::<usize, RowError>(self.index),
            !self.seen ==> r == Err::<usize, RowError>(RowError::Malformed),
    {
        if !self.seen {
            return Err(RowError::Malformed);
        }
        Ok(self.index)
    }
}

/// `s` without a leading UTF-8 byte order mark.
pub open spec fn strip_bom(s: Seq<u8>) -> Seq<u8> {
    if s.len() >= 3 && s[0] == 0xEF && s[1] == 0xBB && s[2] == 0xBF {
        s.skip(3)
    } else {
        s
    }
}

/// The column name in header field `i`: trimmed, and the first one without
/// a byte order mark.
pub open spec fn header_name(fields: Seq<Seq<u8>>, i: int) -> Seq<u8> {
    trim(
        if i == 0 {
            strip_bom(fields[i])
        } else {
            fields[i]
        },
    )
}

/// Which column a header name names, in any ASCII case: 0 type, 1 client,
/// 2 tx, 3 amount.
pub open spec fn column_word(name: Seq<u8>) -> Option<nat> {
    if eq_ignore_case(name, ascii("type"@)) {
        Some(0)
    } else if eq_ignore_case(name, ascii("client"@)) {
        Some(1)
    } else if eq_ignore_case(name, ascii("tx"@)) {
        Some(2)
    } else if eq_ignore_case(name, ascii("amount"@)) {
        Some(3)
    } else {
        None
    }
}

pub open spec fn header_words(fields: Seq<Seq<u8>>) -> Seq<Option<nat>> {
    Seq::new(fields.len(), |i: int| column_word(header_name(fields, i)))
}

/// A header names each of the four columns exactly once, and nothing else.
pub open spec fn header_ok(fields: Seq<Seq<u8>>) -> bool {
    let w = header_words(fields);
    &&& forall|i: int| 0 <= i < w.len() ==> (#[trigger] w[i]) is Some
    &&& forall|i: int, j: int| 0 <= i < j < w.len() ==> w[i] != w[j]
    &&& names(w, 0)
    &&& names(w, 1)
    &&& names(w, 2)
    &&& names(w, 3)
}

/// Some header word names column `k`.
pub open spec fn names(w: Seq<Option<nat>>, k: nat) -> bool {
    exists|i: int| 0 <= i < w.len() && #[trigger] w[i] == Some(k)
}

/// The field that holds column `k`.
pub open spec fn column_of(fields: Seq<Seq<u8>>, k: nat) -> int {
    choose|i: int| 0 <= i < fields.len() && header_words(fields)[i] == Some(k)
}

/// What a header record gives: the columns it names, or `Malformed`.
pub open spec fn header_spec(fields: Seq<Seq<u8>>) -> Result<Columns, RowError> {
    if header_ok(fields) {
        Ok(
            Columns {
                kind: column_of(fields, 0) as usize,
                client: column_of(fields, 1) as usize,
                tx: column_of(fields, 2) as usize,
                amount: column_of(fields, 3) as usize,
                width: fields.len() as usize,
            },
        )
    } else {
        Err(RowError::Malformed)
    }
}

/// The slot for column `k` agrees with the first `i` header words.
pub open spec fn slot_ok(slot: Slot, w: Seq<Option<nat>>, i: int, k: nat) -> bool {
    &&& slot.seen == exists|j: int| 0 <= j < i && w[j] == Some(k)
    &&& slot.seen ==> 0 <= slot.index < i && w[slot.index as int] == Some(k)
}

/// The column word of header field `i` of the record.
fn header_word(record: &Record, i: usize) -> (r: Option<u8>)
    requires
        record.wf(),
        i < record.width,
    ensures
        match column_word(header_name(record.fields(), i as int)) {
            Some(k) => r == Some(k as u8),
            None => r is None,
        },
{
    let raw = match record.field(i) {
        Ok(f) => f,
        Err(_) => return None,
    };
    let n = raw.len();
    let skip: usize = if i == 0 && n >= 3 && raw[0] == 0xEF && raw[1] == 0xBB && raw[2] == 0xBF {
        3
    } else {
        0
    };
    let body = &raw[skip..n];
    proof {
        assert(body@ == (if i == 0 { strip_bom(raw@) } else { raw@ }));
    }
    let (a, b) = trim_bounds(body);
    let name = &body[a..b];
    proof {
        reveal_strlit("type");
        reveal_strlit("client");
        reveal_strlit("tx");
        reveal_strlit("amount");
    }
    if equals_ignore_case(name, "type") {
        Some(0)
    } else if equals_ignore_case(name, "client") {
        Some(1)
    } else if equals_ignore_case(name, "tx") {
        Some(2)
    } else if equals_ignore_case(name, "amount") {
        Some(3)
    } else {
        None
    }
}

/// Reads the header: its fields, trimmed and in any ASCII case, must name
/// type, client, tx and amount once each, in any order, and nothing else.
pub fn parse_header(record: &Record) -> (r: Result<Columns, RowError>)
    requires
        record.wf(),
    ensures
        r == header_spec(record.fields()),
{
    let ghost fields = record.fields();
    let ghost w = header_words(fields);
    let mut kind = Slot::empty();
    let mut client = Slot::empty();
    let mut tx = Slot::empty();
    let mut amount = Slot::empty();
    let mut i: usize = 0;
    while i < record.width
        invariant
            record.wf(),
            fields == record.fields(),
            w == header_words(fields),
            i <= record.width,
            forall|j: int| 0 <= j < i ==> (#[trigger] w[j]) is Some,
            forall|j: int, m: int| 0 <= j < m < i ==> w[j] != w[m],
            slot_ok(kind, w, i as int, 0),
            slot_ok(client, w, i as int, 1),
            slot_ok(tx, w, i as int, 2),
            slot_ok(amount, w, i as int, 3),
        decreases record.width - i,
    {
        let word = header_word(record, i);
        let claimed = match word {
            Some(0) => kind.claim(i),
            Some(1) => client.claim(i),
            Some(2) => tx.claim(i),
            Some(3) => amount.claim(i),
            _ => Err(RowError::Malformed),
        };
        if claimed.is_err() {
            proof {
                assert(!header_ok(fields)) by {
                    if w[i as int] is Some {
                        let k = w[i as int]->0;
                        let j = choose|j: int| 0 <= j < i && w[j] == Some(k);
                        assert(w[j] == w[i as int]);
                    }
                }
            }
            return Err(RowError::Malformed);
        }
        proof {
            assert forall|j: int, m: int| 0 <= j < m < i + 1 implies w[j] != w[m] by {
                if m == i {
                    let k = w[m]->0;
                    if w[j] == w[m] {
                        assert(exists|x: int| 0 <= x < i && w[x] == Some(k));
                    }
                }
            }
        }
        i = i + 1;
    }
    let ghost all_named = kind.seen && client.seen && tx.seen && amount.seen;
    if !(kind.seen && client.seen && tx.seen && amount.seen) {
        proof {
            assert(!header_ok(fields)) by {
                if header_ok(fields) {
                    assert(names(w, 0));
                    assert(names(w, 1));
                    assert(names(w, 2));
                    assert(names(w, 3));
                }
            }
        }
        return Err(RowError::Malformed);
    }
    proof {
        assert(header_ok(fields)) by {
            assert(w[kind.index as int] == Some(0nat));
            assert(w[client.index as int] == Some(1nat));
            assert(w[tx.index as int] == Some(2nat));
            assert(w[amount.index as int] == Some(3nat));
        }
        assert forall|k: nat, j: int| 0 <= j < w.len() && w[j] == Some(k) && (k == 0 ==> j != kind.index)
            && (k == 1 ==> j != client.index) && (k == 2 ==> j != tx.index) && (k == 3 ==> j != amount.index)
            implies k >= 4 by {
            if k == 0 {
                assert(w[j] == w[kind.index as int]);
            } else if k == 1 {
                assert(w[j] == w[client.index as int]);
            } else if k == 2 {
                assert(w[j] == w[tx.index as int]);
            } else if k == 3 {
                assert(w[j] == w[amount.index as int]);
            }
        }
        assert(column_of(fields, 0) == kind.index);
        assert(column_of(fields, 1) == client.index);
        assert(column_of(fields, 2) == tx.index);
        assert(column_of(fields, 3) == amount.index);
    }
    Ok(Columns {
        kind: kind.index,
        client: client.index,
        tx: tx.index,
        amount: amount.index,
        width: record.width,
    })
}


/// The text of a field: the field trimmed, when it is UTF-8; a field that
/// is not UTF-8 makes the row malformed.
pub open spec fn field_spec(fields: Seq<Seq<u8>>, index: int) -> Result<Seq<u8>, Fault> {
    if index < 0 || index >= fields.len() {
        Err(Fault::Malformed)
    } else {
        if valid_utf8(fields[index]) {
            Ok(trim(fields[index]))
        } else {
            Err(Fault::Malformed)
        }
    }
}

/// Rows that move no money must leave the amount empty.
pub open spec fn no_amount_spec(kind: RowKind, amount_text: Seq<u8>) -> Result<RowKind, Fault> {
    if amount_text.len() != 0 {
        Err(Fault::Malformed)
    } else {
        Ok(kind)
    }
}

/// The row kind that a type text names, in any ASCII case, with its amount.
pub open spec fn kind_spec(kind_text: Seq<u8>, amount_text: Seq<u8>) -> Result<RowKind, Fault> {
    if eq_ignore_case(kind_text, ascii("deposit"@)) {
        match parse_money(amount_text) {
            Ok(amount) => Ok(RowKind::Deposit { amount }),
            Err(e) => Err(e@),
        }
    } else if eq_ignore_case(kind_text, ascii("withdrawal"@)) {
        match parse_money(amount_text) {
            Ok(amount) => Ok(RowKind::Withdrawal { amount }),
            Err(e) => Err(e@),
        }
    } else if eq_ignore_case(kind_text, ascii("dispute"@)) {
        no_amount_spec(RowKind::Dispute, amount_text)
    } else if eq_ignore_case(kind_text, ascii("resolve"@)) {
        no_amount_spec(RowKind::Resolve, amount_text)
    } else if eq_ignore_case(kind_text, ascii("chargeback"@)) {
        no_amount_spec(RowKind::Chargeback, amount_text)
    } else {
        Err(Fault::UnknownType)
    }
}

/// How `std` words each reason why text is no integer.
pub open spec fn int_error_text(e: IntError) -> Seq<u8> {
    match e {
        IntError::Empty => ascii("cannot parse integer from empty string"@),
        IntError::InvalidDigit => ascii("invalid digit found in string"@),
        IntError::PosOverflow => ascii("number too large to fit in target type"@),
    }
}

/// The quoted text and the reason it is no id.
pub open spec fn evidence_spec(text: Seq<u8>, e: IntError) -> Seq<u8> {
    ascii("'"@) + text + ascii("' ("@) + int_error_text(e) + ascii(")"@)
}

pub open spec fn client_spec(text: Seq<u8>) -> Result<ClientId, Fault> {
    match parse_uint(text, 65535) {
        Ok(v) => Ok(ClientId(v as u16)),
        Err(e) => Err(Fault::BadClient(evidence_spec(text, e))),
    }
}

pub open spec fn tx_spec(text: Seq<u8>) -> Result<TxId, Fault> {
    match parse_uint(text, 4294967295) {
        Ok(v) => Ok(TxId(v as u32)),
        Err(e) => Err(Fault::BadTx(evidence_spec(text, e))),
    }
}

/// What a data record gives, read through the header's columns: it must
/// have the header's width; the fields are read type, client, tx, amount,
/// then the kind with its amount, the client and the transaction are
/// parsed, and the first failure is the answer.
pub open spec fn row_spec(cols: Columns, fields: Seq<Seq<u8>>) -> Result<Row, Fault> {
    if fields.len() != cols.width {
        Err(Fault::Malformed)
    } else {
        match field_spec(fields, cols.kind as int) {
            Err(e) => Err(e),
            Ok(kind_text) => match field_spec(fields, cols.client as int) {
                Err(e) => Err(e),
                Ok(client_text) => match field_spec(fields, cols.tx as int) {
                    Err(e) => Err(e),
                    Ok(tx_text) => match field_spec(fields, cols.amount as int) {
                        Err(e) => Err(e),
                        Ok(amount_text) => match kind_spec(kind_text, amount_text) {
                            Err(e) => Err(e),
                            Ok(kind) => match client_spec(client_text) {
                                Err(e) => Err(e),
                                Ok(client) => match tx_spec(tx_text) {
                                    Err(e) => Err(e),
                                    Ok(tx) => Ok(Row { kind, client, tx }),
                                },
                            },
                        },
                    },
                },
            },
        }
    }
}

impl Columns {
    /// Reads a data record through these columns.
    pub fn parse_row(&self, record: &Record) -> (r: Result<Row, RowError>)
        requires
            record.wf(),
        ensures
            faulted(r) == row_spec(*self, record.fields()),
    {
        if record.width != self.width {
            return Err(RowError::Malformed);
        }
        let kind_text = match field_at(record, self.kind) {
            Ok(t) => t,
            Err(e) => return Err(e),
        };
        let client_text = match field_at(record, self.client) {
            Ok(t) => t,
            Err(e) => return Err(e),
        };
        let tx_text = match field_at(record, self.tx) {
            Ok(t) => t,
            Err(e) => return Err(e),
        };
        let amount_text = match field_at(record, self.amount) {
            Ok(t) => t,
            Err(e) => return Err(e),
        };
        let kind = match kind_of(kind_text, amount_text) {
            Ok(k) => k,
            Err(e) => return Err(e),
        };
        let client = match parse_client(client_text) {
            Ok(c) => c,
            Err(e) => return Err(e),
        };
        let tx = match parse_tx(tx_text) {
            Ok(t) => t,
            Err(e) => return Err(e),
        };
        Ok(Row { kind, client, tx })
    }
}

/// The trimmed text of field `index`, or why it has none.
fn field_at(record: &Record, index: usize) -> (r: Result<&[u8], RowError>)
    requires
        record.wf(),
    ensures
        match field_spec(record.fields(), index as int) {
            Ok(t) => r matches Ok(f) && f@ == t,
            Err(e) => r matches Err(x) && x@ == e,
        },
{
    let raw = match record.field(index) {
        Ok(bytes) => bytes,
        Err(_) => return Err(RowError::Malformed),
    };
    if !is_utf8(raw) {
        return Err(RowError::Malformed);
    }
    let (a, b) = trim_bounds(raw);
    Ok(&raw[a..b])
}

fn no_amount_kind(kind: RowKind, amount_text: &[u8]) -> (r: Result<RowKind, RowError>)
    ensures
        faulted(r) == no_amount_spec(kind, amount_text@),
{
    if amount_text.len() != 0 {
        return Err(RowError::Malformed);
    }
    Ok(kind)
}

fn kind_of(kind_text: &[u8], amount_text: &[u8]) -> (r: Result<RowKind, RowError>)
    ensures
        faulted(r) == kind_spec(kind_text@, amount_text@),
{
    proof {
        reveal_strlit("deposit");
        reveal_strlit("withdrawal");
        reveal_strlit("dispute");
        reveal_strlit("resolve");
        reveal_strlit("chargeback");
    }
    if equals_ignore_case(kind_text, "deposit") {
        return match Money::parse_bytes(amount_text) {
            Ok(amount) => Ok(RowKind::Deposit { amount }),
            Err(e) => Err(e),
        };
    }
    if equals_ignore_case(kind_text, "withdrawal") {
        return match Money::parse_bytes(amount_text) {
            Ok(amount) => Ok(RowKind::Withdrawal { amount }),
            Err(e) => Err(e),
        };
    }
    if equals_ignore_case(kind_text, "dispute") {
        return no_amount_kind(RowKind::Dispute, amount_text);
    }
    if equals_ignore_case(kind_text, "resolve") {
        return no_amount_kind(RowKind::Resolve, amount_text);
    }
    if equals_ignore_case(kind_text, "chargeback") {
        return no_amount_kind(RowKind::Chargeback, amount_text);
    }
    Err(RowError::UnknownType)
}

/// The text and the reason it is no id: `'text' (reason)`.
pub(crate) fn evidence(text: &[u8], e: IntError) -> (r: Vec<u8>)
    ensures
        r@ == evidence_spec(text@, e),
{
    let mut out: Vec<u8> = Vec::new();
    proof {
        reveal_strlit("'");
        reveal_strlit("' (");
        reveal_strlit(")");
        reveal_strlit("cannot parse integer from empty string");
        reveal_strlit("invalid digit found in string");
        reveal_strlit("number too large to fit in target type");
    }
    push_ascii(&mut out, "'");
    push_bytes(&mut out, text);
    push_ascii(&mut out, "' (");
    match e {
        IntError::Empty => push_ascii(&mut out, "cannot parse integer from empty string"),
        IntError::InvalidDigit => push_ascii(&mut out, "invalid digit found in string"),
        IntError::PosOverflow => push_ascii(&mut out, "number too large to fit in target type"),
    }
    push_ascii(&mut out, ")");
    out
}

fn parse_client(text: &[u8]) -> (r: Result<ClientId, RowError>)
    ensures
        faulted(r) == client_spec(text@),
{
    match parse_uint_bytes(text, 65535) {
        Ok(v) => Ok(ClientId(v as u16)),
        Err(e) => Err(RowError::BadClient(evidence(text, e))),
    }
}

fn parse_tx(text: &[u8]) -> (r: Result<TxId, RowError>)
    ensures
        faulted(r) == tx_spec(text@),
{
    match parse_uint_bytes(text, 4294967295) {
        Ok(v) => Ok(TxId(v)),
        Err(e) => Err(RowError::BadTx(evidence(text, e))),
    }
}
} // verus!

verus! {

/// The columns of the header `type,client,tx,amount`.
pub open spec fn canonical_columns() -> Columns {
    Columns { kind: 0, client: 1, tx: 2, amount: 3, width: 4 }
}

/// An accepted header has exactly the four columns, each in a field of its own.
pub proof fn lemma_header_is_four_columns(header: Seq<Seq<u8>>)
    requires
        header_spec(header) is Ok,
    ensures
        ({
            let c = header_spec(header)->Ok_0;
            &&& header.len() == 4
            &&& c.width == 4
            &&& c.kind < 4 && c.client < 4 && c.tx < 4 && c.amount < 4
            &&& c.kind != c.client && c.kind != c.tx && c.kind != c.amount
            &&& c.client != c.tx && c.client != c.amount && c.tx != c.amount
        }),
{
    let w = header_words(header);
    assert forall|i: int| 0 <= i < w.len() implies (#[trigger] w[i]) matches Some(k) && k < 4 by {
        assert(w[i] == column_word(header_name(header, i)));
    }
    if w.len() >= 5 {
        assert(w[0] is Some && w[1] is Some && w[2] is Some && w[3] is Some && w[4] is Some);
        assert(w[0] != w[1] && w[0] != w[2] && w[0] != w[3] && w[0] != w[4]);
        assert(w[1] != w[2] && w[1] != w[3] && w[1] != w[4]);
        assert(w[2] != w[3] && w[2] != w[4] && w[3] != w[4]);
        assert(false);
    }
    let k0 = column_of(header, 0);
    let k1 = column_of(header, 1);
    let k2 = column_of(header, 2);
    let k3 = column_of(header, 3);
    assert(names(w, 0) && names(w, 1) && names(w, 2) && names(w, 3));
    assert(0 <= k0 < header.len() && w[k0] == Some(0nat));
    assert(0 <= k1 < header.len() && w[k1] == Some(1nat));
    assert(0 <= k2 < header.len() && w[k2] == Some(2nat));
    assert(0 <= k3 < header.len() && w[k3] == Some(3nat));
}

/// The header, not the position, decides what a field means: a record read
/// through any accepted header gives what its fields, put in the order
/// type, client, tx, amount, give through the header `type,client,tx,amount`.
pub proof fn lemma_columns_follow_the_header(header: Seq<Seq<u8>>, fields: Seq<Seq<u8>>)
    requires
        header_spec(header) is Ok,
        fields.len() == header.len(),
    ensures
        ({
            let c = header_spec(header)->Ok_0;
            row_spec(c, fields) == row_spec(
                canonical_columns(),
                seq![fields[c.kind as int], fields[c.client as int], fields[c.tx as int], fields[c.amount as int]],
            )
        }),
{
    lemma_header_is_four_columns(header);
    let c = header_spec(header)->Ok_0;
    let ordered = seq![fields[c.kind as int], fields[c.client as int], fields[c.tx as int], fields[c.amount as int]];
    assert(field_spec(fields, c.kind as int) == field_spec(ordered, 0));
    assert(field_spec(fields, c.client as int) == field_spec(ordered, 1));
    assert(field_spec(fields, c.tx as int) == field_spec(ordered, 2));
    assert(field_spec(fields, c.amount as int) == field_spec(ordered, 3));
}

} // verus!

verus! {

/// The header `type,client,tx,amount`, as fields.
pub open spec fn canonical_header() -> Seq<Seq<u8>> {
    seq![ascii("type"@), ascii("client"@), ascii("tx"@), ascii("amount"@)]
}

/// The header `type,client,tx,amount` names the columns in that order.
pub proof fn lemma_canonical_header()
    ensures
        header_spec(canonical_header()) == Ok::<Columns, RowError>(canonical_columns()),
        forall|i: int| 0 <= i < 4 ==> crate::text::word_text(#[trigger] canonical_header()[i]),
{
    lemma_column_words();
    lemma_header_in_any_order(canonical_header(), 0, 1, 2, 3);
}

} // verus!

verus! {

/// The type word of a row's kind.
pub open spec fn kind_word(k: RowKind) -> Seq<u8> {
    match k {
        RowKind::Deposit { .. } => ascii("deposit"@),
        RowKind::Withdrawal { .. } => ascii("withdrawal"@),
        RowKind::Dispute => ascii("dispute"@),
        RowKind::Resolve => ascii("resolve"@),
        RowKind::Chargeback => ascii("chargeback"@),
    }
}

/// The amount text of a row's kind: the amount of a deposit or withdrawal,
/// nothing for the others.
pub open spec fn amount_word(k: RowKind) -> Seq<u8> {
    match k {
        RowKind::Deposit { amount } => money_text(amount.0 as int),
        RowKind::Withdrawal { amount } => money_text(amount.0 as int),
        _ => Seq::empty(),
    }
}

/// A row's fields as written under the header `type,client,tx,amount`.
pub open spec fn row_fields(r: Row) -> Seq<Seq<u8>> {
    seq![kind_word(r.kind), decimal(r.client.0 as nat), decimal(r.tx.0 as nat), amount_word(r.kind)]
}

/// A row written under the header `type,client,tx,amount`, without negative
/// amounts, reads back as the same row; its fields are digits, letters and
/// points, none longer than 25 bytes.
pub proof fn lemma_row_fields_read_back(r: Row)
    requires
        crate::ledger::row_amount_nonnegative(r),
    ensures
        row_spec(canonical_columns(), row_fields(r)) == Ok::<Row, Fault>(r),
        forall|i: int| 0 <= i < 4 ==> crate::text::word_text(#[trigger] row_fields(r)[i]) && row_fields(r)[i].len() <= 25,
{
    reveal_strlit("deposit");
    reveal_strlit("withdrawal");
    reveal_strlit("dispute");
    reveal_strlit("resolve");
    reveal_strlit("chargeback");
    let f = row_fields(r);
    let dep = ascii("deposit"@);
    let wd = ascii("withdrawal"@);
    let dis = ascii("dispute"@);
    let res = ascii("resolve"@);
    let cb = ascii("chargeback"@);
    assert(dep =~= seq![100u8, 101u8, 112u8, 111u8, 115u8, 105u8, 116u8]);
    assert(wd =~= seq![119u8, 105u8, 116u8, 104u8, 100u8, 114u8, 97u8, 119u8, 97u8, 108u8]);
    assert(dis =~= seq![100u8, 105u8, 115u8, 112u8, 117u8, 116u8, 101u8]);
    assert(res =~= seq![114u8, 101u8, 115u8, 111u8, 108u8, 118u8, 101u8]);
    assert(cb =~= seq![99u8, 104u8, 97u8, 114u8, 103u8, 101u8, 98u8, 97u8, 99u8, 107u8]);
    crate::text::lemma_decimal_parses(r.client.0 as nat, 65535);
    crate::text::lemma_decimal_parses(r.tx.0 as nat, 4294967295);
    assert(crate::money::pow10(20) == 100000000000000000000nat) by {
        reveal_with_fuel(crate::money::pow10, 21);
    }
    crate::text::lemma_decimal_len(r.client.0 as nat, 20);
    crate::text::lemma_decimal_len(r.tx.0 as nat, 20);
    let k = kind_word(r.kind);
    let am = amount_word(r.kind);
    assert(crate::text::word_text(k)) by {
        assert forall|j: int| 0 <= j < k.len() implies (48 <= #[trigger] k[j] <= 57 || 97 <= k[j] <= 122 || k[j] == 46) by {
        }
    }
    match r.kind {
        RowKind::Deposit { amount } => {
            crate::money::lemma_money_text_is_word(amount.0);
            crate::money::lemma_text_parses_back(amount.0);
        },
        RowKind::Withdrawal { amount } => {
            crate::money::lemma_money_text_is_word(amount.0);
            crate::money::lemma_text_parses_back(amount.0);
            assert(!eq_ignore_case(k, dep));
        },
        RowKind::Dispute => {
            assert(lower(k[2]) != lower(dep[2]));
            assert(!eq_ignore_case(k, dep));
            assert(!eq_ignore_case(k, wd));
        },
        RowKind::Resolve => {
            assert(lower(k[0]) != lower(dep[0]));
            assert(lower(k[0]) != lower(dis[0]));
            assert(!eq_ignore_case(k, dep));
            assert(!eq_ignore_case(k, wd));
            assert(!eq_ignore_case(k, dis));
        },
        RowKind::Chargeback => {
            assert(lower(k[0]) != lower(wd[0]));
            assert(!eq_ignore_case(k, dep));
            assert(!eq_ignore_case(k, wd));
            assert(!eq_ignore_case(k, dis));
            assert(!eq_ignore_case(k, res));
        },
    }
    assert forall|i: int| 0 <= i < 4 implies field_spec(f, i) == Ok::<Seq<u8>, Fault>(#[trigger] f[i]) by {
        crate::text::lemma_word_text_is_utf8(f[i]);
        crate::text::lemma_word_text_is_trimmed(f[i]);
    }
    assert(field_spec(f, 0) == Ok::<Seq<u8>, Fault>(k));
    assert(field_spec(f, 1) == Ok::<Seq<u8>, Fault>(f[1]));
    assert(field_spec(f, 2) == Ok::<Seq<u8>, Fault>(f[2]));
    assert(field_spec(f, 3) == Ok::<Seq<u8>, Fault>(am));
}

} // verus!

verus! {

/// Each column name of `type,client,tx,amount` is a column word of its own.
proof fn lemma_column_words()
    ensures
        forall|k: int| 0 <= k < 4 ==> column_word(#[trigger] canonical_header()[k]) == Some(k as nat),
        forall|k: int| 0 <= k < 4 ==> crate::text::word_text(#[trigger] canonical_header()[k]),
        forall|k: int| 0 <= k < 4 ==> (#[trigger] canonical_header()[k]).len() > 0 && canonical_header()[k][0] != 0xEF,
{
    reveal_strlit("type");
    reveal_strlit("client");
    reveal_strlit("tx");
    reveal_strlit("amount");
    let h = canonical_header();
    let t = ascii("type"@);
    let c = ascii("client"@);
    let x = ascii("tx"@);
    let a = ascii("amount"@);
    assert(t =~= seq![116u8, 121u8, 112u8, 101u8]);
    assert(c =~= seq![99u8, 108u8, 105u8, 101u8, 110u8, 116u8]);
    assert(x =~= seq![116u8, 120u8]);
    assert(a =~= seq![97u8, 109u8, 111u8, 117u8, 110u8, 116u8]);
    assert forall|i: int| 0 <= i < 4 implies crate::text::word_text(#[trigger] h[i]) by {
        let w = h[i];
        assert forall|j: int| 0 <= j < w.len() implies (48 <= #[trigger] w[j] <= 57 || 97 <= w[j] <= 122 || w[j] == 46) by {
        }
    }
    assert(column_word(t) == Some(0nat));
    assert(column_word(c) == Some(1nat));
    assert(!eq_ignore_case(x, t));
    assert(!eq_ignore_case(x, c));
    assert(column_word(x) == Some(2nat));
    assert(!eq_ignore_case(a, t));
    assert(lower(a[0]) != lower(c[0]));
    assert(!eq_ignore_case(a, c));
    assert(!eq_ignore_case(a, x));
    assert(column_word(a) == Some(3nat));
}

/// The header names the columns, in any order: a header whose four fields
/// are the names type, client, tx and amount, at the positions `t`, `c`,
/// `x` and `a` (all different), is accepted, and each column is read from
/// the field that names it.
pub proof fn lemma_header_in_any_order(fields: Seq<Seq<u8>>, t: int, c: int, x: int, a: int)
    requires
        fields.len() == 4,
        0 <= t < 4 && 0 <= c < 4 && 0 <= x < 4 && 0 <= a < 4,
        t != c && t != x && t != a && c != x && c != a && x != a,
        fields[t] == canonical_header()[0],
        fields[c] == canonical_header()[1],
        fields[x] == canonical_header()[2],
        fields[a] == canonical_header()[3],
    ensures
        header_spec(fields) == Ok::<Columns, RowError>(
            Columns { kind: t as usize, client: c as usize, tx: x as usize, amount: a as usize, width: 4 },
        ),
{
    lemma_column_words();
    let h = canonical_header();
    let w = header_words(fields);
    let pos = seq![t, c, x, a];
    assert forall|k: int| 0 <= k < 4 implies w[#[trigger] pos[k]] == Some(k as nat) by {
        let i = pos[k];
        assert(fields[i] == h[k]);
        crate::text::lemma_word_text_is_trimmed(h[k]);
        assert(strip_bom(fields[i]) == fields[i]);
        assert(header_name(fields, i) == h[k]);
    }
    assert(w[t] == Some(0nat) && w[c] == Some(1nat) && w[x] == Some(2nat) && w[a] == Some(3nat)) by {
        assert(pos[0] == t && pos[1] == c && pos[2] == x && pos[3] == a);
    }
    assert forall|i: int| 0 <= i < 4 implies (#[trigger] w[i]) is Some by {
        if i != t && i != c && i != x {
            assert(i == a);
        }
    }
    assert forall|i: int, j: int| 0 <= i < j < 4 implies w[i] != w[j] by {
        if i != t && i != c && i != x {
            assert(i == a);
        }
        if j != t && j != c && j != x {
            assert(j == a);
        }
    }
    assert(names(w, 0) && names(w, 1) && names(w, 2) && names(w, 3));
    assert(header_ok(fields));
    assert(column_of(fields, 0) == t);
    assert(column_of(fields, 1) == c);
    assert(column_of(fields, 2) == x);
    assert(column_of(fields, 3) == a);
}

} // verus!
