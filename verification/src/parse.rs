use vstd::prelude::*;
use vstd::string::StringSliceAdditionalSpecFns;
use crate::columns::{evidence, evidence_spec, strip_bom};
use crate::errors::{Fault, RowError, faulted};
use crate::ids::{ClientId, TxId};
use crate::money::{Money, parse_money};
use crate::row::{Row, RowKind};
use crate::text::{ascii, eq_ignore_case, lower, equals_ignore_case, parse_uint, parse_uint_bytes, trim, trim_bounds};

verus! {

/// `s` cut at every comma.
pub open spec fn split_commas(s: Seq<u8>) -> Seq<Seq<u8>>
    decreases s.len(),
{
    if s.len() == 0 {
        seq![Seq::<u8>::empty()]
    } else {
        let r = split_commas(s.drop_last());
        if s.last() == 44 {
            r.push(Seq::<u8>::empty())
        } else {
            r.update(r.len() - 1, r.last().push(s.last()))
        }
    }
}

proof fn lemma_split_nonempty(s: Seq<u8>)
    ensures
        split_commas(s).len() >= 1,
    decreases s.len(),
{
    if s.len() > 0 {
        lemma_split_nonempty(s.drop_last());
    }
}

/// Where the fields of a comma-separated line start and end.
fn split_bounds(s: &[u8]) -> (r: Vec<(usize, usize)>)
    ensures
        r@.len() == split_commas(s@).len(),
        forall|i: int| 0 <= i < r@.len() ==> {
            &&& (#[trigger] r@[i]).0 <= r@[i].1 <= s@.len()
            &&& s@.subrange(r@[i].0 as int, r@[i].1 as int) == split_commas(s@)[i]
        },
{
    let mut bounds: Vec<(usize, usize)> = Vec::new();
    let mut start: usize = 0;
    let mut i: usize = 0;
    while i < s.len()
        invariant
            start <= i <= s.len(),
            split_commas(s@.take(i as int)).len() == bounds@.len() + 1,
            split_commas(s@.take(i as int)).last() == s@.subrange(start as int, i as int),
            forall|k: int| 0 <= k < bounds@.len() ==> {
                &&& (#[trigger] bounds@[k]).0 <= bounds@[k].1 <= start
                &&& s@.subrange(bounds@[k].0 as int, bounds@[k].1 as int) == split_commas(s@.take(i as int))[k]
            },
        decreases s.len() - i,
    {
        let ghost prev = split_commas(s@.take(i as int));
        proof {
            assert(s@.take(i + 1).drop_last() == s@.take(i as int));
            assert(s@.take(i + 1).last() == s@[i as int]);
            lemma_split_nonempty(s@.take(i as int));
        }
        if s[i] == 44 {
            bounds.push((start, i));
            start = i + 1;
            proof {
                assert(s@.subrange(start as int, i + 1) == Seq::<u8>::empty());
            }
        } else {
            proof {
                assert(s@.subrange(start as int, i + 1) == s@.subrange(start as int, i as int).push(s@[i as int]));
            }
        }
        i = i + 1;
    }
    bounds.push((start, i));
    proof {
        assert(s@.take(i as int) == s@);
        lemma_split_nonempty(s@);
        assert forall|k: int| 0 <= k < bounds@.len() implies {
            &&& (#[trigger] bounds@[k]).0 <= bounds@[k].1 <= s@.len()
            &&& s@.subrange(bounds@[k].0 as int, bounds@[k].1 as int) == split_commas(s@)[k]
        } by {
            if k == bounds@.len() - 1 {
                assert(split_commas(s@)[k] == split_commas(s@).last());
            }
        }
    }
    bounds
}

/// What `parse_row` gives for the bytes of a line: fields by position,
/// type, client, tx, then an optional amount; the type is matched in any
/// ASCII case; extra fields are ignored.
pub open spec fn line_row_spec(s: Seq<u8>) -> Result<Row, Fault> {
    let f = split_commas(s);
    if f.len() < 3 {
        Err(Fault::Malformed)
    } else {
        let kind_text = trim(f[0]);
        let client_text = trim(f[1]);
        let tx_text = trim(f[2]);
        let kind: Result<RowKind, Fault> = if eq_ignore_case(kind_text, ascii("deposit"@)) {
            if f.len() > 3 {
                match parse_money(trim(f[3])) {
                    Ok(amount) => Ok(RowKind::Deposit { amount }),
                    Err(e) => Err(e@),
                }
            } else {
                Err(Fault::Malformed)
            }
        } else if eq_ignore_case(kind_text, ascii("withdrawal"@)) {
            if f.len() > 3 {
                match parse_money(trim(f[3])) {
                    Ok(amount) => Ok(RowKind::Withdrawal { amount }),
                    Err(e) => Err(e@),
                }
            } else {
                Err(Fault::Malformed)
            }
        } else if eq_ignore_case(kind_text, ascii("dispute"@)) {
            Ok(RowKind::Dispute)
        } else if eq_ignore_case(kind_text, ascii("resolve"@)) {
            Ok(RowKind::Resolve)
        } else if eq_ignore_case(kind_text, ascii("chargeback"@)) {
            Ok(RowKind::Chargeback)
        } else {
            Err(Fault::UnknownType)
        };
        match kind {
            Err(e) => Err(e),
            Ok(kind) => match parse_uint(trim(client_text), 65535) {
                Err(e) => Err(Fault::BadClient(evidence_spec(trim(client_text), e))),
                Ok(c) => match parse_uint(trim(tx_text), 4294967295) {
                    Err(e) => Err(Fault::BadTx(evidence_spec(trim(tx_text), e))),
                    Ok(t) => Ok(Row { kind, client: ClientId(c as u16), tx: TxId(t as u32) }),
                },
            },
        }
    }
}

fn trimmed(s: &[u8]) -> (r: &[u8])
    ensures
        r@ == trim(s@),
{
    let (a, b) = trim_bounds(s);
    &s[a..b]
}

/// Reads a row by position from one line of text; the type is matched in
/// any ASCII case.
pub fn parse_row(line: &str) -> (r: Result<Row, RowError>)
    ensures
        faulted(r) == line_row_spec(line.spec_bytes()),
{
    let s = line.as_bytes();
    let fields = split_bounds(s);
    let kind_text = match next_field(s, &fields, 0) {
        Ok(t) => t,
        Err(e) => return Err(e),
    };
    let client_text = match next_field(s, &fields, 1) {
        Ok(t) => t,
        Err(e) => return Err(e),
    };
    let tx_text = match next_field(s, &fields, 2) {
        Ok(t) => t,
        Err(e) => return Err(e),
    };
    let amount_text: Option<&[u8]> = if fields.len() > 3 {
        Some(&s[fields[3].0..fields[3].1])
    } else {
        None
    };
    proof {
        reveal_strlit("deposit");
        reveal_strlit("withdrawal");
        reveal_strlit("dispute");
        reveal_strlit("resolve");
        reveal_strlit("chargeback");
    }
    let kind = if equals_ignore_case(kind_text, "deposit") {
        match required_amount(amount_text) {
            Ok(amount) => RowKind::Deposit { amount },
            Err(e) => return Err(e),
        }
    } else if equals_ignore_case(kind_text, "withdrawal") {
        match required_amount(amount_text) {
            Ok(amount) => RowKind::Withdrawal { amount },
            Err(e) => return Err(e),
        }
    } else if equals_ignore_case(kind_text, "dispute") || equals_ignore_case(kind_text, "resolve") || equals_ignore_case(kind_text, "chargeback") {
        match no_amount_kind(kind_text) {
            Ok(k) => k,
            Err(e) => return Err(e),
        }
    } else {
        return Err(reject_type(kind_text));
    };
    let client = match parse_client(client_text) {
        Ok(c) => c,
        Err(e) => return Err(e),
    };
    let tx = match parse_tx(tx_text) {
        Ok(t) => t,
        Err(e) => return Err(e),
    };
    Ok(Row { kind, client, tx })
}

/// Whether the line's first field, without a leading byte order mark and
/// trimmed, is `type` in any ASCII case.
pub fn is_header(line: &str) -> (r: bool)
    ensures
        r == eq_ignore_case(trim(strip_bom(split_commas(line.spec_bytes())[0])), ascii("type"@)),
{
    let s = line.as_bytes();
    let fields = split_bounds(s);
    proof {
        lemma_split_nonempty(s@);
        reveal_strlit("type");
    }
    let field = &s[fields[0].0..fields[0].1];
    let unmarked = if field.len() >= 3 && field[0] == 0xEF && field[1] == 0xBB && field[2] == 0xBF {
        &field[3..field.len()]
    } else {
        field
    };
    proof {
        assert(unmarked@ == strip_bom(field@));
    }
    let first = trimmed(unmarked);
    equals_ignore_case(first, "type")
}

/// The kinds of row that name no amount.
fn no_amount_kind(kind_text: &[u8]) -> (r: Result<RowKind, RowError>)
    requires
        eq_ignore_case(kind_text@, ascii("dispute"@)) || eq_ignore_case(kind_text@, ascii("resolve"@)) || eq_ignore_case(kind_text@, ascii("chargeback"@)),
    ensures
        eq_ignore_case(kind_text@, ascii("dispute"@)) ==> r == Ok::<RowKind, RowError>(RowKind::Dispute),
        eq_ignore_case(kind_text@, ascii("resolve"@)) ==> r == Ok::<RowKind, RowError>(RowKind::Resolve),
        eq_ignore_case(kind_text@, ascii("chargeback"@)) ==> r == Ok::<RowKind, RowError>(RowKind::Chargeback),
{
    proof {
        reveal_strlit("dispute");
        reveal_strlit("resolve");
        reveal_strlit("chargeback");
        assert(ascii("dispute"@)[0] == 100u8);
        assert(ascii("resolve"@)[0] == 114u8);
        assert(ascii("chargeback"@)[0] == 99u8);
        if eq_ignore_case(kind_text@, ascii("dispute"@)) && eq_ignore_case(kind_text@, ascii("resolve"@)) {
            assert(lower(kind_text@[0]) == lower(ascii("dispute"@)[0]));
            assert(lower(kind_text@[0]) == lower(ascii("resolve"@)[0]));
        }
    }
    if equals_ignore_case(kind_text, "dispute") {
        Ok(RowKind::Dispute)
    } else if equals_ignore_case(kind_text, "resolve") {
        Ok(RowKind::Resolve)
    } else if equals_ignore_case(kind_text, "chargeback") {
        Ok(RowKind::Chargeback)
    } else {
        Err(reject_type(kind_text))
    }
}

/// A type that names no kind of row.
fn reject_type(other: &[u8]) -> (r: RowError)
    ensures
        r == RowError::UnknownType,
{
    RowError::UnknownType
}

/// The amount a money row must carry.
fn required_amount(field: Option<&[u8]>) -> (r: Result<Money, RowError>)
    ensures
        match field {
            Some(text) => r == parse_money(trim(text@)),
            None => r == Err::<Money, RowError>(RowError::Malformed),
        },
{
    match field {
        Some(text) => Money::parse_bytes(trimmed(text)),
        None => Err(RowError::Malformed),
    }
}

/// Field `n`, trimmed, or `Malformed` when the line has fewer fields.
fn next_field<'a>(s: &'a [u8], fields: &Vec<(usize, usize)>, n: usize) -> (r: Result<&'a [u8], RowError>)
    requires
        fields@.len() == split_commas(s@).len(),
        forall|i: int| 0 <= i < fields@.len() ==> {
            &&& (#[trigger] fields@[i]).0 <= fields@[i].1 <= s@.len()
            &&& s@.subrange(fields@[i].0 as int, fields@[i].1 as int) == split_commas(s@)[i]
        },
    ensures
        n < fields@.len() ==> (r matches Ok(t) && t@ == trim(split_commas(s@)[n as int])),
        n >= fields@.len() ==> r == Err::<&[u8], RowError>(RowError::Malformed),
{
    if n >= fields.len() {
        return Err(RowError::Malformed);
    }
    let (a, b) = fields[n];
    Ok(trimmed(&s[a..b]))
}

fn parse_client(text: &[u8]) -> (r: Result<ClientId, RowError>)
    ensures
        match parse_uint(trim(text@), 65535) {
            Ok(v) => r == Ok::<ClientId, RowError>(ClientId(v as u16)),
            Err(e) => r matches Err(RowError::BadClient(t)) && t@ == evidence_spec(trim(text@), e),
        },
{
    let text = trimmed(text);
    match parse_uint_bytes(text, 65535) {
        Ok(id) => Ok(ClientId(id as u16)),
        Err(bad) => Err(reject_client(text, bad)),
    }
}

fn reject_client(text: &[u8], bad: crate::text::IntError) -> (r: RowError)
    ensures
        r matches RowError::BadClient(t) && t@ == evidence_spec(text@, bad),
{
    RowError::BadClient(evidence(text, bad))
}

fn parse_tx(text: &[u8]) -> (r: Result<TxId, RowError>)
    ensures
        match parse_uint(trim(text@), 4294967295) {
            Ok(v) => r == Ok::<TxId, RowError>(TxId(v as u32)),
            Err(e) => r matches Err(RowError::BadTx(t)) && t@ == evidence_spec(trim(text@), e),
        },
{
    let text = trimmed(text);
    match parse_uint_bytes(text, 4294967295) {
        Ok(id) => Ok(TxId(id)),
        Err(bad) => Err(reject_tx(text, bad)),
    }
}

fn reject_tx(text: &[u8], bad: crate::text::IntError) -> (r: RowError)
    ensures
        r matches RowError::BadTx(t) && t@ == evidence_spec(text@, bad),
{
    RowError::BadTx(evidence(text, bad))
}

} // verus!

verus! {

/// No byte of `s` is a comma.
pub open spec fn comma_free(s: Seq<u8>) -> bool {
    forall|i: int| 0 <= i < s.len() ==> #[trigger] s[i] != 44
}

proof fn lemma_split_after_comma(x: Seq<u8>, y: Seq<u8>)
    requires
        comma_free(y),
    ensures
        split_commas(x + seq![44u8] + y) == split_commas(x).push(y),
    decreases y.len(),
{
    let s = x + seq![44u8] + y;
    if y.len() == 0 {
        assert(s.drop_last() =~= x);
        assert(s.last() == 44);
        assert(y =~= Seq::<u8>::empty());
    } else {
        assert(s.drop_last() =~= x + seq![44u8] + y.drop_last());
        assert(s.last() == y.last());
        assert(comma_free(y.drop_last())) by {
            assert forall|i: int| 0 <= i < y.drop_last().len() implies #[trigger] y.drop_last()[i] != 44 by {
                assert(y.drop_last()[i] == y[i]);
            }
        }
        lemma_split_after_comma(x, y.drop_last());
        assert(y.drop_last().push(y.last()) =~= y);
        assert(split_commas(x).push(y.drop_last()).update(split_commas(x).len() as int, y)
            =~= split_commas(x).push(y));
    }
}

proof fn lemma_split_alone(y: Seq<u8>)
    requires
        comma_free(y),
    ensures
        split_commas(y) == seq![y],
    decreases y.len(),
{
    if y.len() > 0 {
        assert(comma_free(y.drop_last())) by {
            assert forall|i: int| 0 <= i < y.drop_last().len() implies #[trigger] y.drop_last()[i] != 44 by {
                assert(y.drop_last()[i] == y[i]);
            }
        }
        lemma_split_alone(y.drop_last());
        assert(y.drop_last().push(y.last()) =~= y);
        assert(seq![y.drop_last()].update(0, y) =~= seq![y]);
    } else {
        assert(y =~= Seq::<u8>::empty());
    }
}

proof fn lemma_word_comma_free(s: Seq<u8>)
    requires
        crate::text::word_text(s),
    ensures
        comma_free(s),
{
    assert forall|i: int| 0 <= i < s.len() implies #[trigger] s[i] != 44 by {
        assert(48 <= s[i] <= 57 || 97 <= s[i] <= 122 || s[i] == 46);
    }
}

/// A row written by position, as its type word, client, transaction and
/// amount (the amount of a deposit or withdrawal, nothing for the others)
/// separated by commas, reads back by position as the same row: a
/// withdrawal as that withdrawal, a deposit as that deposit, and so on.
pub proof fn lemma_positional_row_reads_back(r: Row)
    requires
        crate::ledger::row_amount_nonnegative(r),
    ensures
        line_row_spec(
            crate::columns::kind_word(r.kind) + seq![44u8] + crate::text::decimal(r.client.0 as nat) + seq![44u8]
                + crate::text::decimal(r.tx.0 as nat) + seq![44u8] + crate::columns::amount_word(r.kind),
        ) == Ok::<Row, Fault>(r),
{
    crate::columns::lemma_row_fields_read_back(r);
    let f = crate::columns::row_fields(r);
    let k = f[0];
    let cl = f[1];
    let tx = f[2];
    let am = f[3];
    assert(crate::text::word_text(f[0]) && crate::text::word_text(f[1]) && crate::text::word_text(f[2])
        && crate::text::word_text(f[3]));
    lemma_word_comma_free(k);
    lemma_word_comma_free(cl);
    lemma_word_comma_free(tx);
    lemma_word_comma_free(am);
    lemma_split_alone(k);
    lemma_split_after_comma(k, cl);
    lemma_split_after_comma(k + seq![44u8] + cl, tx);
    lemma_split_after_comma(k + seq![44u8] + cl + seq![44u8] + tx, am);
    let parts = split_commas(k + seq![44u8] + cl + seq![44u8] + tx + seq![44u8] + am);
    assert(parts =~= seq![k, cl, tx, am]);
    crate::text::lemma_word_text_is_trimmed(k);
    crate::text::lemma_word_text_is_trimmed(cl);
    crate::text::lemma_word_text_is_trimmed(tx);
    crate::text::lemma_word_text_is_trimmed(am);
    crate::text::lemma_decimal_parses(r.client.0 as nat, 65535);
    crate::text::lemma_decimal_parses(r.tx.0 as nat, 4294967295);
    reveal_strlit("deposit");
    reveal_strlit("withdrawal");
    reveal_strlit("dispute");
    reveal_strlit("resolve");
    reveal_strlit("chargeback");
    let dep = ascii("deposit"@);
    let wd = ascii("withdrawal"@);
    let dis = ascii("dispute"@);
    let res = ascii("resolve"@);
    assert(dep =~= seq![100u8, 101u8, 112u8, 111u8, 115u8, 105u8, 116u8]);
    assert(wd =~= seq![119u8, 105u8, 116u8, 104u8, 100u8, 114u8, 97u8, 119u8, 97u8, 108u8]);
    assert(dis =~= seq![100u8, 105u8, 115u8, 112u8, 117u8, 116u8, 101u8]);
    assert(res =~= seq![114u8, 101u8, 115u8, 111u8, 108u8, 118u8, 101u8]);
    assert(ascii("chargeback"@) =~= seq![99u8, 104u8, 97u8, 114u8, 103u8, 101u8, 98u8, 97u8, 99u8, 107u8]);
    match r.kind {
        RowKind::Deposit { amount } => {
            crate::money::lemma_text_parses_back(amount.0);
        },
        RowKind::Withdrawal { amount } => {
            crate::money::lemma_text_parses_back(amount.0);
            assert(!eq_ignore_case(k, dep));
        },
        RowKind::Dispute => {
            assert(lower(k[2]) != lower(dep[2]));
            assert(!eq_ignore_case(k, dep));
            assert(!eq_ignore_case(k, wd));
        },
        RowKind::Resolve => {
            assert(lower(k[0]) != lower(dep[0]));
            assert(lower(k[0]) != lower(dis[0]));
            assert(!eq_ignore_case(k, dep));
            assert(!eq_ignore_case(k, wd));
            assert(!eq_ignore_case(k, dis));
        },
        RowKind::Chargeback => {
            assert(lower(k[0]) != lower(wd[0]));
            assert(!eq_ignore_case(k, dep));
            assert(!eq_ignore_case(k, wd));
            assert(!eq_ignore_case(k, dis));
            assert(!eq_ignore_case(k, res));
        },
    }
}

} // verus!
