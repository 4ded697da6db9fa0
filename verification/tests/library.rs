use payments::account::Account;
use payments::columns::{parse_header, Slot};
use payments::csv::{eof, next_record, Read};
use payments::errors::{FatalError, RowError};
use payments::ids::{ClientId, TxId};
use payments::ledger::Ledger;
use payments::money::Money;
use payments::parse::{is_header, parse_row};
use payments::record::{FieldError, Record};
use payments::render::render;
use payments::row::{Row, RowKind};
use payments::run::{after_write, run, Engine, Sink};
use payments::scan::Scan;

fn drive(input: &[u8]) -> (Result<(), FatalError>, String, String) {
    let mut out: Vec<u8> = Vec::new();
    let mut report: Vec<u8> = Vec::new();
    let r = run(input, &mut out, &mut report);
    (r, String::from_utf8(out).expect("utf8"), String::from_utf8(report).expect("utf8"))
}

fn text(m: Money) -> String {
    let mut out: Vec<u8> = Vec::new();
    m.write_text(&mut out);
    String::from_utf8(out).expect("utf8")
}

fn row(kind: RowKind, client: u16, tx: u32) -> Row {
    Row { kind, client: ClientId(client), tx: TxId(tx) }
}

fn account(ledger: &Ledger, client: u16) -> Account {
    *ledger.accounts.get(&client).expect("account")
}

#[test]
fn money_parse_exact_values() {
    assert_eq!(Money::parse("1.5").expect("ok"), Money(15000));
    assert_eq!(Money::parse(".0001").expect("ok"), Money(1));
    assert_eq!(Money::parse("007").expect("ok"), Money(70000));
    assert_eq!(Money::parse("922337203685477.5807").expect("ok"), Money(i64::MAX));
    assert_eq!(Money::parse("2.50000000").expect("ok"), Money(25000));
    assert!(matches!(Money::parse("922337203685477.5808"), Err(RowError::BadAmount)));
    assert!(matches!(Money::parse(""), Err(RowError::BadAmount)));
    assert!(matches!(Money::parse("."), Err(RowError::BadAmount)));
    assert!(matches!(Money::parse("1..0"), Err(RowError::BadAmount)));
    assert!(matches!(Money::parse("1.00001"), Err(RowError::BadAmount)));
    assert!(matches!(Money::parse(" 1"), Err(RowError::BadAmount)));
    assert!(matches!(Money::parse("+1"), Err(RowError::BadAmount)));
}

#[test]
fn money_text_exact_values() {
    assert_eq!(text(Money(0)), "0.0000");
    assert_eq!(text(Money(15000)), "1.5000");
    assert_eq!(text(Money(-49999)), "-4.9999");
    assert_eq!(text(Money(-1)), "-0.0001");
    assert_eq!(text(Money(i64::MAX)), "922337203685477.5807");
    assert_eq!(text(Money(i64::MIN)), "-922337203685477.5808");
}

#[test]
fn money_text_parses_back() {
    for v in [0i64, 1, 9999, 10000, 123456789, i64::MAX - 1, i64::MAX] {
        let t = text(Money(v));
        assert_eq!(Money::parse(&t).expect("reparse"), Money(v), "{t}");
    }
    for t in ["5.", ".5", "0001.10000", "42"] {
        let once = Money::parse(t).expect("parse");
        assert_eq!(Money::parse(&text(once)).expect("reparse"), once);
    }
}

#[test]
fn money_arithmetic_is_checked() {
    assert_eq!(Money(5).checked_add(Money(7)).expect("ok"), Money(12));
    assert!(matches!(Money(i64::MAX).checked_add(Money(1)), Err(RowError::BadAmount)));
    assert_eq!(Money(5).checked_sub(Money(7)).expect("ok"), Money(-2));
    assert!(matches!(Money(i64::MIN).checked_sub(Money(1)), Err(RowError::BadAmount)));
    assert!(Money(5).sufficient(Money(5)));
    assert!(!Money(4).sufficient(Money(5)));
    assert_eq!(Money(3).total_of(Money(4)).expect("ok"), Money(7));
    assert!(matches!(Money(i64::MAX).total_of(Money(1)), Err(RowError::BadAmount)));
    assert_eq!(Money::zero(), Money(0));
}

#[test]
fn resolve_undoes_a_dispute() {
    let mut ledger = Ledger::new();
    ledger.apply(&row(RowKind::Deposit { amount: Money(100) }, 1, 1)).expect("deposit");
    let before = account(&ledger, 1);
    ledger.apply(&row(RowKind::Dispute, 1, 1)).expect("dispute");
    let held = account(&ledger, 1);
    assert_eq!((held.available, held.held), (Money(0), Money(100)));
    ledger.apply(&row(RowKind::Resolve, 1, 1)).expect("resolve");
    assert_eq!(account(&ledger, 1), before);
    assert!(!ledger.transactions.get(&1).expect("tx").disputed);
}

#[test]
fn locked_account_refuses_every_row() {
    let mut ledger = Ledger::new();
    ledger.apply(&row(RowKind::Deposit { amount: Money(100) }, 1, 1)).expect("deposit");
    ledger.apply(&row(RowKind::Dispute, 1, 1)).expect("dispute");
    ledger.apply(&row(RowKind::Chargeback, 1, 1)).expect("chargeback");
    let locked = account(&ledger, 1);
    assert!(locked.locked);
    for kind in [RowKind::Deposit { amount: Money(1) }, RowKind::Withdrawal { amount: Money(0) }, RowKind::Dispute, RowKind::Resolve, RowKind::Chargeback] {
        assert!(matches!(ledger.apply(&row(kind, 1, 9)), Err(RowError::AccountLocked)));
        assert_eq!(account(&ledger, 1), locked);
    }
}

#[test]
fn chargebacked_id_is_burned() {
    let mut ledger = Ledger::new();
    ledger.apply(&row(RowKind::Deposit { amount: Money(100) }, 1, 1)).expect("deposit");
    ledger.apply(&row(RowKind::Dispute, 1, 1)).expect("dispute");
    ledger.apply(&row(RowKind::Chargeback, 1, 1)).expect("chargeback");
    assert!(ledger.transactions.get(&1).expect("tx").burned);
    assert!(matches!(ledger.apply(&row(RowKind::Deposit { amount: Money(1) }, 2, 1)), Err(RowError::DuplicateTx)));
    assert!(matches!(ledger.apply(&row(RowKind::Dispute, 2, 1)), Err(RowError::UnknownTx)));
    assert_eq!(account(&ledger, 2), Account::new());
}

#[test]
fn rejected_rows_only_open_the_account() {
    let mut ledger = Ledger::new();
    assert!(matches!(ledger.apply(&row(RowKind::Withdrawal { amount: Money(1) }, 4, 1)), Err(RowError::InsufficientFunds)));
    assert_eq!(account(&ledger, 4), Account::new());
    assert!(ledger.transactions.get(&1).is_none());
    assert!(matches!(ledger.apply(&row(RowKind::Resolve, 4, 77)), Err(RowError::UnknownTx)));
    ledger.apply(&row(RowKind::Withdrawal { amount: Money(0) }, 4, 2)).expect("zero withdrawal");
    assert!(matches!(ledger.apply(&row(RowKind::Dispute, 4, 2)), Err(RowError::WithdrawalDispute)));
    ledger.apply(&row(RowKind::Deposit { amount: Money(0) }, 4, 3)).expect("zero deposit");
    assert!(matches!(ledger.apply(&row(RowKind::Dispute, 4, 3)), Err(RowError::BadAmount)));
    assert!(matches!(ledger.apply(&row(RowKind::Chargeback, 4, 3)), Err(RowError::NotDisputed)));
}

#[test]
fn dispute_keeps_the_total() {
    let mut ledger = Ledger::new();
    ledger.apply(&row(RowKind::Deposit { amount: Money(50) }, 3, 1)).expect("deposit");
    ledger.apply(&row(RowKind::Withdrawal { amount: Money(40) }, 3, 2)).expect("withdrawal");
    ledger.apply(&row(RowKind::Dispute, 3, 1)).expect("dispute");
    let a = account(&ledger, 3);
    assert_eq!((a.available, a.held), (Money(-40), Money(50)));
    assert!(matches!(ledger.apply(&row(RowKind::Dispute, 3, 1)), Err(RowError::AlreadyDisputed)));
}

#[test]
fn total_beyond_i64_renders_as_overflow() {
    let mut ledger = Ledger::new();
    ledger.accounts.insert(1, Account { available: Money(1), held: Money(i64::MAX), locked: false });
    let mut out: Vec<u8> = Vec::new();
    render(&ledger, &mut out);
    assert_eq!(
        String::from_utf8(out).expect("utf8"),
        "client,available,held,total,locked\n1,0.0001,922337203685477.5807,overflow,false\n"
    );
}

#[test]
fn a_total_beyond_i64_is_refused() {
    let (r, out, report) = drive(b"type,client,tx,amount\ndeposit,1,1,922337203685477.5807\ndispute,1,1,\ndeposit,1,2,0.0001\n");
    assert!(r.is_ok());
    assert_eq!(report, "line 4: invalid amount\n");
    assert!(out.contains("1,0.0000,922337203685477.5807,922337203685477.5807,false"), "{out}");
    let mut ledger = Ledger::new();
    ledger.apply(&row(RowKind::Deposit { amount: Money(i64::MAX) }, 2, 1)).expect("deposit");
    ledger.apply(&row(RowKind::Dispute, 2, 1)).expect("dispute");
    assert!(matches!(ledger.apply(&row(RowKind::Deposit { amount: Money(1) }, 2, 2)), Err(RowError::BadAmount)));
    let a = account(&ledger, 2);
    assert_eq!((a.available, a.held), (Money(0), Money(i64::MAX)));
}

#[test]
fn render_lists_accounts_in_client_order() {
    let mut ledger = Ledger::new();
    ledger.apply(&row(RowKind::Deposit { amount: Money(10000) }, 65535, 1)).expect("deposit");
    ledger.apply(&row(RowKind::Deposit { amount: Money(5) }, 0, 2)).expect("deposit");
    let mut out: Vec<u8> = Vec::new();
    render(&ledger, &mut out);
    assert_eq!(String::from_utf8(out).expect("utf8"), "client,available,held,total,locked\n0,0.0005,0.0000,0.0005,false\n65535,1.0000,0.0000,1.0000,false\n");
}

#[test]
fn quoted_fields_keep_commas_quotes_and_line_breaks() {
    let (r, out, report) = drive(b"type,client,tx,amount\n\"deposit\",\"1\",\"2\",\"3.0\"\ndeposit,2,3,\"1,5\"\ndeposit,3,4,\"a\"\"\nb\"\n");
    assert!(r.is_ok());
    assert!(out.contains("1,3.0000,0.0000,3.0000,false"), "{out}");
    assert!(report.contains("line 3: invalid amount"), "{report}");
    assert!(report.contains("line 4-5: invalid amount"), "{report}");
}

#[test]
fn quote_after_leading_space_or_junk_after_close_is_malformed() {
    let (r, out, report) = drive(b"type,client,tx,amount\ndeposit,1,1, \"3\"\ndeposit,2,2,\"4\" \ndeposit,3,3,\"5\"x\ndeposit,4,4,\"6\"\r\n");
    assert!(r.is_ok());
    assert!(report.contains("line 2: malformed row"), "{report}");
    assert!(report.contains("line 3: malformed row"), "{report}");
    assert!(report.contains("line 4: malformed row"), "{report}");
    assert!(out.contains("4,6.0000,0.0000,6.0000,false"), "{out}");
}

#[test]
fn every_row_error_has_its_report() {
    let input = "type,client,tx,amount\n\
        deposit,1,1\n\
        refund,1,1,1\n\
        deposit,abc,1,1\n\
        deposit,,1,1\n\
        deposit,1,99999999999,1\n\
        deposit,1,1,x\n\
        deposit,1,1,1\n\
        deposit,1,1,1\n\
        dispute,1,7,\n\
        resolve,1,1,\n\
        dispute,1,1,\n\
        dispute,1,1,\n\
        withdrawal,2,2,1\n\
        withdrawal,1,3,0\n\
        dispute,1,3,\n\
        chargeback,1,1,\n\
        deposit,1,4,1\n";
    let (r, _, report) = drive(input.as_bytes());
    assert!(r.is_ok());
    let expected = [
        "line 2: malformed row",
        "line 3: unknown transaction type",
        "line 4: invalid client id: 'abc' (invalid digit found in string)",
        "line 5: invalid client id: '' (cannot parse integer from empty string)",
        "line 6: invalid transaction id: '99999999999' (number too large to fit in target type)",
        "line 7: invalid amount",
        "line 9: duplicate transaction id",
        "line 10: unknown transaction id",
        "line 11: transaction not under dispute",
        "line 13: transaction already under dispute",
        "line 14: insufficient funds",
        "line 16: withdrawals cannot be disputed",
        "line 18: account locked",
    ];
    for e in expected {
        assert!(report.contains(e), "missing '{e}' in:\n{report}");
    }
}

#[test]
fn a_field_that_is_not_utf8_makes_the_row_malformed() {
    let (r, _, report) = drive(b"type,client,tx,amount\ndeposit,1,1,ab\xffc\n");
    assert!(r.is_ok());
    assert_eq!(report, "line 2: malformed row\n");
}

#[test]
fn unicode_whitespace_is_trimmed() {
    let (r, out, report) = drive("type,client,tx,amount\ndeposit,\u{a0}7\u{3000},1,1.0\u{2028}\n".as_bytes());
    assert!(r.is_ok());
    assert!(report.is_empty(), "{report}");
    assert!(out.contains("7,1.0000,0.0000,1.0000,false"), "{out}");
}

#[test]
fn fatal_messages() {
    let (r, out, _) = drive(b"deposit,1,1,1\n");
    let e = r.expect_err("headerless");
    assert!(matches!(e, FatalError::Header));
    assert!(out.is_empty());
    assert_eq!(String::from_utf8(e.message()).expect("utf8"), "missing or invalid header: expected columns type,client,tx,amount in any order");
    let (r, out, _) = drive(b"type,client,tx,amount\ndeposit,1,1,\"1\n");
    let e = r.expect_err("open quote");
    assert!(matches!(e, FatalError::UnterminatedQuote));
    assert!(out.is_empty());
    assert_eq!(String::from_utf8(e.message()).expect("utf8"), "broken file: quoted field opened but never closed");
    let corrupt = FatalError::from(RowError::UnknownTx);
    assert_eq!(String::from_utf8(corrupt.message()).expect("utf8"), "corrupt ledger state: unknown transaction id");
    let io = FatalError::Report(std::io::Error::new(std::io::ErrorKind::BrokenPipe, "gone"));
    assert_eq!(String::from_utf8(io.message()).expect("utf8"), "report sink failure: gone");
    let io = FatalError::from(std::io::Error::new(std::io::ErrorKind::BrokenPipe, "closed"));
    assert_eq!(String::from_utf8(io.message()).expect("utf8"), "io failure: closed");
}

#[test]
fn bad_rows_never_stop_a_run() {
    let (r, out, report) = drive(b"type,client,tx,amount\n\"\"x\n,,,,\n\xff\xfe\nchargeback,1,1,\n");
    assert!(r.is_ok());
    assert_eq!(report.lines().count(), 4, "{report}");
    assert!(out.starts_with("client,available,held,total,locked\n"));
}

#[test]
fn empty_input_is_only_the_header() {
    let (r, out, report) = drive(b"");
    assert!(r.is_ok());
    assert_eq!(out, "client,available,held,total,locked\n");
    assert!(report.is_empty());
    let (r, out, _) = drive(b"\n  \n\t\n");
    assert!(r.is_ok());
    assert_eq!(out, "client,available,held,total,locked\n");
}

#[test]
fn pieces_give_the_same_run_as_the_whole() {
    let input = b"type,client,tx,amount\ndeposit,1,1,\"1,0\"\ndeposit,1,2,\"2.\n5\"\nwithdrawal,1,3,1\r\nbad\"row\ndispute,1,2,\n";
    let (whole, out_whole, report_whole) = drive(input);
    assert!(whole.is_ok());
    for cut in 0..input.len() {
        let mut engine = Engine::new();
        let mut out: Vec<u8> = Vec::new();
        let mut report: Vec<u8> = Vec::new();
        engine.feed(&input[..cut], &mut report).expect("first piece");
        engine.feed(&input[cut..], &mut report).expect("second piece");
        engine.finish(&mut out, &mut report).expect("finish");
        assert_eq!(String::from_utf8(out).expect("utf8"), out_whole, "cut at {cut}");
        assert_eq!(String::from_utf8(report).expect("utf8"), report_whole, "cut at {cut}");
    }
}

#[test]
fn positional_parse_row() {
    let r = parse_row(" deposit , 1 , 2 , 3.5 ").expect("row");
    assert_eq!(r, row(RowKind::Deposit { amount: Money(35000) }, 1, 2));
    let r = parse_row("dispute,1,2,999,extra").expect("row");
    assert_eq!(r, row(RowKind::Dispute, 1, 2));
    assert_eq!(parse_row("Deposit,1,2,3").expect("row"), row(RowKind::Deposit { amount: Money(30000) }, 1, 2));
    assert!(matches!(parse_row("deposits,1,2,3"), Err(RowError::UnknownType)));
    assert!(matches!(parse_row("deposit,1,2"), Err(RowError::Malformed)));
    assert!(matches!(parse_row("deposit,1"), Err(RowError::Malformed)));
    assert!(matches!(parse_row("withdrawal,1,2,-1"), Err(RowError::BadAmount)));
    match parse_row("chargeback,70000,2,") {
        Err(RowError::BadClient(t)) => assert_eq!(t, b"'70000' (number too large to fit in target type)".to_vec()),
        _ => panic!("client out of range"),
    }
    match parse_row("resolve,7,x,") {
        Err(RowError::BadTx(t)) => assert_eq!(t, b"'x' (invalid digit found in string)".to_vec()),
        _ => panic!("bad tx"),
    }
    assert!(is_header(" type ,client"));
    assert!(is_header("type"));
    assert!(is_header("TYPE,tx,Client,Amount"));
    assert!(is_header("\u{feff}type,client,tx,amount"));
    assert!(!is_header("deposit,1,1,1"));
}

#[test]
fn record_fields_and_reuse() {
    let mut record = Record::new(1);
    record.push(b'a');
    record.close_field();
    record.push(b'b');
    record.push(b'c');
    record.close_field();
    assert_eq!(record.width, 2);
    assert_eq!(record.field(0).expect("field"), b"a");
    assert_eq!(record.field(1).expect("field"), b"bc");
    assert_eq!(record.field(2), Err(FieldError::OutOfRange));
    record.reset(7);
    assert_eq!(record.width, 0);
    assert_eq!(record.first_line, 7);
    assert_eq!(record.field(0), Err(FieldError::OutOfRange));
}

#[test]
fn slots_claim_once() {
    let mut slot = Slot::empty();
    assert!(matches!(slot.position(), Err(RowError::Malformed)));
    slot.claim(3).expect("first claim");
    assert_eq!(slot.position().expect("position"), 3);
    assert!(matches!(slot.claim(4), Err(RowError::Malformed)));
    assert_eq!(slot.position().expect("position"), 3);
}

#[test]
fn header_in_any_order_and_case() {
    let mut scan = Scan::new(1);
    let mut record = Record::new(1);
    let input = b"\xef\xbb\xbf Amount ,TX,type,Client\n";
    let (used, read) = next_record(&mut scan, &mut record, input, 0);
    assert_eq!(used, input.len());
    assert!(matches!(read, Some(Read::Row { first_line: 1, last_line: 1 })));
    let cols = parse_header(&record).expect("header");
    assert_eq!((cols.kind, cols.client, cols.tx, cols.amount, cols.width), (2, 3, 1, 0, 4));
    let mut scan = Scan::new(1);
    let mut record = Record::new(1);
    next_record(&mut scan, &mut record, b"type,client,tx,tx\n", 0);
    assert!(matches!(parse_header(&record), Err(RowError::Malformed)));
}

#[test]
fn scanner_reports_spans_and_end_of_input() {
    let mut scan = Scan::new(5);
    let mut record = Record::new(5);
    let input = b"a,\"b\nc\",d\nx\"y\nlast";
    let (used, read) = next_record(&mut scan, &mut record, input, 0);
    assert!(matches!(read, Some(Read::Row { first_line: 5, last_line: 6 })));
    assert_eq!(record.field(1).expect("field"), b"b\nc");
    scan.reset(7);
    record.reset(7);
    let (used2, read) = next_record(&mut scan, &mut record, input, used);
    assert!(matches!(read, Some(Read::Malformed { first_line: 7, last_line: 7, error: RowError::Malformed })));
    scan.reset(8);
    record.reset(8);
    let (used3, read) = next_record(&mut scan, &mut record, input, used2);
    assert_eq!(used3, input.len());
    assert!(read.is_none());
    assert!(matches!(eof(&mut scan, &mut record), Ok(Read::Row { first_line: 8, last_line: 8 })));
    assert_eq!(record.field(0).expect("field"), b"last");
    let mut scan = Scan::new(1);
    let mut record = Record::new(1);
    assert!(matches!(eof(&mut scan, &mut record), Ok(Read::Done)));
}

#[test]
fn held_is_the_sum_of_open_disputes() {
    let mut ledger = Ledger::new();
    ledger.apply(&row(RowKind::Deposit { amount: Money(30000) }, 4, 1)).expect("deposit");
    ledger.apply(&row(RowKind::Deposit { amount: Money(50000) }, 4, 2)).expect("deposit");
    ledger.apply(&row(RowKind::Deposit { amount: Money(70000) }, 4, 3)).expect("deposit");
    ledger.apply(&row(RowKind::Dispute, 4, 1)).expect("dispute");
    ledger.apply(&row(RowKind::Dispute, 4, 3)).expect("dispute");
    assert_eq!(account(&ledger, 4).held, Money(100000));
    ledger.apply(&row(RowKind::Resolve, 4, 1)).expect("resolve");
    assert_eq!(account(&ledger, 4).held, Money(70000));
    ledger.apply(&row(RowKind::Chargeback, 4, 3)).expect("chargeback");
    let a = account(&ledger, 4);
    assert_eq!(a.held, Money(0));
    assert_eq!(a.available, Money(80000));
    assert!(a.locked);
}

#[test]
fn disputes_naming_the_wrong_transaction_are_refused() {
    let mut ledger = Ledger::new();
    ledger.apply(&row(RowKind::Deposit { amount: Money(10000) }, 1, 1)).expect("deposit");
    ledger.apply(&row(RowKind::Withdrawal { amount: Money(5000) }, 1, 2)).expect("withdrawal");
    ledger.apply(&row(RowKind::Deposit { amount: Money(0) }, 1, 3)).expect("zero deposit");
    assert!(matches!(ledger.apply(&row(RowKind::Dispute, 2, 1)), Err(RowError::UnknownTx)));
    assert!(matches!(ledger.apply(&row(RowKind::Dispute, 1, 9)), Err(RowError::UnknownTx)));
    assert!(matches!(ledger.apply(&row(RowKind::Dispute, 1, 2)), Err(RowError::WithdrawalDispute)));
    assert!(matches!(ledger.apply(&row(RowKind::Chargeback, 1, 2)), Err(RowError::WithdrawalDispute)));
    assert!(matches!(ledger.apply(&row(RowKind::Dispute, 1, 3)), Err(RowError::BadAmount)));
    assert!(matches!(ledger.apply(&row(RowKind::Resolve, 1, 1)), Err(RowError::NotDisputed)));
    ledger.apply(&row(RowKind::Dispute, 1, 1)).expect("dispute");
    assert!(matches!(ledger.apply(&row(RowKind::Dispute, 1, 1)), Err(RowError::AlreadyDisputed)));
    ledger.apply(&row(RowKind::Resolve, 1, 1)).expect("resolve");
    ledger.apply(&row(RowKind::Dispute, 1, 1)).expect("second dispute");
    let a = account(&ledger, 1);
    assert_eq!((a.available, a.held, a.locked), (Money(-5000), Money(10000), false));
}

#[test]
fn a_record_over_the_cap_ends_where_its_quotes_end() {
    let long = "x\n".repeat(40_000);
    let input = format!("type,client,tx,amount\ndeposit,1,1,\"{long}\"\ndeposit,2,2,2.0\n");
    let (r, out, report) = drive(input.as_bytes());
    assert!(r.is_ok());
    assert_eq!(report, "line 2-40002: malformed row\n");
    assert_eq!(out, "client,available,held,total,locked\n2,2.0000,0.0000,2.0000,false\n");
}

#[test]
fn reordered_columns_give_the_same_ledger() {
    let plain = drive(b"type,client,tx,amount\ndeposit,1,1,2.5\nwithdrawal,1,2,1\ndeposit,2,3,7\ndispute,2,3,\n");
    let shuffled = drive(b"AMOUNT,Tx,type,client\n2.5,1,deposit,1\n1,2,withdrawal,1\n7,3,deposit,2\n,3,dispute,2\n");
    assert!(plain.0.is_ok() && shuffled.0.is_ok());
    assert_eq!(plain.1, shuffled.1);
    assert_eq!(plain.2, shuffled.2);
    assert_eq!(shuffled.1, "client,available,held,total,locked\n1,1.5000,0.0000,1.5000,false\n2,0.0000,7.0000,7.0000,false\n");
}

#[test]
fn blank_lines_anywhere_only_count_as_lines() {
    let (r, out, report) = drive(b"\t \r\n\x0c\ntype,client,tx,amount\n \t \r\n\ndeposit,1,1,1\nwithdrawal,1,2,5\n");
    assert!(r.is_ok());
    assert_eq!(report, "line 7: insufficient funds\n");
    assert_eq!(out, "client,available,held,total,locked\n1,1.0000,0.0000,1.0000,false\n");
}

#[test]
fn leading_spaces_of_a_bare_field_are_all_dropped() {
    let mut scan = Scan::new(1);
    let mut record = Record::new(1);
    let (_, read) = next_record(&mut scan, &mut record, b"  a,\r \tb,   \n", 0);
    assert!(matches!(read, Some(Read::Row { first_line: 1, last_line: 1 })));
    assert_eq!(record.field(0).expect("field"), b"a");
    assert_eq!(record.field(1).expect("field"), b"\tb");
    assert_eq!(record.field(2).expect("field"), b"");
    let mut scan = Scan::new(1);
    let mut record = Record::new(1);
    let (_, read) = next_record(&mut scan, &mut record, b"a,  \"3\"\n", 0);
    assert!(matches!(read, Some(Read::Malformed { first_line: 1, last_line: 1, error: RowError::Malformed })));
}

#[test]
fn a_failed_write_ends_the_run() {
    let broken = || Err(std::io::Error::new(std::io::ErrorKind::BrokenPipe, "closed"));
    let out = after_write(Sink::Output, broken()).expect_err("output");
    assert_eq!(String::from_utf8(out.message()).expect("utf8"), "io failure: closed");
    let rep = after_write(Sink::Report, broken()).expect_err("report");
    assert_eq!(String::from_utf8(rep.message()).expect("utf8"), "report sink failure: closed");
    assert!(after_write(Sink::Output, Ok(())).is_ok());
}

#[test]
fn a_record_mixing_quoted_and_bare_fields_reads_back() {
    let mut scan = Scan::new(3);
    let mut record = Record::new(3);
    let input = b" a ,\"x,\"\"y\ny\"\r, \rb\n";
    let (used, read) = next_record(&mut scan, &mut record, input, 0);
    assert_eq!(used, input.len());
    assert!(matches!(read, Some(Read::Row { first_line: 3, last_line: 4 })));
    assert_eq!(record.last_line, 4);
    assert_eq!(record.field(0).expect("field"), b"a ");
    assert_eq!(record.field(1).expect("field"), b"x,\"y\ny");
    assert_eq!(record.field(2).expect("field"), b"b");
}

#[test]
fn written_rows_replay_through_a_run() {
    let rows = vec![
        row(RowKind::Deposit { amount: Money(1_000_000) }, 3, 1),
        row(RowKind::Withdrawal { amount: Money(2_500) }, 3, 2),
        row(RowKind::Dispute, 3, 1),
        row(RowKind::Deposit { amount: Money(7) }, 9, 3),
        row(RowKind::Resolve, 3, 1),
        row(RowKind::Dispute, 9, 3),
        row(RowKind::Chargeback, 9, 3),
        row(RowKind::Deposit { amount: Money(1) }, 9, 4),
    ];
    let mut csv = String::from("type,client,tx,amount\n");
    let mut ledger = Ledger::new();
    for r in &rows {
        let (word, amount) = match r.kind {
            RowKind::Deposit { amount } => ("deposit", text(amount)),
            RowKind::Withdrawal { amount } => ("withdrawal", text(amount)),
            RowKind::Dispute => ("dispute", String::new()),
            RowKind::Resolve => ("resolve", String::new()),
            RowKind::Chargeback => ("chargeback", String::new()),
        };
        csv.push_str(&format!("{},{},{},{}\n", word, r.client.0, r.tx.0, amount));
        let _ = ledger.apply(r);
    }
    let mut expected: Vec<u8> = Vec::new();
    render(&ledger, &mut expected);
    let (result, out, _) = drive(csv.as_bytes());
    assert!(result.is_ok());
    assert_eq!(out, String::from_utf8(expected).expect("utf8"));
    assert!(out.contains("9,0.0000,0.0000,0.0000,true"), "{out}");
}
