use payments::run::run;

struct Run {
    code: i32,
    stdout: String,
    stderr: String,
}

/// Runs the library on a fixture's text as the program would: exit code 0
/// with the output, or 1 with the fatal error's message and no output.
fn run_text(input: &str) -> Result<Run, std::string::FromUtf8Error> {
    let mut out: Vec<u8> = Vec::new();
    let mut report: Vec<u8> = Vec::new();
    let result = run(input.as_bytes(), &mut out, &mut report);
    let mut stderr = String::from_utf8(report)?;
    let code = match result {
        Ok(()) => 0,
        Err(e) => {
            stderr.push_str(&String::from_utf8(e.message())?);
            stderr.push('\n');
            out.clear();
            1
        }
    };
    Ok(Run { code, stdout: String::from_utf8(out)?, stderr })
}

impl Run {
    fn ok(&self) -> &Run {
        assert_eq!(self.code, 0, "exit code, stderr: {}", self.stderr);
        self
    }

    fn fatal(&self) -> &Run {
        assert_eq!(self.code, 1, "fatal exit code, stderr: {}", self.stderr);
        assert!(self.stdout.is_empty(), "fatal runs emit no stdout: {}", self.stdout);
        assert!(self.stderr.contains("missing or invalid header"), "fatal names the header: {}", self.stderr);
        self
    }

    fn fatal_unterminated(&self) -> &Run {
        assert_eq!(self.code, 1, "fatal exit code, stderr: {}", self.stderr);
        assert!(self.stdout.is_empty(), "fatal runs emit no stdout: {}", self.stdout);
        assert!(self.stderr.contains("quoted field opened but never closed"), "fatal names the unterminated quote: {}", self.stderr);
        self
    }

    fn row(&self, client: u16, expect: &str) -> &Run {
        let needle = format!("{client},");
        let mut found = "";
        for line in self.stdout.lines() {
            if line.starts_with(&needle) {
                found = line;
            }
        }
        assert!(!found.is_empty(), "no output row for client {client} in:\n{}", self.stdout);
        assert_eq!(found, expect, "client {client}");
        self
    }

    fn no_row(&self, client: u16) -> &Run {
        let needle = format!("{client},");
        assert!(!self.stdout.lines().any(|l| l.starts_with(&needle)), "client {client} must not appear:\n{}", self.stdout);
        self
    }

    fn report(&self, line: u32, fragment: &str) -> &Run {
        let needle = format!("line {line}: {fragment}");
        assert!(self.stderr.contains(&needle), "expected report '{needle}' in:\n{}", self.stderr);
        self
    }

    fn report_span(&self, first: u32, last: u32, fragment: &str) -> &Run {
        let needle = format!("line {first}-{last}: {fragment}");
        assert!(self.stderr.contains(&needle), "expected report '{needle}' in:\n{}", self.stderr);
        self
    }

    fn no_report(&self, line: u32) -> &Run {
        let needle = format!("line {line}:");
        assert!(!self.stderr.contains(&needle), "no report expected for '{needle}' in:\n{}", self.stderr);
        self
    }

    fn header_only(&self) -> &Run {
        assert_eq!(self.stdout, "client,available,held,total,locked\n", "stdout: {}", self.stdout);
        self
    }

    fn clean(&self) -> &Run {
        assert!(self.stderr.is_empty(), "no reports expected: {}", self.stderr);
        self
    }
}

const BAD_HEADER: &str = "typo,client,tx,amount\ndeposit,1,1,1.0\n";

const BOM_HEADER: &str = "\u{feff}type,client,tx,amount\ndeposit,1,1,10.0\n";

const CRLF: &str = "type,client,tx,amount\r\ndeposit,1,1,10.0\r\nrefund,1,2,1.0\r\ndeposit,1,3,2.0\r\n";

const CROSS_CLIENT_DISPUTE: &str = "type,client,tx,amount\ndeposit,1,1,10.0\ndispute,2,1,\n";

const DISPUTE_AMOUNT: &str = "type,client,tx,amount\ndeposit,1,1,10.0\ndispute,1,1,1000\n";

const DISPUTE_WITH_AMOUNT_AND_QUOTED_ROWS: &str = "type,client,tx,amount\ndeposit,1,1,10.0\ndispute,1,1,5.0\n\"deposit\",\"2\",\"2\",\"1.0\"\ndeposit,3,3,\"2.0\"\n";

const DISPUTE_WITHDRAWAL: &str = "type,client,tx,amount\ndeposit,1,1,10.0\nwithdrawal,1,2,3.0\ndispute,1,2,\n";

const DISPUTE_WITHOUT_TRAILING_COMMA: &str = "type,client,tx,amount\ndeposit,1,1,10.0\ndisputed,1,1,\ndispute,1,1\ndispute,1,1,\nwithdrawal,1,2,1.0\n";

const DUP_COLUMN: &str = "type,client,client,amount\ndeposit,1,1,1.0\n";

const DUPLICATE_TX: &str = "type,client,tx,amount\ndeposit,1,1,10.0\ndeposit,2,1,5.0\nwithdrawal,2,1,1.0\ndeposit,1,1,3.0\n";

const EMPTY: &str = "";

const EXTRA_COLUMN: &str = "type,client,tx,amount,memo\ndeposit,1,1,1.0,x\n";

const GHOST_ACCOUNTS: &str = "type,client,tx,amount\ndeposit,1,1,10.0\nwithdrawal,7,2,5.0\ndispute,8,3,\ndeposit,9,4,abc\n";

const GHOST_ACCOUNTS_AND_BLANK_LINE: &str = "type,client,tx,amount\n\ntransfer,9,1,1.0\ndispute,7,99,\nwithdrawal,8,100,5.0\n";

const GRAMMAR_EDGES: &str = "type,client,tx,amount\ndeposit,1,1,.5\ndeposit,2,2,1.\ndeposit,3,3,.\ndeposit,4,4,1.2.3\ndeposit,5,5,1e5\ndeposit,6,6,7\ndeposit,7,7,+1.0\n";

const HALF_APPLIED_DISPUTE_I64_14DIGIT: &str = "type,client,tx,amount\ndeposit,1,1,899999999999999.9991\ndispute,1,1,\n\n\n\n\n\n\n\n\n\n\n\n\n\n\n\n\ndeposit,1,2,99999999999999.9999\n";

const HALF_APPLIED_HOLD_I64: &str = "type,client,tx,amount\ndeposit,1,1,922337203685477.5807\nwithdrawal,1,2,922337203685477.5807\ndeposit,1,3,0.0001\ndispute,1,1,\ndispute,1,3,\n";

const HEADER_CASE: &str = "TYPE,Client,TX,Amount\ndeposit,1,1,10.0\n";

const HEADER_ONLY: &str = "type,client,tx,amount\n";

const HEADER_PADDING: &str = " type , client , tx , amount \ndeposit,1,1,10.0\n";

const ID_REUSE_AFTER_REJECT: &str = "type,client,tx,amount\nwithdrawal,1,1,5.0\ndeposit,1,1,5.0\n";

const ID_REUSE_AFTER_WITHDRAWAL_AND_CHARGEBACK: &str = "type,client,tx,amount\ndeposit,1,1,10.0\nwithdrawal,1,2,1.0\ndeposit,2,2,5.0\ndeposit,3,3,4.0\ndispute,3,3,\nchargeback,3,3,\ndeposit,4,3,1.0\n";

const LIFECYCLE: &str = "type,client,tx,amount\ndeposit,1,1,10.0\nresolve,1,1,\nchargeback,1,1,\ndispute,1,1,\ndispute,1,1,\nresolve,1,1,\nresolve,1,1,\ndispute,1,1,\nchargeback,1,1,\ndeposit,1,2,1.0\ndispute,1,1,\n";

const LOCKED_ACCOUNT: &str = "type,client,tx,amount\ndeposit,1,1,5.0\ndeposit,1,2,3.0\ndispute,1,2,\nchargeback,1,2,\ndeposit,1,3,1.0\nwithdrawal,1,4,1.0\ndispute,1,1,\n";

const MAX_AMOUNT: &str = "type,client,tx,amount\ndeposit,1,1,922337203685477.5807\ndeposit,2,2,922337203685477.5808\ndeposit,3,3,999999999999999.9999\n";

const NEGATIVE_AFTER_DISPUTE: &str = "type,client,tx,amount\ndeposit,1,1,100.0\nwithdrawal,1,2,100.0\ndispute,1,1,\nchargeback,1,1,\n";

const NO_HEADER: &str = "deposit,1,1,1.0\n";

const QUOTE_GRAMMAR: &str = "type,client,tx,amount\ndeposit,1,1,10.0\ndeposit,2,2,\"a\"\"b\"\ndeposit,3,3,\"2.0\"\n\"deposit\",\"4\",\"4\",\"1.0\"\ndeposit,6,6, \"3\"\n\"deposit\",5,5,7\ndeposit,7,7,\"4\" ,\n";

const QUOTED_INJECTION: &str = "type,client,tx,amount\ndeposit,1,1,\"1.0\ndeposit,2,2,2.0\n\"\ndeposit,3,3,7.0\n";

const REDISPUTE: &str = "type,client,tx,amount\ndeposit,1,1,10.0\ndispute,1,1,\nresolve,1,1,\ndispute,1,1,\n";

const REORDERED_HEADER_TYPE_FIRST: &str = "type,tx,amount,client\ndeposit,1,10.0,1\n";

const SPEC_SAMPLE: &str = "type, client, tx, amount\ndeposit, 1, 1, 1.0\ndeposit, 2, 2, 2.0\ndeposit, 1, 3, 2.0\nwithdrawal, 1, 4, 1.5\nwithdrawal, 2, 5, 3.0\n";

const SUM_OVERFLOW_I128: &str = "type,client,tx,amount\ndeposit,1,1,99999999999999999999999999999999999999999\ndispute,1,1,\ndeposit,1,2,170141183460469231731687303715884105728\ndeposit,2,3,5.0\n";

const SUM_OVERFLOW_I64: &str = "type,client,tx,amount\ndeposit,1,1,922337203685477.5807\ndispute,1,1,\ndeposit,1,2,922337203685477.5808\ndeposit,2,3,5.0\n";

const SUM_OVERFLOW_I64_14DIGIT: &str = "type,client,tx,amount\ndeposit,1,1,99999999999999.9999\ndeposit,1,2,99999999999999.9999\ndeposit,1,3,99999999999999.9999\ndeposit,1,4,99999999999999.9999\ndeposit,1,5,99999999999999.9999\ndeposit,1,6,99999999999999.9999\ndeposit,1,7,99999999999999.9999\ndeposit,1,8,99999999999999.9999\ndeposit,1,9,99999999999999.9999\ndispute,1,1,\ndispute,1,2,\ndispute,1,3,\ndispute,1,4,\ndispute,1,5,\ndispute,1,6,\ndispute,1,7,\ndispute,1,8,\ndispute,1,9,\ndeposit,2,100,5.0\n\n\n\n\n\n\n\ndeposit,1,10,99999999999999.9999\n";

const TRAILING_ZEROS: &str = "type,client,tx,amount\ndeposit,1,1,1.50000\ndeposit,2,2,1.50001\ndeposit,3,3,2.500000000\n";

const TYPE_CASE: &str = "type,client,tx,amount\nDeposit,1,1,10.0\n DEPOSIT ,1,2,2.0\ncredit,1,3,5.0\n";

const UNTERMINATED_QUOTE: &str = "type,client,tx,amount\ndeposit,1,1,\"1.0\ndeposit,2,2,2.0\n";

const WITHDRAWAL_EXACT_AND_OVER: &str = "type,client,tx,amount\ndeposit,1,1,5.0\nwithdrawal,1,2,5.0\nwithdrawal,1,3,0.0001\n";

const ZERO_AMOUNT: &str = "type,client,tx,amount\ndeposit,1,1,0\ndeposit,2,2,5.0\nwithdrawal,1,3,0\ndispute,1,1,\nresolve,1,1,\n";

/// A record whose quoted amount runs from line 2 to line 902 and grows past the size cap.
fn cap_inside_quote() -> String {
    let mut text = String::from("type,client,tx,amount\ndeposit,1,1,\"\n");
    for k in 0..899 {
        let client = if k % 2 == 1 { 100 } else { 500 };
        let line = format!("deposit,{client},{k},1.0,");
        text.push_str(&format!("{line:x<80}\n"));
    }
    text.push_str("end\"\ndeposit,7,7,5.0\n");
    text
}

#[test]
fn bad_header_is_fatal() {
    run_text(BAD_HEADER).expect("run").fatal();
}

#[test]
fn bom_header_parses_clean() {
    run_text(BOM_HEADER).expect("run").ok().clean().row(1, "1,10.0000,0.0000,10.0000,false");
}

#[test]
fn crlf_carriage_returns_stripped() {
    run_text(CRLF).expect("run").ok().report(3, "unknown transaction type").row(1, "1,12.0000,0.0000,12.0000,false");
}

#[test]
fn cross_client_dispute_is_unknown_tx_but_names_client() {
    run_text(CROSS_CLIENT_DISPUTE)
        .expect("run")
        .ok()
        .report(3, "unknown transaction id")
        .row(1, "1,10.0000,0.0000,10.0000,false")
        .row(2, "2,0.0000,0.0000,0.0000,false");
}

#[test]
fn dispute_with_stated_amount_is_malformed() {
    run_text(DISPUTE_AMOUNT).expect("run").ok().report(3, "malformed row").row(1, "1,10.0000,0.0000,10.0000,false");
}

#[test]
fn quoted_fields_parse_as_real_csv() {
    run_text(DISPUTE_WITH_AMOUNT_AND_QUOTED_ROWS)
        .expect("run")
        .ok()
        .report(3, "malformed row")
        .no_report(5)
        .row(1, "1,10.0000,0.0000,10.0000,false")
        .row(2, "2,1.0000,0.0000,1.0000,false")
        .row(3, "3,2.0000,0.0000,2.0000,false");
}

#[test]
fn quote_must_wrap_the_whole_field_wcgw52() {
    run_text(QUOTE_GRAMMAR)
        .expect("run")
        .ok()
        .report(3, "invalid amount")
        .report(6, "malformed row")
        .no_report(4)
        .no_report(5)
        .no_row(2)
        .no_row(6)
        .row(1, "1,10.0000,0.0000,10.0000,false")
        .row(3, "3,2.0000,0.0000,2.0000,false")
        .row(4, "4,1.0000,0.0000,1.0000,false")
        .row(5, "5,7.0000,0.0000,7.0000,false");
}

#[test]
fn record_cap_inside_open_quote_drains_whole_record_wcgw40() {
    run_text(&cap_inside_quote())
        .expect("run")
        .ok()
        .report_span(2, 902, "malformed row")
        .no_row(1)
        .no_row(100)
        .no_row(500)
        .row(7, "7,5.0000,0.0000,5.0000,false");
}

#[test]
fn dispute_on_withdrawal_rejected_wcgw47() {
    run_text(DISPUTE_WITHDRAWAL)
        .expect("run")
        .ok()
        .report(4, "withdrawals cannot be disputed")
        .row(1, "1,7.0000,0.0000,7.0000,false");
}

#[test]
fn dispute_missing_trailing_comma_is_malformed() {
    run_text(DISPUTE_WITHOUT_TRAILING_COMMA)
        .expect("run")
        .ok()
        .report(3, "unknown transaction type")
        .report(4, "malformed row")
        .report(6, "insufficient funds")
        .row(1, "1,0.0000,10.0000,10.0000,false");
}

#[test]
fn duplicate_header_column_is_fatal() {
    run_text(DUP_COLUMN).expect("run").fatal();
}

#[test]
fn duplicate_tx_ids_rejected_globally() {
    run_text(DUPLICATE_TX)
        .expect("run")
        .ok()
        .report(3, "duplicate transaction id")
        .report(4, "duplicate transaction id")
        .report(5, "duplicate transaction id")
        .row(1, "1,10.0000,0.0000,10.0000,false")
        .row(2, "2,0.0000,0.0000,0.0000,false");
}

#[test]
fn empty_file_is_zero_clients() {
    run_text(EMPTY).expect("run").ok().clean().header_only();
}

#[test]
fn unknown_header_column_is_fatal() {
    run_text(EXTRA_COLUMN).expect("run").fatal();
}

#[test]
fn blank_line_skipped_ghost_clients_appear_zeroed() {
    run_text(GHOST_ACCOUNTS_AND_BLANK_LINE)
        .expect("run")
        .ok()
        .report(3, "unknown transaction type")
        .report(4, "unknown transaction id")
        .report(5, "insufficient funds")
        .no_report(2)
        .row(7, "7,0.0000,0.0000,0.0000,false")
        .row(8, "8,0.0000,0.0000,0.0000,false");
}

#[test]
fn bad_amount_never_names_a_client() {
    run_text(GHOST_ACCOUNTS)
        .expect("run")
        .ok()
        .report(3, "insufficient funds")
        .report(4, "unknown transaction id")
        .report(5, "invalid amount")
        .row(1, "1,10.0000,0.0000,10.0000,false")
        .row(7, "7,0.0000,0.0000,0.0000,false")
        .row(8, "8,0.0000,0.0000,0.0000,false")
        .no_row(9);
}

#[test]
fn grammar_edges_accept_bare_decimals_reject_junk() {
    run_text(GRAMMAR_EDGES)
        .expect("run")
        .ok()
        .report(4, "invalid amount")
        .report(5, "invalid amount")
        .report(6, "invalid amount")
        .report(8, "invalid amount")
        .row(1, "1,0.5000,0.0000,0.5000,false")
        .row(2, "2,1.0000,0.0000,1.0000,false")
        .no_row(3)
        .no_row(4)
        .no_row(5)
        .row(6, "6,7.0000,0.0000,7.0000,false")
        .no_row(7);
}

#[test]
fn dispute_held_overflow_rejected_row_survives() {
    run_text(HALF_APPLIED_DISPUTE_I64_14DIGIT)
        .expect("run")
        .ok()
        .report(20, "invalid amount")
        .row(1, "1,0.0000,899999999999999.9991,899999999999999.9991,false");
}

#[test]
fn rejected_dispute_moves_no_money() {
    run_text(HALF_APPLIED_HOLD_I64)
        .expect("run")
        .ok()
        .report(6, "invalid amount")
        .row(1, "1,-922337203685477.5806,922337203685477.5807,0.0001,false");
}

#[test]
fn header_case_is_irrelevant() {
    run_text(HEADER_CASE).expect("run").ok().clean().row(1, "1,10.0000,0.0000,10.0000,false");
}

#[test]
fn header_only_yields_bare_output() {
    run_text(HEADER_ONLY).expect("run").ok().clean().header_only();
}

#[test]
fn padded_header_fields_trim() {
    run_text(HEADER_PADDING).expect("run").ok().clean().row(1, "1,10.0000,0.0000,10.0000,false");
}

#[test]
fn rejected_withdrawal_frees_its_id() {
    run_text(ID_REUSE_AFTER_REJECT)
        .expect("run")
        .ok()
        .report(2, "insufficient funds")
        .no_report(3)
        .row(1, "1,5.0000,0.0000,5.0000,false");
}

#[test]
fn chargebacked_id_stays_burned_forever() {
    run_text(ID_REUSE_AFTER_WITHDRAWAL_AND_CHARGEBACK)
        .expect("run")
        .ok()
        .report(4, "duplicate transaction id")
        .report(8, "duplicate transaction id")
        .row(1, "1,9.0000,0.0000,9.0000,false")
        .row(3, "3,0.0000,0.0000,0.0000,true")
        .row(4, "4,0.0000,0.0000,0.0000,false");
}

#[test]
fn full_dispute_lifecycle_then_locked() {
    run_text(LIFECYCLE)
        .expect("run")
        .ok()
        .report(3, "transaction not under dispute")
        .report(4, "transaction not under dispute")
        .report(6, "transaction already under dispute")
        .report(8, "transaction not under dispute")
        .report(11, "account locked")
        .report(12, "account locked")
        .row(1, "1,0.0000,0.0000,0.0000,true");
}

#[test]
fn locked_account_rejects_everything_after() {
    run_text(LOCKED_ACCOUNT)
        .expect("run")
        .ok()
        .report(6, "account locked")
        .report(7, "account locked")
        .report(8, "account locked")
        .row(1, "1,5.0000,0.0000,5.0000,true");
}

#[test]
fn amounts_beyond_i64_max_rejected() {
    run_text(MAX_AMOUNT)
        .expect("run")
        .ok()
        .report(3, "invalid amount")
        .report(4, "invalid amount")
        .row(1, "1,922337203685477.5807,0.0000,922337203685477.5807,false")
        .no_row(2)
        .no_row(3);
}

#[test]
fn chargeback_can_drive_total_negative_unclamped() {
    run_text(NEGATIVE_AFTER_DISPUTE).expect("run").ok().clean().row(1, "1,-100.0000,0.0000,-100.0000,true");
}

#[test]
fn headerless_data_is_fatal() {
    run_text(NO_HEADER).expect("run").fatal();
}

#[test]
fn multiline_quote_span_reports_span_wcgw49() {
    run_text(QUOTED_INJECTION)
        .expect("run")
        .ok()
        .report_span(2, 4, "invalid amount")
        .no_report(2)
        .no_row(1)
        .no_row(2)
        .row(3, "3,7.0000,0.0000,7.0000,false");
}

#[test]
fn redispute_after_resolve_is_legal() {
    run_text(REDISPUTE).expect("run").ok().clean().row(1, "1,0.0000,10.0000,10.0000,false");
}

#[test]
fn reordered_header_remaps_columns() {
    run_text(REORDERED_HEADER_TYPE_FIRST).expect("run").ok().clean().row(1, "1,10.0000,0.0000,10.0000,false");
}

#[test]
fn spec_sample_overdraft_rejected() {
    run_text(SPEC_SAMPLE)
        .expect("run")
        .ok()
        .report(6, "insufficient funds")
        .row(1, "1,1.5000,0.0000,1.5000,false")
        .row(2, "2,2.0000,0.0000,2.0000,false");
}

#[test]
fn huge_amounts_rejected_other_clients_unaffected() {
    run_text(SUM_OVERFLOW_I128)
        .expect("run")
        .ok()
        .report(2, "invalid amount")
        .report(3, "unknown transaction id")
        .report(4, "invalid amount")
        .row(1, "1,0.0000,0.0000,0.0000,false")
        .row(2, "2,5.0000,0.0000,5.0000,false");
}

#[test]
fn stacked_disputes_cannot_exceed_representable_total_wcgw51() {
    run_text(SUM_OVERFLOW_I64_14DIGIT)
        .expect("run")
        .ok()
        .report(28, "invalid amount")
        .row(1, "1,0.0000,899999999999999.9991,899999999999999.9991,false")
        .row(2, "2,5.0000,0.0000,5.0000,false");
}

#[test]
fn dispute_at_i64_max_rejects_unrepresentable_total_wcgw51() {
    run_text(SUM_OVERFLOW_I64)
        .expect("run")
        .ok()
        .report(4, "invalid amount")
        .row(1, "1,0.0000,922337203685477.5807,922337203685477.5807,false")
        .row(2, "2,5.0000,0.0000,5.0000,false");
}

#[test]
fn trailing_zero_padding_accepted_real_precision_rejected() {
    run_text(TRAILING_ZEROS)
        .expect("run")
        .ok()
        .report(3, "invalid amount")
        .row(1, "1,1.5000,0.0000,1.5000,false")
        .no_row(2)
        .row(3, "3,2.5000,0.0000,2.5000,false");
}

#[test]
fn type_casing_and_padding_tolerated_but_synonyms_rejected() {
    run_text(TYPE_CASE).expect("run").ok().report(4, "unknown transaction type").row(1, "1,12.0000,0.0000,12.0000,false");
}

#[test]
fn unterminated_quote_at_eof_is_broken_file_wcgw50() {
    run_text(UNTERMINATED_QUOTE).expect("run").fatal_unterminated();
}

#[test]
fn exact_withdrawal_drains_then_overdraw_rejected() {
    run_text(WITHDRAWAL_EXACT_AND_OVER)
        .expect("run")
        .ok()
        .report(4, "insufficient funds")
        .row(1, "1,0.0000,0.0000,0.0000,false");
}

#[test]
fn zero_amounts_recorded_but_zero_dispute_rejected() {
    run_text(ZERO_AMOUNT)
        .expect("run")
        .ok()
        .report(5, "invalid amount")
        .report(6, "transaction not under dispute")
        .row(1, "1,0.0000,0.0000,0.0000,false")
        .row(2, "2,5.0000,0.0000,5.0000,false");
}
