use vstd::prelude::*;
use crate::account::Account;
use crate::ledger::{Ledger, LedgerView};
use crate::money::{fits_i64, money_text};
use crate::text::{ascii, decimal, push_ascii, push_decimal};

verus! {

broadcast use vstd::std_specs::hash::group_hash_axioms;

pub open spec fn bool_text(b: bool) -> Seq<u8> {
    if b {
        ascii("true"@)
    } else {
        ascii("false"@)
    }
}

/// The total, or the word `overflow` when available plus held does not fit.
pub open spec fn total_text(a: Account) -> Seq<u8> {
    if fits_i64(a.available.0 + a.held.0) {
        money_text(a.available.0 + a.held.0)
    } else {
        ascii("overflow"@)
    }
}

/// The output line of one account.
pub open spec fn account_line(id: u16, a: Account) -> Seq<u8> {
    decimal(id as nat) + seq![44u8] + money_text(a.available.0 as int) + seq![44u8] + money_text(
        a.held.0 as int,
    ) + seq![44u8] + total_text(a) + seq![44u8] + bool_text(a.locked) + seq![10u8]
}

/// The lines of the accounts whose ids are below `n`, in increasing order of id.
pub open spec fn account_lines(accounts: Map<u16, Account>, n: int) -> Seq<u8>
    decreases n,
{
    if n <= 0 {
        Seq::empty()
    } else {
        account_lines(accounts, n - 1) + if accounts.contains_key((n - 1) as u16) {
            account_line((n - 1) as u16, accounts[(n - 1) as u16])
        } else {
            Seq::empty()
        }
    }
}

pub open spec fn header_line() -> Seq<u8> {
    ascii("client,available,held,total,locked\n"@)
}

/// The whole output: the header, then every account in increasing order of client id.
pub open spec fn render_text(l: LedgerView) -> Seq<u8> {
    header_line() + account_lines(l.accounts, 65536)
}

fn write_line(out: &mut Vec<u8>, id: u16, a: Account)
    ensures
        final(out)@ == old(out)@ + account_line(id, a),
{
    let ghost start = out@;
    push_decimal(out, id as u64);
    out.push(44u8);
    a.available.write_text(out);
    out.push(44u8);
    a.held.write_text(out);
    out.push(44u8);
    let ghost before_total = out@;
    proof {
        reveal_strlit("overflow");
        reveal_strlit("true");
        reveal_strlit("false");
    }
    match a.available.total_of(a.held) {
        Ok(total) => total.write_text(out),
        Err(_) => push_ascii(out, "overflow"),
    }
    assert(out@ == before_total + total_text(a));
    out.push(44u8);
    if a.locked {
        push_ascii(out, "true");
    } else {
        push_ascii(out, "false");
    }
    out.push(10u8);
    assert(out@ =~= start + account_line(id, a));
}

/// Writes the header and one line per account, in increasing order of
/// client id, into `out` in one piece.
pub fn render(ledger: &Ledger, out: &mut Vec<u8>)
    ensures
        final(out)@ == old(out)@ + render_text(ledger@),
{
    let ghost start = out@;
    proof {
        reveal_strlit("client,available,held,total,locked\n");
    }
    push_ascii(out, "client,available,held,total,locked\n");
    let mut id: u32 = 0;
    while id < 65536
        invariant
            id <= 65536,
            out@ == start + header_line() + account_lines(ledger@.accounts, id as int),
        decreases 65536 - id,
    {
        let ghost before = out@;
        match ledger.accounts.get(&(id as u16)) {
            Some(a) => write_line(out, id as u16, *a),
            None => {},
        }
        assert(out@ == start + header_line() + account_lines(ledger@.accounts, id + 1));
        id = id + 1;
    }
}

} // verus!
