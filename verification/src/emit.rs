//! Rendering the final balance snapshot: a header row, then one row per
//! known client in first-reference order, with columns
//! `client, available, held, total, locked`. The total is computed as
//! `available + held` at write time; amounts are rendered exactly, with
//! trailing zeros of the fraction dropped. An empty ledger renders as the
//! empty output, header included.

use vstd::prelude::*;
use vstd::string::StringExecFns;

use crate::account::AccountState;
use crate::engine::{Ledger, LedgerModel};

verus! {

/// The character of one decimal digit.
pub open spec fn digit_char(d: int) -> char {
    if d == 0 {
        '0'
    } else if d == 1 {
        '1'
    } else if d == 2 {
        '2'
    } else if d == 3 {
        '3'
    } else if d == 4 {
        '4'
    } else if d == 5 {
        '5'
    } else if d == 6 {
        '6'
    } else if d == 7 {
        '7'
    } else if d == 8 {
        '8'
    } else {
        '9'
    }
}

/// The decimal rendering of a non-negative integer.
pub open spec fn u64_chars(n: int) -> Seq<char>
    decreases n,
{
    if n < 10 {
        seq![digit_char(n)]
    } else {
        u64_chars(n / 10).push(digit_char(n % 10))
    }
}

/// The rendering of a fraction `0 < f < 10000` of a unit: its four digits
/// with the trailing zeros dropped.
pub open spec fn frac_chars(f: int) -> Seq<char> {
    let d1 = digit_char(f / 1000);
    let d2 = digit_char((f / 100) % 10);
    let d3 = digit_char((f / 10) % 10);
    let d4 = digit_char(f % 10);
    if f % 10 != 0 {
        seq![d1, d2, d3, d4]
    } else if (f / 10) % 10 != 0 {
        seq![d1, d2, d3]
    } else if (f / 100) % 10 != 0 {
        seq![d1, d2]
    } else {
        seq![d1]
    }
}

/// The rendering of an amount held as ten-thousandths of a unit: the integer
/// part, and the non-zero fraction after a decimal point.
pub open spec fn amount_chars(v: int) -> Seq<char> {
    if v % 10000 == 0 {
        u64_chars(v / 10000)
    } else {
        u64_chars(v / 10000) + seq!['.'] + frac_chars(v % 10000)
    }
}

/// The rendering of the locked flag.
pub open spec fn bool_chars(b: bool) -> Seq<char> {
    if b {
        "true"@
    } else {
        "false"@
    }
}

/// One account's output row.
pub open spec fn row_chars(k: u32, s: AccountState) -> Seq<char> {
    u64_chars(k as int) + seq![','] + amount_chars(s.available) + seq![','] + amount_chars(s.held)
        + seq![','] + amount_chars(s.available + s.held) + seq![','] + bool_chars(s.locked)
        + seq!['\n']
}

/// The rows of all accounts, in first-reference order.
pub open spec fn rows_chars(accounts: Map<u32, AccountState>, order: Seq<u32>) -> Seq<char>
    decreases order.len(),
{
    if order.len() == 0 {
        Seq::empty()
    } else {
        rows_chars(accounts, order.drop_last()) + row_chars(
            order.last(),
            accounts[order.last()],
        )
    }
}

/// The whole snapshot: nothing for an empty ledger, else a header and one
/// row per account.
pub open spec fn spec_render(m: LedgerModel) -> Seq<char> {
    if m.order.len() == 0 {
        Seq::empty()
    } else {
        "client,available,held,total,locked\n"@ + rows_chars(m.accounts, m.order)
    }
}

/// Appends one digit.
fn append_digit(out: &mut String, d: u64)
    requires
        d < 10,
    ensures
        final(out)@ == old(out)@ + seq![digit_char(d as int)],
{
    proof {
        reveal_strlit("0");
        reveal_strlit("1");
        reveal_strlit("2");
        reveal_strlit("3");
        reveal_strlit("4");
        reveal_strlit("5");
        reveal_strlit("6");
        reveal_strlit("7");
        reveal_strlit("8");
        reveal_strlit("9");
        assert("0"@ =~= seq![digit_char(0)]);
        assert("1"@ =~= seq![digit_char(1)]);
        assert("2"@ =~= seq![digit_char(2)]);
        assert("3"@ =~= seq![digit_char(3)]);
        assert("4"@ =~= seq![digit_char(4)]);
        assert("5"@ =~= seq![digit_char(5)]);
        assert("6"@ =~= seq![digit_char(6)]);
        assert("7"@ =~= seq![digit_char(7)]);
        assert("8"@ =~= seq![digit_char(8)]);
        assert("9"@ =~= seq![digit_char(9)]);
    }
    if d == 0 {
        out.append("0");
    } else if d == 1 {
        out.append("1");
    } else if d == 2 {
        out.append("2");
    } else if d == 3 {
        out.append("3");
    } else if d == 4 {
        out.append("4");
    } else if d == 5 {
        out.append("5");
    } else if d == 6 {
        out.append("6");
    } else if d == 7 {
        out.append("7");
    } else if d == 8 {
        out.append("8");
    } else {
        out.append("9");
    }
}

/// Appends a non-negative integer in decimal.
fn append_u64(out: &mut String, n: u64)
    ensures
        final(out)@ == old(out)@ + u64_chars(n as int),
    decreases n,
{
    if n >= 10 {
        append_u64(out, n / 10);
        append_digit(out, n % 10);
        proof {
            assert(u64_chars(n as int) =~= u64_chars(n as int / 10) + seq![
                digit_char(n as int % 10),
            ]);
            assert((old(out)@ + u64_chars(n as int / 10)) + seq![digit_char(n as int % 10)] =~= old(
                out,
            )@ + u64_chars(n as int));
        }
    } else {
        append_digit(out, n);
    }
}

/// Appends an amount, in ten-thousandths of a unit.
fn append_amount(out: &mut String, v: u64)
    ensures
        final(out)@ == old(out)@ + amount_chars(v as int),
{
    append_u64(out, v / 10000);
    let f = v % 10000;
    proof {
        assert(v as int / 10000 == (v / 10000) as int);
        assert(v as int % 10000 == f as int);
    }
    if f != 0 {
        proof {
            reveal_strlit(".");
            assert("."@ =~= seq!['.']);
        }
        out.append(".");
        let d1 = f / 1000;
        let d2 = (f / 100) % 10;
        let d3 = (f / 10) % 10;
        let d4 = f % 10;
        assert(d1 < 10);
        let ghost mid = out@;
        append_digit(out, d1);
        if d2 != 0 || d3 != 0 || d4 != 0 {
            append_digit(out, d2);
        }
        if d3 != 0 || d4 != 0 {
            append_digit(out, d3);
        }
        if d4 != 0 {
            append_digit(out, d4);
        }
        proof {
            let fi = f as int;
            assert(d1 as int == fi / 1000);
            assert(d2 as int == (fi / 100) % 10);
            assert(d3 as int == (fi / 10) % 10);
            assert(d4 as int == fi % 10);
            assert(out@ =~= mid + frac_chars(fi));
            assert(out@ =~= old(out)@ + amount_chars(v as int));
        }
    }
}

/// Appends the locked flag.
fn append_bool(out: &mut String, b: bool)
    ensures
        final(out)@ == old(out)@ + bool_chars(b),
{
    if b {
        out.append("true");
    } else {
        out.append("false");
    }
}

/// Renders the final snapshot of a ledger.
#[verifier::rlimit(50)]
pub fn render(ledger: &Ledger) -> (r: String)
    requires
        ledger@.wf(),
    ensures
        r@ == spec_render(ledger@),
{
    let mut out = String::new();
    if ledger.clients.len() == 0 {
        return out;
    }
    out.append("client,available,held,total,locked\n");
    let ghost m = ledger@;
    let mut i: usize = 0;
    proof {
        assert(m.order.take(0) =~= Seq::<u32>::empty());
        assert(out@ =~= "client,available,held,total,locked\n"@ + rows_chars(
            m.accounts,
            m.order.take(0),
        ));
    }
    while i < ledger.clients.len()
        invariant
            m == ledger@,
            m.wf(),
            0 <= i <= m.order.len(),
            m.order.len() == ledger.clients@.len(),
            m.order.len() > 0,
            out@ == "client,available,held,total,locked\n"@ + rows_chars(
                m.accounts,
                m.order.take(i as int),
            ),
        decreases m.order.len() - i,
    {
        let c = ledger.clients[i];
        assert(m.accounts.contains_key(c));
        let acc = match ledger.accounts.get(&c) {
            Some(a) => a,
            None => {
                proof {
                    assert(false);
                }
                vstd::pervasive::unreached()
            },
        };
        proof {
            assert(acc@ == m.accounts[c]);
            assert(acc@.wf());
        }
        let ghost before = out@;
        append_u64(&mut out, c as u64);
        proof {
            reveal_strlit(",");
            reveal_strlit("\n");
            assert(","@ =~= seq![',']);
            assert("\n"@ =~= seq!['\n']);
        }
        out.append(",");
        append_amount(&mut out, acc.available);
        out.append(",");
        append_amount(&mut out, acc.held);
        out.append(",");
        append_amount(&mut out, acc.available + acc.held);
        out.append(",");
        append_bool(&mut out, acc.locked);
        out.append("\n");
        proof {
            assert(u64_chars(c as u64 as int) == u64_chars(c as int));
            assert(out@ =~= before + row_chars(c, m.accounts[c]));
            assert(m.order.take(i + 1).drop_last() =~= m.order.take(i as int));
            assert(m.order.take(i + 1).last() == c);
            assert(rows_chars(m.accounts, m.order.take(i + 1)) =~= rows_chars(
                m.accounts,
                m.order.take(i as int),
            ) + row_chars(c, m.accounts[c]));
            assert(out@ =~= "client,available,held,total,locked\n"@ + rows_chars(
                m.accounts,
                m.order.take(i + 1),
            ));
        }
        i = i + 1;
    }
    proof {
        assert(m.order.take(i as int) =~= m.order);
    }
    out
}

} // verus!
