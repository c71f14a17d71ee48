//! The input row grammar: a delimited-text stream with a header row naming
//! the columns `type`, `client`, `tx` and (optionally) `amount`, then one row
//! per event. Fields are separated by commas, surrounding whitespace is
//! trimmed, blank lines are skipped, and the type token is matched without
//! regard to case. A row that cannot be read as a well-typed event is a hard
//! parse failure that aborts the whole run.

use vstd::prelude::*;

use crate::account::{ClientId, TxId};
use crate::engine::{Transaction, TxType};
use crate::numeric::{find_byte, spec_parse_amount, spec_parse_u32};

verus! {

/// Why a run was aborted: the first structurally malformed piece of input.
#[derive(Debug, Copy, Clone, PartialEq, Eq, Structural)]
pub enum ParseError {
    /// The header row lacks one of the required columns.
    MissingColumn,
    /// A row's field count differs from the header's.
    WrongFieldCount,
    /// The type field is not one of the five event kinds.
    UnknownTransactionType,
    /// The client field is not an unsigned integer in range.
    BadClientId,
    /// The tx field is not an unsigned integer in range.
    BadTransactionId,
    /// A present amount field is not a well-formed decimal amount.
    BadAmount,
}

impl ParseError {
    /// A one-line description for diagnostics.
    pub fn describe(&self) -> (r: &'static str)
        ensures
            r@.len() > 0,
    {
        proof {
            reveal_strlit("a required column is missing from the header");
            reveal_strlit("a row has the wrong number of fields");
            reveal_strlit("unknown transaction type");
            reveal_strlit("malformed client id");
            reveal_strlit("malformed transaction id");
            reveal_strlit("malformed amount");
        }
        match self {
            ParseError::MissingColumn => "a required column is missing from the header",
            ParseError::WrongFieldCount => "a row has the wrong number of fields",
            ParseError::UnknownTransactionType => "unknown transaction type",
            ParseError::BadClientId => "malformed client id",
            ParseError::BadTransactionId => "malformed transaction id",
            ParseError::BadAmount => "malformed amount",
        }
    }
}

/// True of the whitespace trimmed around fields (blank, tab, carriage
/// return — the last so that line endings with a carriage return work).
pub open spec fn is_space(b: u8) -> bool {
    b == 32 || b == 9 || b == 13
}

/// `s` without its leading whitespace.
pub open spec fn trim_front(s: Seq<u8>) -> Seq<u8>
    decreases s.len(),
{
    if s.len() > 0 && is_space(s[0]) {
        trim_front(s.drop_first())
    } else {
        s
    }
}

/// `s` without its trailing whitespace.
pub open spec fn trim_back(s: Seq<u8>) -> Seq<u8>
    decreases s.len(),
{
    if s.len() > 0 && is_space(s.last()) {
        trim_back(s.drop_last())
    } else {
        s
    }
}

/// `s` without surrounding whitespace.
pub open spec fn spec_trim(s: Seq<u8>) -> Seq<u8> {
    trim_back(trim_front(s))
}

/// A line is blank when nothing but whitespace is on it.
pub open spec fn spec_blank(s: Seq<u8>) -> bool {
    spec_trim(s).len() == 0
}

proof fn lemma_trim_front_at(s: Seq<u8>, lo: int)
    requires
        0 <= lo <= s.len(),
        forall|j: int| 0 <= j < lo ==> is_space(#[trigger] s[j]),
        lo < s.len() ==> !is_space(s[lo]),
    ensures
        trim_front(s) == s.skip(lo),
    decreases lo,
{
    if lo == 0 {
        assert(s.skip(0) =~= s);
    } else {
        lemma_trim_front_at(s.drop_first(), lo - 1);
        assert(s.drop_first().skip(lo - 1) =~= s.skip(lo));
    }
}

proof fn lemma_trim_back_at(s: Seq<u8>, hi: int)
    requires
        0 <= hi <= s.len(),
        forall|j: int| hi <= j < s.len() ==> is_space(#[trigger] s[j]),
        hi > 0 ==> !is_space(s[hi - 1]),
    ensures
        trim_back(s) == s.take(hi),
    decreases s.len(),
{
    if hi == s.len() {
        if s.len() > 0 {
            assert(s.take(hi) =~= s);
        } else {
            assert(s.take(0) =~= s);
        }
    } else {
        lemma_trim_back_at(s.drop_last(), hi);
        assert(s.drop_last().take(hi) =~= s.take(hi));
    }
}

/// Trims surrounding whitespace from a field.
pub fn trim(s: &[u8]) -> (r: Vec<u8>)
    ensures
        r@ == spec_trim(s@),
{
    let mut lo: usize = 0;
    while lo < s.len() && (s[lo] == 32 || s[lo] == 9 || s[lo] == 13)
        invariant
            0 <= lo <= s@.len(),
            forall|j: int| 0 <= j < lo ==> is_space(#[trigger] s@[j]),
        decreases s@.len() - lo,
    {
        lo = lo + 1;
    }
    proof {
        lemma_trim_front_at(s@, lo as int);
    }
    let mut hi: usize = s.len();
    while hi > lo && (s[hi - 1] == 32 || s[hi - 1] == 9 || s[hi - 1] == 13)
        invariant
            lo <= hi <= s@.len(),
            forall|j: int| hi <= j < s@.len() ==> is_space(#[trigger] s@[j]),
        decreases hi,
    {
        hi = hi - 1;
    }
    proof {
        let t = s@.skip(lo as int);
        assert forall|j: int| hi - lo <= j < t.len() implies is_space(#[trigger] t[j]) by {
            assert(t[j] == s@[j + lo]);
            assert(is_space(s@[j + lo]));
        }
        lemma_trim_back_at(t, hi - lo);
        assert(t.take(hi - lo) =~= s@.subrange(lo as int, hi as int));
    }
    let mut r: Vec<u8> = Vec::new();
    r.extend_from_slice(&s[lo..hi]);
    proof {
        assert(r@ =~= s@.subrange(lo as int, hi as int));
    }
    r
}

/// True when a line holds nothing but whitespace.
pub fn is_blank(s: &[u8]) -> (r: bool)
    ensures
        r == spec_blank(s@),
{
    let t = trim(s);
    t.len() == 0
}

/// Splitting a byte string on a separator: the unique decomposition into
/// separator-free parts.
pub open spec fn spec_split(s: Seq<u8>, sep: u8) -> Seq<Seq<u8>>
    decreases s.len(),
{
    match find_byte(s, sep) {
        Option::None => seq![s],
        Option::Some(i) => {
            if 0 <= i < s.len() {
                seq![s.take(i)] + spec_split(s.skip(i + 1), sep)
            } else {
                seq![s]
            }
        },
    }
}

/// Splits a byte string on a separator.
pub fn split(s: &[u8], sep: u8) -> (r: Vec<Vec<u8>>)
    ensures
        r.deep_view() == spec_split(s@, sep),
{
    let mut r: Vec<Vec<u8>> = Vec::new();
    let mut start: usize = 0;
    let mut i: usize = 0;
    proof {
        assert(s@.skip(0) =~= s@);
        assert(r.deep_view() =~~= Seq::<Seq<u8>>::empty());
        assert(r.deep_view() + spec_split(s@, sep) =~~= spec_split(s@, sep));
    }
    while i < s.len()
        invariant
            0 <= start <= i <= s@.len(),
            forall|j: int| start <= j < i ==> s@[j] != sep,
            spec_split(s@, sep) == r.deep_view() + spec_split(s@.skip(start as int), sep),
        decreases s@.len() - i,
    {
        if s[i] == sep {
            let ghost rest = s@.skip(start as int);
            let ghost r0 = r.deep_view();
            proof {
                assert(rest[i - start] == s@[i as int]);
                assert forall|j: int| 0 <= j < i - start implies rest[j] != sep by {
                    assert(rest[j] == s@[j + start]);
                }
                crate::numeric::lemma_find_byte_at(rest, sep, i - start);
                assert(rest.take(i - start) =~= s@.subrange(start as int, i as int));
                assert(rest.skip(i - start + 1) =~= s@.skip(i + 1));
            }
            let mut part: Vec<u8> = Vec::new();
            part.extend_from_slice(&s[start..i]);
            proof {
                assert(part@ =~= s@.subrange(start as int, i as int));
            }
            r.push(part);
            proof {
                assert(spec_split(rest, sep) == seq![rest.take(i - start)] + spec_split(
                    rest.skip(i - start + 1),
                    sep,
                ));
                assert(r.deep_view() =~~= r0.push(part@));
                assert(r.deep_view() + spec_split(s@.skip(i + 1), sep) =~~= r0 + spec_split(
                    rest,
                    sep,
                ));
            }
            start = i + 1;
        }
        i = i + 1;
    }
    let ghost rest = s@.skip(start as int);
    proof {
        assert forall|j: int| 0 <= j < rest.len() implies rest[j] != sep by {
            assert(rest[j] == s@[j + start]);
        }
        crate::numeric::lemma_find_byte_none(rest, sep);
        assert(spec_split(rest, sep) == seq![rest]);
    }
    let mut part: Vec<u8> = Vec::new();
    part.extend_from_slice(&s[start..s.len()]);
    proof {
        assert(part@ =~= rest);
    }
    r.push(part);
    proof {
        assert(r.deep_view() =~~= spec_split(s@, sep));
    }
    r
}

/// Lower-cases one ASCII letter; anything else is unchanged.
pub open spec fn spec_lower(b: u8) -> u8 {
    if 65 <= b <= 90 {
        (b + 32) as u8
    } else {
        b
    }
}

/// Case-insensitive match of a field against a lower-case keyword.
pub open spec fn matches_kw(s: Seq<u8>, kw: Seq<u8>) -> bool {
    s.len() == kw.len() && forall|i: int| 0 <= i < s.len() ==> spec_lower(#[trigger] s[i]) == kw[i]
}

/// The bytes of the name `type`.
pub open spec fn kw_type() -> Seq<u8> {
    seq![116, 121, 112, 101]
}

/// The bytes of the name `client`.
pub open spec fn kw_client() -> Seq<u8> {
    seq![99, 108, 105, 101, 110, 116]
}

/// The bytes of the name `tx`.
pub open spec fn kw_tx() -> Seq<u8> {
    seq![116, 120]
}

/// The bytes of the name `amount`.
pub open spec fn kw_amount() -> Seq<u8> {
    seq![97, 109, 111, 117, 110, 116]
}

/// The bytes of the name `deposit`.
pub open spec fn kw_deposit() -> Seq<u8> {
    seq![100, 101, 112, 111, 115, 105, 116]
}

/// The bytes of the name `withdrawal`.
pub open spec fn kw_withdrawal() -> Seq<u8> {
    seq![119, 105, 116, 104, 100, 114, 97, 119, 97, 108]
}

/// The bytes of the name `dispute`.
pub open spec fn kw_dispute() -> Seq<u8> {
    seq![100, 105, 115, 112, 117, 116, 101]
}

/// The bytes of the name `resolve`.
pub open spec fn kw_resolve() -> Seq<u8> {
    seq![114, 101, 115, 111, 108, 118, 101]
}

/// The bytes of the name `chargeback`.
pub open spec fn kw_chargeback() -> Seq<u8> {
    seq![99, 104, 97, 114, 103, 101, 98, 97, 99, 107]
}

/// Exact equality of a field with a name.
fn bytes_eq(a: &[u8], b: &[u8]) -> (r: bool)
    ensures
        r == (a@ == b@),
{
    if a.len() != b.len() {
        return false;
    }
    let mut i: usize = 0;
    while i < a.len()
        invariant
            0 <= i <= a@.len(),
            a@.len() == b@.len(),
            forall|j: int| 0 <= j < i ==> a@[j] == b@[j],
        decreases a@.len() - i,
    {
        if a[i] != b[i] {
            return false;
        }
        i = i + 1;
    }
    proof {
        assert(a@ =~= b@);
    }
    true
}

/// Case-insensitive match of a field against a lower-case keyword.
fn token_matches(s: &[u8], kw: &[u8]) -> (r: bool)
    ensures
        r == matches_kw(s@, kw@),
{
    if s.len() != kw.len() {
        return false;
    }
    let mut i: usize = 0;
    while i < s.len()
        invariant
            0 <= i <= s@.len(),
            s@.len() == kw@.len(),
            forall|j: int| 0 <= j < i ==> spec_lower(#[trigger] s@[j]) == kw@[j],
        decreases s@.len() - i,
    {
        let b = s[i];
        let low: u8 = if b >= 65 && b <= 90 {
            b + 32
        } else {
            b
        };
        if low != kw[i] {
            return false;
        }
        i = i + 1;
    }
    true
}

/// First column whose trimmed name is `name`, if any.
pub open spec fn spec_find_column(fields: Seq<Seq<u8>>, name: Seq<u8>) -> Option<int>
    decreases fields.len(),
{
    if fields.len() == 0 {
        Option::None
    } else if spec_trim(fields[0]) == name {
        Option::Some(0)
    } else {
        match spec_find_column(fields.drop_first(), name) {
            Option::None => Option::None,
            Option::Some(i) => Option::Some(i + 1),
        }
    }
}

proof fn lemma_find_column_at(fields: Seq<Seq<u8>>, name: Seq<u8>, i: int)
    requires
        0 <= i < fields.len(),
        spec_trim(fields[i]) == name,
        forall|j: int| 0 <= j < i ==> spec_trim(#[trigger] fields[j]) != name,
    ensures
        spec_find_column(fields, name) == Option::Some(i),
    decreases fields.len(),
{
    if i > 0 {
        lemma_find_column_at(fields.drop_first(), name, i - 1);
    }
}

proof fn lemma_find_column_none(fields: Seq<Seq<u8>>, name: Seq<u8>)
    requires
        forall|j: int| 0 <= j < fields.len() ==> spec_trim(#[trigger] fields[j]) != name,
    ensures
        spec_find_column(fields, name) is None,
    decreases fields.len(),
{
    if fields.len() > 0 {
        lemma_find_column_none(fields.drop_first(), name);
    }
}

/// Finds the first column with the given (trimmed) name.
fn find_column(fields: &Vec<Vec<u8>>, name: &[u8]) -> (r: Option<usize>)
    ensures
        match r {
            Option::Some(i) => i < fields@.len() && spec_find_column(fields.deep_view(), name@)
                == Option::Some(i as int),
            Option::None => spec_find_column(fields.deep_view(), name@) is None,
        },
{
    let ghost fs = fields.deep_view();
    let mut i: usize = 0;
    while i < fields.len()
        invariant
            fs == fields.deep_view(),
            0 <= i <= fs.len(),
            fs.len() == fields@.len(),
            forall|j: int| 0 <= j < i ==> spec_trim(#[trigger] fs[j]) != name@,
        decreases fs.len() - i,
    {
        let t = trim(fields[i].as_slice());
        proof {
            assert(fs[i as int] =~= fields@[i as int]@);
        }
        if bytes_eq(t.as_slice(), name) {
            proof {
                lemma_find_column_at(fs, name@, i as int);
            }
            return Option::Some(i);
        }
        i = i + 1;
    }
    proof {
        lemma_find_column_none(fs, name@);
    }
    Option::None
}

/// Where the required columns sit in the header, and how many columns a row
/// must have.
#[derive(Debug, Copy, Clone)]
pub struct ColumnLayout {
    pub type_col: usize,
    pub client_col: usize,
    pub tx_col: usize,
    pub amount_col: Option<usize>,
    pub width: usize,
}

impl ColumnLayout {
    /// Every referenced column lies within a row of `width` fields.
    pub open spec fn wf(self) -> bool {
        &&& self.type_col < self.width
        &&& self.client_col < self.width
        &&& self.tx_col < self.width
        &&& match self.amount_col {
            Option::Some(a) => a < self.width,
            Option::None => true,
        }
    }
}

/// The meaning of a header row: the three required columns must be present;
/// the amount column is optional (rows then carry no amounts).
pub open spec fn spec_parse_header(fields: Seq<Seq<u8>>) -> Option<ColumnLayout> {
    let t = spec_find_column(fields, kw_type());
    let c = spec_find_column(fields, kw_client());
    let x = spec_find_column(fields, kw_tx());
    let a = spec_find_column(fields, kw_amount());
    if t is Some && c is Some && x is Some {
        Option::Some(
            ColumnLayout {
                type_col: t->Some_0 as usize,
                client_col: c->Some_0 as usize,
                tx_col: x->Some_0 as usize,
                amount_col: match a {
                    Option::Some(i) => Option::Some(i as usize),
                    Option::None => Option::None,
                },
                width: fields.len() as usize,
            },
        )
    } else {
        Option::None
    }
}

/// Reads the header row into a column layout.
fn parse_header(fields: &Vec<Vec<u8>>) -> (r: Option<ColumnLayout>)
    ensures
        r == spec_parse_header(fields.deep_view()),
        match r {
            Option::Some(lay) => lay.wf(),
            Option::None => true,
        },
{
    let mut ty: Vec<u8> = Vec::new();
    ty.push(116);
    ty.push(121);
    ty.push(112);
    ty.push(101);
    let mut cl: Vec<u8> = Vec::new();
    cl.push(99);
    cl.push(108);
    cl.push(105);
    cl.push(101);
    cl.push(110);
    cl.push(116);
    let mut tx: Vec<u8> = Vec::new();
    tx.push(116);
    tx.push(120);
    let mut am: Vec<u8> = Vec::new();
    am.push(97);
    am.push(109);
    am.push(111);
    am.push(117);
    am.push(110);
    am.push(116);
    proof {
        assert(ty@ =~= kw_type());
        assert(cl@ =~= kw_client());
        assert(tx@ =~= kw_tx());
        assert(am@ =~= kw_amount());
    }
    let t = find_column(fields, ty.as_slice());
    let c = find_column(fields, cl.as_slice());
    let x = find_column(fields, tx.as_slice());
    let a = find_column(fields, am.as_slice());
    match (t, c, x) {
        (Option::Some(ti), Option::Some(ci), Option::Some(xi)) => Option::Some(
            ColumnLayout {
                type_col: ti,
                client_col: ci,
                tx_col: xi,
                amount_col: a,
                width: fields.len(),
            },
        ),
        _ => Option::None,
    }
}

/// The meaning of a type field, matched without regard to case.
pub open spec fn spec_tx_type(s: Seq<u8>) -> Option<TxType> {
    if matches_kw(s, kw_deposit()) {
        Option::Some(TxType::Deposit)
    } else if matches_kw(s, kw_withdrawal()) {
        Option::Some(TxType::Withdrawal)
    } else if matches_kw(s, kw_dispute()) {
        Option::Some(TxType::Dispute)
    } else if matches_kw(s, kw_resolve()) {
        Option::Some(TxType::Resolve)
    } else if matches_kw(s, kw_chargeback()) {
        Option::Some(TxType::Chargeback)
    } else {
        Option::None
    }
}

/// Classifies a (trimmed) type field.
fn classify_type(s: &[u8]) -> (r: Option<TxType>)
    ensures
        r == spec_tx_type(s@),
{
    let mut dep: Vec<u8> = Vec::new();
    dep.push(100);
    dep.push(101);
    dep.push(112);
    dep.push(111);
    dep.push(115);
    dep.push(105);
    dep.push(116);
    let mut wit: Vec<u8> = Vec::new();
    wit.push(119);
    wit.push(105);
    wit.push(116);
    wit.push(104);
    wit.push(100);
    wit.push(114);
    wit.push(97);
    wit.push(119);
    wit.push(97);
    wit.push(108);
    let mut dis: Vec<u8> = Vec::new();
    dis.push(100);
    dis.push(105);
    dis.push(115);
    dis.push(112);
    dis.push(117);
    dis.push(116);
    dis.push(101);
    let mut res: Vec<u8> = Vec::new();
    res.push(114);
    res.push(101);
    res.push(115);
    res.push(111);
    res.push(108);
    res.push(118);
    res.push(101);
    let mut chb: Vec<u8> = Vec::new();
    chb.push(99);
    chb.push(104);
    chb.push(97);
    chb.push(114);
    chb.push(103);
    chb.push(101);
    chb.push(98);
    chb.push(97);
    chb.push(99);
    chb.push(107);
    proof {
        assert(dep@ =~= kw_deposit());
        assert(wit@ =~= kw_withdrawal());
        assert(dis@ =~= kw_dispute());
        assert(res@ =~= kw_resolve());
        assert(chb@ =~= kw_chargeback());
    }
    if token_matches(s, dep.as_slice()) {
        Option::Some(TxType::Deposit)
    } else if token_matches(s, wit.as_slice()) {
        Option::Some(TxType::Withdrawal)
    } else if token_matches(s, dis.as_slice()) {
        Option::Some(TxType::Dispute)
    } else if token_matches(s, res.as_slice()) {
        Option::Some(TxType::Resolve)
    } else if token_matches(s, chb.as_slice()) {
        Option::Some(TxType::Chargeback)
    } else {
        Option::None
    }
}

/// The meaning of one data row under a layout: the field count must match
/// the header, the type must name an event kind, client and tx must be
/// unsigned integers; an amount column may be empty (the event then carries
/// no amount) but a present amount must be well formed.
pub open spec fn spec_parse_row(lay: ColumnLayout, line: Seq<u8>) -> Result<
    Transaction,
    ParseError,
> {
    let fields = spec_split(line, 44);
    if fields.len() != lay.width {
        Result::Err(ParseError::WrongFieldCount)
    } else {
        let tt = spec_tx_type(spec_trim(fields[lay.type_col as int]));
        let cl = spec_parse_u32(spec_trim(fields[lay.client_col as int]));
        let tx = spec_parse_u32(spec_trim(fields[lay.tx_col as int]));
        if tt is None {
            Result::Err(ParseError::UnknownTransactionType)
        } else if cl is None {
            Result::Err(ParseError::BadClientId)
        } else if tx is None {
            Result::Err(ParseError::BadTransactionId)
        } else {
            let amount = match lay.amount_col {
                Option::None => Result::<Option<u64>, ParseError>::Ok(Option::None),
                Option::Some(ac) => {
                    let f = spec_trim(fields[ac as int]);
                    if f.len() == 0 {
                        Result::Ok(Option::None)
                    } else {
                        match spec_parse_amount(f) {
                            Option::Some(v) => Result::Ok(Option::Some(v as u64)),
                            Option::None => Result::Err(ParseError::BadAmount),
                        }
                    }
                },
            };
            match amount {
                Result::Err(e) => Result::Err(e),
                Result::Ok(a) => Result::Ok(
                    Transaction {
                        tx_type: tt->Some_0,
                        client: ClientId(cl->Some_0 as u32),
                        tx: TxId(tx->Some_0 as u32),
                        amount: a,
                    },
                ),
            }
        }
    }
}

/// Reads one data row into a typed event.
pub fn parse_row(lay: &ColumnLayout, line: &[u8]) -> (r: Result<Transaction, ParseError>)
    requires
        lay.wf(),
    ensures
        r == spec_parse_row(*lay, line@),
{
    let fields = split(line, 44);
    let ghost fs = fields.deep_view();
    if fields.len() != lay.width {
        return Result::Err(ParseError::WrongFieldCount);
    }
    proof {
        assert(fs[lay.type_col as int] =~= fields@[lay.type_col as int]@);
        assert(fs[lay.client_col as int] =~= fields@[lay.client_col as int]@);
        assert(fs[lay.tx_col as int] =~= fields@[lay.tx_col as int]@);
    }
    let tfield = trim(fields[lay.type_col].as_slice());
    let tt = match classify_type(tfield.as_slice()) {
        Option::Some(t) => t,
        Option::None => {
            return Result::Err(ParseError::UnknownTransactionType);
        },
    };
    let cfield = trim(fields[lay.client_col].as_slice());
    let cl = match crate::numeric::parse_u32(cfield.as_slice()) {
        Option::Some(c) => c,
        Option::None => {
            return Result::Err(ParseError::BadClientId);
        },
    };
    let xfield = trim(fields[lay.tx_col].as_slice());
    let tx = match crate::numeric::parse_u32(xfield.as_slice()) {
        Option::Some(x) => x,
        Option::None => {
            return Result::Err(ParseError::BadTransactionId);
        },
    };
    let amount: Option<u64> = match lay.amount_col {
        Option::None => Option::None,
        Option::Some(ac) => {
            proof {
                assert(fs[ac as int] =~= fields@[ac as int]@);
            }
            let afield = trim(fields[ac].as_slice());
            if afield.len() == 0 {
                Option::None
            } else {
                match crate::numeric::parse_amount(afield.as_slice()) {
                    Option::Some(v) => Option::Some(v),
                    Option::None => {
                        return Result::Err(ParseError::BadAmount);
                    },
                }
            }
        },
    };
    Result::Ok(Transaction { tx_type: tt, client: ClientId(cl), tx: TxId(tx), amount })
}

/// The meaning of the data rows, applied top to bottom: blank lines are
/// skipped, and the first malformed row aborts the run with its error.
pub open spec fn spec_parse_rows(lay: ColumnLayout, lines: Seq<Seq<u8>>) -> Result<
    Seq<Transaction>,
    ParseError,
>
    decreases lines.len(),
{
    if lines.len() == 0 {
        Result::Ok(Seq::empty())
    } else {
        match spec_parse_rows(lay, lines.drop_last()) {
            Result::Err(e) => Result::Err(e),
            Result::Ok(ts) => {
                if spec_blank(lines.last()) {
                    Result::Ok(ts)
                } else {
                    match spec_parse_row(lay, lines.last()) {
                        Result::Err(e) => Result::Err(e),
                        Result::Ok(t) => Result::Ok(ts.push(t)),
                    }
                }
            },
        }
    }
}

proof fn lemma_rows_err_persists(lay: ColumnLayout, lines: Seq<Seq<u8>>, j: int)
    requires
        0 <= j <= lines.len(),
        spec_parse_rows(lay, lines.take(j)) is Err,
    ensures
        spec_parse_rows(lay, lines) == spec_parse_rows(lay, lines.take(j)),
    decreases lines.len() - j,
{
    if j == lines.len() {
        assert(lines.take(j) =~= lines);
    } else {
        assert(lines.take(j + 1).drop_last() =~= lines.take(j));
        assert(lines.take(j + 1).last() == lines[j]);
        lemma_rows_err_persists(lay, lines, j + 1);
    }
}

/// True when every line from `from` on is blank.
pub open spec fn all_blank_from(lines: Seq<Seq<u8>>, from: int) -> bool {
    forall|i: int| from <= i < lines.len() ==> spec_blank(#[trigger] lines[i])
}

fn lines_blank_from(lines: &Vec<Vec<u8>>, from: usize) -> (r: bool)
    requires
        from <= lines@.len(),
    ensures
        r == all_blank_from(lines.deep_view(), from as int),
{
    let ghost ls = lines.deep_view();
    let mut i: usize = from;
    while i < lines.len()
        invariant
            ls == lines.deep_view(),
            from <= i <= ls.len(),
            ls.len() == lines@.len(),
            forall|j: int| from <= j < i ==> spec_blank(#[trigger] ls[j]),
        decreases ls.len() - i,
    {
        proof {
            assert(ls[i as int] =~= lines@[i as int]@);
        }
        if !is_blank(lines[i].as_slice()) {
            return false;
        }
        i = i + 1;
    }
    true
}

/// The meaning of a whole input: nothing but blank lines means no events;
/// otherwise the first line is the header, whose required columns must be
/// present as soon as any data row follows.
pub open spec fn spec_parse(input: Seq<u8>) -> Result<Seq<Transaction>, ParseError> {
    let lines = spec_split(input, 10);
    if all_blank_from(lines, 0) {
        Result::Ok(Seq::empty())
    } else {
        match spec_parse_header(spec_split(lines[0], 44)) {
            Option::None => {
                if all_blank_from(lines.drop_first(), 0) {
                    Result::Ok(Seq::empty())
                } else {
                    Result::Err(ParseError::MissingColumn)
                }
            },
            Option::Some(lay) => spec_parse_rows(lay, lines.drop_first()),
        }
    }
}

/// Reads a whole delimited-text input into the event list it denotes, or
/// the first structural error.
pub fn parse_transactions(input: &[u8]) -> (r: Result<Vec<Transaction>, ParseError>)
    ensures
        match r {
            Result::Ok(v) => spec_parse(input@) == Result::<Seq<Transaction>, ParseError>::Ok(
                v@,
            ),
            Result::Err(e) => spec_parse(input@) == Result::<Seq<Transaction>, ParseError>::Err(
                e,
            ),
        },
{
    let lines = split(input, 10);
    let ghost ls = lines.deep_view();
    if lines_blank_from(&lines, 0) {
        let r: Vec<Transaction> = Vec::new();
        return Result::Ok(r);
    }
    proof {
        assert(ls.len() >= 1);
        assert(ls[0] =~= lines@[0]@);
    }
    let header_fields = split(lines[0].as_slice(), 44);
    let lay = match parse_header(&header_fields) {
        Option::Some(lay) => lay,
        Option::None => {
            if lines_blank_from(&lines, 1) {
                proof {
                    let dropped = ls.drop_first();
                    assert forall|i: int|
                        0 <= i < dropped.len() implies spec_blank(#[trigger] dropped[i]) by {
                        assert(dropped[i] == ls[i + 1]);
                    }
                }
                let r: Vec<Transaction> = Vec::new();
                return Result::Ok(r);
            } else {
                proof {
                    let dropped = ls.drop_first();
                    let i = choose|i: int| 1 <= i < ls.len() && !spec_blank(ls[i]);
                    assert(dropped[i - 1] == ls[i]);
                    assert(!all_blank_from(dropped, 0));
                }
                return Result::Err(ParseError::MissingColumn);
            }
        },
    };
    let ghost data = ls.drop_first();
    let mut acc: Vec<Transaction> = Vec::new();
    let mut i: usize = 1;
    proof {
        assert(data.take(0) =~= Seq::<Seq<u8>>::empty());
    }
    while i < lines.len()
        invariant
            ls == lines.deep_view(),
            ls == spec_split(input@, 10),
            data == ls.drop_first(),
            lay.wf(),
            spec_parse_header(spec_split(ls[0], 44)) == Option::Some(lay),
            !all_blank_from(ls, 0),
            1 <= i <= ls.len(),
            ls.len() == lines@.len(),
            spec_parse_rows(lay, data.take(i - 1)) == Result::<Seq<Transaction>, ParseError>::Ok(
                acc@,
            ),
        decreases ls.len() - i,
    {
        proof {
            assert(ls[i as int] =~= lines@[i as int]@);
            assert(data[i - 1] == ls[i as int]);
            assert(data.take(i as int).drop_last() =~= data.take(i - 1));
            assert(data.take(i as int).last() == data[i - 1]);
        }
        if !is_blank(lines[i].as_slice()) {
            match parse_row(&lay, lines[i].as_slice()) {
                Result::Ok(t) => {
                    acc.push(t);
                },
                Result::Err(e) => {
                    proof {
                        assert(spec_parse_rows(lay, data.take(i as int))
                            == Result::<Seq<Transaction>, ParseError>::Err(e));
                        lemma_rows_err_persists(lay, data, i as int);
                    }
                    return Result::Err(e);
                },
            }
        }
        i = i + 1;
    }
    proof {
        assert(data.take(i - 1) =~= data);
    }
    Result::Ok(acc)
}

} // verus!

