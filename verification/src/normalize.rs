use vstd::prelude::*;
use crate::amount::{decimal_of, parse_decimal, round_to_units, round_units};
use crate::txn::{Txn, TxnType};

verus! {

/// Why a record failed normalization. Any failure aborts the whole run; no
/// record is ever partially applied.
#[derive(Debug, PartialEq, Eq, Clone, Copy)]
pub enum RecordError {
    /// The type tag matches none of the five transaction types.
    UnknownType,
    /// The client id is not a decimal integer within the 16-bit domain.
    BadClient,
    /// The transaction id is not a decimal integer within the 32-bit domain.
    BadTx,
    /// The amount does not parse as a decimal number, is negative, or does
    /// not fit the fixed-point range.
    BadAmount,
    /// A deposit or withdrawal without an amount.
    MissingAmount,
}

/// ASCII whitespace, as trimmed from every field.
pub open spec fn is_space(b: u8) -> bool {
    b == 32 || b == 9 || b == 10 || b == 13 || b == 11 || b == 12
}

pub open spec fn trim_front(s: Seq<u8>) -> Seq<u8>
    decreases s.len(),
{
    if s.len() > 0 && is_space(s.first()) {
        trim_front(s.drop_first())
    } else {
        s
    }
}

pub open spec fn trim_back(s: Seq<u8>) -> Seq<u8>
    decreases s.len(),
{
    if s.len() > 0 && is_space(s.last()) {
        trim_back(s.drop_last())
    } else {
        s
    }
}

/// A field with surrounding ASCII whitespace removed.
pub open spec fn trim_spec(s: Seq<u8>) -> Seq<u8> {
    trim_back(trim_front(s))
}

proof fn lemma_trim_front_skip(s: Seq<u8>, lo: int)
    requires
        0 <= lo <= s.len(),
        forall|j: int| 0 <= j < lo ==> is_space(#[trigger] s[j]),
        lo == s.len() || !is_space(s[lo]),
    ensures
        trim_front(s) == s.subrange(lo, s.len() as int),
    decreases lo,
{
    if lo == 0 {
        assert(s.subrange(0, s.len() as int) =~= s);
    } else {
        assert(is_space(s.first()));
        lemma_trim_front_skip(s.drop_first(), lo - 1);
        assert(s.drop_first().subrange(lo - 1, s.drop_first().len() as int) =~= s.subrange(
            lo,
            s.len() as int,
        ));
    }
}

proof fn lemma_trim_back_skip(s: Seq<u8>, hi: int)
    requires
        0 <= hi <= s.len(),
        forall|j: int| hi <= j < s.len() ==> is_space(#[trigger] s[j]),
        hi == 0 || !is_space(s[hi - 1]),
    ensures
        trim_back(s) == s.subrange(0, hi),
    decreases s.len() - hi,
{
    if hi == s.len() {
        assert(s.subrange(0, hi) =~= s);
    } else {
        assert(is_space(s.last()));
        lemma_trim_back_skip(s.drop_last(), hi);
        assert(s.drop_last().subrange(0, hi) =~= s.subrange(0, hi));
    }
}

fn is_space_exec(b: u8) -> (r: bool)
    ensures
        r == is_space(b),
{
    b == 32 || b == 9 || b == 10 || b == 13 || b == 11 || b == 12
}

/// Copies a field without its surrounding ASCII whitespace.
fn trim_bytes(s: &[u8]) -> (r: Vec<u8>)
    ensures
        r@ == trim_spec(s@),
{
    let mut lo: usize = 0;
    while lo < s.len() && is_space_exec(s[lo])
        invariant
            lo <= s@.len(),
            forall|j: int| 0 <= j < lo ==> is_space(#[trigger] s@[j]),
        decreases s@.len() - lo,
    {
        lo = lo + 1;
    }
    let mut hi: usize = s.len();
    while hi > lo && is_space_exec(s[hi - 1])
        invariant
            lo <= hi <= s@.len(),
            forall|j: int| 0 <= j < lo ==> is_space(#[trigger] s@[j]),
            forall|j: int| hi <= j < s@.len() ==> is_space(#[trigger] s@[j]),
        decreases hi,
    {
        hi = hi - 1;
    }
    let mut out: Vec<u8> = Vec::new();
    let mut i: usize = lo;
    while i < hi
        invariant
            lo <= i <= hi <= s@.len(),
            out@ == s@.subrange(lo as int, i as int),
        decreases hi - i,
    {
        out.push(s[i]);
        proof {
            assert(out@ =~= s@.subrange(lo as int, i + 1));
        }
        i = i + 1;
    }
    proof {
        lemma_trim_front_skip(s@, lo as int);
        let t = s@.subrange(lo as int, s@.len() as int);
        lemma_trim_back_skip(t, hi - lo);
        assert(t.subrange(0, hi - lo) =~= s@.subrange(lo as int, hi as int));
        assert(out@ =~= s@.subrange(lo as int, hi as int));
    }
    out
}

/// Lower-cases an ASCII letter and leaves every other byte alone.
pub open spec fn lower_byte(b: u8) -> u8 {
    if 65 <= b <= 90 {
        (b + 32) as u8
    } else {
        b
    }
}

pub open spec fn to_lower(s: Seq<u8>) -> Seq<u8> {
    s.map_values(|b: u8| lower_byte(b))
}

fn eq_lower(t: &Vec<u8>, pat: &Vec<u8>) -> (r: bool)
    ensures
        r == (to_lower(t@) == pat@),
{
    if t.len() != pat.len() {
        proof {
            assert(to_lower(t@).len() == t@.len());
        }
        return false;
    }
    let mut i: usize = 0;
    while i < t.len()
        invariant
            i <= t@.len(),
            t@.len() == pat@.len(),
            forall|j: int| 0 <= j < i ==> to_lower(t@)[j] == pat@[j],
        decreases t@.len() - i,
    {
        let b = t[i];
        let low = if 65 <= b && b <= 90 {
            b + 32
        } else {
            b
        };
        if low != pat[i] {
            proof {
                assert(to_lower(t@)[i as int] == lower_byte(t@[i as int]));
            }
            return false;
        }
        i = i + 1;
    }
    proof {
        assert(to_lower(t@) =~= pat@);
    }
    true
}

/// The transaction type named by a tag, matched case-insensitively after
/// trimming; `None` for an unknown tag.
pub open spec fn tag_spec(s: Seq<u8>) -> Option<TxnType> {
    let t = to_lower(trim_spec(s));
    if t == "deposit"@.map_values(|c: char| c as u8) {
        Some(TxnType::Deposit)
    } else if t == "withdrawal"@.map_values(|c: char| c as u8) {
        Some(TxnType::Withdrawal)
    } else if t == "dispute"@.map_values(|c: char| c as u8) {
        Some(TxnType::Dispute)
    } else if t == "resolve"@.map_values(|c: char| c as u8) {
        Some(TxnType::Resolve)
    } else if t == "chargeback"@.map_values(|c: char| c as u8) {
        Some(TxnType::Chargeback)
    } else {
        None
    }
}

/// A decimal digit.
pub open spec fn is_digit(b: u8) -> bool {
    48 <= b <= 57
}

pub open spec fn all_digits(s: Seq<u8>) -> bool {
    forall|i: int| 0 <= i < s.len() ==> is_digit(#[trigger] s[i])
}

/// The number written by a string of decimal digits.
pub open spec fn digits_val(s: Seq<u8>) -> int
    decreases s.len(),
{
    if s.len() == 0 {
        0
    } else {
        10 * digits_val(s.drop_last()) + (s.last() - 48)
    }
}

proof fn lemma_digits_val_nonneg(s: Seq<u8>)
    requires
        all_digits(s),
    ensures
        digits_val(s) >= 0,
    decreases s.len(),
{
    if s.len() > 0 {
        assert(all_digits(s.drop_last())) by {
            assert(forall|i: int| 0 <= i < s.len() - 1 ==> is_digit(#[trigger] s[i]));
        }
        lemma_digits_val_nonneg(s.drop_last());
    }
}

proof fn lemma_digits_prefix_le(s: Seq<u8>, i: int)
    requires
        all_digits(s),
        0 <= i <= s.len(),
    ensures
        digits_val(s.subrange(0, i)) <= digits_val(s),
    decreases s.len() - i,
{
    if i < s.len() {
        let a = s.subrange(0, i);
        let b = s.subrange(0, i + 1);
        assert(b.drop_last() =~= a);
        assert(all_digits(a) && all_digits(b));
        lemma_digits_val_nonneg(a);
        assert(digits_val(b) == 10 * digits_val(a) + (b.last() - 48));
        lemma_digits_prefix_le(s, i + 1);
    } else {
        assert(s.subrange(0, i) =~= s);
    }
}

/// An id field: digits only after trimming, within `0 ..= max`.
pub open spec fn id_spec(s: Seq<u8>, max: int) -> Option<int> {
    let t = trim_spec(s);
    if t.len() > 0 && all_digits(t) && digits_val(t) <= max {
        Some(digits_val(t))
    } else {
        None
    }
}

/// Parses an already-trimmed id field.
fn parse_uint(t: &Vec<u8>, max: u64) -> (r: Option<u64>)
    requires
        max <= u32::MAX,
    ensures
        match r {
            Some(v) => t@.len() > 0 && all_digits(t@) && v as int == digits_val(t@) && v <= max,
            None => !(t@.len() > 0 && all_digits(t@) && digits_val(t@) <= max),
        },
{
    if t.len() == 0 {
        return None;
    }
    let mut val: u64 = 0;
    let mut i: usize = 0;
    while i < t.len()
        invariant
            i <= t@.len(),
            max <= u32::MAX,
            val <= max,
            forall|j: int| 0 <= j < i ==> is_digit(#[trigger] t@[j]),
            val as int == digits_val(t@.subrange(0, i as int)),
        decreases t@.len() - i,
    {
        let b = t[i];
        if b < 48 || b > 57 {
            return None;
        }
        let d = (b - 48) as u64;
        let next = 10 * val + d;
        proof {
            assert(t@.subrange(0, i + 1).drop_last() =~= t@.subrange(0, i as int));
            assert(digits_val(t@.subrange(0, i + 1)) == 10 * digits_val(
                t@.subrange(0, i as int),
            ) + (t@[i as int] - 48));
        }
        if next > max {
            proof {
                assert(all_digits(t@) ==> digits_val(t@) > max) by {
                    if all_digits(t@) {
                        lemma_digits_prefix_le(t@, i + 1);
                    }
                }
            }
            return None;
        }
        val = next;
        i = i + 1;
    }
    proof {
        assert(t@.subrange(0, t@.len() as int) =~= t@);
    }
    Some(val)
}

/// The amount field: an empty field carries no amount; otherwise the field
/// must parse as a non-negative decimal whose four-digit rounding fits the
/// fixed-point range.
pub open spec fn amount_spec(amount: Seq<u8>) -> Result<Option<u64>, RecordError> {
    let a = trim_spec(amount);
    if a.len() == 0 {
        Ok(None)
    } else {
        match decimal_of(a) {
            None => Err(RecordError::BadAmount),
            Some(p) => {
                if p.0 < 0 {
                    Err(RecordError::BadAmount)
                } else if round_units(p.0, p.1) > u64::MAX {
                    Err(RecordError::BadAmount)
                } else {
                    Ok(Some(round_units(p.0, p.1) as u64))
                }
            },
        }
    }
}

/// What a whole record normalizes to: the type tag decides the transaction
/// type, the two ids must lie in their domains, and a deposit or withdrawal
/// must carry an amount. Errors are reported in field order.
pub open spec fn record_spec(
    typ: Seq<u8>,
    client: Seq<u8>,
    tx: Seq<u8>,
    amount: Seq<u8>,
) -> Result<Txn, RecordError> {
    match tag_spec(typ) {
        None => Err(RecordError::UnknownType),
        Some(tt) => match id_spec(client, u16::MAX as int) {
            None => Err(RecordError::BadClient),
            Some(c) => match id_spec(tx, u32::MAX as int) {
                None => Err(RecordError::BadTx),
                Some(t) => match amount_spec(amount) {
                    Err(e) => Err(e),
                    Ok(opt) => match tt {
                        TxnType::Deposit | TxnType::Withdrawal => {
                            if opt is None {
                                Err(RecordError::MissingAmount)
                            } else {
                                Ok(Txn { txntype: tt, client: c as u16, tx: t as u32, amount: opt })
                            }
                        },
                        _ => Ok(Txn { txntype: tt, client: c as u16, tx: t as u32, amount: opt }),
                    },
                },
            },
        },
    }
}

fn tag_of(typ: &[u8]) -> (r: Option<TxnType>)
    ensures
        r == tag_spec(typ@),
{
    let t = trim_bytes(typ);
    let deposit: Vec<u8> = vec![100u8, 101, 112, 111, 115, 105, 116];
    let withdrawal: Vec<u8> = vec![119u8, 105, 116, 104, 100, 114, 97, 119, 97, 108];
    let dispute: Vec<u8> = vec![100u8, 105, 115, 112, 117, 116, 101];
    let resolve: Vec<u8> = vec![114u8, 101, 115, 111, 108, 118, 101];
    let chargeback: Vec<u8> = vec![99u8, 104, 97, 114, 103, 101, 98, 97, 99, 107];
    proof {
        reveal_strlit("deposit");
        reveal_strlit("withdrawal");
        reveal_strlit("dispute");
        reveal_strlit("resolve");
        reveal_strlit("chargeback");
        assert(deposit@ =~= "deposit"@.map_values(|c: char| c as u8));
        assert(withdrawal@ =~= "withdrawal"@.map_values(|c: char| c as u8));
        assert(dispute@ =~= "dispute"@.map_values(|c: char| c as u8));
        assert(resolve@ =~= "resolve"@.map_values(|c: char| c as u8));
        assert(chargeback@ =~= "chargeback"@.map_values(|c: char| c as u8));
    }
    if eq_lower(&t, &deposit) {
        Some(TxnType::Deposit)
    } else if eq_lower(&t, &withdrawal) {
        Some(TxnType::Withdrawal)
    } else if eq_lower(&t, &dispute) {
        Some(TxnType::Dispute)
    } else if eq_lower(&t, &resolve) {
        Some(TxnType::Resolve)
    } else if eq_lower(&t, &chargeback) {
        Some(TxnType::Chargeback)
    } else {
        None
    }
}

/// Normalizes one raw record, given as its four fields: type tag, client
/// id, transaction id and amount (empty when the row carries none). Every
/// field is trimmed of surrounding whitespace first. Returns the validated
/// transaction, or the reason the record is malformed.
pub fn deserialize_record(typ: &[u8], client: &[u8], tx: &[u8], amount: &[u8]) -> (r: Result<
    Txn,
    RecordError,
>)
    ensures
        r == record_spec(typ@, client@, tx@, amount@),
{
    let tt = match tag_of(typ) {
        Some(tt) => tt,
        None => {
            return Err(RecordError::UnknownType);
        },
    };
    let ctrim = trim_bytes(client);
    let c = match parse_uint(&ctrim, 65535) {
        Some(c) => c as u16,
        None => {
            return Err(RecordError::BadClient);
        },
    };
    let ttrim = trim_bytes(tx);
    let t = match parse_uint(&ttrim, 4294967295) {
        Some(t) => t as u32,
        None => {
            return Err(RecordError::BadTx);
        },
    };
    let atrim = trim_bytes(amount);
    let opt: Option<u64> = if atrim.len() == 0 {
        None
    } else {
        match parse_decimal(atrim.as_slice()) {
            None => {
                return Err(RecordError::BadAmount);
            },
            Some((m, s)) => {
                if m < 0 {
                    return Err(RecordError::BadAmount);
                }
                match round_to_units(m, s) {
                    None => {
                        return Err(RecordError::BadAmount);
                    },
                    Some(u) => Some(u),
                }
            },
        }
    };
    match tt {
        TxnType::Deposit | TxnType::Withdrawal => {
            if opt.is_none() {
                return Err(RecordError::MissingAmount);
            }
        },
        _ => {},
    }
    Ok(Txn { txntype: tt, client: c, tx: t, amount: opt })
}

} // verus!
