use vstd::prelude::*;

verus! {

use crate::common::{ClientId, PaymentCommand, TransactionId};
use crate::error::{ParseError, PaymentCommandParseError};

// ---------------------------------------------------------------------------
// The grammar, over sequences of characters.
// ---------------------------------------------------------------------------

/// Whitespace that is trimmed from both ends of every cell.
pub open spec fn is_space_char(c: char) -> bool {
    c == ' ' || c == '\t' || c == '\r'
}

/// A decimal digit.
pub open spec fn is_digit_char(c: char) -> bool {
    '0' <= c && c <= '9'
}

/// The value of a decimal digit.
pub open spec fn digit_val(c: char) -> int {
    c as int - '0' as int
}

/// Whether every character of `s` is a decimal digit.
pub open spec fn all_digits(s: Seq<char>) -> bool {
    forall|i: int| 0 <= i < s.len() ==> is_digit_char(#[trigger] s[i])
}

/// The value of a digit string read as a decimal number.
pub open spec fn digits_val(s: Seq<char>) -> int
    decreases s.len(),
{
    if s.len() == 0 {
        0
    } else {
        digits_val(s.drop_last()) * 10 + digit_val(s.last())
    }
}

/// The index of the first occurrence of `d` in `s`, or `s.len()`.
pub open spec fn find_first(s: Seq<char>, d: char) -> int
    decreases s.len(),
{
    if s.len() == 0 {
        0
    } else if s[0] == d {
        0
    } else {
        1 + find_first(s.drop_first(), d)
    }
}

/// The first occurrence index is always between 0 and the length.
proof fn lemma_find_first_bounds(s: Seq<char>, d: char)
    ensures
        0 <= find_first(s, d) <= s.len(),
        find_first(s, d) < s.len() ==> s[find_first(s, d)] == d,
    decreases s.len(),
{
    if s.len() > 0 && s[0] != d {
        lemma_find_first_bounds(s.drop_first(), d);
    }
}

/// `s` split at every occurrence of `d`; always at least one (possibly
/// empty) piece, as many pieces as separators plus one.
pub open spec fn split_on(s: Seq<char>, d: char) -> Seq<Seq<char>>
    decreases s.len(),
    via split_on_decreases
{
    let i = find_first(s, d);
    if i == s.len() {
        seq![s]
    } else {
        seq![s.take(i)] + split_on(s.skip(i + 1), d)
    }
}

#[via_fn]
proof fn split_on_decreases(s: Seq<char>, d: char) {
    lemma_find_first_bounds(s, d);
}

/// `s` without leading whitespace.
pub open spec fn trim_front(s: Seq<char>) -> Seq<char>
    decreases s.len(),
{
    if s.len() > 0 && is_space_char(s[0]) {
        trim_front(s.drop_first())
    } else {
        s
    }
}

/// `s` without trailing whitespace.
pub open spec fn trim_back(s: Seq<char>) -> Seq<char>
    decreases s.len(),
{
    if s.len() > 0 && is_space_char(s.last()) {
        trim_back(s.drop_last())
    } else {
        s
    }
}

/// `s` without leading and trailing whitespace.
pub open spec fn trim_spec(s: Seq<char>) -> Seq<char> {
    trim_back(trim_front(s))
}

/// The cells of one row: the row split at commas, each cell trimmed.
pub open spec fn cells_of(s: Seq<char>) -> Seq<Seq<char>> {
    split_on(s, ',').map_values(|c: Seq<char>| trim_spec(c))
}

/// The lines of the whole input, as `str::lines` sees them: split at every
/// newline, one trailing newline ignored, no lines at all in empty input.
/// (A carriage return before the newline is left on the line; the cell
/// trimming removes it.)
pub open spec fn lines_of(s: Seq<char>) -> Seq<Seq<char>> {
    if s.len() == 0 {
        Seq::empty()
    } else if s.last() == '\n' {
        split_on(s.drop_last(), '\n')
    } else {
        split_on(s, '\n')
    }
}

/// An identifier cell: an optional leading `+`, then one or more digits,
/// with a value that fits in a `u16`.
pub open spec fn u16_digits(s: Seq<char>) -> Seq<char> {
    if s.len() > 0 && s[0] == '+' {
        s.drop_first()
    } else {
        s
    }
}

pub open spec fn is_u16_string(s: Seq<char>) -> bool {
    let d = u16_digits(s);
    d.len() > 0 && all_digits(d) && digits_val(d) <= u16::MAX
}

pub open spec fn u16_string_val(s: Seq<char>) -> int {
    digits_val(u16_digits(s))
}

/// Ten to the `n`th.
pub open spec fn pow10(n: int) -> int
    decreases n,
{
    if n <= 0 {
        1
    } else {
        10 * pow10(n - 1)
    }
}

/// An unsigned amount body: digits with an optional dot and at most four
/// fraction digits (the fixed-point resolution), at least one digit in all.
pub open spec fn amount_body_ok(b: Seq<char>) -> bool {
    let d = find_first(b, '.');
    if d == b.len() {
        b.len() > 0 && all_digits(b)
    } else {
        let ip = b.take(d);
        let fp = b.skip(d + 1);
        all_digits(ip) && all_digits(fp) && ip.len() + fp.len() > 0 && fp.len() <= 4
    }
}

/// The value of an amount body in ten-thousandths of a unit.
pub open spec fn amount_body_units(b: Seq<char>) -> int {
    let d = find_first(b, '.');
    if d == b.len() {
        digits_val(b) * 10000
    } else {
        let ip = b.take(d);
        let fp = b.skip(d + 1);
        digits_val(ip) * 10000 + digits_val(fp) * pow10(4 - fp.len())
    }
}

pub open spec fn amount_sign(s: Seq<char>) -> int {
    if s.len() > 0 && s[0] == '-' {
        -1
    } else {
        1
    }
}

pub open spec fn amount_body(s: Seq<char>) -> Seq<char> {
    if s.len() > 0 && (s[0] == '-' || s[0] == '+') {
        s.drop_first()
    } else {
        s
    }
}

/// An amount cell: optional sign, then an amount body whose value in
/// ten-thousandths fits in an `i64` (magnitudes above `i64::MAX` are
/// rejected for either sign).
pub open spec fn is_amount_string(s: Seq<char>) -> bool {
    amount_body_ok(amount_body(s)) && amount_body_units(amount_body(s)) <= i64::MAX
}

/// The signed value of an amount cell, in ten-thousandths of a unit.
pub open spec fn amount_string_units(s: Seq<char>) -> int {
    amount_sign(s) * amount_body_units(amount_body(s))
}

// ---------------------------------------------------------------------------
// The row parser, as a specification.
// ---------------------------------------------------------------------------

/// Which of the row errors a malformed row produces.
#[derive(Debug, Clone, Copy, PartialEq, Eq, Structural)]
pub enum RowError {
    MissingData,
    NoSuchCommand,
    BadClient,
    BadTx,
    BadAmount,
}

/// What one data row parses to: the typed command, or which error it
/// raises. Cells are checked left to right: command word, client id,
/// transaction id, then (for deposit and withdrawal) the amount.
pub open spec fn spec_row_command(s: Seq<char>) -> Result<PaymentCommand, RowError> {
    let cells = cells_of(s);
    if cells.len() < 3 {
        Err(RowError::MissingData)
    } else if cells[0] == "deposit"@ || cells[0] == "withdrawal"@ {
        if cells.len() < 4 {
            Err(RowError::MissingData)
        } else if !is_u16_string(cells[1]) {
            Err(RowError::BadClient)
        } else if !is_u16_string(cells[2]) {
            Err(RowError::BadTx)
        } else if !is_amount_string(cells[3]) {
            Err(RowError::BadAmount)
        } else {
            let client = u16_string_val(cells[1]) as ClientId;
            let tx = u16_string_val(cells[2]) as TransactionId;
            let amount = amount_string_units(cells[3]) as i64;
            if cells[0] == "deposit"@ {
                Ok(PaymentCommand::Deposit { client, tx, amount })
            } else {
                Ok(PaymentCommand::Withdrawal { client, tx, amount })
            }
        }
    } else if cells[0] == "dispute"@ || cells[0] == "resolve"@ || cells[0] == "chargeback"@ {
        if !is_u16_string(cells[1]) {
            Err(RowError::BadClient)
        } else if !is_u16_string(cells[2]) {
            Err(RowError::BadTx)
        } else {
            let client = u16_string_val(cells[1]) as ClientId;
            let tx = u16_string_val(cells[2]) as TransactionId;
            if cells[0] == "dispute"@ {
                Ok(PaymentCommand::Dispute { client, tx })
            } else if cells[0] == "resolve"@ {
                Ok(PaymentCommand::Resolve { client, tx })
            } else {
                Ok(PaymentCommand::Chargeback { client, tx })
            }
        }
    } else {
        Err(RowError::NoSuchCommand)
    }
}

/// Which error enum value, with which message, each row error becomes.
pub open spec fn row_error_matches(s: Seq<char>, k: RowError, e: PaymentCommandParseError) -> bool {
    match k {
        RowError::MissingData => e matches PaymentCommandParseError::MissingData(m) && m@
            == "Too little data in the row."@,
        RowError::NoSuchCommand => e matches PaymentCommandParseError::NoSuchPaymentCommand(m)
            && m@ == cells_of(s)[0] + " is not a valid payment command."@,
        RowError::BadClient => e matches PaymentCommandParseError::ParseError(m) && m@
            == "Could not parse client id."@,
        RowError::BadTx => e matches PaymentCommandParseError::ParseError(m) && m@
            == "Could not parse transaction id."@,
        RowError::BadAmount => e matches PaymentCommandParseError::ParseError(m) && m@
            == "Could not parse amount."@,
    }
}

/// The expected header cells.
pub open spec fn header_cells() -> Seq<Seq<char>> {
    seq!["type"@, "client"@, "tx"@, "amount"@]
}

/// What the data rows (every line after the header) parse to: the command
/// sequence, or the 0-based index of the first bad line with its error.
pub open spec fn spec_parse_rows(ls: Seq<Seq<char>>, i: int) -> Result<
    Seq<PaymentCommand>,
    (int, RowError),
>
    decreases ls.len() - i,
{
    if i < 0 || i >= ls.len() {
        Ok(Seq::empty())
    } else {
        match spec_row_command(ls[i]) {
            Ok(c) => match spec_parse_rows(ls, i + 1) {
                Ok(rest) => Ok(seq![c] + rest),
                Err(ie) => Err(ie),
            },
            Err(k) => Err((i, k)),
        }
    }
}

// ---------------------------------------------------------------------------
// Small proof tools about the grammar.
// ---------------------------------------------------------------------------

proof fn lemma_find_first_at(t: Seq<char>, d: char, j: int)
    requires
        0 <= j <= t.len(),
        forall|k: int| 0 <= k < j ==> t[k] != d,
        j < t.len() ==> t[j] == d,
    ensures
        find_first(t, d) == j,
    decreases j,
{
    if j == 0 {
    } else {
        assert(t[0] != d);
        lemma_find_first_at(t.drop_first(), d, j - 1);
    }
}

proof fn lemma_trim_front_at(t: Seq<char>, j: int)
    requires
        0 <= j <= t.len(),
        forall|k: int| 0 <= k < j ==> is_space_char(#[trigger] t[k]),
        j < t.len() ==> !is_space_char(t[j]),
    ensures
        trim_front(t) == t.skip(j),
    decreases j,
{
    if j == 0 {
        assert(t.skip(0) =~= t);
    } else {
        assert(is_space_char(t[0]));
        lemma_trim_front_at(t.drop_first(), j - 1);
        assert(t.drop_first().skip(j - 1) =~= t.skip(j));
    }
}

proof fn lemma_trim_back_at(t: Seq<char>, j: int)
    requires
        0 <= j <= t.len(),
        forall|k: int| j <= k < t.len() ==> is_space_char(#[trigger] t[k]),
        j > 0 ==> !is_space_char(t[j - 1]),
    ensures
        trim_back(t) == t.take(j),
    decreases t.len() - j,
{
    if j == t.len() {
        if t.len() > 0 && is_space_char(t.last()) {
            assert(false);
        } else {
            assert(t.take(j) =~= t);
        }
    } else {
        assert(is_space_char(t.last()));
        lemma_trim_back_at(t.drop_last(), j);
        assert(t.drop_last().take(j) =~= t.take(j));
    }
}

proof fn lemma_digits_val_nonneg(s: Seq<char>)
    requires
        all_digits(s),
    ensures
        digits_val(s) >= 0,
    decreases s.len(),
{
    if s.len() > 0 {
        assert(all_digits(s.drop_last())) by {
            assert(forall|i: int|
                0 <= i < s.drop_last().len() ==> s.drop_last()[i] == #[trigger] s[i]);
        }
        lemma_digits_val_nonneg(s.drop_last());
        assert(is_digit_char(s.last()));
    }
}

proof fn lemma_digits_val_take_step(s: Seq<char>, j: int)
    requires
        0 <= j < s.len(),
    ensures
        digits_val(s.take(j + 1)) == digits_val(s.take(j)) * 10 + digit_val(s[j]),
{
    assert(s.take(j + 1).drop_last() =~= s.take(j));
    assert(s.take(j + 1).last() == s[j]);
}

proof fn lemma_digits_val_take_le(s: Seq<char>, j: int)
    requires
        all_digits(s),
        0 <= j <= s.len(),
    ensures
        digits_val(s.take(j)) <= digits_val(s),
    decreases s.len() - j,
{
    if j == s.len() {
        assert(s.take(j) =~= s);
    } else {
        lemma_digits_val_take_step(s, j);
        assert(all_digits(s.take(j))) by {
            assert(forall|i: int| 0 <= i < j ==> s.take(j)[i] == #[trigger] s[i]);
        }
        lemma_digits_val_nonneg(s.take(j));
        assert(is_digit_char(s[j]));
        assert(digits_val(s.take(j)) <= digits_val(s.take(j + 1)));
        lemma_digits_val_take_le(s, j + 1);
    }
}

proof fn lemma_digits_val_concat(a: Seq<char>, b: Seq<char>)
    ensures
        digits_val(a + b) == digits_val(a) * pow10(b.len() as int) + digits_val(b),
    decreases b.len(),
{
    if b.len() == 0 {
        assert(a + b =~= a);
    } else {
        lemma_digits_val_concat(a, b.drop_last());
        assert((a + b).drop_last() =~= a + b.drop_last());
        assert((a + b).last() == b.last());
        assert(pow10(b.len() as int) == 10 * pow10(b.len() - 1));
        assert(digits_val(a) * pow10(b.len() - 1) * 10 == digits_val(a) * (10 * pow10(
            b.len() - 1,
        ))) by (nonlinear_arith);
    }
}

proof fn lemma_pow10_pos(n: int)
    ensures
        pow10(n) >= 1,
    decreases n,
{
    if n > 0 {
        lemma_pow10_pos(n - 1);
    }
}

proof fn lemma_pow10_mono(a: int, b: int)
    requires
        a <= b,
    ensures
        pow10(a) <= pow10(b),
    decreases b - a,
{
    if a < b {
        lemma_pow10_mono(a, b - 1);
        lemma_pow10_pos(b - 1);
    }
}

proof fn lemma_pow10_add(a: int, b: int)
    requires
        0 <= a,
        0 <= b,
    ensures
        pow10(a) * pow10(b) == pow10(a + b),
    decreases b,
{
    if b == 0 {
    } else {
        lemma_pow10_add(a, b - 1);
        assert(pow10(a + b) == 10 * pow10(a + b - 1));
        assert(pow10(b) == 10 * pow10(b - 1));
        assert(pow10(a) * (10 * pow10(b - 1)) == 10 * (pow10(a) * pow10(b - 1)))
            by (nonlinear_arith);
    }
}

// ---------------------------------------------------------------------------
// Verified scanning helpers.
// ---------------------------------------------------------------------------

/// The first position of `d` in `s` at or after `lo` and before `hi`, or
/// `hi` when there is none.
#[verifier::loop_isolation(false)]
fn find_in_range(s: &str, lo: usize, hi: usize, d: char) -> (r: usize)
    requires
        lo <= hi <= s@.len(),
    ensures
        lo <= r <= hi,
        find_first(s@.subrange(lo as int, hi as int), d) == r - lo,
        forall|k: int| lo <= k < r ==> s@[k] != d,
        r < hi ==> s@[r as int] == d,
{
    let mut i = lo;
    while i < hi
        invariant
            lo <= i <= hi,
            forall|k: int| lo <= k < i ==> s@[k] != d,
        decreases hi - i,
    {
        if s.get_char(i) == d {
            proof {
                let t = s@.subrange(lo as int, hi as int);
                assert(forall|k: int| 0 <= k < i - lo ==> t[k] == s@[lo + k]);
                assert(t[i - lo] == s@[i as int]);
                lemma_find_first_at(t, d, i - lo);
            }
            return i;
        }
        i += 1;
    }
    proof {
        let t = s@.subrange(lo as int, hi as int);
        assert(forall|k: int| 0 <= k < hi - lo ==> t[k] == s@[lo + k]);
        lemma_find_first_at(t, d, (hi - lo) as int);
    }
    hi
}

/// Narrows `[lo, hi)` to its whitespace-trimmed sub-range.
#[verifier::loop_isolation(false)]
fn trim_range(s: &str, lo: usize, hi: usize) -> (r: (usize, usize))
    requires
        lo <= hi <= s@.len(),
    ensures
        lo <= r.0 <= r.1 <= hi,
        s@.subrange(r.0 as int, r.1 as int) == trim_spec(s@.subrange(lo as int, hi as int)),
{
    let mut a = lo;
    let mut more = true;
    while more && a < hi
        invariant
            lo <= a <= hi,
            forall|k: int| lo <= k < a ==> is_space_char(#[trigger] s@[k]),
            !more && a < hi ==> !is_space_char(s@[a as int]),
        decreases hi - a + (if more { 1int } else { 0int }),
    {
        let c = s.get_char(a);
        if c == ' ' || c == '\t' || c == '\r' {
            a += 1;
        } else {
            more = false;
        }
    }
    let mut b = hi;
    let mut more2 = true;
    while more2 && b > a
        invariant
            a <= b <= hi,
            forall|k: int| b <= k < hi ==> is_space_char(#[trigger] s@[k]),
            !more2 && b > a ==> !is_space_char(s@[b - 1]),
        decreases b + (if more2 { 1int } else { 0int }),
    {
        let c = s.get_char(b - 1);
        if c == ' ' || c == '\t' || c == '\r' {
            b -= 1;
        } else {
            more2 = false;
        }
    }
    proof {
        let t = s@.subrange(lo as int, hi as int);
        assert(forall|k: int| 0 <= k < t.len() ==> t[k] == s@[lo + k]);
        lemma_trim_front_at(t, a - lo);
        let u = t.skip(a - lo);
        assert(u =~= s@.subrange(a as int, hi as int));
        assert(forall|k: int| 0 <= k < u.len() ==> u[k] == s@[a + k]);
        lemma_trim_back_at(u, b - a);
        assert(u.take(b - a) =~= s@.subrange(a as int, b as int));
    }
    (a, b)
}

/// Splits `[lo, hi)` of `s` at every `d`, returning the piece boundaries.
#[verifier::loop_isolation(false)]
fn split_ranges(s: &str, lo: usize, hi: usize, d: char) -> (r: Vec<(usize, usize)>)
    requires
        lo <= hi <= s@.len(),
    ensures
        r@.len() == split_on(s@.subrange(lo as int, hi as int), d).len(),
        forall|j: int|
            0 <= j < r@.len() ==> lo <= (#[trigger] r@[j]).0 <= r@[j].1 <= hi && s@.subrange(
                r@[j].0 as int,
                r@[j].1 as int,
            ) == split_on(s@.subrange(lo as int, hi as int), d)[j],
{
    let ghost whole = s@.subrange(lo as int, hi as int);
    let mut r: Vec<(usize, usize)> = Vec::new();
    let mut start = lo;
    let mut finished = false;
    loop
        invariant
            lo <= start,
            start <= hi + 1,
            !finished ==> start <= hi,
            forall|j: int| 0 <= j < r@.len() ==> lo <= (#[trigger] r@[j]).0 <= r@[j].1 <= hi,
            ({
                let full = split_on(whole, d);
                let done = r@.map_values(|p: (usize, usize)| s@.subrange(p.0 as int, p.1 as int));
                if finished {
                    full == done
                } else {
                    full == done + split_on(s@.subrange(start as int, hi as int), d)
                }
            }),
        decreases hi + 1 - start + (if finished { 0int } else { 1int }),
    {
        if finished {
            break ;
        }
        let end = find_in_range(s, start, hi, d);
        let ghost rest = s@.subrange(start as int, hi as int);
        let ghost done0 = r@.map_values(|p: (usize, usize)| s@.subrange(p.0 as int, p.1 as int));
        r.push((start, end));
        proof {
            assert(find_first(rest, d) == end - start);
            assert(rest.take(end - start) =~= s@.subrange(start as int, end as int));
            let done1 = r@.map_values(|p: (usize, usize)| s@.subrange(p.0 as int, p.1 as int));
            assert(done1 =~= done0 + seq![s@.subrange(start as int, end as int)]);
            if end == hi {
                assert(split_on(rest, d) =~= seq![rest]);
                assert(rest =~= s@.subrange(start as int, end as int));
                assert(split_on(whole, d) =~= done1);
            } else {
                assert(split_on(rest, d) == seq![rest.take(end - start)] + split_on(
                    rest.skip(end - start + 1),
                    d,
                ));
                assert(rest.skip(end - start + 1) =~= s@.subrange(end + 1, hi as int));
                assert(split_on(whole, d) =~= done1 + split_on(
                    s@.subrange(end + 1, hi as int),
                    d,
                ));
            }
        }
        if end == hi {
            finished = true;
        } else {
            start = end + 1;
        }
    }
    proof {
        let done = r@.map_values(|p: (usize, usize)| s@.subrange(p.0 as int, p.1 as int));
        assert forall|j: int| 0 <= j < r@.len() implies s@.subrange(
            (#[trigger] r@[j]).0 as int,
            r@[j].1 as int,
        ) == split_on(whole, d)[j] by {
            assert(done[j] == s@.subrange(r@[j].0 as int, r@[j].1 as int));
        }
    }
    r
}

/// Whether `[lo, hi)` of `s` spells exactly the word `kw`.
#[verifier::loop_isolation(false)]
fn range_eq_str(s: &str, lo: usize, hi: usize, kw: &str) -> (r: bool)
    requires
        lo <= hi <= s@.len(),
    ensures
        r == (s@.subrange(lo as int, hi as int) == kw@),
{
    let n = kw.unicode_len();
    if hi - lo != n {
        proof {
            assert(s@.subrange(lo as int, hi as int).len() != kw@.len());
        }
        return false;
    }
    let mut j: usize = 0;
    while j < n
        invariant
            j <= n,
            forall|k: int| 0 <= k < j ==> s@[lo + k] == kw@[k],
        decreases n - j,
    {
        if s.get_char(lo + j) != kw.get_char(j) {
            proof {
                assert(s@.subrange(lo as int, hi as int)[j as int] != kw@[j as int]);
            }
            return false;
        }
        j += 1;
    }
    proof {
        assert(s@.subrange(lo as int, hi as int) =~= kw@);
    }
    true
}

/// Parses `[lo, hi)` of `s` as a `u16` identifier cell.
#[verifier::loop_isolation(false)]
fn parse_u16_range(s: &str, lo: usize, hi: usize) -> (r: Option<u16>)
    requires
        lo <= hi <= s@.len(),
    ensures
        ({
            let t = s@.subrange(lo as int, hi as int);
            match r {
                Some(v) => is_u16_string(t) && v as int == u16_string_val(t),
                None => !is_u16_string(t),
            }
        }),
{
    let ghost t = s@.subrange(lo as int, hi as int);
    let start = if lo < hi && s.get_char(lo) == '+' {
        lo + 1
    } else {
        lo
    };
    let ghost d = u16_digits(t);
    proof {
        assert(d =~= s@.subrange(start as int, hi as int));
    }
    if start == hi {
        return None;
    }
    let mut acc: u32 = 0;
    let mut j = start;
    while j < hi
        invariant
            start <= j <= hi,
            acc as int == digits_val(d.take(j - start)),
            acc <= u16::MAX,
            all_digits(d.take(j - start)),
        decreases hi - j,
    {
        let c = s.get_char(j);
        let u = c as u32;
        if u < 48 || u > 57 {
            proof {
                assert(d[j - start] == c);
                assert(!is_digit_char(c));
                assert(!all_digits(d));
            }
            return None;
        }
        proof {
            assert(d[j - start] == c);
            assert(is_digit_char(c));
            lemma_digits_val_take_step(d, j - start);
            assert(all_digits(d.take(j - start + 1))) by {
                assert(forall|i: int|
                    0 <= i < j - start + 1 ==> d.take(j - start + 1)[i] == #[trigger] d[i]);
            }
        }
        acc = acc * 10 + (u - 48);
        if acc > 65535 {
            proof {
                if all_digits(d) {
                    lemma_digits_val_take_le(d, j - start + 1);
                }
            }
            return None;
        }
        j += 1;
    }
    proof {
        assert(d.take(hi - start) =~= d);
    }
    Some(acc as u16)
}

proof fn lemma_amount_cap(b: Seq<char>, ip: Seq<char>, fp: Seq<char>, j: int, partial: int)
    requires
        0 <= j <= ip.len() + fp.len(),
        all_digits((ip + fp).take(j)),
        partial == digits_val((ip + fp).take(j)),
        partial > i64::MAX,
        ({
            let d = find_first(b, '.');
            (d == b.len() && ip == b && fp.len() == 0) || (d < b.len() && ip == b.take(d) && fp
                == b.skip(d + 1))
        }),
    ensures
        !(amount_body_ok(b) && amount_body_units(b) <= i64::MAX),
{
    if amount_body_ok(b) {
        let digs = ip + fp;
        assert(all_digits(digs)) by {
            assert(forall|i: int| 0 <= i < ip.len() ==> digs[i] == #[trigger] ip[i]);
            assert(forall|i: int|
                0 <= i < fp.len() ==> digs[ip.len() + i] == #[trigger] fp[i]);
            assert forall|i: int| 0 <= i < digs.len() implies is_digit_char(
                #[trigger] digs[i],
            ) by {
                if i < ip.len() {
                    assert(digs[i] == ip[i]);
                } else {
                    assert(digs[i] == fp[i - ip.len()]);
                }
            }
        }
        lemma_digits_val_take_le(digs, j);
        lemma_digits_val_concat(ip, fp);
        lemma_digits_val_nonneg(fp);
        lemma_digits_val_nonneg(ip);
        lemma_digits_val_nonneg(digs);
        let d = find_first(b, '.');
        if d == b.len() {
            assert(digs =~= b);
            assert(amount_body_units(b) == digits_val(b) * 10000);
            assert(digits_val(b) * 10000 >= digits_val(b)) by (nonlinear_arith)
                requires
                    digits_val(b) >= 0,
            ;
        } else {
            lemma_pow10_pos(4 - fp.len());
            lemma_pow10_mono(fp.len() as int, 4);
            assert(pow10(4) == 10000) by {
                assert(pow10(0) == 1);
                assert(pow10(1) == 10);
                assert(pow10(2) == 100);
                assert(pow10(3) == 1000);
            }
            assert(digits_val(ip) * pow10(fp.len() as int) <= digits_val(ip) * 10000)
                by (nonlinear_arith)
                requires
                    digits_val(ip) >= 0,
                    pow10(fp.len() as int) <= 10000,
            ;
            assert(digits_val(fp) <= digits_val(fp) * pow10(4 - fp.len())) by (nonlinear_arith)
                requires
                    digits_val(fp) >= 0,
                    pow10(4 - fp.len()) >= 1,
            ;
            assert(amount_body_units(b) >= digits_val(digs));
        }
    }
}

proof fn lemma_scale_cap(digs: Seq<char>, p: int, pad: int)
    requires
        all_digits(digs),
        1 <= p <= pad,
        digits_val(digs) * pow10(p) > i64::MAX,
    ensures
        digits_val(digs) * pow10(pad) > i64::MAX,
{
    lemma_digits_val_nonneg(digs);
    lemma_pow10_mono(p, pad);
    lemma_pow10_pos(p);
    assert(digits_val(digs) * pow10(p) <= digits_val(digs) * pow10(pad)) by (nonlinear_arith)
        requires
            digits_val(digs) >= 0,
            pow10(p) <= pow10(pad),
    ;
}

/// Parses `[lo, hi)` of `s` as a signed fixed-point amount cell, in
/// ten-thousandths of a unit.
#[verifier::loop_isolation(false)]
#[verifier::rlimit(100)]
fn parse_amount_range(s: &str, lo: usize, hi: usize) -> (r: Option<i64>)
    requires
        lo <= hi <= s@.len(),
    ensures
        ({
            let t = s@.subrange(lo as int, hi as int);
            match r {
                Some(v) => is_amount_string(t) && v as int == amount_string_units(t),
                None => !is_amount_string(t),
            }
        }),
{
    let ghost t = s@.subrange(lo as int, hi as int);
    let mut negative = false;
    let mut start = lo;
    if lo < hi {
        let c0 = s.get_char(lo);
        if c0 == '-' {
            negative = true;
            start = lo + 1;
        } else if c0 == '+' {
            start = lo + 1;
        }
    }
    let ghost b = amount_body(t);
    proof {
        assert(b =~= s@.subrange(start as int, hi as int));
        assert(amount_sign(t) == if negative { -1int } else { 1int });
    }
    let dpos = find_in_range(s, start, hi, '.');
    let ghost dd = find_first(b, '.');
    proof {
        assert(dd == dpos - start);
    }
    let ghost ip = if dd == b.len() { b } else { b.take(dd) };
    let ghost fp = if dd == b.len() { Seq::<char>::empty() } else { b.skip(dd + 1) };
    let ghost digs = ip + fp;
    proof {
        assert(ip =~= s@.subrange(start as int, dpos as int));
        if dd < b.len() {
            assert(fp =~= s@.subrange(dpos + 1, hi as int));
        }
    }
    let pad: usize = if dpos == hi {
        if start == hi {
            proof {
                assert(b.len() == 0);
            }
            return None;
        }
        4
    } else {
        let fl = hi - dpos - 1;
        if fl > 4 {
            proof {
                assert(fp.len() == fl);
            }
            return None;
        }
        if dpos == start && fl == 0 {
            proof {
                assert(ip.len() == 0 && fp.len() == 0);
            }
            return None;
        }
        4 - fl
    };
    let mut acc: u128 = 0;
    let mut j = start;
    while j < dpos
        invariant
            start <= j <= dpos,
            acc as int == digits_val(digs.take(j - start)),
            acc <= i64::MAX as u128,
            all_digits(digs.take(j - start)),
        decreases dpos - j,
    {
        let c = s.get_char(j);
        let u = c as u32;
        if u < 48 || u > 57 {
            proof {
                assert(ip[j - start] == c);
                assert(!all_digits(ip));
            }
            return None;
        }
        proof {
            assert(ip[j - start] == c);
            assert(digs[j - start] == c);
            assert(is_digit_char(c));
            lemma_digits_val_take_step(digs, j - start);
            assert(all_digits(digs.take(j - start + 1))) by {
                assert(forall|i: int|
                    0 <= i < j - start + 1 ==> digs.take(j - start + 1)[i] == #[trigger] digs[i]);
            }
        }
        acc = acc * 10 + ((u - 48) as u128);
        if acc > i64::MAX as u128 {
            proof {
                lemma_amount_cap(b, ip, fp, j - start + 1, acc as int);
            }
            return None;
        }
        j += 1;
    }
    proof {
        assert(digs.take(dpos - start) =~= ip);
    }
    if dpos < hi {
        let mut k = dpos + 1;
        while k < hi
            invariant
                dpos + 1 <= k <= hi,
                dpos < hi,
                acc as int == digits_val(digs.take(ip.len() + k - (dpos + 1))),
                acc <= i64::MAX as u128,
                all_digits(digs.take(ip.len() + k - (dpos + 1))),
            decreases hi - k,
        {
            let c = s.get_char(k);
            let u = c as u32;
            if u < 48 || u > 57 {
                proof {
                    assert(fp[k - (dpos + 1)] == c);
                    assert(!all_digits(fp));
                }
                return None;
            }
            proof {
                assert(fp[k - (dpos + 1)] == c);
                assert(digs[ip.len() + k - (dpos + 1)] == c);
                assert(is_digit_char(c));
                lemma_digits_val_take_step(digs, ip.len() + k - (dpos + 1));
                assert(all_digits(digs.take(ip.len() + k - (dpos + 1) + 1))) by {
                    assert(forall|i: int|
                        0 <= i < ip.len() + k - (dpos + 1) + 1 ==> digs.take(
                            ip.len() + k - (dpos + 1) + 1,
                        )[i] == #[trigger] digs[i]);
                }
            }
            acc = acc * 10 + ((u - 48) as u128);
            if acc > i64::MAX as u128 {
                proof {
                    lemma_amount_cap(b, ip, fp, ip.len() + k - (dpos + 1) + 1, acc as int);
                }
                return None;
            }
            k += 1;
        }
    }
    proof {
        assert(digs.take(digs.len() as int) =~= digs);
        assert(acc as int == digits_val(digs));
        assert(all_digits(digs));
        assert forall|i: int| 0 <= i < ip.len() implies is_digit_char(#[trigger] ip[i]) by {
            assert(ip[i] == digs[i]);
            assert(is_digit_char(digs[i]));
        }
        assert forall|i: int| 0 <= i < fp.len() implies is_digit_char(#[trigger] fp[i]) by {
            assert(fp[i] == digs[ip.len() + i]);
            assert(is_digit_char(digs[ip.len() + i]));
        }
        assert(all_digits(ip));
        assert(all_digits(fp));
        assert(amount_body_ok(b));
        lemma_digits_val_concat(ip, fp);
        lemma_digits_val_nonneg(digs);
        lemma_digits_val_nonneg(ip);
        lemma_digits_val_nonneg(fp);
        assert(pow10(4) == 10000) by {
            assert(pow10(0) == 1);
            assert(pow10(1) == 10);
            assert(pow10(2) == 100);
            assert(pow10(3) == 1000);
        }
        if dd == b.len() {
            assert(digs =~= b);
            assert(amount_body_units(b) == digits_val(digs) * pow10(pad as int));
        } else {
            lemma_pow10_add(fp.len() as int, pad as int);
            assert(amount_body_units(b) == digits_val(ip) * 10000 + digits_val(fp) * pow10(
                pad as int,
            ));
            assert((digits_val(ip) * pow10(fp.len() as int) + digits_val(fp)) * pow10(pad as int)
                == digits_val(ip) * (pow10(fp.len() as int) * pow10(pad as int)) + digits_val(fp)
                * pow10(pad as int)) by (nonlinear_arith);
            assert(amount_body_units(b) == digits_val(digs) * pow10(pad as int));
        }
    }
    let mut p: usize = 0;
    while p < pad
        invariant
            p <= pad,
            pad <= 4,
            acc as int == digits_val(digs) * pow10(p as int),
            acc <= i64::MAX as u128,
        decreases pad - p,
    {
        proof {
            assert(pow10(p as int + 1) == 10 * pow10(p as int));
            assert(digits_val(digs) * pow10(p as int + 1) == (digits_val(digs) * pow10(
                p as int,
            )) * 10) by (nonlinear_arith);
        }
        acc = acc * 10;
        if acc > i64::MAX as u128 {
            proof {
                lemma_scale_cap(digs, p as int + 1, pad as int);
            }
            return None;
        }
        p += 1;
    }
    let mag = acc as i64;
    proof {
        assert(acc as int == amount_body_units(b));
        assert(is_amount_string(t));
    }
    if negative {
        Some(-mag)
    } else {
        Some(mag)
    }
}

impl PaymentCommand {
    /// Parses one data row of the tabular input into a payment command:
    /// comma-separated cells, each trimmed, holding the command word, the
    /// client id, the transaction id, and (for deposits and withdrawals) the
    /// fixed-point amount. Exactly the rows accepted by
    /// [`spec_row_command`] parse; every other row reports its first bad
    /// cell.
    pub fn from_csv_line(s: &str) -> (r: Result<Self, PaymentCommandParseError>)
        ensures
            match spec_row_command(s@) {
                Ok(cmd) => r == Ok::<PaymentCommand, PaymentCommandParseError>(cmd),
                Err(k) => r matches Err(e) && row_error_matches(s@, k, e),
            },
    {
        let n = s.unicode_len();
        let raw = split_ranges(s, 0, n, ',');
        proof {
            assert(s@.subrange(0, n as int) =~= s@);
        }
        let ghost cells = cells_of(s@);
        proof {
            assert(cells.len() == raw@.len());
        }
        if raw.len() < 3 {
            return Err(PaymentCommandParseError::MissingData(
                "Too little data in the row.".to_owned(),
            ));
        }
        let c0 = raw[0];
        let t0 = trim_range(s, c0.0, c0.1);
        proof {
            assert(cells[0] == trim_spec(split_on(s@, ',')[0]));
            assert(s@.subrange(t0.0 as int, t0.1 as int) == cells[0]);
        }
        let is_dep = range_eq_str(s, t0.0, t0.1, "deposit");
        let is_wd = range_eq_str(s, t0.0, t0.1, "withdrawal");
        if is_dep || is_wd {
            if raw.len() < 4 {
                return Err(PaymentCommandParseError::MissingData(
                    "Too little data in the row.".to_owned(),
                ));
            }
            let c1 = raw[1];
            let t1 = trim_range(s, c1.0, c1.1);
            proof {
                assert(cells[1] == trim_spec(split_on(s@, ',')[1]));
                assert(s@.subrange(t1.0 as int, t1.1 as int) == cells[1]);
            }
            let client = match parse_u16_range(s, t1.0, t1.1) {
                Some(v) => v,
                None => {
                    return Err(PaymentCommandParseError::ParseError(
                        "Could not parse client id.".to_owned(),
                    ));
                },
            };
            let c2 = raw[2];
            let t2 = trim_range(s, c2.0, c2.1);
            proof {
                assert(cells[2] == trim_spec(split_on(s@, ',')[2]));
                assert(s@.subrange(t2.0 as int, t2.1 as int) == cells[2]);
            }
            let tx = match parse_u16_range(s, t2.0, t2.1) {
                Some(v) => v,
                None => {
                    return Err(PaymentCommandParseError::ParseError(
                        "Could not parse transaction id.".to_owned(),
                    ));
                },
            };
            let c3 = raw[3];
            let t3 = trim_range(s, c3.0, c3.1);
            proof {
                assert(cells[3] == trim_spec(split_on(s@, ',')[3]));
                assert(s@.subrange(t3.0 as int, t3.1 as int) == cells[3]);
            }
            let amount = match parse_amount_range(s, t3.0, t3.1) {
                Some(v) => v,
                None => {
                    return Err(PaymentCommandParseError::ParseError(
                        "Could not parse amount.".to_owned(),
                    ));
                },
            };
            if is_dep {
                Ok(PaymentCommand::Deposit { client, tx, amount })
            } else {
                Ok(PaymentCommand::Withdrawal { client, tx, amount })
            }
        } else {
            let is_dis = range_eq_str(s, t0.0, t0.1, "dispute");
            let is_res = range_eq_str(s, t0.0, t0.1, "resolve");
            let is_cb = range_eq_str(s, t0.0, t0.1, "chargeback");
            if is_dis || is_res || is_cb {
                let c1 = raw[1];
                let t1 = trim_range(s, c1.0, c1.1);
                proof {
                    assert(cells[1] == trim_spec(split_on(s@, ',')[1]));
                    assert(s@.subrange(t1.0 as int, t1.1 as int) == cells[1]);
                }
                let client = match parse_u16_range(s, t1.0, t1.1) {
                    Some(v) => v,
                    None => {
                        return Err(PaymentCommandParseError::ParseError(
                            "Could not parse client id.".to_owned(),
                        ));
                    },
                };
                let c2 = raw[2];
                let t2 = trim_range(s, c2.0, c2.1);
                proof {
                    assert(cells[2] == trim_spec(split_on(s@, ',')[2]));
                    assert(s@.subrange(t2.0 as int, t2.1 as int) == cells[2]);
                }
                let tx = match parse_u16_range(s, t2.0, t2.1) {
                    Some(v) => v,
                    None => {
                        return Err(PaymentCommandParseError::ParseError(
                            "Could not parse transaction id.".to_owned(),
                        ));
                    },
                };
                if is_dis {
                    Ok(PaymentCommand::Dispute { client, tx })
                } else if is_res {
                    Ok(PaymentCommand::Resolve { client, tx })
                } else {
                    Ok(PaymentCommand::Chargeback { client, tx })
                }
            } else {
                let word = s.substring_char(t0.0, t0.1);
                let msg = word.to_owned().concat(" is not a valid payment command.");
                Err(PaymentCommandParseError::NoSuchPaymentCommand(msg))
            }
        }
    }
}

/// Parses the whole tabular input: the fixed header row, then one command
/// per line. The first malformed row (or a missing or wrong header) is
/// reported with its 1-based line number, line 0 standing for the header.
#[verifier::loop_isolation(false)]
pub fn parse_commands(s: &str) -> (r: Result<Vec<PaymentCommand>, ParseError>)
    ensures
        ({
            let ls = lines_of(s@);
            if ls.len() == 0 {
                &&& r matches Err(pe)
                &&& pe.0 == 0
                &&& pe.1 matches PaymentCommandParseError::MissingHeader(m)
                &&& m@ == "Missing CSV header."@
            } else if cells_of(ls[0]) != header_cells() {
                &&& r matches Err(pe)
                &&& pe.0 == 0
                &&& pe.1 matches PaymentCommandParseError::MissingHeader(m)
                &&& m@ == "Incorrect CSV header."@
            } else {
                match spec_parse_rows(ls, 1) {
                    Ok(cmds) => r matches Ok(v) && v@ == cmds,
                    Err((i, k)) => {
                        &&& r matches Err(pe)
                        &&& pe.0 == i + 1
                        &&& row_error_matches(ls[i], k, pe.1)
                    },
                }
            }
        }),
{
    let n = s.unicode_len();
    if n == 0 {
        proof {
            assert(lines_of(s@).len() == 0);
        }
        return Err(ParseError(0, PaymentCommandParseError::MissingHeader(
            "Missing CSV header.".to_owned(),
        )));
    }
    let hi = if s.get_char(n - 1) == '\n' {
        n - 1
    } else {
        n
    };
    let ghost ls = lines_of(s@);
    proof {
        if s@.last() == '\n' {
            assert(s@.drop_last() =~= s@.subrange(0, hi as int));
        } else {
            assert(s@ =~= s@.subrange(0, hi as int));
        }
        assert(ls == split_on(s@.subrange(0, hi as int), '\n'));
    }
    let lines = split_ranges(s, 0, hi, '\n');
    proof {
        assert(ls.len() >= 1) by {
            let t = s@.subrange(0, hi as int);
            if find_first(t, '\n') == t.len() {
            } else {
            }
        }
    }
    let h = lines[0];
    let hraw = split_ranges(s, h.0, h.1, ',');
    let ghost hcells = cells_of(ls[0]);
    proof {
        assert(s@.subrange(h.0 as int, h.1 as int) == ls[0]);
        assert(hcells.len() == hraw@.len());
    }
    let mut header_good = hraw.len() == 4;
    if header_good {
        let w0 = hraw[0];
        let u0 = trim_range(s, w0.0, w0.1);
        let w1 = hraw[1];
        let u1 = trim_range(s, w1.0, w1.1);
        let w2 = hraw[2];
        let u2 = trim_range(s, w2.0, w2.1);
        let w3 = hraw[3];
        let u3 = trim_range(s, w3.0, w3.1);
        proof {
            assert(hcells[0] == trim_spec(split_on(ls[0], ',')[0]));
            assert(hcells[1] == trim_spec(split_on(ls[0], ',')[1]));
            assert(hcells[2] == trim_spec(split_on(ls[0], ',')[2]));
            assert(hcells[3] == trim_spec(split_on(ls[0], ',')[3]));
            assert(s@.subrange(u0.0 as int, u0.1 as int) == hcells[0]);
            assert(s@.subrange(u1.0 as int, u1.1 as int) == hcells[1]);
            assert(s@.subrange(u2.0 as int, u2.1 as int) == hcells[2]);
            assert(s@.subrange(u3.0 as int, u3.1 as int) == hcells[3]);
        }
        let k0 = range_eq_str(s, u0.0, u0.1, "type");
        let k1 = range_eq_str(s, u1.0, u1.1, "client");
        let k2 = range_eq_str(s, u2.0, u2.1, "tx");
        let k3 = range_eq_str(s, u3.0, u3.1, "amount");
        header_good = k0 && k1 && k2 && k3;
        proof {
            if k0 && k1 && k2 && k3 {
                assert(hcells =~= header_cells());
            } else {
                assert(hcells != header_cells());
            }
        }
    } else {
        proof {
            assert(hcells.len() != 4);
            assert(header_cells().len() == 4);
        }
    }
    if !header_good {
        return Err(ParseError(0, PaymentCommandParseError::MissingHeader(
            "Incorrect CSV header.".to_owned(),
        )));
    }
    let mut commands: Vec<PaymentCommand> = Vec::new();
    let mut i: usize = 1;
    while i < lines.len()
        invariant
            1 <= i <= lines@.len(),
            match spec_parse_rows(ls, i as int) {
                Ok(rest) => spec_parse_rows(ls, 1) == Ok::<Seq<PaymentCommand>, (int, RowError)>(
                    commands@ + rest,
                ),
                Err(ie) => spec_parse_rows(ls, 1) == Err::<Seq<PaymentCommand>, (int, RowError)>(
                    ie,
                ),
            },
        decreases lines@.len() - i,
    {
        let line = lines[i];
        let row = s.substring_char(line.0, line.1);
        proof {
            assert(row@ == ls[i as int]);
        }
        match PaymentCommand::from_csv_line(row) {
            Ok(cmd) => {
                proof {
                    assert(spec_row_command(ls[i as int]) == Ok::<PaymentCommand, RowError>(cmd));
                    match spec_parse_rows(ls, i as int + 1) {
                        Ok(rest) => {
                            assert(spec_parse_rows(ls, i as int) == Ok::<
                                Seq<PaymentCommand>,
                                (int, RowError),
                            >(seq![cmd] + rest));
                            assert(commands@ + (seq![cmd] + rest) =~= (commands@ + seq![cmd])
                                + rest);
                            assert(commands@.push(cmd) =~= commands@ + seq![cmd]);
                        },
                        Err(ie) => {
                            assert(spec_parse_rows(ls, i as int) == Err::<
                                Seq<PaymentCommand>,
                                (int, RowError),
                            >(ie));
                        },
                    }
                }
                commands.push(cmd);
                i += 1;
            },
            Err(e) => {
                let ghost k = spec_row_command(ls[i as int])->Err_0;
                proof {
                    assert(spec_row_command(ls[i as int]) is Err);
                    assert(spec_parse_rows(ls, i as int) == Err::<
                        Seq<PaymentCommand>,
                        (int, RowError),
                    >((i as int, k)));
                }
                return Err(ParseError(i + 1, e));
            },
        }
    }
    proof {
        assert(spec_parse_rows(ls, i as int) == Ok::<Seq<PaymentCommand>, (int, RowError)>(
            Seq::empty(),
        ));
        assert(commands@ + Seq::<PaymentCommand>::empty() =~= commands@);
    }
    Ok(commands)
}

} // verus!
