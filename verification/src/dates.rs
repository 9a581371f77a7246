//! Calendar dates and the archive cutoff.
//!
//! A file's effective timestamp is reduced to its local calendar date, held
//! here as plain year, month and day. The current date and the calendar
//! arithmetic behind the cutoff (one year before today) come from the
//! `chrono` crate; everything decided from a date — the comparison against
//! the cutoff and the 4-digit year directory name — is verified here.
use vstd::prelude::*;
use vstd::string::StringExecFns;
use chrono::Datelike;

verus! {

/// The archive stage relocates files strictly older than this many days.
pub const ARCHIVE_AGE_DAYS: u32 = 365;

/// Years a calendar date can carry; the bounds are those of `chrono`'s
/// `NaiveDate`.
pub open spec fn year_in_range(y: int) -> bool {
    -262143 <= y <= 262142
}

pub open spec fn is_leap_year(y: int) -> bool {
    (y % 4 == 0 && y % 100 != 0) || y % 400 == 0
}

pub open spec fn days_in_month(y: int, m: int) -> int {
    if m == 2 {
        if is_leap_year(y) {
            29
        } else {
            28
        }
    } else if m == 4 || m == 6 || m == 9 || m == 11 {
        30
    } else {
        31
    }
}

/// A proleptic Gregorian calendar date that `chrono` can represent.
pub open spec fn valid_date(y: int, m: int, d: int) -> bool {
    year_in_range(y) && 1 <= m <= 12 && 1 <= d <= days_in_month(y, m)
}

/// A calendar date in the local timezone.
#[derive(Clone, Copy, PartialEq, Eq, Structural, Debug)]
pub struct Date {
    pub year: i32,
    pub month: u8,
    pub day: u8,
}

impl Date {
    pub open spec fn wf(self) -> bool {
        valid_date(self.year as int, self.month as int, self.day as int)
    }

    /// Strictly-earlier order on dates.
    pub open spec fn lt(self, other: Date) -> bool {
        self.year < other.year || (self.year == other.year && (self.month < other.month || (
        self.month == other.month && self.day < other.day)))
    }
}

/// Whether `a` is strictly earlier than `b`.
pub fn date_before(a: &Date, b: &Date) -> (r: bool)
    ensures
        r == a.lt(*b),
{
    a.year < b.year || (a.year == b.year && (a.month < b.month || (a.month == b.month && a.day
        < b.day)))
}

/// Relies on `chrono::Local::now`, `DateTime::date_naive` and the
/// `Datelike` accessors: the current date in the local timezone is always a
/// valid calendar date within `NaiveDate`'s year range.
#[verifier::external_body]
fn now_local_ymd() -> (r: (i32, u8, u8))
    ensures
        valid_date(r.0 as int, r.1 as int, r.2 as int),
{
    let d = chrono::Local::now().date_naive();
    (d.year(), d.month() as u8, d.day() as u8)
}

/// The date `n` days before the date `(y, m, d)`, or `None` where the
/// inputs are no valid date or the result would leave the representable
/// range.
pub uninterp spec fn minus_days_spec(y: int, m: int, d: int, n: int) -> Option<(int, int, int)>;

pub open spec fn opt_ymd_view(r: Option<(i32, u8, u8)>) -> Option<(int, int, int)> {
    match r {
        Some(t) => Some((t.0 as int, t.1 as int, t.2 as int)),
        None => None,
    }
}

/// Relies on `chrono::NaiveDate::from_ymd_opt` (`Some` exactly on valid
/// dates in range) and `NaiveDate::checked_sub_days` (subtracts whole days;
/// `None` only when the result would fall outside the representable range).
#[verifier::external_body]
fn ymd_minus_days(y: i32, m: u8, d: u8, n: u32) -> (r: Option<(i32, u8, u8)>)
    ensures
        opt_ymd_view(r) == minus_days_spec(y as int, m as int, d as int, n as int),
        (r matches Some(t) ==> valid_date(t.0 as int, t.1 as int, t.2 as int)),
        (r matches Some(t) ==> n > 0 ==> (Date { year: t.0, month: t.1, day: t.2 }).lt(
            (Date { year: y, month: m, day: d }),
        )),
        (r matches Some(t) ==> n == 0 ==> t == (y, m, d)),
        (valid_date(y as int, m as int, d as int) && y >= -262141 && n <= 730 ==> r is Some),
{
    let date = match chrono::NaiveDate::from_ymd_opt(y, m as u32, d as u32) {
        Some(date) => date,
        None => { return None; },
    };
    match date.checked_sub_days(chrono::Days::new(n as u64)) {
        Some(back) => Some((back.year(), back.month() as u8, back.day() as u8)),
        None => None,
    }
}

/// Today's date in the local timezone.
pub fn today() -> (d: Date)
    ensures
        d.wf(),
{
    let t = now_local_ymd();
    Date { year: t.0, month: t.1, day: t.2 }
}

/// The archive cutoff for a given current date: the date 365 days earlier.
/// Files whose effective date is strictly earlier than the cutoff are
/// archived; all others are left alone.
pub fn archive_cutoff(today: &Date) -> (r: Option<Date>)
    ensures
        match r {
            Some(c) => minus_days_spec(
                today.year as int,
                today.month as int,
                today.day as int,
                ARCHIVE_AGE_DAYS as int,
            ) == Some((c.year as int, c.month as int, c.day as int)) && c.wf() && c.lt(*today),
            None => minus_days_spec(
                today.year as int,
                today.month as int,
                today.day as int,
                ARCHIVE_AGE_DAYS as int,
            ) is None,
        },
        today.wf() && today.year >= -262141 ==> r is Some,
{
    match ymd_minus_days(today.year, today.month, today.day, ARCHIVE_AGE_DAYS) {
        Some(t) => Some(Date { year: t.0, month: t.1, day: t.2 }),
        None => None,
    }
}

pub open spec fn digit_char(d: int) -> char {
    if d == 0 {
        '0'
    } else if d == 1 {
        '1'
    } else if d == 2 {
        '2'
    } else if d == 3 {
        '3'
    } else if d == 4 {
        '4'
    } else if d == 5 {
        '5'
    } else if d == 6 {
        '6'
    } else if d == 7 {
        '7'
    } else if d == 8 {
        '8'
    } else {
        '9'
    }
}

/// The decimal digits of `n`, most significant first.
pub open spec fn digits_of(n: nat) -> Seq<char>
    decreases n,
{
    if n < 10 {
        seq![digit_char(n as int)]
    } else {
        digits_of(n / 10).push(digit_char((n % 10) as int))
    }
}

pub open spec fn zeros(k: nat) -> Seq<char> {
    Seq::new(k, |i: int| '0')
}

/// The decimal digits of `n`, left-padded with zeros to at least 4 digits.
pub open spec fn pad4(n: nat) -> Seq<char> {
    if n < 10 {
        zeros(3) + digits_of(n)
    } else if n < 100 {
        zeros(2) + digits_of(n)
    } else if n < 1000 {
        zeros(1) + digits_of(n)
    } else {
        digits_of(n)
    }
}

/// The text of a year directory's name: years 0 to 9999 are zero-padded to
/// 4 digits; later years carry a leading `+` and earlier ones a leading `-`
/// with their magnitude zero-padded to 4 digits.
pub open spec fn year_chars(y: int) -> Seq<char> {
    if y < 0 {
        "-"@ + pad4((-y) as nat)
    } else if y < 10000 {
        pad4(y as nat)
    } else {
        "+"@ + digits_of(y as nat)
    }
}

proof fn lemma_digits_len(n: nat)
    ensures
        n < 10 ==> digits_of(n).len() == 1,
        10 <= n < 100 ==> digits_of(n).len() == 2,
        100 <= n < 1000 ==> digits_of(n).len() == 3,
        1000 <= n < 10000 ==> digits_of(n).len() == 4,
        n >= 10000 ==> digits_of(n).len() >= 5,
    decreases n,
{
    if n >= 10 {
        lemma_digits_len(n / 10);
    }
}

/// The digits collected least-significant-first in `ds`, read back in
/// display order.
spec fn rev_chars(ds: Seq<u8>) -> Seq<char> {
    Seq::new(ds.len(), |j: int| digit_char(ds[ds.len() - 1 - j] as int))
}

fn digit_str(d: u8) -> (e: &'static str)
    requires
        d < 10,
    ensures
        e@ == seq![digit_char(d as int)],
{
    proof {
        reveal_strlit("0");
        reveal_strlit("1");
        reveal_strlit("2");
        reveal_strlit("3");
        reveal_strlit("4");
        reveal_strlit("5");
        reveal_strlit("6");
        reveal_strlit("7");
        reveal_strlit("8");
        reveal_strlit("9");
    }
    match d {
        0 => "0",
        1 => "1",
        2 => "2",
        3 => "3",
        4 => "4",
        5 => "5",
        6 => "6",
        7 => "7",
        8 => "8",
        _ => "9",
    }
}

/// The year directory name for year `y`, exactly as `year_chars` states it.
pub fn year_string(y: i32) -> (s: String)
    ensures
        s@ == year_chars(y as int),
{
    let mut n: u64 = if y < 0 {
        (-(y as i64)) as u64
    } else {
        y as u64
    };
    let ghost n0: nat = n as nat;
    let mut ds: Vec<u8> = Vec::new();
    if n == 0 {
        ds.push(0);
        proof {
            assert(rev_chars(ds@) =~= digits_of(n0));
        }
    } else {
        proof {
            assert(digits_of(n0) =~= digits_of(n as nat) + rev_chars(ds@));
        }
        while n > 0
            invariant
                n <= n0,
                (n > 0 ==> digits_of(n0) == digits_of(n as nat) + rev_chars(ds@)),
                (n == 0 ==> digits_of(n0) == rev_chars(ds@)),
                forall|j: int| 0 <= j < ds@.len() ==> ds@[j] < 10,
            decreases n,
        {
            let ghost ds0 = ds@;
            let ghost nprev: nat = n as nat;
            let d: u8 = (n % 10) as u8;
            ds.push(d);
            n = n / 10;
            proof {
                assert(rev_chars(ds@) =~= seq![digit_char(d as int)] + rev_chars(ds0));
                if n > 0 {
                    assert(digits_of(nprev) == digits_of(nprev / 10).push(
                        digit_char((nprev % 10) as int),
                    ));
                    assert(digits_of(nprev / 10).push(digit_char((nprev % 10) as int))
                        =~= digits_of(nprev / 10) + seq![digit_char(d as int)]);
                    assert(digits_of(n0) =~= digits_of(n as nat) + rev_chars(ds@));
                } else {
                    assert(digits_of(nprev) == seq![digit_char(nprev as int)]);
                    assert(digits_of(n0) =~= rev_chars(ds@));
                }
            }
        }
    }
    proof {
        lemma_digits_len(n0);
        assert(ds@.len() == digits_of(n0).len());
        assert(rev_chars(ds@) =~= zeros((ds@.len() - digits_of(n0).len()) as nat) + digits_of(
            n0,
        ));
    }
    while ds.len() < 4
        invariant
            rev_chars(ds@) == zeros((ds@.len() - digits_of(n0).len()) as nat) + digits_of(n0),
            ds@.len() >= digits_of(n0).len(),
            (ds@.len() <= 4 || ds@.len() == digits_of(n0).len()),
            forall|j: int| 0 <= j < ds@.len() ==> ds@[j] < 10,
        decreases 4 - ds.len(),
    {
        let ghost ds0 = ds@;
        ds.push(0);
        proof {
            assert(rev_chars(ds@) =~= seq!['0'] + rev_chars(ds0));
            assert(rev_chars(ds@) =~= zeros((ds@.len() - digits_of(n0).len()) as nat)
                + digits_of(n0));
        }
    }
    let mut s = String::new();
    if y < 0 {
        s.append("-");
    } else if y >= 10000 {
        s.append("+");
    }
    let ghost sign: Seq<char> = s@;
    let mut i: usize = ds.len();
    proof {
        assert(s@ =~= sign + rev_chars(ds@).take(ds@.len() - i));
    }
    while i > 0
        invariant
            i <= ds@.len(),
            s@ == sign + rev_chars(ds@).take(ds@.len() - i),
            forall|j: int| 0 <= j < ds@.len() ==> ds@[j] < 10,
        decreases i,
    {
        i -= 1;
        let ghost sprev = s@;
        s.append(digit_str(ds[i]));
        proof {
            assert(rev_chars(ds@)[ds@.len() - 1 - i] == digit_char(ds@[i as int] as int));
            assert(rev_chars(ds@).take(ds@.len() - i) =~= rev_chars(ds@).take(
                ds@.len() - 1 - i,
            ).push(digit_char(ds@[i as int] as int)));
            assert(s@ =~= sign + rev_chars(ds@).take(ds@.len() - i));
        }
    }
    proof {
        assert(rev_chars(ds@).take(ds@.len() as int) =~= rev_chars(ds@));
        lemma_digits_len(n0);
        if y >= 0 && y < 10000 {
            assert(ds@.len() == 4);
            assert(sign =~= Seq::<char>::empty());
            assert(zeros((4 - digits_of(n0).len()) as nat) + digits_of(n0) =~= pad4(n0));
            assert(s@ =~= year_chars(y as int));
        } else if y >= 10000 {
            assert(digits_of(n0).len() >= 5);
            assert(rev_chars(ds@) =~= digits_of(n0));
            assert(s@ =~= year_chars(y as int));
        } else {
            assert(n0 == -(y as int));
            if digits_of(n0).len() >= 4 {
                assert(rev_chars(ds@) =~= digits_of(n0));
                assert(pad4(n0) =~= digits_of(n0));
            } else {
                assert(ds@.len() == 4);
                assert(zeros((4 - digits_of(n0).len()) as nat) + digits_of(n0) =~= pad4(n0));
            }
            assert(s@ =~= year_chars(y as int));
        }
    }
    s
}

} // verus!
