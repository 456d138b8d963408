//! Election date and name extraction.
//!
//! The first cell of the first result sheet reads
//! "<Month> <Day>, <Year>, <Title...>": the text is split just after the
//! year, the date piece is parsed, and a trailing "Official..." suffix is
//! stripped from the title.  The election's display name is the year
//! followed by the stripped title.

use vstd::prelude::*;
use chrono::Datelike;
use crate::error::ImportError;
use crate::text::{matches_at, trimmed, signed_dec_rep, dec_rep, digit_char, i64_dec_string, find_char, find_sub, trim_spaces};

verus! {

/// A calendar date, already validated by the parser.
#[derive(Clone, Copy, PartialEq, Eq, Structural, Debug)]
pub struct Date {
    pub year: i32,
    pub month: u8,
    pub day: u8,
}

impl Date {
    pub open spec fn wf(&self) -> bool {
        self.year > i32::MIN && 1 <= self.month <= 12 && 1 <= self.day <= 31
    }
}

/// What chrono parses from a "<Month> <Day>, <Year>" text; a function of
/// the characters alone.
pub uninterp spec fn month_day_year_of(s: Seq<char>) -> Option<(i32, u8, u8)>;

/// Relies on chrono::NaiveDate::parse_from_str with the format
/// "%B %d, %Y".  The result depends on the input characters alone; a
/// parsed date carries a month in 1..=12 and a day in 1..=31, as chrono
/// documents for Datelike::month and Datelike::day, and a year well
/// inside i32, as chrono bounds NaiveDate to +/- (1 << 18) years.
#[verifier::external_body]
fn parse_month_day_year(s: &str) -> (r: Option<(i32, u8, u8)>)
    ensures
        r == month_day_year_of(s@),
        r matches Some(d) ==> d.0 > i32::MIN && 1 <= d.1 <= 12 && 1 <= d.2 <= 31,
{
    match chrono::NaiveDate::parse_from_str(s, "%B %d, %Y") {
        Ok(d) => Some((d.year(), d.month() as u8, d.day() as u8)),
        Err(_) => None,
    }
}

/// `p` is the position of the first comma of `s`.
pub open spec fn first_comma_at(s: Seq<char>, p: int) -> bool {
    &&& 0 <= p < s.len()
    &&& s[p] == ','
    &&& forall|j: int| 0 <= j < p ==> s[j] != ','
}

/// Splits the leading "<Month> <Day>, <Year>" from the cell text and
/// parses it; the remainder starts after the year and its following
/// separator.  Malformed leading text fails with the date-format error.
pub fn extract_date_and_remainder(input: &str) -> (r: Result<(Date, String), ImportError>)
    ensures
        r matches Ok(_) <==> exists|p: int|
            #[trigger] first_comma_at(input@, p) && p + 7 <= input@.len() && month_day_year_of(
                input@.subrange(0, p + 6),
            ) is Some,
        r matches Ok(pair) ==> exists|p: int|
            #[trigger] first_comma_at(input@, p) && p + 7 <= input@.len() && month_day_year_of(
                input@.subrange(0, p + 6),
            ) == Some((pair.0.year, pair.0.month, pair.0.day)) && pair.0.wf() && pair.1@
                == input@.skip(p + 7),
        r matches Err(e) ==> e == ImportError::DateFormat,
{
    let l = input.unicode_len();
    let p = match find_char(input, ',') {
        Some(p) => p,
        None => {
            return Err(ImportError::DateFormat);
        },
    };
    assert(first_comma_at(input@, p as int));
    if l - p < 7 {
        proof {
            if exists|q: int|
                #[trigger] first_comma_at(input@, q) && q + 7 <= input@.len()
                    && month_day_year_of(input@.subrange(0, q + 6)) is Some {
                let q = choose|q: int|
                    #[trigger] first_comma_at(input@, q) && q + 7 <= input@.len()
                        && month_day_year_of(input@.subrange(0, q + 6)) is Some;
                assert(q == p) by {
                    if q < p {
                        assert(input@[q] != ',');
                    }
                    if q > p {
                        assert(input@[p as int] != ',');
                    }
                }
            }
        }
        return Err(ImportError::DateFormat);
    }
    let piece = input.substring_char(0, p + 6);
    let parsed = parse_month_day_year(piece);
    proof {
        if exists|q: int|
            #[trigger] first_comma_at(input@, q) && q + 7 <= input@.len() && month_day_year_of(
                input@.subrange(0, q + 6),
            ) is Some {
            let q = choose|q: int|
                #[trigger] first_comma_at(input@, q) && q + 7 <= input@.len()
                    && month_day_year_of(input@.subrange(0, q + 6)) is Some;
            assert(q == p) by {
                if q < p {
                    assert(input@[q] != ',');
                }
                if q > p {
                    assert(input@[p as int] != ',');
                }
            }
        }
    }
    match parsed {
        Some((y, m, d)) => {
            let rest = input.substring_char(p + 7, l);
            let date = Date { year: y, month: m, day: d };
            Ok((date, String::from_str(rest)))
        },
        None => Err(ImportError::DateFormat),
    }
}

/// The title cut just before its first "Official", then trimmed; the
/// whole trimmed title when "Official" does not occur.
pub fn strip_official_suffix(s: &str) -> (r: String)
    ensures
        (exists|i: int|
            matches_at(s@, "Official"@, i) && (forall|j: int|
                0 <= j < i ==> !matches_at(s@, "Official"@, j)) && r@ == trimmed(
                #[trigger] s@.subrange(0, i),
            )) || ((forall|j: int| !matches_at(s@, "Official"@, j)) && r@ == trimmed(s@)),
{
    match find_sub(s, "Official") {
        Some(i) => {
            let piece = s.substring_char(0, i);
            let out = trim_spaces(piece);
            proof {
                assert(matches_at(s@, "Official"@, i as int));
            }
            out
        },
        None => trim_spaces(s),
    }
}

/// The election's display name: the year, a space, the stripped title.
pub fn election_name(year: i32, title: &str) -> (r: String)
    requires
        year > i32::MIN,
    ensures
        r@ == signed_dec_rep(year as int) + " "@ + title@,
{
    let y = i64_dec_string(year as i64);
    let mut out = y;
    out.append(" ");
    out.append(title);
    out
}

/// Zero-padded two-digit rendering of a small number.
pub open spec fn two_digit(n: nat) -> Seq<char> {
    if n < 10 {
        seq!['0'] + dec_rep(n)
    } else {
        dec_rep(n)
    }
}

/// The date in "year-month-day" order, month and day zero-padded.
pub open spec fn iso_rep(y: int, m: nat, d: nat) -> Seq<char> {
    signed_dec_rep(y) + seq!['-'] + two_digit(m) + seq!['-'] + two_digit(d)
}

impl Date {
    /// Renders the date in "year-month-day" order.
    pub fn iso_string(&self) -> (r: String)
        requires
            self.year > i32::MIN,
        ensures
            r@ == iso_rep(self.year as int, self.month as nat, self.day as nat),
    {
        proof {
            reveal_strlit("-");
            reveal_strlit("0");
        }
        let mut out = i64_dec_string(self.year as i64);
        out.append("-");
        if self.month < 10 {
            out.append("0");
        }
        let m = crate::text::u64_dec_string(self.month as u64);
        out.append(m.as_str());
        out.append("-");
        if self.day < 10 {
            out.append("0");
        }
        let d = crate::text::u64_dec_string(self.day as u64);
        out.append(d.as_str());
        proof {
            assert("-"@ =~= seq!['-']);
            assert("0"@ =~= seq!['0']);
            assert(out@ =~= iso_rep(self.year as int, self.month as nat, self.day as nat));
        }
        out
    }
}

} // verus!
