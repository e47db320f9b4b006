//! Timestamps as `YYYY-MM-DD HH:MM` text in UTC.
use crate::paint::no_escape;
use vstd::prelude::*;
use vstd::string::{StrSliceExecFns, StringExecFns};

verus! {

/// The calendar fields of an instant, in UTC.
#[derive(Clone, Copy, Debug, PartialEq, Eq, Structural)]
pub struct CivilTime {
    pub year: i32,
    pub month: u8,
    pub day: u8,
    pub hour: u8,
    pub minute: u8,
}

/// The last second that the calendar conversion accepts: 9999-12-31 23:59:59.
pub const LAST_TIMESTAMP: i64 = 253402300799;

/// Year, month and day, in UTC, of a count of seconds since the Unix epoch.
pub uninterp spec fn utc_date(secs: i64) -> (int, int, int);

/// Relies on time's `OffsetDateTime::from_unix_timestamp` (and the field
/// getters of its result): it accepts every timestamp from the epoch up to
/// the end of year 9999, gives the calendar date in UTC, and splits the time
/// of day evenly into hours and minutes.
#[verifier::external_body]
fn utc_civil(secs: i64) -> (r: Option<CivilTime>)
    requires
        secs >= 0,
    ensures
        r is Some <==> secs <= LAST_TIMESTAMP,
        r matches Some(c) ==> {
            &&& (c.year as int, c.month as int, c.day as int) == utc_date(secs)
            &&& c.hour == (secs % 86400) / 3600
            &&& c.minute == (secs % 3600) / 60
            &&& 1970 <= c.year <= 9999
            &&& 1 <= c.month <= 12
            &&& 1 <= c.day <= 31
        },
{
    match time::OffsetDateTime::from_unix_timestamp(secs) {
        Ok(d) => Some(
            CivilTime {
                year: d.year(),
                month: d.month() as u8,
                day: d.day(),
                hour: d.hour(),
                minute: d.minute(),
            },
        ),
        Err(_) => None,
    }
}

pub open spec fn digit_char(d: nat) -> char {
    seq!['0', '1', '2', '3', '4', '5', '6', '7', '8', '9'][d as int]
}

/// The decimal digits of `n`, without leading zeros.
pub open spec fn decimal(n: nat) -> Seq<char>
    decreases n,
{
    if n < 10 {
        seq![digit_char(n)]
    } else {
        decimal(n / 10) + seq![digit_char(n % 10)]
    }
}

/// `s` preceded by as many `fill` characters as bring it to `width`.
pub open spec fn pad_left(s: Seq<char>, width: nat, fill: char) -> Seq<char> {
    Seq::new(if s.len() < width { (width - s.len()) as nat } else { 0 }, |_i: int| fill) + s
}

/// `n` in decimal, zero-padded to `width` digits.
pub open spec fn zero_padded(n: nat, width: nat) -> Seq<char> {
    pad_left(decimal(n), width, '0')
}

/// A year as `{:04}` writes it: four digits, or a sign and three.
pub open spec fn year_text(y: int) -> Seq<char> {
    if y < 0 {
        seq!['-'] + zero_padded((-y) as nat, 3)
    } else {
        zero_padded(y as nat, 4)
    }
}

pub open spec fn date_time_text(y: int, mo: nat, d: nat, h: nat, mi: nat) -> Seq<char> {
    year_text(y) + seq!['-'] + zero_padded(mo, 2) + seq!['-'] + zero_padded(d, 2) + seq![' ']
        + zero_padded(h, 2) + seq![':'] + zero_padded(mi, 2)
}

pub open spec fn civil_text(c: CivilTime) -> Seq<char> {
    date_time_text(c.year as int, c.month as nat, c.day as nat, c.hour as nat, c.minute as nat)
}

/// The text shown in place of a time that cannot be converted.
pub open spec fn unknown_time() -> Seq<char> {
    seq!['?', '?', '?']
}

/// The text of an instant given as seconds since the Unix epoch (`None`
/// before the epoch).
pub open spec fn timestamp_text(since_epoch: Option<u64>) -> Seq<char> {
    match since_epoch {
        Some(s) => if s <= LAST_TIMESTAMP {
            let (y, mo, d) = utc_date(s as i64);
            date_time_text(
                y,
                mo as nat,
                d as nat,
                ((s % 86400) / 3600) as nat,
                ((s % 3600) / 60) as nat,
            )
        } else {
            unknown_time()
        },
        None => unknown_time(),
    }
}

pub open spec fn is_digit(c: char) -> bool {
    '0' <= c <= '9'
}

/// `s` reads `YYYY-MM-DD HH:MM`: sixteen characters, digits but for the
/// separators.
pub open spec fn is_date_time_shape(s: Seq<char>) -> bool {
    &&& s.len() == 16
    &&& forall|i: int|
        0 <= i < 16 ==> if i == 4 || i == 7 {
            #[trigger] s[i] == '-'
        } else if i == 10 {
            s[i] == ' '
        } else if i == 13 {
            s[i] == ':'
        } else {
            is_digit(s[i])
        }
}

proof fn lemma_decimal_digits(n: nat)
    ensures
        1 <= decimal(n).len(),
        n < 10 ==> decimal(n).len() == 1,
        n < 100 ==> decimal(n).len() <= 2,
        n < 1000 ==> decimal(n).len() <= 3,
        n < 10000 ==> decimal(n).len() <= 4,
        forall|i: int| 0 <= i < decimal(n).len() ==> is_digit(#[trigger] decimal(n)[i]),
    decreases n,
{
    let ds = seq!['0', '1', '2', '3', '4', '5', '6', '7', '8', '9'];
    assert(forall|d: int| 0 <= d < 10 ==> is_digit(#[trigger] ds[d]));
    if n >= 10 {
        lemma_decimal_digits(n / 10);
        let a = decimal(n / 10);
        let b = seq![digit_char(n % 10)];
        assert forall|i: int| 0 <= i < decimal(n).len() implies is_digit(
            #[trigger] decimal(n)[i],
        ) by {
            if i < a.len() {
                assert(decimal(n)[i] == a[i]);
            } else {
                assert(decimal(n)[i] == b[i - a.len()]);
            }
        }
    }
}

proof fn lemma_zero_padded(n: nat, width: nat)
    ensures
        decimal(n).len() <= width ==> zero_padded(n, width).len() == width,
        forall|i: int|
            0 <= i < zero_padded(n, width).len() ==> is_digit(#[trigger] zero_padded(n, width)[i]),
{
    lemma_decimal_digits(n);
    let z = Seq::new(
        if decimal(n).len() < width { (width - decimal(n).len()) as nat } else { 0 },
        |_i: int| '0',
    );
    assert forall|i: int| 0 <= i < zero_padded(n, width).len() implies is_digit(
        #[trigger] zero_padded(n, width)[i],
    ) by {
        if i < z.len() {
            assert(zero_padded(n, width)[i] == z[i]);
        } else {
            assert(zero_padded(n, width)[i] == decimal(n)[i - z.len()]);
        }
    }
}

proof fn lemma_date_time_shape(y: int, mo: nat, d: nat, h: nat, mi: nat)
    requires
        0 <= y <= 9999,
        mo < 100,
        d < 100,
        h < 100,
        mi < 100,
    ensures
        is_date_time_shape(date_time_text(y, mo, d, h, mi)),
{
    lemma_decimal_digits(y as nat);
    lemma_decimal_digits(mo);
    lemma_decimal_digits(d);
    lemma_decimal_digits(h);
    lemma_decimal_digits(mi);
    lemma_zero_padded(y as nat, 4);
    lemma_zero_padded(mo, 2);
    lemma_zero_padded(d, 2);
    lemma_zero_padded(h, 2);
    lemma_zero_padded(mi, 2);
    let ys = zero_padded(y as nat, 4);
    let ms = zero_padded(mo, 2);
    let ds = zero_padded(d, 2);
    let hs = zero_padded(h, 2);
    let mis = zero_padded(mi, 2);
    let s = date_time_text(y, mo, d, h, mi);
    assert(s =~= ys + seq!['-'] + ms + seq!['-'] + ds + seq![' '] + hs + seq![':'] + mis);
    assert(s.len() == 16);
    assert(s[0] == ys[0] && s[1] == ys[1] && s[2] == ys[2] && s[3] == ys[3]);
    assert(s[5] == ms[0] && s[6] == ms[1] && s[8] == ds[0] && s[9] == ds[1]);
    assert(s[11] == hs[0] && s[12] == hs[1] && s[14] == mis[0] && s[15] == mis[1]);
    assert(is_digit(ys[0]) && is_digit(ys[1]) && is_digit(ys[2]) && is_digit(ys[3]));
    assert(is_digit(ms[0]) && is_digit(ms[1]) && is_digit(ds[0]) && is_digit(ds[1]));
    assert(is_digit(hs[0]) && is_digit(hs[1]) && is_digit(mis[0]) && is_digit(mis[1]));
}

pub proof fn lemma_no_escape_join(a: Seq<char>, b: Seq<char>)
    requires
        no_escape(a),
        no_escape(b),
    ensures
        no_escape(a + b),
{
    assert forall|i: int| 0 <= i < (a + b).len() implies (a + b)[i] != '\x1B' by {
        if i < a.len() {
            assert((a + b)[i] == a[i]);
        } else {
            assert((a + b)[i] == b[i - a.len()]);
        }
    }
}

proof fn lemma_digits_plain(s: Seq<char>)
    requires
        forall|i: int| 0 <= i < s.len() ==> is_digit(#[trigger] s[i]),
    ensures
        no_escape(s),
{
    assert forall|i: int| 0 <= i < s.len() implies s[i] != '\x1B' by {
        assert(is_digit(s[i]));
    }
}

/// A number right-aligned in blanks holds no escape character.
pub proof fn lemma_pad_digits(n: nat, width: nat)
    ensures
        no_escape(pad_left(decimal(n), width, ' ')),
{
    lemma_decimal_digits(n);
    lemma_digits_plain(decimal(n));
    let z = Seq::new(
        if decimal(n).len() < width { (width - decimal(n).len()) as nat } else { 0 },
        |_i: int| ' ',
    );
    assert(no_escape(z));
    lemma_no_escape_join(z, decimal(n));
}

/// The text of a timestamp holds no escape character.
pub proof fn lemma_timestamp_plain(since_epoch: Option<u64>)
    ensures
        no_escape(timestamp_text(since_epoch)),
{
    let t = timestamp_text(since_epoch);
    if t != unknown_time() {
        let s = since_epoch->Some_0;
        let (y, mo, d) = utc_date(s as i64);
        let h = ((s % 86400) / 3600) as nat;
        let mi = ((s % 3600) / 60) as nat;
        let ys = year_text(y);
        lemma_zero_padded(mo as nat, 2);
        lemma_zero_padded(d as nat, 2);
        lemma_zero_padded(h, 2);
        lemma_zero_padded(mi, 2);
        lemma_digits_plain(zero_padded(mo as nat, 2));
        lemma_digits_plain(zero_padded(d as nat, 2));
        lemma_digits_plain(zero_padded(h, 2));
        lemma_digits_plain(zero_padded(mi, 2));
        if y < 0 {
            lemma_zero_padded((-y) as nat, 3);
            lemma_digits_plain(zero_padded((-y) as nat, 3));
            lemma_no_escape_join(seq!['-'], zero_padded((-y) as nat, 3));
        } else {
            lemma_zero_padded(y as nat, 4);
            lemma_digits_plain(zero_padded(y as nat, 4));
        }
        let parts = seq![
            ys,
            seq!['-'],
            zero_padded(mo as nat, 2),
            seq!['-'],
            zero_padded(d as nat, 2),
            seq![' '],
            zero_padded(h, 2),
            seq![':'],
            zero_padded(mi, 2),
        ];
        lemma_no_escape_join(ys, seq!['-']);
        lemma_no_escape_join(ys + seq!['-'], zero_padded(mo as nat, 2));
        lemma_no_escape_join(ys + seq!['-'] + zero_padded(mo as nat, 2), seq!['-']);
        let a = ys + seq!['-'] + zero_padded(mo as nat, 2) + seq!['-'];
        lemma_no_escape_join(a, zero_padded(d as nat, 2));
        lemma_no_escape_join(a + zero_padded(d as nat, 2), seq![' ']);
        let b = a + zero_padded(d as nat, 2) + seq![' '];
        lemma_no_escape_join(b, zero_padded(h, 2));
        lemma_no_escape_join(b + zero_padded(h, 2), seq![':']);
        lemma_no_escape_join(b + zero_padded(h, 2) + seq![':'], zero_padded(mi, 2));
    }
}

fn digit_str(d: u64) -> (r: &'static str)
    requires
        d < 10,
    ensures
        r@ == seq![digit_char(d as nat)],
{
    let digits = "0123456789";
    proof {
        reveal_strlit("0123456789");
    }
    assert(digits@ =~= seq!['0', '1', '2', '3', '4', '5', '6', '7', '8', '9']);
    let r = digits.substring_char(d as usize, d as usize + 1);
    assert(r@ =~= seq![digit_char(d as nat)]);
    r
}

/// `n` in decimal.
pub fn decimal_string(n: u64) -> (r: String)
    ensures
        r@ == decimal(n as nat),
    decreases n,
{
    if n < 10 {
        String::from_str(digit_str(n))
    } else {
        let mut s = decimal_string(n / 10);
        s.append(digit_str(n % 10));
        s
    }
}

/// `s` right-aligned in a field of `width` characters filled with `fill`.
pub fn pad_string(s: &str, width: usize, fill: &str) -> (r: String)
    requires
        fill@.len() == 1,
    ensures
        r@ == pad_left(s@, width as nat, fill@[0]),
{
    let len = s.unicode_len();
    let mut r = String::new();
    let mut k: usize = len;
    while k < width
        invariant
            len == s@.len(),
            fill@.len() == 1,
            len <= k <= width || (k == len && len >= width),
            r@ == Seq::new((k - len) as nat, |_i: int| fill@[0]),
        decreases width - k,
    {
        r.append(fill);
        k = k + 1;
        assert(r@ =~= Seq::new((k - len) as nat, |_i: int| fill@[0]));
    }
    r.append(s);
    assert(r@ =~= pad_left(s@, width as nat, fill@[0]));
    r
}

fn zero_pad(n: u64, width: usize) -> (r: String)
    ensures
        r@ == zero_padded(n as nat, width as nat),
{
    let digits = decimal_string(n);
    proof {
        reveal_strlit("0");
    }
    pad_string(digits.as_str(), width, "0")
}

/// Writes calendar fields as `YYYY-MM-DD HH:MM`, each field zero-padded.
pub fn format_date_time(c: &CivilTime) -> (r: String)
    ensures
        r@ == civil_text(*c),
{
    proof {
        reveal_strlit("-");
        reveal_strlit(" ");
        reveal_strlit(":");
    }
    let mut r = if c.year < 0 {
        let mut t = String::from_str("-");
        let magnitude = (0 - (c.year as i64)) as u64;
        let digits = zero_pad(magnitude, 3);
        t.append(digits.as_str());
        t
    } else {
        zero_pad(c.year as u64, 4)
    };
    r.append("-");
    r.append(zero_pad(c.month as u64, 2).as_str());
    r.append("-");
    r.append(zero_pad(c.day as u64, 2).as_str());
    r.append(" ");
    r.append(zero_pad(c.hour as u64, 2).as_str());
    r.append(":");
    r.append(zero_pad(c.minute as u64, 2).as_str());
    r
}

/// Writes an instant, given as whole seconds since the Unix epoch, as
/// `YYYY-MM-DD HH:MM` in UTC; `None` stands for an instant before the epoch.
/// An instant that cannot be converted gives `???`.
pub fn format_system_time(since_epoch: Option<u64>) -> (r: String)
    ensures
        r@ == timestamp_text(since_epoch),
        r@ == unknown_time() || is_date_time_shape(r@),
        match since_epoch {
            Some(s) => s <= LAST_TIMESTAMP ==> {
                let (y, mo, d) = utc_date(s as i64);
                &&& 1970 <= y <= 9999
                &&& 1 <= mo <= 12
                &&& 1 <= d <= 31
            },
            None => true,
        },
{
    proof {
        reveal_strlit("???");
    }
    match since_epoch {
        Some(s) => {
            if s <= LAST_TIMESTAMP as u64 {
                match utc_civil(s as i64) {
                    Some(c) => {
                        proof {
                            lemma_date_time_shape(
                                c.year as int,
                                c.month as nat,
                                c.day as nat,
                                c.hour as nat,
                                c.minute as nat,
                            );
                        }
                        format_date_time(&c)
                    },
                    None => String::from_str("???"),
                }
            } else {
                String::from_str("???")
            }
        },
        None => String::from_str("???"),
    }
}

} // verus!
