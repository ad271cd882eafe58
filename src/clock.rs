//! Local wall-clock time, written out as the template names show it.
use crate::json::{Value, decimal, number_text, push_decimal};
use crate::template::Clock;
use crate::text::string_of;
use chrono::{Datelike, Timelike};
use vstd::prelude::*;

verus! {

/// A local date and time as plain numbers.
pub struct LocalTime {
    pub year: i32,
    /// 1 to 12.
    pub month: u32,
    /// 1 to 31.
    pub day: u32,
    /// ISO weekday: Monday is 1, Sunday 7.
    pub weekday: u32,
    pub hour: u32,
    pub minute: u32,
    pub second: u32,
    /// Seconds since the Unix epoch.
    pub timestamp: i64,
}

impl LocalTime {
    /// The fields lie in their calendar ranges.
    pub open spec fn wf(&self) -> bool {
        &&& 1 <= self.month <= 12
        &&& 1 <= self.day <= 31
        &&& 1 <= self.weekday <= 7
        &&& self.hour < 24
        &&& self.minute < 60
        &&& self.second < 60
    }
}

/// The proleptic Gregorian date `days` days after `year`-`month`-`day`, as year, month and
/// day; nothing where the result is outside the dates chrono represents.
pub uninterp spec fn shifted_date(year: int, month: int, day: int, days: int) -> Option<(int, int, int)>;

/// Relies on `chrono::Local::now` and its `Datelike`/`Timelike` fields: the local time now,
/// each field in its documented range (`second` below 60; a leap second shows in the
/// nanoseconds only).
#[verifier::external_body]
fn local_now() -> (r: LocalTime)
    ensures
        r.wf(),
{
    let now = chrono::Local::now();
    LocalTime {
        year: now.year(),
        month: now.month(),
        day: now.day(),
        weekday: now.weekday().number_from_monday(),
        hour: now.hour(),
        minute: now.minute(),
        second: now.second(),
        timestamp: now.timestamp(),
    }
}

/// Relies on `chrono::NaiveDate::from_ymd_opt`, `TimeDelta::try_days` and
/// `NaiveDate::checked_add_signed`: the date `days` days after the given one, when both are
/// dates chrono represents.
#[verifier::external_body]
fn shift_date(year: i32, month: u32, day: u32, days: i64) -> (r: Option<(i32, u32, u32)>)
    ensures
        match r {
            Some(x) => shifted_date(year as int, month as int, day as int, days as int) == Some(
                (x.0 as int, x.1 as int, x.2 as int),
            ),
            None => shifted_date(year as int, month as int, day as int, days as int) is None,
        },
{
    let date = match chrono::NaiveDate::from_ymd_opt(year, month, day) {
        Some(d) => d,
        None => return None,
    };
    let delta = match chrono::TimeDelta::try_days(days) {
        Some(t) => t,
        None => return None,
    };
    match date.checked_add_signed(delta) {
        Some(e) => Some((e.year(), e.month(), e.day())),
        None => None,
    }
}

/// Decimal digits of `n`, with zeros in front up to `width` characters.
pub open spec fn padded(n: nat, width: nat) -> Seq<char> {
    let d = decimal(n);
    if d.len() < width {
        Seq::new((width - d.len()) as nat, |i: int| '0') + d
    } else {
        d
    }
}

/// A year as `%Y` writes it: four digits from 0 to 9999, else a sign and at least four digits.
pub open spec fn year_text(y: int) -> Seq<char> {
    if 0 <= y <= 9999 {
        padded(y as nat, 4)
    } else if y > 9999 {
        seq!['+'] + padded(y as nat, 4)
    } else {
        seq!['-'] + padded((-y) as nat, 4)
    }
}

/// A date as `%Y-%m-%d` writes it.
pub open spec fn date_text(y: int, m: int, d: int) -> Seq<char> {
    year_text(y) + seq!['-'] + padded(m as nat, 2) + seq!['-'] + padded(d as nat, 2)
}

/// The text of a shifted date, empty where the date cannot be represented.
pub open spec fn shifted_text(t: LocalTime, days: int) -> Seq<char> {
    match shifted_date(t.year as int, t.month as int, t.day as int, days) {
        Some(x) => date_text(x.0, x.1, x.2),
        None => Seq::empty(),
    }
}

/// `c` writes out the local time `t`: the week runs from Monday to Sunday.
pub open spec fn shows(c: Clock, t: LocalTime) -> bool {
    &&& c.date@ == date_text(t.year as int, t.month as int, t.day as int)
    &&& c.year@ == year_text(t.year as int)
    &&& c.month@ == padded(t.month as nat, 2)
    &&& c.day@ == padded(t.day as nat, 2)
    &&& c.weekday@ == decimal(t.weekday as nat)
    &&& c.weekstart@ == shifted_text(t, 1 - t.weekday)
    &&& c.weekend@ == shifted_text(t, 7 - t.weekday)
    &&& c.time@ == padded(t.hour as nat, 2) + seq!['-'] + padded(t.minute as nat, 2) + seq!['-']
        + padded(t.second as nat, 2)
    &&& c.hour@ == padded(t.hour as nat, 2)
    &&& c.minute@ == padded(t.minute as nat, 2)
    &&& c.second@ == padded(t.second as nat, 2)
    &&& c.timestamp@ == number_text(t.timestamp as int)
}

fn push_padded(out: &mut Vec<char>, n: u64, width: usize)
    ensures
        final(out)@ == old(out)@ + padded(n as nat, width as nat),
{
    let mut d: Vec<char> = Vec::new();
    push_decimal(&mut d, n);
    assert(d@ =~= decimal(n as nat));
    let ghost start = out@;
    let mut k: usize = d.len();
    while k < width
        invariant
            d@ == decimal(n as nat),
            d@.len() <= k <= width || (k == d@.len() && k >= width),
            out@ == start + Seq::new((k - d@.len()) as nat, |i: int| '0'),
        decreases width - k,
    {
        out.push('0');
        k = k + 1;
        assert(out@ =~= start + Seq::new((k - d@.len()) as nat, |i: int| '0'));
    }
    let ghost zeros = out@;
    let mut i: usize = 0;
    while i < d.len()
        invariant
            i <= d@.len(),
            out@ == zeros + d@.take(i as int),
        decreases d@.len() - i,
    {
        out.push(d[i]);
        i = i + 1;
        assert(out@ =~= zeros + d@.take(i as int));
    }
    assert(d@.take(i as int) =~= d@);
    if d.len() >= width {
        assert(Seq::new((k - d@.len()) as nat, |i: int| '0') =~= Seq::<char>::empty());
        assert(out@ =~= start + padded(n as nat, width as nat));
    } else {
        assert(out@ =~= start + padded(n as nat, width as nat));
    }
}

fn push_year(out: &mut Vec<char>, y: i32)
    ensures
        final(out)@ == old(out)@ + year_text(y as int),
{
    let ghost start = out@;
    if 0 <= y && y <= 9999 {
        push_padded(out, y as u64, 4);
    } else if y > 9999 {
        out.push('+');
        push_padded(out, y as u64, 4);
    } else {
        out.push('-');
        push_padded(out, (0i64 - y as i64) as u64, 4);
    }
    assert(out@ =~= start + year_text(y as int));
}

fn push_date(out: &mut Vec<char>, y: i32, m: u32, d: u32)
    ensures
        final(out)@ == old(out)@ + date_text(y as int, m as int, d as int),
{
    let ghost start = out@;
    push_year(out, y);
    out.push('-');
    push_padded(out, m as u64, 2);
    out.push('-');
    push_padded(out, d as u64, 2);
    assert(out@ =~= start + date_text(y as int, m as int, d as int));
}

fn padded_string(n: u64, width: usize) -> (r: String)
    ensures
        r@ == padded(n as nat, width as nat),
{
    let mut out: Vec<char> = Vec::new();
    push_padded(&mut out, n, width);
    assert(out@ =~= padded(n as nat, width as nat));
    string_of(&out)
}

fn shifted_string(t: &LocalTime, days: i64) -> (r: String)
    ensures
        r@ == shifted_text(*t, days as int),
{
    let mut out: Vec<char> = Vec::new();
    match shift_date(t.year, t.month, t.day, days) {
        Some((y, m, d)) => push_date(&mut out, y, m, d),
        None => {},
    }
    assert(out@ =~= shifted_text(*t, days as int));
    string_of(&out)
}

impl Clock {
    /// Writes out the local time `t`.
    pub fn at(t: &LocalTime) -> (r: Clock)
        requires
            t.wf(),
        ensures
            shows(r, *t),
    {
        let mut date: Vec<char> = Vec::new();
        push_date(&mut date, t.year, t.month, t.day);
        assert(date@ =~= date_text(t.year as int, t.month as int, t.day as int));
        let mut year: Vec<char> = Vec::new();
        push_year(&mut year, t.year);
        assert(year@ =~= year_text(t.year as int));
        let mut time: Vec<char> = Vec::new();
        push_padded(&mut time, t.hour as u64, 2);
        time.push('-');
        push_padded(&mut time, t.minute as u64, 2);
        time.push('-');
        push_padded(&mut time, t.second as u64, 2);
        assert(time@ =~= padded(t.hour as nat, 2) + seq!['-'] + padded(t.minute as nat, 2) + seq!['-']
            + padded(t.second as nat, 2));
        let stamp = Value::Number(t.timestamp).to_json_string();
        let weekday = Value::Number(t.weekday as i64).to_json_string();
        Clock {
            date: string_of(&date),
            year: string_of(&year),
            month: padded_string(t.month as u64, 2),
            day: padded_string(t.day as u64, 2),
            weekday,
            weekstart: shifted_string(t, 1 - t.weekday as i64),
            weekend: shifted_string(t, 7 - t.weekday as i64),
            time: string_of(&time),
            hour: padded_string(t.hour as u64, 2),
            minute: padded_string(t.minute as u64, 2),
            second: padded_string(t.second as u64, 2),
            timestamp: stamp,
        }
    }

    /// The local time now, written out.
    pub fn now() -> (r: Clock)
        ensures
            exists|t: LocalTime| t.wf() && #[trigger] shows(r, t),
    {
        let t = local_now();
        Clock::at(&t)
    }
}

} // verus!
