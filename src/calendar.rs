use vstd::prelude::*;

verus! {

/// A Gregorian leap year: divisible by 4 but not by 100, or divisible by 400.
pub open spec fn leap(year: int) -> bool {
    let by4: bool = year % 4 == 0;
    let by100: bool = year % 100 == 0;
    let by400: bool = year % 400 == 0;
    (by4 && !by100) || by400
}

/// Whether `year` is a leap year in the Gregorian calendar.
pub fn is_leap_year(year: i32) -> (r: bool)
    ensures
        r == leap(year as int),
{
    let by4: bool = year % 4 == 0;
    let by100: bool = year % 100 == 0;
    let by400: bool = year % 400 == 0;
    (by4 && !by100) || by400
}

} // verus!
