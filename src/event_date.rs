use vstd::prelude::*;

verus! {

/// A day of an event held each December.
#[derive(Clone, Copy, Debug, PartialEq, Eq, Structural, Hash)]
pub struct EventDate {
    pub day: u8,
    pub year: u16,
}

impl EventDate {
    /// The date to work on when none is given, from the calendar date of today: today
    /// itself in December, else the first day of this year's event.
    pub fn for_today(year: u16, month: u8, day: u8) -> (d: EventDate)
        ensures
            d.year == year,
            d.day == if month == 12 {
                day
            } else {
                1
            },
    {
        if month == 12 {
            EventDate { day, year }
        } else {
            EventDate { day: 1, year }
        }
    }

    /// `default` with the day and the year replaced by those given.
    pub fn default_or(default: EventDate, day: Option<u8>, year: Option<u16>) -> (d: EventDate)
        ensures
            d.day == match day {
                Some(x) => x,
                None => default.day,
            },
            d.year == match year {
                Some(y) => y,
                None => default.year,
            },
    {
        let mut date = default;
        if let Some(x) = day {
            date.day = x;
        }
        if let Some(y) = year {
            date.year = y;
        }
        date
    }
}

} // verus!
