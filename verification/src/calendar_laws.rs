//! How days are counted.

use vstd::prelude::*;

use crate::dates;

verus! {

/// The lengths of the months. February has a day more in years that four divides, but for those that
/// a hundred divides and four hundred does not.
pub proof fn law_month_lengths(y: int, m: int)
    ensures
        m == 1 || m == 3 || m == 5 || m == 7 || m == 8 || m == 10 || m == 12
            ==> dates::days_in_month(y, m) == 31,
        m == 4 || m == 6 || m == 9 || m == 11 ==> dates::days_in_month(y, m) == 30,
        y % 4 != 0 || (y % 100 == 0 && y % 400 != 0) ==> dates::days_in_month(y, 2) == 28,
        y % 4 == 0 && (y % 100 != 0 || y % 400 == 0) ==> dates::days_in_month(y, 2) == 29,
{
}

/// Days are counted from the first of January 1970, one after the other, over the ends of months and
/// of years.
pub proof fn law_days_follow(y: int, m: int, d: int)
    requires
        0 <= y,
        1 <= m <= 12,
        1 <= d <= dates::days_in_month(y, m),
    ensures
        dates::day_number(1970, 1, 1) == 0,
        d < dates::days_in_month(y, m) ==> dates::day_number(y, m, d + 1) == dates::day_number(
            y,
            m,
            d,
        ) + 1,
        d == dates::days_in_month(y, m) && m < 12 ==> dates::day_number(y, m + 1, 1)
            == dates::day_number(y, m, d) + 1,
        d == dates::days_in_month(y, m) && m == 12 ==> dates::day_number(y + 1, 1, 1)
            == dates::day_number(y, m, d) + 1,
{
    reveal_with_fuel(dates::days_before_month, 13);
    lemma_year(y);
}

proof fn lemma_year(y: int)
    requires
        0 <= y,
    ensures
        (y + 4) / 4 - (y + 3) / 4 == if y % 4 == 0 {
            1int
        } else {
            0int
        },
        (y + 100) / 100 - (y + 99) / 100 == if y % 100 == 0 {
            1int
        } else {
            0int
        },
        (y + 400) / 400 - (y + 399) / 400 == if y % 400 == 0 {
            1int
        } else {
            0int
        },
        y % 400 == 0 ==> y % 100 == 0,
        y % 100 == 0 ==> y % 4 == 0,
{
}

} // verus!
