//! Calendar months: numbering, display names, and parsing of the textual
//! forms an invocation or a stored row may give (full name, three-letter
//! abbreviation, or calendar number).

use vstd::prelude::*;

verus! {

#[derive(Clone, Copy, Debug, PartialEq, Eq, Structural)]
pub enum Month {
    January,
    February,
    March,
    April,
    May,
    June,
    July,
    August,
    September,
    October,
    November,
    December,
}

impl Month {
    /// The calendar number of the month, 1 through 12.
    pub open spec fn num(self) -> int {
        match self {
            Month::January => 1,
            Month::February => 2,
            Month::March => 3,
            Month::April => 4,
            Month::May => 5,
            Month::June => 6,
            Month::July => 7,
            Month::August => 8,
            Month::September => 9,
            Month::October => 10,
            Month::November => 11,
            Month::December => 12,
        }
    }

    /// The display name of the month, as stored in a row and printed in a
    /// summary heading.
    pub open spec fn name_spec(self) -> Seq<char> {
        match self {
            Month::January => seq!['J', 'a', 'n', 'u', 'a', 'r', 'y'],
            Month::February => seq!['F', 'e', 'b', 'r', 'u', 'a', 'r', 'y'],
            Month::March => seq!['M', 'a', 'r', 'c', 'h'],
            Month::April => seq!['A', 'p', 'r', 'i', 'l'],
            Month::May => seq!['M', 'a', 'y'],
            Month::June => seq!['J', 'u', 'n', 'e'],
            Month::July => seq!['J', 'u', 'l', 'y'],
            Month::August => seq!['A', 'u', 'g', 'u', 's', 't'],
            Month::September => seq!['S', 'e', 'p', 't', 'e', 'm', 'b', 'e', 'r'],
            Month::October => seq!['O', 'c', 't', 'o', 'b', 'e', 'r'],
            Month::November => seq!['N', 'o', 'v', 'e', 'm', 'b', 'e', 'r'],
            Month::December => seq!['D', 'e', 'c', 'e', 'm', 'b', 'e', 'r'],
        }
    }

    /// The three-letter abbreviation of the month.
    pub open spec fn abbr_spec(self) -> Seq<char> {
        self.name_spec().take(3)
    }

    pub fn number(&self) -> (n: u8)
        ensures
            n as int == self.num(),
    {
        match self {
            Month::January => 1,
            Month::February => 2,
            Month::March => 3,
            Month::April => 4,
            Month::May => 5,
            Month::June => 6,
            Month::July => 7,
            Month::August => 8,
            Month::September => 9,
            Month::October => 10,
            Month::November => 11,
            Month::December => 12,
        }
    }

    pub fn from_number(n: u8) -> (r: Option<Month>)
        ensures
            1 <= n <= 12 ==> (r matches Some(m) && m.num() == n as int),
            !(1 <= n <= 12) ==> r is None,
    {
        match n {
            1 => Some(Month::January),
            2 => Some(Month::February),
            3 => Some(Month::March),
            4 => Some(Month::April),
            5 => Some(Month::May),
            6 => Some(Month::June),
            7 => Some(Month::July),
            8 => Some(Month::August),
            9 => Some(Month::September),
            10 => Some(Month::October),
            11 => Some(Month::November),
            12 => Some(Month::December),
            _ => None,
        }
    }

    /// The display name of the month.
    pub fn name(&self) -> (r: Vec<char>)
        ensures
            r@ == self.name_spec(),
    {
        let r = match self {
            Month::January => crate::text::text("January"),
            Month::February => crate::text::text("February"),
            Month::March => crate::text::text("March"),
            Month::April => crate::text::text("April"),
            Month::May => crate::text::text("May"),
            Month::June => crate::text::text("June"),
            Month::July => crate::text::text("July"),
            Month::August => crate::text::text("August"),
            Month::September => crate::text::text("September"),
            Month::October => crate::text::text("October"),
            Month::November => crate::text::text("November"),
            Month::December => crate::text::text("December"),
        };
        proof {
            reveal_strlit("January");
            reveal_strlit("February");
            reveal_strlit("March");
            reveal_strlit("April");
            reveal_strlit("May");
            reveal_strlit("June");
            reveal_strlit("July");
            reveal_strlit("August");
            reveal_strlit("September");
            reveal_strlit("October");
            reveal_strlit("November");
            reveal_strlit("December");
            assert(r@ =~= self.name_spec());
        }
        r
    }
}

/// What `parse_month` recognises as naming a month: its display name, its
/// three-letter abbreviation, or its calendar number in decimal.
pub open spec fn month_text_matches(m: Month, s: Seq<char>) -> bool {
    ||| s == m.name_spec()
    ||| s == m.abbr_spec()
    ||| crate::num::parse_int_spec(s) == Some(m.num())
}


/// The first month whose display name, abbreviation or calendar number
/// the text matches. The forms are mutually exclusive, so at most one
/// month matches any text.
pub open spec fn month_from_text(s: Seq<char>) -> Option<Month> {
    if month_text_matches(Month::January, s) {
        Some(Month::January)
    } else if month_text_matches(Month::February, s) {
        Some(Month::February)
    } else if month_text_matches(Month::March, s) {
        Some(Month::March)
    } else if month_text_matches(Month::April, s) {
        Some(Month::April)
    } else if month_text_matches(Month::May, s) {
        Some(Month::May)
    } else if month_text_matches(Month::June, s) {
        Some(Month::June)
    } else if month_text_matches(Month::July, s) {
        Some(Month::July)
    } else if month_text_matches(Month::August, s) {
        Some(Month::August)
    } else if month_text_matches(Month::September, s) {
        Some(Month::September)
    } else if month_text_matches(Month::October, s) {
        Some(Month::October)
    } else if month_text_matches(Month::November, s) {
        Some(Month::November)
    } else if month_text_matches(Month::December, s) {
        Some(Month::December)
    } else {
        None
    }
}

proof fn lemma_text_not_numeric(s: Seq<char>)
    requires
        s.len() > 0,
        !crate::num::is_digit(s[0]),
        s[0] != '-',
    ensures
        crate::num::parse_int_spec(s) is None,
{
}

/// A month's name and abbreviation are not numeric.
pub proof fn lemma_name_not_numeric(m: Month)
    ensures
        crate::num::parse_int_spec(m.name_spec()) is None,
        crate::num::parse_int_spec(m.abbr_spec()) is None,
{
    match m {
        Month::January => {
            lemma_text_not_numeric(Month::January.name_spec());
            lemma_text_not_numeric(Month::January.abbr_spec());
        },
        Month::February => {
            lemma_text_not_numeric(Month::February.name_spec());
            lemma_text_not_numeric(Month::February.abbr_spec());
        },
        Month::March => {
            lemma_text_not_numeric(Month::March.name_spec());
            lemma_text_not_numeric(Month::March.abbr_spec());
        },
        Month::April => {
            lemma_text_not_numeric(Month::April.name_spec());
            lemma_text_not_numeric(Month::April.abbr_spec());
        },
        Month::May => {
            lemma_text_not_numeric(Month::May.name_spec());
            lemma_text_not_numeric(Month::May.abbr_spec());
        },
        Month::June => {
            lemma_text_not_numeric(Month::June.name_spec());
            lemma_text_not_numeric(Month::June.abbr_spec());
        },
        Month::July => {
            lemma_text_not_numeric(Month::July.name_spec());
            lemma_text_not_numeric(Month::July.abbr_spec());
        },
        Month::August => {
            lemma_text_not_numeric(Month::August.name_spec());
            lemma_text_not_numeric(Month::August.abbr_spec());
        },
        Month::September => {
            lemma_text_not_numeric(Month::September.name_spec());
            lemma_text_not_numeric(Month::September.abbr_spec());
        },
        Month::October => {
            lemma_text_not_numeric(Month::October.name_spec());
            lemma_text_not_numeric(Month::October.abbr_spec());
        },
        Month::November => {
            lemma_text_not_numeric(Month::November.name_spec());
            lemma_text_not_numeric(Month::November.abbr_spec());
        },
        Month::December => {
            lemma_text_not_numeric(Month::December.name_spec());
            lemma_text_not_numeric(Month::December.abbr_spec());
        },
    }
}

/// A month's display name names that month and no other.
pub proof fn lemma_month_from_name(m: Month)
    ensures
        month_from_text(m.name_spec()) == Some(m),
{
    lemma_name_not_numeric(Month::January);
    lemma_name_not_numeric(Month::February);
    lemma_name_not_numeric(Month::March);
    lemma_name_not_numeric(Month::April);
    lemma_name_not_numeric(Month::May);
    lemma_name_not_numeric(Month::June);
    lemma_name_not_numeric(Month::July);
    lemma_name_not_numeric(Month::August);
    lemma_name_not_numeric(Month::September);
    lemma_name_not_numeric(Month::October);
    lemma_name_not_numeric(Month::November);
    lemma_name_not_numeric(Month::December);
    match m {
        Month::January => {
            assert(month_from_text(Month::January.name_spec()) == Some(Month::January));
        },
        Month::February => {
            assert(month_from_text(Month::February.name_spec()) == Some(Month::February));
        },
        Month::March => {
            assert(month_from_text(Month::March.name_spec()) == Some(Month::March));
        },
        Month::April => {
            assert(month_from_text(Month::April.name_spec()) == Some(Month::April));
        },
        Month::May => {
            assert(month_from_text(Month::May.name_spec()) == Some(Month::May));
        },
        Month::June => {
            assert(month_from_text(Month::June.name_spec()) == Some(Month::June));
        },
        Month::July => {
            assert(month_from_text(Month::July.name_spec()) == Some(Month::July));
        },
        Month::August => {
            assert(month_from_text(Month::August.name_spec()) == Some(Month::August));
        },
        Month::September => {
            assert(month_from_text(Month::September.name_spec()) == Some(Month::September));
        },
        Month::October => {
            assert(month_from_text(Month::October.name_spec()) == Some(Month::October));
        },
        Month::November => {
            assert(month_from_text(Month::November.name_spec()) == Some(Month::November));
        },
        Month::December => {
            assert(month_from_text(Month::December.name_spec()) == Some(Month::December));
        },
    }
}

/// Parses the text of a month.
pub fn parse_month(s: &Vec<char>) -> (r: Option<Month>)
    ensures
        r == month_from_text(s@),
{
    proof {
        reveal_strlit("January");
        reveal_strlit("Jan");
        reveal_strlit("February");
        reveal_strlit("Feb");
        reveal_strlit("March");
        reveal_strlit("Mar");
        reveal_strlit("April");
        reveal_strlit("Apr");
        reveal_strlit("May");
        reveal_strlit("June");
        reveal_strlit("Jun");
        reveal_strlit("July");
        reveal_strlit("Jul");
        reveal_strlit("August");
        reveal_strlit("Aug");
        reveal_strlit("September");
        reveal_strlit("Sep");
        reveal_strlit("October");
        reveal_strlit("Oct");
        reveal_strlit("November");
        reveal_strlit("Nov");
        reveal_strlit("December");
        reveal_strlit("Dec");
        assert("January"@ =~= Month::January.name_spec());
        assert("Jan"@ =~= Month::January.abbr_spec());
        assert("February"@ =~= Month::February.name_spec());
        assert("Feb"@ =~= Month::February.abbr_spec());
        assert("March"@ =~= Month::March.name_spec());
        assert("Mar"@ =~= Month::March.abbr_spec());
        assert("April"@ =~= Month::April.name_spec());
        assert("Apr"@ =~= Month::April.abbr_spec());
        assert("May"@ =~= Month::May.name_spec());
        assert("May"@ =~= Month::May.abbr_spec());
        assert("June"@ =~= Month::June.name_spec());
        assert("Jun"@ =~= Month::June.abbr_spec());
        assert("July"@ =~= Month::July.name_spec());
        assert("Jul"@ =~= Month::July.abbr_spec());
        assert("August"@ =~= Month::August.name_spec());
        assert("Aug"@ =~= Month::August.abbr_spec());
        assert("September"@ =~= Month::September.name_spec());
        assert("Sep"@ =~= Month::September.abbr_spec());
        assert("October"@ =~= Month::October.name_spec());
        assert("Oct"@ =~= Month::October.abbr_spec());
        assert("November"@ =~= Month::November.name_spec());
        assert("Nov"@ =~= Month::November.abbr_spec());
        assert("December"@ =~= Month::December.name_spec());
        assert("Dec"@ =~= Month::December.abbr_spec());
    }
    if crate::text::match_text(s, "January") || crate::text::match_text(s, "Jan") {
        proof {
            lemma_name_not_numeric(Month::January);
            assert(month_from_text(s@) == Some(Month::January));
        }
        Some(Month::January)
    } else if crate::text::match_text(s, "February") || crate::text::match_text(s, "Feb") {
        proof {
            lemma_name_not_numeric(Month::February);
            assert(month_from_text(s@) == Some(Month::February));
        }
        Some(Month::February)
    } else if crate::text::match_text(s, "March") || crate::text::match_text(s, "Mar") {
        proof {
            lemma_name_not_numeric(Month::March);
            assert(month_from_text(s@) == Some(Month::March));
        }
        Some(Month::March)
    } else if crate::text::match_text(s, "April") || crate::text::match_text(s, "Apr") {
        proof {
            lemma_name_not_numeric(Month::April);
            assert(month_from_text(s@) == Some(Month::April));
        }
        Some(Month::April)
    } else if crate::text::match_text(s, "May") {
        proof {
            lemma_name_not_numeric(Month::May);
            assert(month_from_text(s@) == Some(Month::May));
        }
        Some(Month::May)
    } else if crate::text::match_text(s, "June") || crate::text::match_text(s, "Jun") {
        proof {
            lemma_name_not_numeric(Month::June);
            assert(month_from_text(s@) == Some(Month::June));
        }
        Some(Month::June)
    } else if crate::text::match_text(s, "July") || crate::text::match_text(s, "Jul") {
        proof {
            lemma_name_not_numeric(Month::July);
            assert(month_from_text(s@) == Some(Month::July));
        }
        Some(Month::July)
    } else if crate::text::match_text(s, "August") || crate::text::match_text(s, "Aug") {
        proof {
            lemma_name_not_numeric(Month::August);
            assert(month_from_text(s@) == Some(Month::August));
        }
        Some(Month::August)
    } else if crate::text::match_text(s, "September") || crate::text::match_text(s, "Sep") {
        proof {
            lemma_name_not_numeric(Month::September);
            assert(month_from_text(s@) == Some(Month::September));
        }
        Some(Month::September)
    } else if crate::text::match_text(s, "October") || crate::text::match_text(s, "Oct") {
        proof {
            lemma_name_not_numeric(Month::October);
            assert(month_from_text(s@) == Some(Month::October));
        }
        Some(Month::October)
    } else if crate::text::match_text(s, "November") || crate::text::match_text(s, "Nov") {
        proof {
            lemma_name_not_numeric(Month::November);
            assert(month_from_text(s@) == Some(Month::November));
        }
        Some(Month::November)
    } else if crate::text::match_text(s, "December") || crate::text::match_text(s, "Dec") {
        proof {
            lemma_name_not_numeric(Month::December);
            assert(month_from_text(s@) == Some(Month::December));
        }
        Some(Month::December)
    } else {
        let r = match crate::num::parse_i64(s) {
            Some(v) => {
                if 1 <= v && v <= 12 {
                    Month::from_number(v as u8)
                } else {
                    None
                }
            },
            None => None,
        };
        proof {
            assert(r == month_from_text(s@));
        }
        r
    }
}

} // verus!
