//! The date axis: one tick where the month changes.

use vstd::prelude::*;
use vstd::string::*;
use chrono::Datelike;
use crate::data::{CollectedData, Commit};
use crate::layout::NetworkLayout;

verus! {

/// A tick of the date axis, at the first commit of a month.
#[derive(Clone, Debug)]
pub struct DateTick {
    pub x: i128,
    pub year: i32,
    pub month: u32,
    /// The year, a slash, and the month in two digits.
    pub label: String,
}

/// Year and month (1 to 12) of the UTC calendar day that holds the instant
/// `secs` seconds after 1970-01-01T00:00:00Z; None for an instant outside
/// the years that the calendar covers.
pub uninterp spec fn utc_month(secs: i64) -> Option<(i32, u32)>;

/// `chrono::DateTime::from_timestamp` with no nanoseconds, then `year` and
/// `month` of `chrono::Datelike` on what it returns: the result is a
/// function of `secs` alone, and None exactly where `from_timestamp`
/// returns None.
#[verifier::external_body]
fn month_of(secs: i64) -> (month: Option<(i32, u32)>)
    ensures
        month == utc_month(secs),
{
    match chrono::DateTime::from_timestamp(secs, 0) {
        Some(t) => Some((t.year(), t.month())),
        None => None,
    }
}

pub open spec fn digit_char(d: nat) -> char {
    if d == 0 {
        '0'
    } else if d == 1 {
        '1'
    } else if d == 2 {
        '2'
    } else if d == 3 {
        '3'
    } else if d == 4 {
        '4'
    } else if d == 5 {
        '5'
    } else if d == 6 {
        '6'
    } else if d == 7 {
        '7'
    } else if d == 8 {
        '8'
    } else {
        '9'
    }
}

/// `n` in decimal digits, without leading zeros.
pub open spec fn decimal(n: nat) -> Seq<char>
    decreases n,
{
    if n < 10 {
        seq![digit_char(n)]
    } else {
        decimal(n / 10).push(digit_char(n % 10))
    }
}

/// The label of a month: the year, with a minus sign where it is negative,
/// a slash, and the month in at least two digits.
pub open spec fn label_text(year: i32, month: u32) -> Seq<char> {
    let sign = if year < 0 {
        seq!['-']
    } else {
        Seq::<char>::empty()
    };
    let pad = if month < 10 {
        seq!['0']
    } else {
        Seq::<char>::empty()
    };
    sign + decimal(
        (if year < 0 {
            -year
        } else {
            year as int
        }) as nat,
    ) + seq!['/'] + pad + decimal(month as nat)
}

fn digit_str(d: u64) -> (s: &'static str)
    requires
        d < 10,
    ensures
        s@ == seq![digit_char(d as nat)],
{
    proof {
        reveal_strlit("0");
        reveal_strlit("1");
        reveal_strlit("2");
        reveal_strlit("3");
        reveal_strlit("4");
        reveal_strlit("5");
        reveal_strlit("6");
        reveal_strlit("7");
        reveal_strlit("8");
        reveal_strlit("9");
    }
    let s = if d == 0 {
        "0"
    } else if d == 1 {
        "1"
    } else if d == 2 {
        "2"
    } else if d == 3 {
        "3"
    } else if d == 4 {
        "4"
    } else if d == 5 {
        "5"
    } else if d == 6 {
        "6"
    } else if d == 7 {
        "7"
    } else if d == 8 {
        "8"
    } else {
        "9"
    };
    assert(s@ =~= seq![digit_char(d as nat)]);
    s
}

fn append_decimal(text: &mut String, n: u64)
    ensures
        final(text)@ == old(text)@ + decimal(n as nat),
    decreases n,
{
    if n >= 10 {
        append_decimal(text, n / 10);
    }
    text.append(digit_str(n % 10));
    proof {
        if n >= 10 {
            assert(old(text)@ + decimal((n / 10) as nat) + seq![digit_char((n % 10) as nat)]
                =~= old(text)@ + decimal((n / 10) as nat).push(digit_char((n % 10) as nat)));
        }
    }
}

/// The label of the month `month` of the year `year`.
pub fn month_label(year: i32, month: u32) -> (label: String)
    ensures
        label@ == label_text(year, month),
{
    let mut label = String::new();
    proof {
        reveal_strlit("-");
        reveal_strlit("/");
        reveal_strlit("0");
    }
    let size: u64 = if year < 0 {
        label.append("-");
        (-(year as i64)) as u64
    } else {
        year as u64
    };
    append_decimal(&mut label, size);
    label.append("/");
    if month < 10 {
        label.append("0");
    }
    append_decimal(&mut label, month as u64);
    proof {
        assert(label@ =~= label_text(year, month));
    }
    label
}

/// Whether commit `i` is the first of a run of commits of one month: it
/// has a month, and the commit before it, if there is one, has another or
/// none.
pub open spec fn starts_month(months: Seq<Option<(i32, u32)>>, i: int) -> bool {
    months[i] is Some && (i == 0 || months[i - 1] != months[i])
}

/// The commits among the first `upto` that start a month.
pub open spec fn month_starts(months: Seq<Option<(i32, u32)>>, upto: nat) -> Seq<int>
    decreases upto,
{
    if upto == 0 {
        Seq::empty()
    } else {
        let rest = month_starts(months, (upto - 1) as nat);
        if starts_month(months, upto - 1) {
            rest.push(upto - 1)
        } else {
            rest
        }
    }
}

/// The months of the commits, in their order.
pub open spec fn months_of(commits: Seq<Commit>) -> Seq<Option<(i32, u32)>> {
    Seq::new(commits.len(), |i: int| utc_month(commits[i].timestamp))
}

impl NetworkLayout {
    /// `tick` stands at commit `i` and shows its month.
    pub open spec fn ticks_month(
        &self,
        months: Seq<Option<(i32, u32)>>,
        i: int,
        tick: DateTick,
    ) -> bool {
        &&& 0 <= i < months.len()
        &&& months[i] == Some((tick.year, tick.month))
        &&& tick.x == self.x_at(i as nat, months.len())
        &&& tick.label@ == label_text(tick.year, tick.month)
    }

    /// The ticks for commits with the given months: one at every commit
    /// that starts a month, at the x of that commit.
    pub fn date_ticks(&self, months: &Vec<Option<(i32, u32)>>) -> (ticks: Vec<DateTick>)
        requires
            self.wf(),
        ensures
            ticks@.len() == month_starts(months@, months@.len()).len(),
            forall|w: int|
                0 <= w < ticks@.len() ==> self.ticks_month(
                    months@,
                    month_starts(months@, months@.len())[w],
                    #[trigger] ticks@[w],
                ),
    {
        let total: usize = months.len();
        let mut ticks: Vec<DateTick> = Vec::new();
        let mut i: usize = 0;
        while i < total
            invariant
                i <= total,
                total == months@.len(),
                self.wf(),
                ticks@.len() == month_starts(months@, i as nat).len(),
                forall|w: int|
                    0 <= w < ticks@.len() ==> self.ticks_month(
                        months@,
                        month_starts(months@, i as nat)[w],
                        #[trigger] ticks@[w],
                    ),
            decreases total - i,
        {
            let ghost before = month_starts(months@, i as nat);
            let ghost old_ticks = ticks@;
            match months[i] {
                Some((year, month)) => {
                    let starts = if i == 0 {
                        true
                    } else {
                        match months[i - 1] {
                            Some((y, m)) => y != year || m != month,
                            None => true,
                        }
                    };
                    if starts {
                        ticks.push(
                            DateTick {
                                x: self.commit_to_x(i, total),
                                year,
                                month,
                                label: month_label(year, month),
                            },
                        );
                    }
                },
                None => {},
            }
            proof {
                let after = month_starts(months@, (i + 1) as nat);
                assert forall|w: int| 0 <= w < ticks@.len() implies self.ticks_month(
                    months@,
                    after[w],
                    #[trigger] ticks@[w],
                ) by {
                    if w < old_ticks.len() {
                        assert(ticks@[w] == old_ticks[w]);
                        assert(after[w] == before[w]);
                    }
                }
            }
            i += 1;
        }
        ticks
    }

    /// The ticks of the date axis of `data`: one at the first commit and one
    /// at every commit whose month differs from that of the commit before it.
    pub fn compute_date_ticks(&self, data: &CollectedData) -> (ticks: Vec<DateTick>)
        requires
            self.wf(),
        ensures
            ticks@.len() == month_starts(months_of(data.commits@), data.commits@.len()).len(),
            forall|w: int|
                0 <= w < ticks@.len() ==> self.ticks_month(
                    months_of(data.commits@),
                    month_starts(months_of(data.commits@), data.commits@.len())[w],
                    #[trigger] ticks@[w],
                ),
    {
        let mut months: Vec<Option<(i32, u32)>> = Vec::new();
        let mut i: usize = 0;
        while i < data.commits.len()
            invariant
                i <= data.commits@.len(),
                months@.len() == i,
                forall|j: int| 0 <= j < i ==> months@[j] == utc_month(data.commits@[j].timestamp),
            decreases data.commits@.len() - i,
        {
            months.push(month_of(data.commits[i].timestamp));
            i += 1;
        }
        assert(months@ =~= months_of(data.commits@));
        self.date_ticks(&months)
    }
}

} // verus!
