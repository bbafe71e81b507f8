use vstd::prelude::*;

use crate::codec::chain_of;
use crate::date::{date_display_of, format_date, Date};
use crate::duration::{format_span, span_str};
use crate::ledger::{DayEntry, TimeLogger};
use crate::time::{TimeOfDay, TimeSpan};

verus! {

/// A closed day whose chain cannot be paired into intervals: aggregation for
/// that day fails, and only that day's row is dropped.
#[derive(Clone, Copy, PartialEq, Eq, Structural, Debug)]
pub enum DayError {
    OddCount,
}

/// The minutes worked in a chain: the sum of `end - start` over consecutive
/// pairs. Meaningful for even-length chains.
pub open spec fn worked_minutes(s: Seq<TimeOfDay>) -> int
    decreases s.len(),
{
    if s.len() < 2 {
        0
    } else {
        (s[1].spec_minutes() - s[0].spec_minutes()) + worked_minutes(s.skip(2))
    }
}

/// Whether a day is counted by aggregation: not today (today is still open),
/// and an even number of times (the chain pairs up).
pub open spec fn counted(e: DayEntry, today: Date) -> bool {
    e.date.key() != today.key() && e.stamps@.len() % 2 == 0
}

/// A counted day's overtime against a workday of `wm` minutes; days that are
/// not counted contribute nothing.
pub open spec fn ot_of(e: DayEntry, today: Date, wm: int) -> int {
    if counted(e, today) {
        worked_minutes(e.stamps@) - wm
    } else {
        0
    }
}

/// The sum of every counted day's overtime, in order.
pub open spec fn total_overtime(entries: Seq<DayEntry>, today: Date, wm: int) -> int
    decreases entries.len(),
{
    if entries.len() == 0 {
        0
    } else {
        ot_of(entries[0], today, wm) + total_overtime(entries.skip(1), today, wm)
    }
}

/// The configured workday as a plain number, zero when absent; with no
/// workday configured no overtime column exists, so the value is unused.
pub open spec fn wm_or_zero(wm: Option<int>) -> int {
    match wm {
        Some(w) => w,
        None => 0,
    }
}

/// One report row: the day's date text, worked time, and chain, and — only
/// with a workday configured — its overtime and the cumulative overtime
/// through this day.
pub open spec fn row_for(date: Date, stamps: Seq<TimeOfDay>, wm: Option<int>, cum: int) -> Seq<
    Seq<char>,
> {
    let base = seq![
        date_display_of(date.year as int, date.month as int, date.day as int),
        span_str(worked_minutes(stamps)),
        chain_of(stamps),
    ];
    match wm {
        Some(w) => base + seq![span_str(worked_minutes(stamps) - w), span_str(cum)],
        None => base,
    }
}

/// Lifts the configured workday to a mathematical value.
pub open spec fn wm_view(w: Option<i64>) -> Option<int> {
    match w {
        Some(x) => Some(x as int),
        None => None,
    }
}

/// The report rows for the entries, one per counted day in order, threading
/// the cumulative overtime `cum` across every counted day.
pub open spec fn rows_from(
    entries: Seq<DayEntry>,
    today: Date,
    wm: Option<int>,
    cum: int,
) -> Seq<Seq<Seq<char>>>
    decreases entries.len(),
{
    if entries.len() == 0 {
        Seq::empty()
    } else {
        let e = entries[0];
        if counted(e, today) {
            let cum2 = cum + worked_minutes(e.stamps@) - wm_or_zero(wm);
            seq![row_for(e.date, e.stamps@, wm, cum2)] + rows_from(entries.skip(1), today, wm, cum2)
        } else {
            rows_from(entries.skip(1), today, wm, cum)
        }
    }
}

/// The report header; the two overtime columns exist only when a workday
/// length is configured.
pub open spec fn header_spec(with_ot: bool) -> Seq<Seq<char>> {
    let base = seq!["Date"@, "Duration"@, "Time stamps"@];
    if with_ot {
        base + seq!["Over time"@, "Aggregated over time"@]
    } else {
        base
    }
}

/// The last `n` rows, in unchanged order.
pub open spec fn window_tail(rows: Seq<Seq<Seq<char>>>, n: int) -> Seq<Seq<Seq<char>>> {
    if rows.len() <= n {
        rows
    } else {
        rows.skip(rows.len() - n)
    }
}

/// A day's worked minutes stay within the machine's range: forced by the
/// i64 arithmetic, not by the calendar.
pub open spec fn fits_day(s: Seq<TimeOfDay>) -> bool {
    720 * s.len() <= i64::MAX
}

/// Every intermediate aggregation value stays within the machine's range:
/// each day's worked minutes, each counted day's overtime, and every prefix
/// of the cumulative overtime.
pub open spec fn fits_aggregation(entries: Seq<DayEntry>, today: Date, wm: Option<int>) -> bool {
    &&& forall|i: int| 0 <= i < entries.len() ==> fits_day((#[trigger] entries[i]).stamps@)
    &&& match wm {
        Some(w) => {
            &&& forall|i: int|
                0 <= i < entries.len() && counted(#[trigger] entries[i], today) ==> i64::MIN
                    <= worked_minutes(entries[i].stamps@) - w <= i64::MAX
            &&& forall|k: int|
                0 <= k <= entries.len() ==> i64::MIN <= total_overtime(
                    #[trigger] entries.take(k),
                    today,
                    w,
                ) <= i64::MAX
        },
        None => true,
    }
}

/// Appending one entry appends its overtime contribution to the total, and —
/// when it is counted — exactly one row, whose cumulative cell carries the
/// whole total so far.
proof fn lemma_agg_push(s: Seq<DayEntry>, e: DayEntry, today: Date, wm: Option<int>, cum: int)
    ensures
        total_overtime(s.push(e), today, wm_or_zero(wm)) == total_overtime(s, today, wm_or_zero(wm))
            + ot_of(e, today, wm_or_zero(wm)),
        rows_from(s.push(e), today, wm, cum) == rows_from(s, today, wm, cum) + (if counted(
            e,
            today,
        ) {
            seq![
                row_for(
                    e.date,
                    e.stamps@,
                    wm,
                    cum + total_overtime(s, today, wm_or_zero(wm)) + ot_of(
                        e,
                        today,
                        wm_or_zero(wm),
                    ),
                ),
            ]
        } else {
            Seq::empty()
        }),
    decreases s.len(),
{
    let w = wm_or_zero(wm);
    if s.len() == 0 {
        assert(s.push(e)[0] == e);
        assert(s.push(e).skip(1) =~= Seq::<DayEntry>::empty());
        assert(s =~= Seq::<DayEntry>::empty());
        assert(total_overtime(Seq::<DayEntry>::empty(), today, w) == 0);
        assert(forall|c: int|
            rows_from(Seq::<DayEntry>::empty(), today, wm, c) == Seq::<Seq<Seq<char>>>::empty());
        if counted(e, today) {
            let cum2 = cum + worked_minutes(e.stamps@) - w;
            assert(rows_from(s.push(e), today, wm, cum) == seq![
                row_for(e.date, e.stamps@, wm, cum2),
            ] + rows_from(s.push(e).skip(1), today, wm, cum2));
            assert(rows_from(s.push(e).skip(1), today, wm, cum2) == Seq::<Seq<Seq<char>>>::empty());
            assert(rows_from(s.push(e), today, wm, cum) =~= rows_from(s, today, wm, cum) + seq![
                row_for(e.date, e.stamps@, wm, cum + 0 + ot_of(e, today, w)),
            ]);
        } else {
            assert(rows_from(s.push(e), today, wm, cum) =~= rows_from(s, today, wm, cum));
        }
    } else {
        assert(s.push(e)[0] == s[0]);
        assert(s.push(e).skip(1) =~= s.skip(1).push(e));
        if counted(s[0], today) {
            let cum2 = cum + worked_minutes(s[0].stamps@) - w;
            lemma_agg_push(s.skip(1), e, today, wm, cum2);
            if counted(e, today) {
                assert(seq![row_for(s[0].date, s[0].stamps@, wm, cum2)] + (rows_from(
                    s.skip(1),
                    today,
                    wm,
                    cum2,
                ) + seq![
                    row_for(
                        e.date,
                        e.stamps@,
                        wm,
                        cum2 + total_overtime(s.skip(1), today, w) + ot_of(e, today, w),
                    ),
                ]) =~= rows_from(s, today, wm, cum) + seq![
                    row_for(
                        e.date,
                        e.stamps@,
                        wm,
                        cum + total_overtime(s, today, w) + ot_of(e, today, w),
                    ),
                ]);
            } else {
                assert(rows_from(s.push(e), today, wm, cum) =~= rows_from(s, today, wm, cum));
            }
        } else {
            lemma_agg_push(s.skip(1), e, today, wm, cum);
            if counted(e, today) {
                assert(rows_from(s.push(e), today, wm, cum) =~= rows_from(s, today, wm, cum)
                    + seq![
                    row_for(
                        e.date,
                        e.stamps@,
                        wm,
                        cum + total_overtime(s, today, w) + ot_of(e, today, w),
                    ),
                ]);
            } else {
                assert(rows_from(s.push(e), today, wm, cum) =~= rows_from(s, today, wm, cum));
            }
        }
    }
}

/// Pairs a chain into intervals and sums their lengths; fails exactly on an
/// odd-length chain, which cannot be paired.
pub fn sum_timestamps(stamps: &Vec<TimeOfDay>) -> (r: Result<TimeSpan, DayError>)
    requires
        forall|i: int| 0 <= i < stamps@.len() ==> #[trigger] stamps@[i].valid(),
        fits_day(stamps@),
    ensures
        match r {
            Ok(t) => stamps@.len() % 2 == 0 && t.minutes == worked_minutes(stamps@),
            Err(_) => stamps@.len() % 2 == 1,
        },
{
    let n = stamps.len();
    if n % 2 == 1 {
        return Err(DayError::OddCount);
    }
    let mut acc: i64 = 0;
    let mut i: usize = 0;
    proof {
        assert(stamps@.skip(0) =~= stamps@);
    }
    while i < n
        invariant
            i <= n,
            i % 2 == 0,
            n % 2 == 0,
            n == stamps@.len(),
            forall|j: int| 0 <= j < stamps@.len() ==> #[trigger] stamps@[j].valid(),
            fits_day(stamps@),
            worked_minutes(stamps@) == acc + worked_minutes(stamps@.skip(i as int)),
            -720 * i <= acc <= 720 * i,
        decreases n - i,
    {
        let ghost rest = stamps@.skip(i as int);
        proof {
            assert(rest.len() == n - i >= 2);
            assert(rest[0] == stamps@[i as int]);
            assert(rest[1] == stamps@[i + 1]);
            assert(rest.skip(2) =~= stamps@.skip(i + 2));
            assert(stamps@[i as int].valid());
            assert(stamps@[i + 1].valid());
        }
        let start = stamps[i].minutes();
        let end = stamps[i + 1].minutes();
        let diff: i64 = (end as i64) - (start as i64);
        proof {
            assert(-1440 <= diff <= 1440);
            assert(720 * (i + 2) <= 720 * n);
        }
        acc = acc + diff;
        i = i + 2;
    }
    proof {
        assert(stamps@.skip(n as int) =~= Seq::<TimeOfDay>::empty());
    }
    Ok(TimeSpan { minutes: acc })
}

/// One report row for a closed day, accumulating its overtime into
/// `sum_ot`; an odd chain yields no row and leaves `sum_ot` untouched.
pub fn generate_row(
    date: &Date,
    stamps: &Vec<TimeOfDay>,
    sum_ot: &mut TimeSpan,
    workday_minutes: Option<i64>,
) -> (r: Option<Vec<String>>)
    requires
        date.valid(),
        forall|i: int| 0 <= i < stamps@.len() ==> #[trigger] stamps@[i].valid(),
        fits_day(stamps@),
        match workday_minutes {
            Some(w) => stamps@.len() % 2 == 0 ==> {
                &&& i64::MIN <= worked_minutes(stamps@) - w <= i64::MAX
                &&& i64::MIN <= old(sum_ot).minutes + (worked_minutes(stamps@) - w) <= i64::MAX
            },
            None => true,
        },
    ensures
        stamps@.len() % 2 == 1 ==> r is None && *final(sum_ot) == *old(sum_ot),
        stamps@.len() % 2 == 0 ==> {
            &&& match workday_minutes {
                Some(w) => final(sum_ot).minutes == old(sum_ot).minutes + worked_minutes(stamps@)
                    - w,
                None => *final(sum_ot) == *old(sum_ot),
            }
            &&& r matches Some(row) && row.deep_view() == row_for(
                *date,
                stamps@,
                wm_view(workday_minutes),
                final(sum_ot).minutes as int,
            )
        },
{
    let total = match sum_timestamps(stamps) {
        Ok(t) => t,
        Err(_) => {
            return None;
        },
    };
    let mut row: Vec<String> = Vec::new();
    row.push(format_date(date));
    row.push(format_span(&total));
    row.push(crate::codec::encode(stamps));
    match workday_minutes {
        Some(w) => {
            let day_ot = TimeSpan { minutes: total.minutes - w };
            row.push(format_span(&day_ot));
            let new_sum = TimeSpan { minutes: day_ot.minutes + sum_ot.minutes };
            *sum_ot = new_sum;
            row.push(format_span(&new_sum));
            proof {
                assert(row.deep_view() =~= row_for(
                    *date,
                    stamps@,
                    wm_view(workday_minutes),
                    new_sum.minutes as int,
                ));
            }
        },
        None => {
            proof {
                assert(row.deep_view() =~= row_for(
                    *date,
                    stamps@,
                    wm_view(workday_minutes),
                    sum_ot.minutes as int,
                ));
            }
        },
    }
    Some(row)
}

/// Decides whether the ledger can be aggregated in i64 minutes, so callers
/// can test `summary`'s bound at run time instead of assuming it.
pub fn aggregation_fits(tlr: &TimeLogger, today: &Date) -> (r: bool)
    requires
        tlr.wf(),
        today.valid(),
    ensures
        r == fits_aggregation(tlr.spec_days(), *today, wm_view(tlr.spec_workday())),
{
    let ghost entries = tlr.spec_days();
    let ghost wmv = wm_view(tlr.spec_workday());
    let workday = tlr.workday_minutes();
    let n = tlr.day_count();
    let mut cum: i64 = 0;
    let mut i: usize = 0;
    proof {
        assert(entries.take(0) =~= Seq::<DayEntry>::empty());
    }
    while i < n
        invariant
            i <= n,
            n == entries.len(),
            entries == tlr.spec_days(),
            tlr.wf(),
            today.valid(),
            workday == tlr.spec_workday(),
            wmv == wm_view(tlr.spec_workday()),
            forall|j: int| 0 <= j < i ==> fits_day((#[trigger] entries[j]).stamps@),
            wmv is Some ==> cum == total_overtime(entries.take(i as int), *today, wm_or_zero(wmv)),
            wmv is Some ==> forall|j: int|
                0 <= j < i && counted(#[trigger] entries[j], *today) ==> i64::MIN
                    <= worked_minutes(entries[j].stamps@) - wm_or_zero(wmv) <= i64::MAX,
            wmv is Some ==> forall|k: int|
                0 <= k <= i ==> i64::MIN <= total_overtime(
                    #[trigger] entries.take(k),
                    *today,
                    wm_or_zero(wmv),
                ) <= i64::MAX,
        decreases n - i,
    {
        let ghost prefix = entries.take(i as int);
        let e = tlr.day_at(i);
        proof {
            assert(entries[i as int].valid());
            assert(entries.take(i + 1) =~= prefix.push(entries[i as int]));
            lemma_agg_push(prefix, entries[i as int], *today, wmv, 0);
        }
        if (e.stamps.len() as u128) > (i64::MAX as u128) / 720 {
            proof {
                assert(!fits_day(entries[i as int].stamps@));
            }
            return false;
        }
        let is_today = e.date == *today;
        proof {
            if is_today {
                assert(e.date.key() == today.key());
            } else if e.date.key() == today.key() {
                crate::date::lemma_key_injective(e.date, *today);
            }
        }
        match workday {
            Some(w) => {
                if !is_today {
                    match sum_timestamps(&e.stamps) {
                        Ok(total) => {
                            let ot: i128 = (total.minutes as i128) - (w as i128);
                            if ot < i64::MIN as i128 || ot > i64::MAX as i128 {
                                proof {
                                    assert(counted(entries[i as int], *today));
                                    assert(!(i64::MIN <= worked_minutes(
                                        entries[i as int].stamps@,
                                    ) - wm_or_zero(wmv) <= i64::MAX));
                                }
                                return false;
                            }
                            let next: i128 = (cum as i128) + ot;
                            if next < i64::MIN as i128 || next > i64::MAX as i128 {
                                proof {
                                    assert(total_overtime(
                                        entries.take(i + 1),
                                        *today,
                                        wm_or_zero(wmv),
                                    ) == next);
                                }
                                return false;
                            }
                            cum = next as i64;
                        },
                        Err(_) => {
                            proof {
                                assert(!counted(entries[i as int], *today));
                                assert(ot_of(entries[i as int], *today, wm_or_zero(wmv)) == 0);
                            }
                        },
                    }
                } else {
                    proof {
                        assert(!counted(entries[i as int], *today));
                        assert(ot_of(entries[i as int], *today, wm_or_zero(wmv)) == 0);
                    }
                }
            },
            None => {
            },
        }
        i += 1;
    }
    proof {
        assert(entries.take(n as int) =~= entries);
    }
    true
}

/// Law: today's entry never yields a row and never moves the cumulative
/// overtime, whatever its timestamp count: dropping every entry dated today
/// changes neither the rows nor the total.
pub proof fn lemma_no_row_for_today(entries: Seq<DayEntry>, today: Date, wm: Option<int>, cum: int)
    ensures
        rows_from(
            entries.filter(|e: DayEntry| e.date.key() != today.key()),
            today,
            wm,
            cum,
        ) == rows_from(entries, today, wm, cum),
        total_overtime(
            entries.filter(|e: DayEntry| e.date.key() != today.key()),
            today,
            wm_or_zero(wm),
        ) == total_overtime(entries, today, wm_or_zero(wm)),
    decreases entries.len(),
{
    reveal(Seq::filter);
    let pred = |e: DayEntry| e.date.key() != today.key();
    let w = wm_or_zero(wm);
    if entries.len() > 0 {
        let butlast = entries.drop_last();
        let e = entries.last();
        assert(entries =~= butlast.push(e));
        lemma_no_row_for_today(butlast, today, wm, cum);
        lemma_agg_push(butlast, e, today, wm, cum);
        if pred(e) {
            assert(entries.filter(pred) == butlast.filter(pred).push(e));
            lemma_agg_push(butlast.filter(pred), e, today, wm, cum);
            if !counted(e, today) {
                assert(rows_from(butlast.filter(pred), today, wm, cum) + Seq::<
                    Seq<Seq<char>>,
                >::empty() =~= rows_from(butlast.filter(pred), today, wm, cum));
                assert(rows_from(butlast, today, wm, cum) + Seq::<Seq<Seq<char>>>::empty()
                    =~= rows_from(butlast, today, wm, cum));
            }
        } else {
            assert(e.date.key() == today.key());
            assert(!counted(e, today));
            assert(entries.filter(pred) == butlast.filter(pred));
            assert(rows_from(butlast, today, wm, cum) + Seq::<Seq<Seq<char>>>::empty()
                =~= rows_from(butlast, today, wm, cum));
        }
    }
}

/// Law: aggregation yields exactly one row per counted day — so a day with
/// an odd timestamp count fails alone, producing no row, while every other
/// counted day's row survives.
pub proof fn lemma_rows_exactly_counted(
    entries: Seq<DayEntry>,
    today: Date,
    wm: Option<int>,
    cum: int,
)
    ensures
        rows_from(entries.filter(|e: DayEntry| counted(e, today)), today, wm, cum) == rows_from(
            entries,
            today,
            wm,
            cum,
        ),
        total_overtime(
            entries.filter(|e: DayEntry| counted(e, today)),
            today,
            wm_or_zero(wm),
        ) == total_overtime(entries, today, wm_or_zero(wm)),
        rows_from(entries, today, wm, cum).len() == entries.filter(
            |e: DayEntry| counted(e, today),
        ).len(),
    decreases entries.len(),
{
    reveal(Seq::filter);
    let pred = |e: DayEntry| counted(e, today);
    let w = wm_or_zero(wm);
    if entries.len() > 0 {
        let butlast = entries.drop_last();
        let e = entries.last();
        assert(entries =~= butlast.push(e));
        lemma_rows_exactly_counted(butlast, today, wm, cum);
        lemma_agg_push(butlast, e, today, wm, cum);
        if pred(e) {
            assert(entries.filter(pred) == butlast.filter(pred).push(e));
            lemma_agg_push(butlast.filter(pred), e, today, wm, cum);
        } else {
            assert(entries.filter(pred) == butlast.filter(pred));
            assert(rows_from(butlast, today, wm, cum) + Seq::<Seq<Seq<char>>>::empty()
                =~= rows_from(butlast, today, wm, cum));
        }
    }
}

/// Law: with a workday configured, the cumulative cell of the last produced
/// row equals the sum of every counted day's overtime over the whole
/// history — the value the definition of `total_overtime` adds up day by
/// day in ascending order.
pub proof fn lemma_last_cumulative(entries: Seq<DayEntry>, today: Date, w: int, cum: int)
    requires
        rows_from(entries, today, Some(w), cum).len() > 0,
    ensures
        rows_from(entries, today, Some(w), cum).last().len() == 5,
        rows_from(entries, today, Some(w), cum).last()[4] == span_str(
            cum + total_overtime(entries, today, w),
        ),
    decreases entries.len(),
{
    if entries.len() > 0 {
        let butlast = entries.drop_last();
        let e = entries.last();
        assert(entries =~= butlast.push(e));
        lemma_agg_push(butlast, e, today, Some(w), cum);
        if counted(e, today) {
            let rows = rows_from(entries, today, Some(w), cum);
            assert(rows.last() == row_for(
                e.date,
                e.stamps@,
                Some(w),
                cum + total_overtime(butlast, today, w) + ot_of(e, today, w),
            ));
        } else {
            assert(rows_from(entries, today, Some(w), cum) =~= rows_from(
                butlast,
                today,
                Some(w),
                cum,
            ));
            lemma_last_cumulative(butlast, today, w, cum);
        }
    }
}

/// Law: the window keeps exactly the most recent rows, in unchanged order,
/// and — whenever anything is displayed at all — the last displayed row is
/// the last produced row, so its cumulative cell reflects all history.
pub proof fn lemma_window_is_tail(rows: Seq<Seq<Seq<char>>>, n: int)
    requires
        n >= 0,
    ensures
        window_tail(rows, n).len() == if rows.len() <= n {
            rows.len() as int
        } else {
            n
        },
        forall|i: int|
            0 <= i < window_tail(rows, n).len() ==> #[trigger] window_tail(rows, n)[i] == rows[
                rows.len() - window_tail(rows, n).len() + i
            ],
        n >= 1 && rows.len() > 0 ==> window_tail(rows, n).last() == rows.last(),
{
}

/// Law: windowing happens after the cumulative pass, so whenever anything is
/// displayed at all, the last displayed row's cumulative cell shows the
/// overtime summed over every counted day of the whole history — never a
/// partial sum over the window.
pub proof fn lemma_window_preserves_cumulative(
    entries: Seq<DayEntry>,
    today: Date,
    w: int,
    n: int,
)
    requires
        n >= 1,
        rows_from(entries, today, Some(w), 0).len() > 0,
    ensures
        window_tail(rows_from(entries, today, Some(w), 0), n).last()[4] == span_str(
            total_overtime(entries, today, w),
        ),
{
    lemma_window_is_tail(rows_from(entries, today, Some(w), 0), n);
    lemma_last_cumulative(entries, today, w, 0);
}

/// The report: a header row and one row per counted day, windowed to the
/// most recent `num_last_days` rows after the cumulative overtime has been
/// carried across all history, so the last displayed cumulative value
/// reflects every counted day, not just the window.
pub fn summary(tlr: &TimeLogger, today: &Date, num_last_days: usize) -> (r: (
    Vec<String>,
    Vec<Vec<String>>,
))
    requires
        tlr.wf(),
        today.valid(),
        fits_aggregation(tlr.spec_days(), *today, wm_view(tlr.spec_workday())),
    ensures
        r.0.deep_view() == header_spec(tlr.spec_workday() is Some),
        r.1.deep_view() == window_tail(
            rows_from(tlr.spec_days(), *today, wm_view(tlr.spec_workday()), 0),
            num_last_days as int,
        ),
{
    let workday = tlr.workday_minutes();
    let mut header: Vec<String> = Vec::new();
    header.push(String::from_str("Date"));
    header.push(String::from_str("Duration"));
    header.push(String::from_str("Time stamps"));
    if workday.is_some() {
        header.push(String::from_str("Over time"));
        header.push(String::from_str("Aggregated over time"));
    }
    proof {
        assert(header.deep_view() =~= header_spec(tlr.spec_workday() is Some));
    }

    let ghost entries = tlr.spec_days();
    let ghost wmv = wm_view(tlr.spec_workday());
    let mut rows: Vec<Vec<String>> = Vec::new();
    let mut sum_ot = TimeSpan::zero();
    let n = tlr.day_count();
    let mut i: usize = 0;
    proof {
        assert(entries.take(0) =~= Seq::<DayEntry>::empty());
        assert(total_overtime(Seq::<DayEntry>::empty(), *today, wm_or_zero(wmv)) == 0);
        assert(rows.deep_view() =~= rows_from(entries.take(0), *today, wmv, 0));
    }
    while i < n
        invariant
            i <= n,
            n == entries.len(),
            entries == tlr.spec_days(),
            tlr.wf(),
            today.valid(),
            workday == tlr.spec_workday(),
            wmv == wm_view(tlr.spec_workday()),
            fits_aggregation(entries, *today, wmv),
            wmv is Some ==> sum_ot.minutes == total_overtime(
                entries.take(i as int),
                *today,
                wm_or_zero(wmv),
            ),
            rows.deep_view() == rows_from(entries.take(i as int), *today, wmv, 0),
        decreases n - i,
    {
        let ghost prefix = entries.take(i as int);
        let e = tlr.day_at(i);
        proof {
            assert(entries[i as int].valid());
            assert(entries.take(i + 1) =~= prefix.push(entries[i as int]));
            lemma_agg_push(prefix, entries[i as int], *today, wmv, 0);
        }
        let is_today = e.date == *today;
        proof {
            if is_today {
                assert(e.date.key() == today.key());
            } else if e.date.key() == today.key() {
                crate::date::lemma_key_injective(e.date, *today);
            }
        }
        if !is_today {
            proof {
                if counted(entries[i as int], *today) && wmv is Some {
                    assert(total_overtime(entries.take(i + 1), *today, wm_or_zero(wmv))
                        == sum_ot.minutes + ot_of(entries[i as int], *today, wm_or_zero(wmv)));
                }
            }
            match generate_row(&e.date, &e.stamps, &mut sum_ot, workday) {
                Some(row) => {
                    let ghost old_dv = rows.deep_view();
                    rows.push(row);
                    proof {
                        assert(rows.deep_view() =~= old_dv.push(row.deep_view()));
                        assert(old_dv.push(row.deep_view()) =~= old_dv + seq![row.deep_view()]);
                    }
                },
                None => {
                },
            }
        }
        proof {
            if wmv is Some {
                assert(sum_ot.minutes == total_overtime(
                    entries.take(i + 1),
                    *today,
                    wm_or_zero(wmv),
                ));
            }
            assert(rows.deep_view() == rows_from(entries.take(i + 1), *today, wmv, 0));
        }
        i += 1;
    }
    proof {
        assert(entries.take(n as int) =~= entries);
    }

    // Window after aggregation: keep only the most recent rows.
    let ghost all_rows = rows_from(entries, *today, wmv, 0);
    while rows.len() > num_last_days
        invariant
            window_tail(rows.deep_view(), num_last_days as int) == window_tail(
                all_rows,
                num_last_days as int,
            ),
        decreases rows@.len(),
    {
        let ghost old_dv = rows.deep_view();
        rows.remove(0);
        proof {
            assert(rows.deep_view() =~= old_dv.skip(1));
            assert(window_tail(old_dv.skip(1), num_last_days as int) =~= window_tail(
                old_dv,
                num_last_days as int,
            ));
        }
    }
    (header, rows)
}

} // verus!
