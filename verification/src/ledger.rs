use vstd::prelude::*;
use vstd::string::StringExecFns;

use crate::codec::{chain_of, decode, decode_spec, encode, hhmm};
use crate::date::{format_date, Date};
use crate::digits::push_char;
use crate::time::{non_decreasing, TimeOfDay};

verus! {

/// One day of the ledger: a date and its chain of clock times.
pub struct DayEntry {
    pub date: Date,
    pub stamps: Vec<TimeOfDay>,
}

impl DayEntry {
    pub open spec fn valid(self) -> bool {
        &&& self.date.valid()
        &&& forall|i: int| 0 <= i < self.stamps@.len() ==> #[trigger] self.stamps@[i].valid()
    }
}

/// A day other than today whose chain has an odd number of times cannot be
/// paired into work intervals and must be repaired.
pub open spec fn needs_repair(e: DayEntry, today: Date) -> bool {
    e.date.key() != today.key() && e.stamps@.len() % 2 == 1
}

/// The chain stored for the date with key `k`, if any.
pub open spec fn spec_lookup(entries: Seq<DayEntry>, k: int) -> Option<Seq<TimeOfDay>>
    decreases entries.len(),
{
    if entries.len() == 0 {
        None
    } else if entries[0].date.key() == k {
        Some(entries[0].stamps@)
    } else {
        spec_lookup(entries.skip(1), k)
    }
}

/// The entries with the day for `e.date` replaced by `e`, or with `e` put at
/// its place in ascending date order when that day was absent.
pub open spec fn spec_insert_day(entries: Seq<DayEntry>, e: DayEntry) -> Seq<DayEntry>
    decreases entries.len(),
{
    if entries.len() == 0 {
        seq![e]
    } else if entries[0].date.key() < e.date.key() {
        seq![entries[0]] + spec_insert_day(entries.skip(1), e)
    } else if entries[0].date.key() == e.date.key() {
        seq![e] + entries.skip(1)
    } else {
        seq![e] + entries
    }
}

/// Where `spec_insert_day` puts the new entry: at the first position whose
/// date is not earlier, replacing it when the dates coincide.
proof fn lemma_insert_day_at(entries: Seq<DayEntry>, e: DayEntry, i: int)
    requires
        0 <= i <= entries.len(),
        forall|j: int| 0 <= j < i ==> (#[trigger] entries[j]).date.key() < e.date.key(),
        i < entries.len() ==> entries[i].date.key() >= e.date.key(),
    ensures
        spec_insert_day(entries, e) == if i < entries.len() && entries[i].date.key()
            == e.date.key() {
            entries.update(i, e)
        } else {
            (entries.take(i) + seq![e] + entries.skip(i))
        },
    decreases i,
{
    if i == 0 {
        if entries.len() == 0 {
            assert(spec_insert_day(entries, e) =~= entries.take(0) + seq![e] + entries.skip(0));
        } else if entries[0].date.key() == e.date.key() {
            assert(seq![e] + entries.skip(1) =~= entries.update(0, e));
        } else {
            assert(entries[0].date.key() > e.date.key());
            assert(seq![e] + entries =~= entries.take(0) + seq![e] + entries.skip(0));
        }
    } else {
        assert(entries[0].date.key() < e.date.key());
        lemma_insert_day_at(entries.skip(1), e, i - 1);
        if i < entries.len() && entries[i].date.key() == e.date.key() {
            assert(entries.skip(1)[i - 1] == entries[i]);
            assert(seq![entries[0]] + entries.skip(1).update(i - 1, e) =~= entries.update(i, e));
        } else {
            assert(seq![entries[0]] + (entries.skip(1).take(i - 1) + seq![e] + entries.skip(1).skip(
                i - 1,
            )) =~= entries.take(i) + seq![e] + entries.skip(i));
        }
    }
}

/// The dates of the entries that need repair, in ledger order.
pub open spec fn spec_repair_dates(entries: Seq<DayEntry>, today: Date) -> Seq<Date>
    decreases entries.len(),
{
    if entries.len() == 0 {
        Seq::empty()
    } else {
        let rest = spec_repair_dates(entries.skip(1), today);
        if needs_repair(entries[0], today) {
            seq![entries[0].date] + rest
        } else {
            rest
        }
    }
}

/// Why a user-supplied replacement chain was rejected; the caller re-prompts
/// and neither reason is ever surfaced as output.
#[derive(Clone, Copy, PartialEq, Eq, Structural, Debug)]
pub enum ReplaceError {
    /// The text did not decode as a chain of `HH:MM` tokens.
    ParseFailure,
    /// The chain decoded but holds a reversed adjacent pair of times.
    OrderViolation,
}

/// The ledger: per-day chains of clock times held in ascending date order,
/// with the optional configured workday length in minutes.
pub struct TimeLogger {
    workday_minutes: Option<i64>,
    days: Vec<DayEntry>,
}

impl TimeLogger {
    /// The per-day entries, in storage order.
    pub closed spec fn spec_days(self) -> Seq<DayEntry> {
        self.days@
    }

    /// The configured workday length in minutes, if any.
    pub closed spec fn spec_workday(self) -> Option<i64> {
        self.workday_minutes
    }

    /// Entries are valid and strictly ascending by date, so dates are unique
    /// and iteration order is chronological.
    pub open spec fn wf(self) -> bool {
        &&& forall|i: int| 0 <= i < self.spec_days().len() ==> (#[trigger] self.spec_days()[i]).valid()
        &&& forall|i: int, j: int|
            0 <= i < j < self.spec_days().len() ==> (#[trigger] self.spec_days()[i]).date.key() < (
            #[trigger] self.spec_days()[j]).date.key()
    }

    /// A fresh ledger: no entries, no configured workday length.
    pub fn new() -> (r: TimeLogger)
        ensures
            r.wf(),
            r.spec_days() == Seq::<DayEntry>::empty(),
            r.spec_workday() is None,
    {
        TimeLogger { workday_minutes: None, days: Vec::new() }
    }

    pub fn workday_minutes(&self) -> (r: Option<i64>)
        ensures
            r == self.spec_workday(),
    {
        self.workday_minutes
    }

    pub fn set_workday_minutes(&mut self, w: Option<i64>)
        ensures
            final(self).spec_workday() == w,
            final(self).spec_days() == old(self).spec_days(),
            old(self).wf() ==> final(self).wf(),
    {
        self.workday_minutes = w;
    }

    pub fn day_count(&self) -> (r: usize)
        ensures
            r == self.spec_days().len(),
    {
        self.days.len()
    }

    /// The full mapping as entries in ascending date order.
    pub fn days(&self) -> (r: &Vec<DayEntry>)
        ensures
            r@ == self.spec_days(),
    {
        &self.days
    }

    /// The entry at position `i` of the ascending date order.
    pub fn day_at(&self, i: usize) -> (r: &DayEntry)
        requires
            i < self.spec_days().len(),
        ensures
            *r == self.spec_days()[i as int],
    {
        &self.days[i]
    }

    /// Stores `stamps` as the chain for `date`, replacing that day's chain
    /// or creating the day at its place in ascending date order.
    pub fn set_day(&mut self, date: Date, stamps: Vec<TimeOfDay>)
        requires
            old(self).wf(),
            date.valid(),
            forall|i: int| 0 <= i < stamps@.len() ==> #[trigger] stamps@[i].valid(),
        ensures
            final(self).wf(),
            final(self).spec_workday() == old(self).spec_workday(),
            final(self).spec_days() == spec_insert_day(
                old(self).spec_days(),
                (DayEntry { date, stamps }),
            ),
    {
        let n = self.days.len();
        let ghost entries = self.spec_days();
        let mut i: usize = 0;
        while i < n && self.days[i].date.before(&date)
            invariant
                i <= n,
                n == self.spec_days().len(),
                self.wf(),
                date.valid(),
                forall|j: int| 0 <= j < i ==> (#[trigger] self.spec_days()[j]).date.key()
                    < date.key(),
            decreases n - i,
        {
            i += 1;
        }
        let e = DayEntry { date, stamps };
        let ghost ge = e;
        proof {
            assert(forall|j: int| 0 <= j < entries.len() ==> (#[trigger] entries[j]).valid());
            assert(ge.valid());
        }
        if i < n && self.days[i].date == date {
            self.days.remove(i);
            self.days.insert(i, e);
            proof {
                lemma_insert_day_at(entries, ge, i as int);
                assert(self.days@ =~= entries.update(i as int, ge));
                assert forall|p: int, q: int| 0 <= p < q < self.days@.len() implies (
                #[trigger] self.days@[p]).date.key() < (#[trigger] self.days@[q]).date.key() by {
                    assert(entries[p].date.key() < entries[q].date.key());
                }
            }
        } else {
            proof {
                if i < n && entries[i as int].date.key() == date.key() {
                    crate::date::lemma_key_injective(entries[i as int].date, date);
                }
                assert(i < n ==> entries[i as int].date.key() > date.key());
            }
            self.days.insert(i, e);
            proof {
                lemma_insert_day_at(entries, ge, i as int);
                assert(self.days@ =~= entries.take(i as int) + seq![ge] + entries.skip(i as int));
                assert forall|p: int| 0 <= p < self.days@.len() implies (
                #[trigger] self.days@[p]).valid() by {
                    if p < i {
                        assert(self.days@[p] == entries[p]);
                    } else if p == i {
                        assert(self.days@[p] == ge);
                    } else {
                        assert(self.days@[p] == entries[p - 1]);
                    }
                }
                assert forall|p: int, q: int| 0 <= p < q < self.days@.len() implies (
                #[trigger] self.days@[p]).date.key() < (#[trigger] self.days@[q]).date.key() by {
                    if q < i {
                        assert(self.days@[p] == entries[p] && self.days@[q] == entries[q]);
                    } else if q == i {
                        assert(self.days@[p] == entries[p] && self.days@[q] == ge);
                    } else {
                        assert(self.days@[q] == entries[q - 1]);
                        if p < i {
                            assert(self.days@[p] == entries[p]);
                            assert(i < n ==> entries[i as int].date.key() > ge.date.key());
                        } else if p == i {
                            assert(self.days@[p] == ge);
                            assert(entries[q - 1].date.key() >= entries[i as int].date.key());
                        } else {
                            assert(self.days@[p] == entries[p - 1]);
                        }
                    }
                }
            }
        }
    }

    /// The position of the entry for `date`, if the ledger has one.
    pub fn find_day(&self, date: &Date) -> (r: Option<usize>)
        requires
            self.wf(),
            date.valid(),
        ensures
            match r {
                Some(i) => i < self.spec_days().len() && self.spec_days()[i as int].date.key()
                    == date.key() && spec_lookup(self.spec_days(), date.key()) == Some(
                    self.spec_days()[i as int].stamps@,
                ),
                None => spec_lookup(self.spec_days(), date.key()) is None,
            },
    {
        let n = self.days.len();
        let mut i: usize = 0;
        proof {
            assert(self.spec_days().skip(0) =~= self.spec_days());
        }
        while i < n
            invariant
                i <= n,
                n == self.spec_days().len(),
                self.wf(),
                date.valid(),
                spec_lookup(self.spec_days(), date.key()) == spec_lookup(
                    self.spec_days().skip(i as int),
                    date.key(),
                ),
            decreases n - i,
        {
            let e = &self.days[i];
            proof {
                assert(self.spec_days().skip(i as int)[0] == self.spec_days()[i as int]);
            }
            if e.date.year == date.year && e.date.month == date.month && e.date.day == date.day {
                proof {
                    assert(self.spec_days()[i as int].date.key() == date.key());
                }
                return Some(i);
            }
            proof {
                assert(self.spec_days()[i as int].valid());
                if self.spec_days()[i as int].date.key() == date.key() {
                    crate::date::lemma_key_injective(self.spec_days()[i as int].date, *date);
                }
                assert(self.spec_days().skip(i as int).skip(1) =~= self.spec_days().skip(i + 1));
            }
            i += 1;
        }
        proof {
            assert(self.spec_days().skip(n as int) =~= Seq::<DayEntry>::empty());
        }
        None
    }

    /// The dates, other than today, whose chains hold an odd number of
    /// times and so must be repaired before aggregation.
    pub fn days_needing_repair(&self, today: &Date) -> (r: Vec<Date>)
        requires
            self.wf(),
            today.valid(),
        ensures
            r@ == spec_repair_dates(self.spec_days(), *today),
    {
        let n = self.days.len();
        let mut r: Vec<Date> = Vec::new();
        let mut i: usize = 0;
        proof {
            assert(self.spec_days().skip(0) =~= self.spec_days());
        }
        while i < n
            invariant
                i <= n,
                n == self.spec_days().len(),
                self.wf(),
                today.valid(),
                spec_repair_dates(self.spec_days(), *today) == r@ + spec_repair_dates(
                    self.spec_days().skip(i as int),
                    *today,
                ),
            decreases n - i,
        {
            let ghost rest = self.spec_days().skip(i as int);
            proof {
                assert(rest[0] == self.spec_days()[i as int]);
                assert(rest.skip(1) =~= self.spec_days().skip(i + 1));
                assert(self.spec_days()[i as int].valid());
            }
            let e = &self.days[i];
            let odd = e.stamps.len() % 2 == 1;
            let is_today = e.date == *today;
            proof {
                if is_today {
                    assert(e.date.key() == today.key());
                } else if e.date.key() == today.key() {
                    crate::date::lemma_key_injective(e.date, *today);
                }
                if odd && !is_today {
                    assert(r@ + (seq![e.date] + spec_repair_dates(rest.skip(1), *today)) =~= (r@
                        + seq![e.date]) + spec_repair_dates(rest.skip(1), *today));
                }
            }
            if odd && !is_today {
                r.push(e.date);
            }
            i += 1;
        }
        proof {
            assert(self.spec_days().skip(n as int) =~= Seq::<DayEntry>::empty());
            assert(r@ + spec_repair_dates(Seq::<DayEntry>::empty(), *today) =~= r@);
        }
        r
    }

    /// The proposed text when recording now: today's existing chain, if any,
    /// with the current time appended after a space; else the current time
    /// alone.
    pub fn record_proposal(&self, today: &Date, now: &TimeOfDay) -> (r: String)
        requires
            self.wf(),
            today.valid(),
            now.valid(),
        ensures
            r@ == match spec_lookup(self.spec_days(), today.key()) {
                Some(s) => chain_of(s) + seq![' '] + hhmm(*now),
                None => hhmm(*now),
            },
    {
        match self.find_day(today) {
            Some(i) => {
                proof {
                    assert(self.spec_days()[i as int].valid());
                }
                let mut s = encode(&self.days[i].stamps);
                push_char(&mut s, ' ');
                let h = crate::codec::hhmm_string(now);
                s.append(h.as_str());
                s
            },
            None => crate::codec::hhmm_string(now),
        }
    }

    /// The proposed text when repairing a day: its current chain followed by
    /// a placeholder token for the missing time.
    pub fn repair_proposal(&self, date: &Date) -> (r: String)
        requires
            self.wf(),
            date.valid(),
            spec_lookup(self.spec_days(), date.key()) is Some,
        ensures
            spec_lookup(self.spec_days(), date.key()) matches Some(s) ==> r@ == chain_of(s)
                + " ??:??"@,
    {
        match self.find_day(date) {
            Some(i) => {
                proof {
                    assert(self.spec_days()[i as int].valid());
                }
                let mut s = encode(&self.days[i].stamps);
                s.append(" ??:??");
                s
            },
            None => {
                proof {
                    assert(false);
                }
                String::new()
            },
        }
    }
}

/// The prompt shown when recording now for `today`.
pub fn record_prompt(today: &Date) -> (r: String)
    requires
        today.valid(),
    ensures
        r@ == "Today "@ + crate::date::date_display_of(
            today.year as int,
            today.month as int,
            today.day as int,
        ),
{
    let mut s = String::from_str("Today ");
    let d = format_date(today);
    s.append(d.as_str());
    s
}

/// The prompt shown when repairing the chain of `date`.
pub fn repair_prompt(date: &Date) -> (r: String)
    requires
        date.valid(),
    ensures
        r@ == "Fixing "@ + crate::date::date_display_of(
            date.year as int,
            date.month as int,
            date.day as int,
        ),
{
    let mut s = String::from_str("Fixing ");
    let d = format_date(date);
    s.append(d.as_str());
    s
}

/// Whether the chain holds a reversed adjacent pair of times.
#[verifier::rlimit(30)]
pub fn non_linear(stamps: &Vec<TimeOfDay>) -> (r: bool)
    requires
        forall|i: int| 0 <= i < stamps@.len() ==> #[trigger] stamps@[i].valid(),
    ensures
        r == !non_decreasing(stamps@),
{
    let n = stamps.len();
    if n == 0 {
        return false;
    }
    let mut i: usize = 1;
    while i < n
        invariant
            1 <= i <= n,
            n == stamps@.len(),
            forall|j: int| 0 <= j < stamps@.len() ==> #[trigger] stamps@[j].valid(),
            forall|j: int|
                0 <= j && j + 1 < i ==> #[trigger] stamps@[j].spec_minutes()
                    <= stamps@[j + 1].spec_minutes(),
        decreases n - i,
    {
        if !stamps[i - 1].le(&stamps[i]) {
            return true;
        }
        i += 1;
    }
    false
}

/// Checks a user-supplied replacement: it must decode as a chain and its
/// times must be in non-decreasing order; otherwise the caller re-prompts
/// with the same proposal, and the rejection is never surfaced as output.
pub fn process_replacement(input: &str) -> (r: Result<Vec<TimeOfDay>, ReplaceError>)
    ensures
        match r {
            Ok(v) => {
                &&& decode_spec(input@) == Some(v@)
                &&& non_decreasing(v@)
                &&& forall|i: int| 0 <= i < v@.len() ==> #[trigger] v@[i].valid()
            },
            Err(e) => match e {
                ReplaceError::ParseFailure => decode_spec(input@) is None,
                ReplaceError::OrderViolation => decode_spec(input@) matches Some(s)
                    && !non_decreasing(s),
            },
        },
{
    match decode(input) {
        Ok(v) => {
            if non_linear(&v) {
                Err(ReplaceError::OrderViolation)
            } else {
                Ok(v)
            }
        },
        Err(_) => Err(ReplaceError::ParseFailure),
    }
}

} // verus!
