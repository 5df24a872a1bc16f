//! Laws of the scheduler, stated and proved against the contracts of the
//! generation engine: what `schedule_ok` guarantees for each kind of
//! employee, and the idempotence of the assignment step.

use vstd::prelude::*;

use crate::schema::{
    catalog_spec, contains_id, count_id, distinct_ids, lemma_catalog_combination_wf, DayCount,
    Employee, MonthlySchedule, PastSchedules, Weekday,
};
use crate::scheduler::{
    count_day, employee_assigned, flexibly_assigned, frequency8, imbalance25,
    lemma_contains_id_push, repetition8, schedule_ok, score200, sq,
};

verus! {

/// In a row with distinct ids, an id present is counted exactly once and an
/// id absent not at all.
proof fn lemma_count_id_distinct(row: Seq<Employee>, id: usize)
    requires
        distinct_ids(row),
    ensures
        count_id(row, id) == if contains_id(row, id) {
            1int
        } else {
            0int
        },
    decreases row.len(),
{
    if row.len() > 0 {
        let prefix = row.drop_last();
        let x = row.last();
        assert(distinct_ids(prefix));
        lemma_count_id_distinct(prefix, id);
        assert(row =~= prefix.push(x));
        lemma_contains_id_push(prefix, x, id);
        if x.id == id {
            assert forall|i: int| 0 <= i < prefix.len() implies prefix[i].id != id by {
                assert(row[i].id != row[row.len() - 1].id);
            }
            assert(!contains_id(prefix, id));
        }
    }
}

/// Law: a fixed-day employee stands exactly once on each of their fixed
/// weekdays.
pub proof fn lemma_fixed_day_inclusion(
    emps: Seq<Employee>,
    s: MonthlySchedule,
    k: int,
    d: Weekday,
)
    requires
        schedule_ok(emps, s),
        0 <= k < emps.len(),
        emps[k].fixed_days@.len() > 0,
        emps[k].fixed_days@.contains(d),
    ensures
        count_id(s.row(d), emps[k].id) == 1,
{
    assert(employee_assigned(emps[k], s));
    assert(contains_id(s.row(d), emps[k].id));
    lemma_count_id_distinct(s.row(d), emps[k].id);
}

/// Law: no weekday's list of a generated schedule holds an employee id
/// more than once.
pub proof fn lemma_no_duplicates(emps: Seq<Employee>, s: MonthlySchedule, d: Weekday, id: usize)
    requires
        schedule_ok(emps, s),
    ensures
        count_id(s.row(d), id) <= 1,
{
    lemma_count_id_distinct(s.row(d), id);
}

/// The number of distinct weekdays on which the given id is scheduled.
pub open spec fn assigned_day_count(s: MonthlySchedule, id: usize) -> int {
    (if contains_id(s.row(Weekday::Monday), id) {
        1int
    } else {
        0int
    }) + (if contains_id(s.row(Weekday::Tuesday), id) {
        1int
    } else {
        0int
    }) + (if contains_id(s.row(Weekday::Wednesday), id) {
        1int
    } else {
        0int
    }) + (if contains_id(s.row(Weekday::Thursday), id) {
        1int
    } else {
        0int
    }) + (if contains_id(s.row(Weekday::Friday), id) {
        1int
    } else {
        0int
    })
}

/// A list of distinct weekdays covers as many of the five weekdays as it
/// is long.
proof fn lemma_distinct_days_cover(c: Seq<Weekday>)
    requires
        c.no_duplicates(),
    ensures
        (if c.contains(Weekday::Monday) {
            1int
        } else {
            0int
        }) + (if c.contains(Weekday::Tuesday) {
            1int
        } else {
            0int
        }) + (if c.contains(Weekday::Wednesday) {
            1int
        } else {
            0int
        }) + (if c.contains(Weekday::Thursday) {
            1int
        } else {
            0int
        }) + (if c.contains(Weekday::Friday) {
            1int
        } else {
            0int
        }) == c.len(),
    decreases c.len(),
{
    if c.len() == 0 {
        assert(!c.contains(Weekday::Monday));
        assert(!c.contains(Weekday::Tuesday));
        assert(!c.contains(Weekday::Wednesday));
        assert(!c.contains(Weekday::Thursday));
        assert(!c.contains(Weekday::Friday));
    } else {
        let prefix = c.drop_last();
        let x = c.last();
        assert(prefix.no_duplicates());
        lemma_distinct_days_cover(prefix);
        assert(c =~= prefix.push(x));
        assert forall|day: Weekday| #[trigger] c.contains(day) <==> (prefix.contains(day) || x
            == day) by {
            if c.contains(day) {
                let i = choose|i: int| 0 <= i < c.len() && c[i] == day;
                if i < prefix.len() {
                    assert(prefix.contains(day));
                }
            }
            if prefix.contains(day) {
                let i = choose|i: int| 0 <= i < prefix.len() && prefix[i] == day;
                assert(c[i] == day);
            }
            if x == day {
                assert(c[c.len() - 1] == day);
            }
        }
        assert(!prefix.contains(x)) by {
            if prefix.contains(x) {
                let i = choose|i: int| 0 <= i < prefix.len() && prefix[i] == x;
                assert(c[i] == c[c.len() - 1]);
            }
        }
    }
}

/// Law: a flexible employee whose quota is 1, 2, 3 or 5 is scheduled on
/// exactly as many distinct weekdays as their quota asks.
pub proof fn lemma_quota_satisfaction(emps: Seq<Employee>, s: MonthlySchedule, k: int)
    requires
        schedule_ok(emps, s),
        0 <= k < emps.len(),
        emps[k].fixed_days@.len() == 0,
        emps[k].required_days == 1 || emps[k].required_days == 2 || emps[k].required_days == 3
            || emps[k].required_days == 5,
    ensures
        assigned_day_count(s, emps[k].id) == emps[k].required_days,
{
    let e = emps[k];
    assert(employee_assigned(e, s));
    assert(catalog_spec(e.required_days as int).len() > 0);
    let c = choose|c: Seq<Weekday>|
        #[trigger] catalog_spec(e.required_days as int).contains(c) && forall|d: Weekday|
            #[trigger] contains_id(s.row(d), e.id) <==> c.contains(d);
    let i = choose|i: int|
        0 <= i < catalog_spec(e.required_days as int).len() && catalog_spec(
            e.required_days as int,
        )[i] == c;
    lemma_catalog_combination_wf(e.required_days as int, i);
    lemma_distinct_days_cover(c);
    assert(contains_id(s.row(Weekday::Monday), e.id) <==> c.contains(Weekday::Monday));
    assert(contains_id(s.row(Weekday::Tuesday), e.id) <==> c.contains(Weekday::Tuesday));
    assert(contains_id(s.row(Weekday::Wednesday), e.id) <==> c.contains(Weekday::Wednesday));
    assert(contains_id(s.row(Weekday::Thursday), e.id) <==> c.contains(Weekday::Thursday));
    assert(contains_id(s.row(Weekday::Friday), e.id) <==> c.contains(Weekday::Friday));
}

/// Law: the catalog has a single combination for quota 3, so a flexible
/// employee with that quota is always scheduled on exactly Monday,
/// Wednesday and Friday, whatever the random draws were.
pub proof fn lemma_quota_three_deterministic(emps: Seq<Employee>, s: MonthlySchedule, k: int)
    requires
        schedule_ok(emps, s),
        0 <= k < emps.len(),
        emps[k].fixed_days@.len() == 0,
        emps[k].required_days == 3,
    ensures
        forall|d: Weekday|
            #[trigger] contains_id(s.row(d), emps[k].id) <==> (d == Weekday::Monday || d
                == Weekday::Wednesday || d == Weekday::Friday),
{
    let e = emps[k];
    assert(employee_assigned(e, s));
    let c = choose|c: Seq<Weekday>|
        #[trigger] catalog_spec(e.required_days as int).contains(c) && forall|d: Weekday|
            #[trigger] contains_id(s.row(d), e.id) <==> c.contains(d);
    let i = choose|i: int|
        0 <= i < catalog_spec(e.required_days as int).len() && catalog_spec(
            e.required_days as int,
        )[i] == c;
    assert(i == 0);
    assert(c == seq![Weekday::Monday, Weekday::Wednesday, Weekday::Friday]);
    assert forall|d: Weekday| #[trigger] contains_id(s.row(d), e.id) <==> (d == Weekday::Monday
        || d == Weekday::Wednesday || d == Weekday::Friday) by {
        assert(contains_id(s.row(d), e.id) <==> c.contains(d));
        if d == Weekday::Monday {
            assert(c[0] == d);
        } else if d == Weekday::Wednesday {
            assert(c[1] == d);
        } else if d == Weekday::Friday {
            assert(c[2] == d);
        } else {
            if c.contains(d) {
                let j = choose|j: int| 0 <= j < c.len() && c[j] == d;
            }
        }
    }
}

/// Law: the catalog has a single combination for quota 5, so a flexible
/// employee with that quota is always scheduled on all five weekdays,
/// whatever the random draws were.
pub proof fn lemma_quota_five_deterministic(emps: Seq<Employee>, s: MonthlySchedule, k: int)
    requires
        schedule_ok(emps, s),
        0 <= k < emps.len(),
        emps[k].fixed_days@.len() == 0,
        emps[k].required_days == 5,
    ensures
        forall|d: Weekday| #[trigger] contains_id(s.row(d), emps[k].id),
{
    let e = emps[k];
    assert(employee_assigned(e, s));
    let c = choose|c: Seq<Weekday>|
        #[trigger] catalog_spec(e.required_days as int).contains(c) && forall|d: Weekday|
            #[trigger] contains_id(s.row(d), e.id) <==> c.contains(d);
    let i = choose|i: int|
        0 <= i < catalog_spec(e.required_days as int).len() && catalog_spec(
            e.required_days as int,
        )[i] == c;
    assert(i == 0);
    assert(c == seq![
        Weekday::Monday,
        Weekday::Tuesday,
        Weekday::Wednesday,
        Weekday::Thursday,
        Weekday::Friday,
    ]);
    assert forall|d: Weekday| #[trigger] contains_id(s.row(d), e.id) by {
        assert(contains_id(s.row(d), e.id) <==> c.contains(d));
        match d {
            Weekday::Monday => assert(c[0] == d),
            Weekday::Tuesday => assert(c[1] == d),
            Weekday::Wednesday => assert(c[2] == d),
            Weekday::Thursday => assert(c[3] == d),
            Weekday::Friday => assert(c[4] == d),
        }
    }
}

/// How often each weekday occurs in a one-day combination.
proof fn lemma_singleton_counts(day: Weekday)
    ensures
        forall|d: Weekday| count_day(seq![day], d) == if day == d {
            1int
        } else {
            0int
        },
{
    assert(seq![day].drop_last() =~= Seq::<Weekday>::empty());
    assert(seq![day].last() == day);
    assert forall|d: Weekday| count_day(seq![day], d) == (if day == d {
        1int
    } else {
        0int
    }) by {
        assert(count_day(Seq::<Weekday>::empty(), d) == 0);
    }
}

/// What a one-day combination contributes to the repetition score.
proof fn lemma_singleton_repetition(past: PastSchedules, id: usize, day: Weekday)
    ensures
        repetition8(past, id, seq![day]) == frequency8(past, id, day),
{
    assert(seq![day].drop_last() =~= Seq::<Weekday>::empty());
    assert(seq![day].last() == day);
    assert(repetition8(past, id, Seq::<Weekday>::empty()) == 0);
}

proof fn lemma_sq_shift(x: int)
    ensures
        sq(x + 5) == sq(x) + 10 * x + 25,
{
    assert((x + 5) * (x + 5) == x * x + 10 * x + 25) by (nonlinear_arith);
}

/// Between two one-day combinations, the imbalance part of the score
/// differs exactly by fifty times the difference of the two days' current
/// head counts: the emptier day always looks better.
proof fn lemma_singleton_imbalance_diff(dc: DayCount, a: Weekday, b: Weekday)
    ensures
        imbalance25(dc, seq![a]) - imbalance25(dc, seq![b]) == 50 * (dc.count(a) - dc.count(b)),
{
    if a != b {
        lemma_singleton_counts(a);
        lemma_singleton_counts(b);
        let s = crate::scheduler::total_count(dc) + 1;
        lemma_sq_shift(5 * dc.count(a) - s);
        lemma_sq_shift(5 * dc.count(b) - s);
    }
}

/// Law (balance preference): when history penalizes no weekday, a one-day
/// combination that scores no worse than another lies on a day that is
/// currently no fuller. The selector returns a minimal-scoring
/// combination, so a flexible one-day employee without history always
/// lands on a least-loaded weekday.
pub proof fn lemma_balance_preference(
    dc: DayCount,
    past: PastSchedules,
    id: usize,
    chosen: Weekday,
    other: Weekday,
)
    requires
        forall|x: Weekday| #[trigger] frequency8(past, id, x) == 0,
        score200(dc, past, id, seq![chosen]) <= score200(dc, past, id, seq![other]),
    ensures
        dc.count(chosen) <= dc.count(other),
{
    lemma_singleton_counts(chosen);
    lemma_singleton_counts(other);
    lemma_singleton_repetition(past, id, chosen);
    lemma_singleton_repetition(past, id, other);
    lemma_singleton_imbalance_diff(dc, chosen, other);
}

/// Law (repetition avoidance): against an evenly loaded week, a weekday
/// the employee recently worked scores strictly worse as a one-day
/// combination than a weekday with no recorded history. The selector
/// returns a minimal-scoring combination, so it never picks the
/// penalized day when a fresh one is available.
pub proof fn lemma_repetition_avoidance(
    dc: DayCount,
    past: PastSchedules,
    id: usize,
    penalized: Weekday,
    fresh: Weekday,
)
    requires
        forall|x: Weekday| #[trigger] dc.count(x) == dc.count(penalized),
        frequency8(past, id, penalized) > 0,
        frequency8(past, id, fresh) == 0,
    ensures
        score200(dc, past, id, seq![fresh]) < score200(dc, past, id, seq![penalized]),
{
    lemma_singleton_counts(penalized);
    lemma_singleton_counts(fresh);
    lemma_singleton_repetition(past, id, penalized);
    lemma_singleton_repetition(past, id, fresh);
    lemma_singleton_imbalance_diff(dc, fresh, penalized);
}

/// One assignment step on a day's list, as `MonthlySchedule::assign`
/// performs it: the record is appended only if its id is absent.
pub open spec fn assign_step(row: Seq<Employee>, x: Employee) -> Seq<Employee> {
    if contains_id(row, x.id) {
        row
    } else {
        row.push(x)
    }
}

/// Law: re-applying the assignment step for an employee already assigned
/// to the day changes nothing — assigning twice equals assigning once.
pub proof fn lemma_assign_idempotent(row: Seq<Employee>, x: Employee, y: Employee)
    requires
        y.id == x.id,
    ensures
        assign_step(assign_step(row, x), y) == assign_step(row, x),
{
    if !contains_id(row, x.id) {
        assert(row.push(x)[row.len() as int].id == y.id);
        assert(contains_id(row.push(x), y.id));
    }
}

} // verus!
