//! The schedule-generation engine: fixed employees are placed first, then
//! flexible employees, grouped by quota and taken largest quota first, each
//! receiving the best-scoring legal day combination.
//!
//! A combination's score weighs two parts: the imbalance of the five
//! simulated head counts (the sum of squared deviations from their mean)
//! and a recency-weighted count of how often the employee worked each day
//! in the last two recorded months, weighted three to one. Both parts are
//! exact multiples of 1/200, so scores are held as integers in units of
//! 1/200 and compared exactly.

use vstd::prelude::*;

use crate::schema::{
    appears_as, contains_id, distinct_ids, lemma_catalog_combination_wf, pointwise_same,
    same_employee, catalog_spec, combos_view, DayCombination, DayCount, Employee,
    MonthlySchedule, PastSchedules, ScheduleGenerator, Weekday,
};

verus! {

/// The largest roster the scheduler accepts; keeps every intermediate of
/// the integer scoring within `u64`.
pub const MAX_ROSTER: usize = 100000000;

/// How often the given weekday occurs in the list.
pub open spec fn count_day(days: Seq<Weekday>, d: Weekday) -> int
    decreases days.len(),
{
    if days.len() == 0 {
        0
    } else {
        count_day(days.drop_last(), d) + if days.last() == d {
            1int
        } else {
            0int
        }
    }
}

proof fn lemma_count_day_push(s: Seq<Weekday>, a: Weekday, d: Weekday)
    ensures
        count_day(s.push(a), d) == count_day(s, d) + if a == d {
            1int
        } else {
            0int
        },
{
    assert(s.push(a).drop_last() =~= s);
}

proof fn lemma_count_day_bounds(days: Seq<Weekday>, d: Weekday)
    ensures
        0 <= count_day(days, d) <= days.len(),
    decreases days.len(),
{
    if days.len() > 0 {
        lemma_count_day_bounds(days.drop_last(), d);
    }
}

/// Every entry of the list is one of the five weekdays, so the five
/// per-day counts sum to the length of the list.
proof fn lemma_count_day_total(days: Seq<Weekday>)
    ensures
        count_day(days, Weekday::Monday) + count_day(days, Weekday::Tuesday) + count_day(
            days,
            Weekday::Wednesday,
        ) + count_day(days, Weekday::Thursday) + count_day(days, Weekday::Friday) == days.len(),
    decreases days.len(),
{
    if days.len() > 0 {
        lemma_count_day_total(days.drop_last());
    }
}

/// The sum of all five recorded head counts.
pub open spec fn total_count(dc: DayCount) -> int {
    dc.count(Weekday::Monday) + dc.count(Weekday::Tuesday) + dc.count(Weekday::Wednesday)
        + dc.count(Weekday::Thursday) + dc.count(Weekday::Friday)
}

/// The head count of one weekday after tentatively applying the
/// combination to the current counts.
pub open spec fn sim_load(dc: DayCount, days: Seq<Weekday>, d: Weekday) -> int {
    dc.count(d) + count_day(days, d)
}

pub open spec fn sq(x: int) -> int {
    x * x
}

/// The balance part of a combination's score, in units of 1/25: the sum of
/// squared deviations of the five simulated head counts from their mean,
/// scaled by 25 to stay an integer (each deviation is scaled by 5).
pub open spec fn imbalance25(dc: DayCount, days: Seq<Weekday>) -> int {
    let s = total_count(dc) + days.len();
    sq(5 * sim_load(dc, days, Weekday::Monday) - s) + sq(
        5 * sim_load(dc, days, Weekday::Tuesday) - s,
    ) + sq(5 * sim_load(dc, days, Weekday::Wednesday) - s) + sq(
        5 * sim_load(dc, days, Weekday::Thursday) - s,
    ) + sq(5 * sim_load(dc, days, Weekday::Friday) - s)
}

/// The months considered for the repetition score: at most the two most
/// recent recorded months (the lookback limit), oldest first.
pub open spec fn kept_months(months: Seq<Vec<Weekday>>) -> Seq<Vec<Weekday>> {
    if months.len() > 2 {
        months.subrange(months.len() - 2, months.len() as int)
    } else {
        months
    }
}

/// The repetition frequency one history contributes to a weekday, in units
/// of 1/8. With n kept months, the i-th from the oldest kept has weight
/// 1 - (i/n) * 3/4: a single month weighs 1 (8/8); of two months the older
/// weighs 1 (8/8) and the newer 5/8.
pub open spec fn month_frequency8(months: Seq<Vec<Weekday>>, d: Weekday) -> int {
    let kept = kept_months(months);
    (if kept.len() >= 1 && kept[0]@.contains(d) {
        8int
    } else {
        0int
    }) + (if kept.len() >= 2 && kept[1]@.contains(d) {
        5int
    } else {
        0int
    })
}

/// The repetition frequency of one weekday for one employee, in units of
/// 1/8; an employee without recorded history scores zero everywhere.
pub open spec fn frequency8(past: PastSchedules, id: usize, d: Weekday) -> int {
    match past.months_of(id) {
        Option::Some(months) => month_frequency8(months, d),
        Option::None => 0,
    }
}

/// The repetition part of a combination's score, in units of 1/8: the sum
/// of the employee's day frequencies over the combination's days.
pub open spec fn repetition8(past: PastSchedules, id: usize, days: Seq<Weekday>) -> int
    decreases days.len(),
{
    if days.len() == 0 {
        0
    } else {
        repetition8(past, id, days.drop_last()) + frequency8(past, id, days.last())
    }
}

/// A combination's total score in units of 1/200: the imbalance (units of
/// 1/25, scaled by 8) plus three times the repetition score (units of 1/8,
/// scaled by 25, so 3 * 25 = 75). Lower is better.
pub open spec fn score200(dc: DayCount, past: PastSchedules, id: usize, days: Seq<Weekday>) -> int {
    8 * imbalance25(dc, days) + 75 * repetition8(past, id, days)
}

proof fn lemma_frequency8_bounds(past: PastSchedules, id: usize, d: Weekday)
    ensures
        0 <= frequency8(past, id, d) <= 13,
{
}

/// Whether the list holds the given weekday.
fn contains_day(v: &Vec<Weekday>, d: Weekday) -> (r: bool)
    ensures
        r == v@.contains(d),
{
    let mut i: usize = 0;
    while i < v.len()
        invariant
            i <= v.len(),
            forall|k: int| 0 <= k < i ==> v@[k] != d,
        decreases v.len() - i,
    {
        if v[i] == d {
            return true;
        }
        i = i + 1;
    }
    false
}

/// How often the given weekday occurs in the list.
fn count_day_exec(days: &Vec<Weekday>, d: Weekday) -> (c: usize)
    ensures
        c as int == count_day(days@, d),
        c <= days@.len(),
{
    let mut c: usize = 0;
    let mut i: usize = 0;
    proof {
        assert(days@.subrange(0, 0) =~= Seq::<Weekday>::empty());
    }
    while i < days.len()
        invariant
            i <= days.len(),
            c as int == count_day(days@.subrange(0, i as int), d),
            c <= i,
        decreases days.len() - i,
    {
        proof {
            assert(days@.subrange(0, i as int + 1) =~= days@.subrange(0, i as int).push(
                days@[i as int],
            ));
            lemma_count_day_push(days@.subrange(0, i as int), days@[i as int], d);
        }
        if days[i] == d {
            c = c + 1;
        }
        i = i + 1;
    }
    proof {
        assert(days@.subrange(0, days@.len() as int) =~= days@);
    }
    c
}

/// The per-weekday repetition frequencies of one employee, in units of 1/8.
struct DayFrequencies {
    monday: u64,
    tuesday: u64,
    wednesday: u64,
    thursday: u64,
    friday: u64,
}

spec fn freq_of(f: DayFrequencies, d: Weekday) -> int {
    match d {
        Weekday::Monday => f.monday as int,
        Weekday::Tuesday => f.tuesday as int,
        Weekday::Wednesday => f.wednesday as int,
        Weekday::Thursday => f.thursday as int,
        Weekday::Friday => f.friday as int,
    }
}

fn freq_get(f: &DayFrequencies, d: Weekday) -> (r: u64)
    ensures
        r as int == freq_of(*f, d),
{
    match d {
        Weekday::Monday => f.monday,
        Weekday::Tuesday => f.tuesday,
        Weekday::Wednesday => f.wednesday,
        Weekday::Thursday => f.thursday,
        Weekday::Friday => f.friday,
    }
}

/// The frequency one recorded history contributes to one weekday.
fn month_frequency(months: &Vec<Vec<Weekday>>, d: Weekday) -> (r: u64)
    ensures
        r as int == month_frequency8(months@, d),
{
    let n = months.len();
    let start = if n > 2 {
        n - 2
    } else {
        0
    };
    proof {
        if n > 2 {
            assert(kept_months(months@) =~= months@.subrange(n - 2, n as int));
        }
    }
    let mut r: u64 = 0;
    if start < n {
        if contains_day(&months[start], d) {
            r = r + 8;
        }
        if start + 1 < n {
            if contains_day(&months[start + 1], d) {
                r = r + 5;
            }
        }
    }
    r
}

/// Build the repetition-frequency table for one employee from the recorded
/// past schedules.
fn compute_past_day_frequencies(past: &PastSchedules, id: usize) -> (f: DayFrequencies)
    ensures
        forall|d: Weekday| #[trigger] freq_of(f, d) == frequency8(*past, id, d),
{
    match past.get(id) {
        Option::Some(months) => {
            let f = DayFrequencies {
                monday: month_frequency(months, Weekday::Monday),
                tuesday: month_frequency(months, Weekday::Tuesday),
                wednesday: month_frequency(months, Weekday::Wednesday),
                thursday: month_frequency(months, Weekday::Thursday),
                friday: month_frequency(months, Weekday::Friday),
            };
            f
        },
        Option::None => DayFrequencies { monday: 0, tuesday: 0, wednesday: 0, thursday: 0, friday: 0 },
    }
}

/// The summed table frequencies over a combination's days; matches
/// `repetition8` whenever the table matches `frequency8`.
spec fn freq_total(f: DayFrequencies, days: Seq<Weekday>) -> int
    decreases days.len(),
{
    if days.len() == 0 {
        0
    } else {
        freq_total(f, days.drop_last()) + freq_of(f, days.last())
    }
}

proof fn lemma_freq_total_matches(
    f: DayFrequencies,
    past: PastSchedules,
    id: usize,
    days: Seq<Weekday>,
)
    requires
        forall|d: Weekday| #[trigger] freq_of(f, d) == frequency8(past, id, d),
    ensures
        freq_total(f, days) == repetition8(past, id, days),
    decreases days.len(),
{
    if days.len() > 0 {
        lemma_freq_total_matches(f, past, id, days.drop_last());
    }
}

/// The squared deviation of one simulated head count, scaled by 5: the
/// square of (five times the load minus the total).
fn squared_deviation(l: u64, s: u64) -> (r: u64)
    requires
        l <= MAX_ROSTER as u64 + 5,
        s <= 5 * (MAX_ROSTER as u64) + 25,
    ensures
        r as int == sq(5 * (l as int) - s as int),
        r <= 250000025000000625,
{
    let a: u64 = 5 * l;
    let d: u64 = if a >= s {
        a - s
    } else {
        s - a
    };
    proof {
        let x = 5 * (l as int) - (s as int);
        assert(sq(x) == sq(-x)) by (nonlinear_arith);
        assert((d as int) * (d as int) <= 250000025000000625) by (nonlinear_arith)
            requires
                0 <= d as int <= 500000025,
        ;
    }
    d * d
}

/// The exact score of one candidate combination against the current head
/// counts and a frequency table, in units of 1/200.
fn score_combination(day_counts: &DayCount, days: &Vec<Weekday>, f: &DayFrequencies) -> (s: u64)
    requires
        days@.len() <= 5,
        forall|d: Weekday| 0 <= #[trigger] day_counts.count(d) <= MAX_ROSTER,
        forall|d: Weekday| 0 <= #[trigger] freq_of(*f, d) <= 13,
    ensures
        s as int == 8 * imbalance25(*day_counts, days@) + 75 * freq_total(*f, days@),
{
    proof {
        lemma_count_day_bounds(days@, Weekday::Monday);
        lemma_count_day_bounds(days@, Weekday::Tuesday);
        lemma_count_day_bounds(days@, Weekday::Wednesday);
        lemma_count_day_bounds(days@, Weekday::Thursday);
        lemma_count_day_bounds(days@, Weekday::Friday);
    }
    let l0: u64 = day_counts.get(Weekday::Monday) as u64 + count_day_exec(days, Weekday::Monday)
        as u64;
    let l1: u64 = day_counts.get(Weekday::Tuesday) as u64 + count_day_exec(days, Weekday::Tuesday)
        as u64;
    let l2: u64 = day_counts.get(Weekday::Wednesday) as u64 + count_day_exec(
        days,
        Weekday::Wednesday,
    ) as u64;
    let l3: u64 = day_counts.get(Weekday::Thursday) as u64 + count_day_exec(
        days,
        Weekday::Thursday,
    ) as u64;
    let l4: u64 = day_counts.get(Weekday::Friday) as u64 + count_day_exec(days, Weekday::Friday)
        as u64;
    let s: u64 = l0 + l1 + l2 + l3 + l4;
    proof {
        lemma_count_day_total(days@);
        assert(s as int == total_count(*day_counts) + days@.len());
    }
    let imb: u64 = squared_deviation(l0, s) + squared_deviation(l1, s) + squared_deviation(l2, s)
        + squared_deviation(l3, s) + squared_deviation(l4, s);

    let mut rep: u64 = 0;
    let mut i: usize = 0;
    proof {
        assert(days@.subrange(0, 0) =~= Seq::<Weekday>::empty());
    }
    while i < days.len()
        invariant
            i <= days.len(),
            days@.len() <= 5,
            forall|d: Weekday| 0 <= #[trigger] freq_of(*f, d) <= 13,
            rep as int == freq_total(*f, days@.subrange(0, i as int)),
            rep <= 13 * i,
        decreases days.len() - i,
    {
        proof {
            let prefix = days@.subrange(0, i as int);
            assert(days@.subrange(0, i as int + 1) =~= prefix.push(days@[i as int]));
            assert(prefix.push(days@[i as int]).drop_last() =~= prefix);
        }
        rep = rep + freq_get(f, days[i]);
        i = i + 1;
    }
    proof {
        assert(days@.subrange(0, days@.len() as int) =~= days@);
    }
    8 * imb + 75 * rep
}

/// Relies on rand::rng and rand::seq::SliceRandom::shuffle: shuffle permutes
/// the slice in place, picking a permutation uniformly at random; it neither
/// adds, drops nor alters an element, so the multiset of elements (and with
/// it the length) is unchanged, whatever permutation was drawn.
#[verifier::external_body]
fn shuffle_in_place<T>(v: &mut Vec<T>)
    ensures
        final(v)@.to_multiset() == old(v)@.to_multiset(),
        final(v)@.len() == old(v)@.len(),
{
    let mut rng = rand::rng();
    rand::seq::SliceRandom::shuffle(v.as_mut_slice(), &mut rng);
}

/// Two lists with the same multiset of elements hold the same values:
/// every element of one appears somewhere in the other.
proof fn lemma_multiset_element_exchange<T>(s1: Seq<T>, s2: Seq<T>)
    requires
        s1.to_multiset() == s2.to_multiset(),
    ensures
        forall|i: int| 0 <= i < s2.len() ==> s1.contains(#[trigger] s2[i]),
{
    broadcast use vstd::seq_lib::group_to_multiset_ensures;

    assert forall|i: int| 0 <= i < s2.len() implies s1.contains(#[trigger] s2[i]) by {
        assert(s2.contains(s2[i]));
        assert(s2.to_multiset().count(s2[i]) > 0);
    }
}

/// The weekday lists of a shuffled copy are, element for element, weekday
/// lists found in the list that was copied, and a bound or a score
/// minimality over one carries to the other.
proof fn lemma_shuffle_days_transfer(
    orig: Seq<DayCombination>,
    before: Seq<DayCombination>,
    after: Seq<DayCombination>,
    dc: DayCount,
    past: PastSchedules,
    id: usize,
    best_days: Seq<Weekday>,
    bs: int,
)
    requires
        before.len() == orig.len(),
        forall|i: int| 0 <= i < before.len() ==> #[trigger] before[i].days@ == orig[i].days@,
        before.to_multiset() == after.to_multiset(),
        exists|k: int| 0 <= k < after.len() && best_days == #[trigger] after[k].days@,
        forall|k: int|
            0 <= k < after.len() ==> bs <= score200(dc, past, id, #[trigger] after[k].days@),
    ensures
        exists|i: int| 0 <= i < orig.len() && best_days == #[trigger] orig[i].days@,
        forall|i: int|
            0 <= i < orig.len() ==> bs <= score200(dc, past, id, #[trigger] orig[i].days@),
{
    lemma_multiset_element_exchange(before, after);
    lemma_multiset_element_exchange(after, before);
    let k = choose|k: int| 0 <= k < after.len() && best_days == #[trigger] after[k].days@;
    assert(before.contains(after[k]));
    let j = choose|j: int| 0 <= j < before.len() && before[j] == after[k];
    assert(best_days == orig[j].days@);
    assert forall|i: int| 0 <= i < orig.len() implies bs <= score200(
        dc,
        past,
        id,
        #[trigger] orig[i].days@,
    ) by {
        assert(after.contains(before[i]));
        let j2 = choose|j2: int| 0 <= j2 < after.len() && after[j2] == before[i];
        assert(bs <= score200(dc, past, id, after[j2].days@));
    }
}

/// Every weekday list of a shuffled copy stays within five days when every
/// list it was copied from did.
proof fn lemma_shuffle_len_transfer(before: Seq<DayCombination>, after: Seq<DayCombination>)
    requires
        before.to_multiset() == after.to_multiset(),
        forall|i: int| 0 <= i < before.len() ==> #[trigger] before[i].days@.len() <= 5,
    ensures
        forall|i: int| 0 <= i < after.len() ==> #[trigger] after[i].days@.len() <= 5,
{
    lemma_multiset_element_exchange(before, after);
    assert forall|i: int| 0 <= i < after.len() implies #[trigger] after[i].days@.len() <= 5 by {
        assert(before.contains(after[i]));
        let j = choose|j: int| 0 <= j < before.len() && before[j] == after[i];
        assert(before[j].days@.len() <= 5);
    }
}

/// The combination selector: of all candidate combinations, return one with
/// a minimal score against the current head counts and the employee's
/// history. Ties are broken by a random shuffle, so any minimal-scoring
/// candidate may be returned, and only such a candidate.
pub fn find_best_day_combination(
    available_combos: &Vec<DayCombination>,
    day_counts: &DayCount,
    employee: &Employee,
    past_schedules: &PastSchedules,
) -> (best: DayCombination)
    requires
        available_combos@.len() > 0,
        forall|i: int|
            0 <= i < available_combos@.len() ==> #[trigger] available_combos@[i].days@.len() <= 5,
        forall|d: Weekday| 0 <= #[trigger] day_counts.count(d) <= MAX_ROSTER,
    ensures
        exists|i: int|
            0 <= i < available_combos@.len() && best.days@ == #[trigger] available_combos@[
                i
            ].days@,
        forall|i: int|
            0 <= i < available_combos@.len() ==> score200(
                *day_counts,
                *past_schedules,
                employee.id,
                best.days@,
            ) <= score200(
                *day_counts,
                *past_schedules,
                employee.id,
                #[trigger] available_combos@[i].days@,
            ),
{
    let mut shuffled = available_combos.clone();
    proof {
        assert forall|i: int| 0 <= i < shuffled@.len() implies #[trigger] shuffled@[i].days@
            == available_combos@[i].days@ by {
            assert(cloned::<DayCombination>(available_combos@[i], shuffled@[i]));
        }
    }
    let ghost before = shuffled@;
    shuffle_in_place(&mut shuffled);
    proof {
        lemma_shuffle_len_transfer(before, shuffled@);
    }

    let f = compute_past_day_frequencies(past_schedules, employee.id);
    let ghost dc = *day_counts;
    let ghost past = *past_schedules;
    let ghost id = employee.id;
    proof {
        assert forall|d: Weekday| 0 <= #[trigger] freq_of(f, d) <= 13 by {
            lemma_frequency8_bounds(past, id, d);
        }
    }

    let mut best = shuffled[0].clone();
    let s0 = score_combination(day_counts, &best.days, &f);
    proof {
        lemma_freq_total_matches(f, past, id, best.days@);
    }
    let mut best_score = s0;
    let mut i: usize = 1;
    while i < shuffled.len()
        invariant
            1 <= i <= shuffled@.len(),
            forall|d: Weekday| 0 <= #[trigger] dc.count(d) <= MAX_ROSTER,
            *day_counts == dc,
            *past_schedules == past,
            id == employee.id,
            forall|d: Weekday| #[trigger] freq_of(f, d) == frequency8(past, id, d),
            forall|d: Weekday| 0 <= #[trigger] freq_of(f, d) <= 13,
            forall|k: int| 0 <= k < shuffled@.len() ==> #[trigger] shuffled@[k].days@.len() <= 5,
            exists|k: int|
                0 <= k < shuffled@.len() && best.days@ == #[trigger] shuffled@[k].days@,
            best_score as int == score200(dc, past, id, best.days@),
            forall|k: int|
                0 <= k < i ==> best_score as int <= score200(
                    dc,
                    past,
                    id,
                    #[trigger] shuffled@[k].days@,
                ),
        decreases shuffled@.len() - i,
    {
        let s = score_combination(day_counts, &shuffled[i].days, &f);
        proof {
            lemma_freq_total_matches(f, past, id, shuffled@[i as int].days@);
        }
        if s < best_score {
            best = shuffled[i].clone();
            best_score = s;
        }
        i = i + 1;
    }

    proof {
        lemma_shuffle_days_transfer(
            available_combos@,
            before,
            shuffled@,
            dc,
            past,
            id,
            best.days@,
            best_score as int,
        );
    }
    best
}

/// An employee with an empty fixed-day list is assigned by quota.
pub open spec fn is_flexible(e: Employee) -> bool {
    e.fixed_days@.len() == 0
}

/// The flexible employees of a roster, in roster order.
pub open spec fn flex_filter(emps: Seq<Employee>) -> Seq<Employee> {
    emps.filter(|e: Employee| e.fixed_days@.len() == 0)
}

/// The fixed-day employees of a roster, in roster order.
pub open spec fn fixed_filter(emps: Seq<Employee>) -> Seq<Employee> {
    emps.filter(|e: Employee| e.fixed_days@.len() > 0)
}

/// Some fixed-day employee of the roster carries this id and must work the
/// given weekday.
pub open spec fn fixed_assigned(emps: Seq<Employee>, d: Weekday, id: usize) -> bool {
    exists|k: int|
        0 <= k < emps.len() && #[trigger] emps[k].id == id && emps[k].fixed_days@.len() > 0
            && emps[k].fixed_days@.contains(d)
}

pub(crate) proof fn lemma_contains_id_push(row: Seq<Employee>, x: Employee, id: usize)
    ensures
        contains_id(row.push(x), id) <==> (contains_id(row, id) || x.id == id),
{
    if contains_id(row, id) {
        let i = choose|i: int| 0 <= i < row.len() && #[trigger] row[i].id == id;
        assert(row.push(x)[i].id == id);
    }
    if x.id == id {
        assert(row.push(x)[row.len() as int].id == id);
    }
    if contains_id(row.push(x), id) {
        let i = choose|i: int| 0 <= i < row.push(x).len() && #[trigger] row.push(x)[i].id == id;
        if i < row.len() {
            assert(row[i].id == id);
        }
    }
}

proof fn lemma_distinct_ids_push(row: Seq<Employee>, x: Employee)
    requires
        distinct_ids(row),
        !contains_id(row, x.id),
    ensures
        distinct_ids(row.push(x)),
{
    assert forall|i: int, j: int|
        0 <= i < row.push(x).len() && 0 <= j < row.push(x).len() && i != j implies row.push(
        x,
    )[i].id != row.push(x)[j].id by {
        if i < row.len() && j < row.len() {
        } else if i < row.len() {
            assert(row[i].id != x.id);
        } else if j < row.len() {
            assert(row[j].id != x.id);
        }
    }
}

/// One filtering step: pushing an element extends the filtered list by the
/// element exactly when it satisfies the predicate.
proof fn lemma_filter_push<A>(s: Seq<A>, x: A, pred: spec_fn(A) -> bool)
    ensures
        s.push(x).filter(pred) == if pred(x) {
            s.filter(pred).push(x)
        } else {
            s.filter(pred)
        },
{
    reveal(Seq::filter);
    assert(s.push(x).drop_last() =~= s);
    assert(s.push(x).last() == x);
}

/// Filtering a roster with distinct ids keeps the ids distinct, and every
/// kept record stands somewhere in the roster.
proof fn lemma_filter_distinct_ids(s: Seq<Employee>, pred: spec_fn(Employee) -> bool)
    requires
        distinct_ids(s),
    ensures
        distinct_ids(s.filter(pred)),
        forall|i: int|
            0 <= i < s.filter(pred).len() ==> exists|k: int|
                0 <= k < s.len() && s[k] == #[trigger] s.filter(pred)[i],
    decreases s.len(),
{
    reveal(Seq::filter);
    if s.len() > 0 {
        let prefix = s.drop_last();
        let x = s.last();
        assert(distinct_ids(prefix));
        lemma_filter_distinct_ids(prefix, pred);
        assert forall|i: int|
            0 <= i < s.filter(pred).len() implies exists|k: int|
            0 <= k < s.len() && s[k] == #[trigger] s.filter(pred)[i] by {
            if i < prefix.filter(pred).len() {
                let k = choose|k: int|
                    0 <= k < prefix.len() && prefix[k] == #[trigger] prefix.filter(pred)[i];
                assert(s[k] == s.filter(pred)[i]);
            } else {
                assert(s.filter(pred)[i] == x);
                assert(s[s.len() - 1] == s.filter(pred)[i]);
            }
        }
        if pred(x) {
            assert(s.filter(pred) == prefix.filter(pred).push(x));
            assert forall|i: int, j: int|
                0 <= i < s.filter(pred).len() && 0 <= j < s.filter(pred).len() && i
                    != j implies s.filter(pred)[i].id != s.filter(pred)[j].id by {
                let sub = prefix.filter(pred);
                if i < sub.len() && j < sub.len() {
                } else if i < sub.len() {
                    let k = choose|k: int| 0 <= k < prefix.len() && prefix[k] == #[trigger] sub[i];
                    assert(s[k].id != x.id);
                } else if j < sub.len() {
                    let k = choose|k: int| 0 <= k < prefix.len() && prefix[k] == #[trigger] sub[j];
                    assert(s[k].id != x.id);
                }
            }
        }
    }
}

/// Position-by-position equal employee data keeps ids distinct.
proof fn lemma_pointwise_distinct(a: Seq<Employee>, b: Seq<Employee>)
    requires
        pointwise_same(a, b),
        distinct_ids(b),
    ensures
        distinct_ids(a),
{
    assert forall|i: int, j: int|
        0 <= i < a.len() && 0 <= j < a.len() && i != j implies a[i].id != a[j].id by {
        assert(same_employee(a[i], b[i]));
        assert(same_employee(a[j], b[j]));
    }
}

/// Every employee is either flexible or fixed, so the two filtered lists
/// together are exactly as long as the roster.
proof fn lemma_flex_fixed_partition(s: Seq<Employee>)
    ensures
        flex_filter(s).len() + fixed_filter(s).len() == s.len(),
    decreases s.len(),
{
    reveal(Seq::filter);
    if s.len() > 0 {
        lemma_flex_fixed_partition(s.drop_last());
    }
}

/// Assign one employee to every day of the list, skipping days where an
/// entry with the employee's id is already present; raise the head count
/// once per day actually inserted. Afterwards the employee stands on
/// exactly the listed days, once each; nothing else changes.
fn assign_employee_days(
    schedule: &mut MonthlySchedule,
    day_counts: &mut DayCount,
    employee: &Employee,
    days: &Vec<Weekday>,
)
    requires
        forall|d: Weekday| !contains_id(#[trigger] old(schedule).row(d), employee.id),
        forall|d: Weekday| distinct_ids(#[trigger] old(schedule).row(d)),
        forall|d: Weekday| #[trigger] old(day_counts).count(d) == old(schedule).row(d).len(),
        forall|d: Weekday| #[trigger] old(schedule).row(d).len() < MAX_ROSTER,
    ensures
        forall|d: Weekday| #[trigger] contains_id(final(schedule).row(d), employee.id) <==> days@.contains(d),
        forall|d: Weekday, id: usize|
            id != employee.id ==> (#[trigger] contains_id(final(schedule).row(d), id)
                <==> contains_id(old(schedule).row(d), id)),
        forall|d: Weekday| distinct_ids(#[trigger] final(schedule).row(d)),
        forall|d: Weekday| #[trigger] final(day_counts).count(d) == final(schedule).row(d).len(),
        forall|d: Weekday| #[trigger] final(schedule).row(d).len() <= old(schedule).row(d).len() + 1,
        forall|d: Weekday| old(schedule).row(d).is_prefix_of(#[trigger] final(schedule).row(d)),
        forall|d: Weekday, j: int|
            old(schedule).row(d).len() <= j < final(schedule).row(d).len() ==> same_employee(
                #[trigger] final(schedule).row(d)[j],
                *employee,
            ),
{
    let ghost s0 = *old(schedule);
    let mut j: usize = 0;
    proof {
        assert(days@.subrange(0, 0) =~= Seq::<Weekday>::empty());
        assert forall|d: Weekday| #[trigger] s0.row(d).is_prefix_of(s0.row(d)) by {
            assert(s0.row(d).subrange(0, s0.row(d).len() as int) =~= s0.row(d));
        }
    }
    while j < days.len()
        invariant
            j <= days.len(),
            forall|d: Weekday| #[trigger] contains_id(schedule.row(d), employee.id) <==> days@
                .subrange(0, j as int).contains(d),
            forall|d: Weekday, id: usize|
                id != employee.id ==> (#[trigger] contains_id(schedule.row(d), id)
                    <==> contains_id(s0.row(d), id)),
            forall|d: Weekday| distinct_ids(#[trigger] schedule.row(d)),
            forall|d: Weekday| #[trigger] day_counts.count(d) == schedule.row(d).len(),
            forall|d: Weekday| #[trigger] schedule.row(d).len() <= s0.row(d).len() + 1,
            forall|d: Weekday| s0.row(d).len() < MAX_ROSTER,
            forall|d: Weekday| s0.row(d).is_prefix_of(#[trigger] schedule.row(d)),
            forall|d: Weekday, jj: int|
                s0.row(d).len() <= jj < schedule.row(d).len() ==> same_employee(
                    #[trigger] schedule.row(d)[jj],
                    *employee,
                ),
        decreases days.len() - j,
    {
        let d = days[j];
        let ghost before = *schedule;
        let pushed = schedule.assign(d, employee);
        if pushed {
            day_counts.increment(d);
        }
        proof {
            let prefix = days@.subrange(0, j as int);
            assert(days@.subrange(0, j as int + 1) =~= prefix.push(d));
            if pushed {
                let x = schedule.row(d).last();
                assert(schedule.row(d) =~= before.row(d).push(x));
                // the employee was still absent from this row, so nothing
                // had been appended to it yet in this call
                assert(before.row(d).len() == s0.row(d).len()) by {
                    if before.row(d).len() > s0.row(d).len() {
                        let last = before.row(d).len() - 1;
                        assert(same_employee(before.row(d)[last], *employee));
                        assert(0 <= last < before.row(d).len() && before.row(d)[last].id
                            == employee.id);
                        assert(contains_id(before.row(d), employee.id));
                    }
                }
                assert forall|id: usize| true implies (#[trigger] contains_id(schedule.row(d), id)
                    <==> (contains_id(before.row(d), id) || x.id == id)) by {
                    lemma_contains_id_push(before.row(d), x, id);
                }
                lemma_distinct_ids_push(before.row(d), x);
                assert(s0.row(d).is_prefix_of(schedule.row(d))) by {
                    assert(schedule.row(d).subrange(0, s0.row(d).len() as int) =~= before.row(
                        d,
                    ).subrange(0, s0.row(d).len() as int));
                }
            }
            // with or without a push, the employee now stands on the day
            assert forall|d2: Weekday| #[trigger] contains_id(schedule.row(d2), employee.id)
                <==> prefix.push(d).contains(d2) by {
                if prefix.push(d).contains(d2) {
                    let w = choose|w: int|
                        0 <= w < prefix.push(d).len() && prefix.push(d)[w] == d2;
                    if w < prefix.len() {
                        assert(prefix.contains(d2));
                    }
                }
                if contains_id(schedule.row(d2), employee.id) {
                    if d2 != d {
                        assert(prefix.contains(d2));
                        assert(prefix.push(d)[choose|w: int|
                            0 <= w < prefix.len() && prefix[w] == d2] == d2);
                    } else {
                        assert(prefix.push(d)[prefix.len() as int] == d2);
                    }
                } else {
                    if prefix.push(d).contains(d2) {
                        assert(d2 != d);
                        assert(prefix.contains(d2));
                    }
                }
            }
        }
        j = j + 1;
    }
    proof {
        assert(days@.subrange(0, days@.len() as int) =~= days@);
    }
}

proof fn lemma_fixed_assigned_push(emps: Seq<Employee>, x: Employee, d: Weekday, id: usize)
    ensures
        fixed_assigned(emps.push(x), d, id) <==> (fixed_assigned(emps, d, id) || (x.id == id
            && x.fixed_days@.len() > 0 && x.fixed_days@.contains(d))),
{
    if fixed_assigned(emps, d, id) {
        let k = choose|k: int|
            0 <= k < emps.len() && #[trigger] emps[k].id == id && emps[k].fixed_days@.len() > 0
                && emps[k].fixed_days@.contains(d);
        assert(emps.push(x)[k].id == id && emps.push(x)[k].fixed_days@.len() > 0 && emps.push(
            x,
        )[k].fixed_days@.contains(d));
    }
    if x.id == id && x.fixed_days@.len() > 0 && x.fixed_days@.contains(d) {
        assert(emps.push(x)[emps.len() as int].id == id);
    }
    if fixed_assigned(emps.push(x), d, id) {
        let k = choose|k: int|
            0 <= k < emps.push(x).len() && #[trigger] emps.push(x)[k].id == id && emps.push(
                x,
            )[k].fixed_days@.len() > 0 && emps.push(x)[k].fixed_days@.contains(d);
        if k < emps.len() {
            assert(emps[k].id == id && emps[k].fixed_days@.len() > 0 && emps[k].fixed_days@
                .contains(d));
        }
    }
}

/// Appending a record to a roster keeps everything that appeared in it.
proof fn lemma_appears_as_extend(x: Employee, emps: Seq<Employee>, e: Employee)
    requires
        appears_as(x, emps),
    ensures
        appears_as(x, emps.push(e)),
{
    let k = choose|k: int| 0 <= k < emps.len() && same_employee(x, #[trigger] emps[k]);
    assert(emps.push(e)[k] == emps[k]);
    assert(same_employee(x, emps.push(e)[k]));
}

/// Split the roster into its flexible part and its fixed-day part, place
/// every fixed-day employee on each of their fixed weekdays (once each),
/// and raise the head counts accordingly. Returns (flexible, fixed), both
/// in roster order.
pub fn process_fixed_schedules(
    employees: &Vec<Employee>,
    day_counts: &mut DayCount,
    schedule: &mut MonthlySchedule,
) -> (r: (Vec<Employee>, Vec<Employee>))
    requires
        distinct_ids(employees@),
        employees@.len() <= MAX_ROSTER,
        forall|d: Weekday| #[trigger] old(schedule).row(d).len() == 0,
        forall|d: Weekday| #[trigger] old(day_counts).count(d) == 0,
    ensures
        pointwise_same(r.0@, flex_filter(employees@)),
        pointwise_same(r.1@, fixed_filter(employees@)),
        forall|d: Weekday| distinct_ids(#[trigger] final(schedule).row(d)),
        forall|d: Weekday| #[trigger] final(day_counts).count(d) == final(schedule).row(d).len(),
        forall|d: Weekday| #[trigger] final(schedule).row(d).len() <= fixed_filter(employees@).len(),
        forall|d: Weekday, id: usize|
            #[trigger] contains_id(final(schedule).row(d), id) <==> fixed_assigned(
                employees@,
                d,
                id,
            ),
        forall|d: Weekday, j: int|
            0 <= j < final(schedule).row(d).len() ==> appears_as(
                #[trigger] final(schedule).row(d)[j],
                employees@,
            ),
{
    let mut flexible_employees: Vec<Employee> = Vec::new();
    let mut fixed_employees: Vec<Employee> = Vec::new();
    let mut i: usize = 0;
    proof {
        assert(employees@.subrange(0, 0) =~= Seq::<Employee>::empty());
        reveal(Seq::filter);
    }
    while i < employees.len()
        invariant
            i <= employees@.len(),
            distinct_ids(employees@),
            employees@.len() <= MAX_ROSTER,
            pointwise_same(flexible_employees@, flex_filter(employees@.subrange(0, i as int))),
            pointwise_same(fixed_employees@, fixed_filter(employees@.subrange(0, i as int))),
            forall|d: Weekday| distinct_ids(#[trigger] schedule.row(d)),
            forall|d: Weekday| #[trigger] day_counts.count(d) == schedule.row(d).len(),
            forall|d: Weekday| #[trigger] schedule.row(d).len() <= fixed_filter(
                employees@.subrange(0, i as int),
            ).len(),
            forall|d: Weekday, id: usize|
                #[trigger] contains_id(schedule.row(d), id) <==> fixed_assigned(
                    employees@.subrange(0, i as int),
                    d,
                    id,
                ),
            forall|d: Weekday, j: int|
                0 <= j < schedule.row(d).len() ==> appears_as(
                    #[trigger] schedule.row(d)[j],
                    employees@.subrange(0, i as int),
                ),
        decreases employees@.len() - i,
    {
        let ghost prefix = employees@.subrange(0, i as int);
        let ghost e_spec = employees@[i as int];
        proof {
            assert(employees@.subrange(0, i as int + 1) =~= prefix.push(e_spec));
            lemma_filter_push(
                prefix,
                e_spec,
                |e: Employee| e.fixed_days@.len() == 0,
            );
            lemma_filter_push(
                prefix,
                e_spec,
                |e: Employee| e.fixed_days@.len() > 0,
            );
            assert forall|d: Weekday, id: usize| true implies (fixed_assigned(
                prefix.push(e_spec),
                d,
                id,
            ) <==> (fixed_assigned(prefix, d, id) || (e_spec.id == id && e_spec.fixed_days@.len()
                > 0 && e_spec.fixed_days@.contains(d)))) by {
                lemma_fixed_assigned_push(prefix, e_spec, d, id);
            }
        }
        if employees[i].fixed_days.len() > 0 {
            let ghost before = *schedule;
            proof {
                // the employee's id is on no row yet: only fixed employees of
                // the strict prefix are placed, and ids are distinct
                assert forall|d: Weekday| !contains_id(
                    #[trigger] schedule.row(d),
                    e_spec.id,
                ) by {
                    if contains_id(schedule.row(d), e_spec.id) {
                        let k = choose|k: int|
                            0 <= k < prefix.len() && #[trigger] prefix[k].id == e_spec.id
                                && prefix[k].fixed_days@.len() > 0 && prefix[k].fixed_days@
                                .contains(d);
                        assert(employees@[k].id == employees@[i as int].id);
                    }
                }
                assert forall|d: Weekday| #[trigger] schedule.row(d).len() < MAX_ROSTER by {
                    lemma_filter_distinct_ids(prefix, |e: Employee| e.fixed_days@.len() > 0);
                    assert(fixed_filter(prefix).len() <= prefix.len()) by {
                        prefix.lemma_filter_len(|e: Employee| e.fixed_days@.len() > 0);
                    }
                }
            }
            let employee = &employees[i];
            assign_employee_days(schedule, day_counts, employee, &employee.fixed_days);
            fixed_employees.push(employee.clone());
            proof {
                // membership on every row now matches the extended prefix
                assert forall|d: Weekday, id: usize| #[trigger] contains_id(schedule.row(d), id)
                    <==> fixed_assigned(prefix.push(e_spec), d, id) by {
                    if id != e_spec.id {
                        assert(contains_id(schedule.row(d), id) <==> contains_id(
                            before.row(d),
                            id,
                        ));
                    }
                }
                assert forall|d: Weekday, j: int|
                    0 <= j < schedule.row(d).len() implies appears_as(
                    #[trigger] schedule.row(d)[j],
                    prefix.push(e_spec),
                ) by {
                    if j < before.row(d).len() {
                        assert(schedule.row(d)[j] == before.row(d)[j]);
                        assert(appears_as(before.row(d)[j], prefix));
                        lemma_appears_as_extend(before.row(d)[j], prefix, e_spec);
                    } else {
                        assert(same_employee(schedule.row(d)[j], e_spec));
                        assert(prefix.push(e_spec)[prefix.len() as int] == e_spec);
                    }
                }
            }
        } else {
            flexible_employees.push(employees[i].clone());
            proof {
                assert forall|d: Weekday, j: int|
                    0 <= j < schedule.row(d).len() implies appears_as(
                    #[trigger] schedule.row(d)[j],
                    prefix.push(e_spec),
                ) by {
                    assert(appears_as(schedule.row(d)[j], prefix));
                    lemma_appears_as_extend(schedule.row(d)[j], prefix, e_spec);
                }
            }
        }
        i = i + 1;
    }
    proof {
        assert(employees@.subrange(0, employees@.len() as int) =~= employees@);
    }
    (flexible_employees, fixed_employees)
}

/// One bucket of flexible employees sharing a required-day count, in the
/// randomized order in which they will be assigned.
#[derive(Debug)]
pub struct EmployeeGroup {
    pub required_days: usize,
    pub employees: Vec<Employee>,
}

/// The employees of a roster whose quota equals the given count, in
/// roster order.
pub open spec fn quota_filter(emps: Seq<Employee>, q: int) -> Seq<Employee> {
    emps.filter(|e: Employee| e.required_days as int == q)
}

/// How many employees of the roster have a quota of at least the given
/// count.
pub open spec fn quota_ge_count(emps: Seq<Employee>, q: int) -> int {
    emps.filter(|e: Employee| e.required_days as int >= q).len() as int
}

/// The group holds exactly the roster's employees of its quota: every
/// member carries the data of such a roster employee, every such roster
/// employee appears among the members, members match the quota, and their
/// ids are distinct.
pub open spec fn group_wf(g: EmployeeGroup, emps: Seq<Employee>) -> bool {
    &&& distinct_ids(g.employees@)
    &&& forall|m: int|
        0 <= m < g.employees@.len() ==> (#[trigger] g.employees@[m]).required_days as int
            == g.required_days as int
    &&& forall|m: int|
        0 <= m < g.employees@.len() ==> appears_as(#[trigger] g.employees@[m], emps)
    &&& forall|k: int|
        0 <= k < emps.len() && (#[trigger] emps[k]).required_days as int == g.required_days as int
            ==> exists|m: int| 0 <= m < g.employees@.len() && same_employee(
            g.employees@[m],
            emps[k],
        )
}

/// No employee id occurs twice over all groups together.
pub open spec fn groups_cross_distinct(groups: Seq<EmployeeGroup>) -> bool {
    forall|g1: int, m1: int, g2: int, m2: int|
        #![trigger groups[g1].employees@[m1], groups[g2].employees@[m2]]
        0 <= g1 < groups.len() && 0 <= m1 < groups[g1].employees@.len() && 0 <= g2 < groups.len()
            && 0 <= m2 < groups[g2].employees@.len() && (g1 != g2 || m1 != m2)
            ==> groups[g1].employees@[m1].id != groups[g2].employees@[m2].id
}

/// How many members the groups from the given position on hold together.
pub open spec fn suffix_member_count(groups: Seq<EmployeeGroup>, g: int) -> int
    decreases groups.len() - g,
{
    if g < 0 || g >= groups.len() {
        0
    } else {
        groups[g].employees@.len() + suffix_member_count(groups, g + 1)
    }
}

proof fn lemma_suffix_count_nonneg(groups: Seq<EmployeeGroup>, g: int)
    ensures
        suffix_member_count(groups, g) >= 0,
    decreases groups.len() - g,
{
    if 0 <= g < groups.len() {
        lemma_suffix_count_nonneg(groups, g + 1);
    }
}

proof fn lemma_suffix_count_push(groups: Seq<EmployeeGroup>, x: EmployeeGroup, g: int)
    requires
        0 <= g <= groups.len(),
    ensures
        suffix_member_count(groups.push(x), g) == suffix_member_count(groups, g)
            + x.employees@.len(),
    decreases groups.len() - g,
{
    if g < groups.len() {
        assert(groups.push(x)[g] == groups[g]);
        lemma_suffix_count_push(groups, x, g + 1);
    } else {
        assert(groups.push(x)[g] == x);
        assert(suffix_member_count(groups.push(x), g + 1) == 0);
    }
}

/// Splitting at one quota: the employees with quota at least q are those
/// with quota exactly q together with those with quota at least q + 1.
proof fn lemma_quota_partition(emps: Seq<Employee>, q: int)
    ensures
        quota_ge_count(emps, q) == quota_filter(emps, q).len() + quota_ge_count(emps, q + 1),
    decreases emps.len(),
{
    reveal(Seq::filter);
    if emps.len() > 0 {
        lemma_quota_partition(emps.drop_last(), q);
    }
}

proof fn lemma_quota_ge_none(emps: Seq<Employee>)
    ensures
        quota_ge_count(emps, 256) == 0,
    decreases emps.len(),
{
    reveal(Seq::filter);
    if emps.len() > 0 {
        lemma_quota_ge_none(emps.drop_last());
    }
}

proof fn lemma_quota_ge_all(emps: Seq<Employee>)
    ensures
        quota_ge_count(emps, 0) == emps.len(),
    decreases emps.len(),
{
    reveal(Seq::filter);
    if emps.len() > 0 {
        lemma_quota_ge_all(emps.drop_last());
    }
}

/// A permutation of a list with distinct ids has distinct ids.
proof fn lemma_shuffle_distinct_ids(before: Seq<Employee>, after: Seq<Employee>)
    requires
        before.to_multiset() == after.to_multiset(),
        distinct_ids(before),
    ensures
        distinct_ids(after),
{
    broadcast use vstd::seq_lib::group_to_multiset_ensures;

    assert forall|i: int, j: int|
        0 <= i < after.len() && 0 <= j < after.len() && i != j implies after[i].id
        != after[j].id by {
        let v1 = after[i];
        let v2 = after[j];
        if v1.id == v2.id {
            assert(after.contains(v1));
            assert(after.to_multiset().count(v1) > 0);
            assert(before.to_multiset().count(v1) > 0);
            assert(before.contains(v1));
            assert(after.contains(v2));
            assert(after.to_multiset().count(v2) > 0);
            assert(before.to_multiset().count(v2) > 0);
            assert(before.contains(v2));
            if v1 == v2 {
                // the value occurs twice in `after`, so twice in `before`,
                // giving two positions of `before` with one id
                assert(after.remove(i).to_multiset() =~= after.to_multiset().remove(v1));
                let jj = if j < i {
                    j
                } else {
                    j - 1
                };
                assert(after.remove(i)[jj] == v2);
                assert(after.remove(i).contains(v1));
                assert(before.to_multiset().remove(v1).count(v1) > 0);
                let k1 = choose|k1: int| 0 <= k1 < before.len() && before[k1] == v1;
                assert(before.remove(k1).to_multiset() =~= before.to_multiset().remove(v1));
                assert(before.remove(k1).contains(v1));
                let k2 = choose|k2: int|
                    0 <= k2 < before.remove(k1).len() && before.remove(k1)[k2] == v1;
                let k2o = if k2 < k1 {
                    k2
                } else {
                    k2 + 1
                };
                assert(before[k2o] == v1);
                assert(before[k1].id == before[k2o].id);
            } else {
                let k1 = choose|k1: int| 0 <= k1 < before.len() && before[k1] == v1;
                let k2 = choose|k2: int| 0 <= k2 < before.len() && before[k2] == v2;
                assert(before[k1].id == before[k2].id);
            }
        }
    }
}

/// The facts `group_wf` needs of a freshly shuffled quota bucket.
proof fn lemma_new_group_wf(
    members: Seq<Employee>,
    before: Seq<Employee>,
    emps: Seq<Employee>,
    q: int,
)
    requires
        before.to_multiset() == members.to_multiset(),
        pointwise_same(before, quota_filter(emps, q)),
        distinct_ids(emps),
    ensures
        distinct_ids(members),
        forall|m: int|
            0 <= m < members.len() ==> (#[trigger] members[m]).required_days as int == q,
        forall|m: int| 0 <= m < members.len() ==> appears_as(#[trigger] members[m], emps),
        forall|k: int|
            0 <= k < emps.len() && (#[trigger] emps[k]).required_days as int == q ==> exists|m: int|
                0 <= m < members.len() && same_employee(members[m], emps[k]),
{
    let pred = |e: Employee| e.required_days as int == q;
    let filtered = quota_filter(emps, q);
    lemma_filter_distinct_ids(emps, pred);
    lemma_pointwise_distinct(before, filtered);
    lemma_shuffle_distinct_ids(before, members);
    lemma_multiset_element_exchange(before, members);
    lemma_multiset_element_exchange(members, before);
    assert forall|m: int|
        0 <= m < members.len() implies (#[trigger] members[m]).required_days as int == q by {
        assert(before.contains(members[m]));
        let j = choose|j: int| 0 <= j < before.len() && before[j] == members[m];
        assert(same_employee(before[j], filtered[j]));
        emps.lemma_filter_pred(pred, j);
    }
    assert forall|m: int|
        0 <= m < members.len() implies appears_as(#[trigger] members[m], emps) by {
        assert(before.contains(members[m]));
        let j = choose|j: int| 0 <= j < before.len() && before[j] == members[m];
        assert(same_employee(before[j], filtered[j]));
        assert(emps.filter(pred)[j] == filtered[j]);
        let k = choose|k: int| 0 <= k < emps.len() && emps[k] == filtered[j];
        assert(0 <= k < emps.len() && same_employee(members[m], emps[k]));
    }
    assert forall|k: int|
        0 <= k < emps.len() && (#[trigger] emps[k]).required_days as int == q implies exists|m: int|
        0 <= m < members.len() && same_employee(members[m], emps[k]) by {
        emps.lemma_filter_contains(pred, k);
        let j = choose|j: int| 0 <= j < filtered.len() && filtered[j] == emps[k];
        assert(same_employee(before[j], emps[k]));
        assert(members.contains(before[j]));
        let m = choose|m: int| 0 <= m < members.len() && members[m] == before[j];
        assert(same_employee(members[m], emps[k]));
    }
}

/// Buckets of pairwise different quotas, each well formed over a roster
/// with distinct ids, never share an employee id, within or across
/// buckets.
proof fn lemma_groups_cross_distinct(groups: Seq<EmployeeGroup>, emps: Seq<Employee>)
    requires
        distinct_ids(emps),
        forall|gi: int| 0 <= gi < groups.len() ==> group_wf(#[trigger] groups[gi], emps),
        forall|a: int, b: int|
            #![trigger groups[a], groups[b]]
            0 <= a < b < groups.len() ==> groups[a].required_days > groups[b].required_days,
    ensures
        groups_cross_distinct(groups),
{
    assert forall|g1: int, m1: int, g2: int, m2: int|
        0 <= g1 < groups.len() && 0 <= m1 < groups[g1].employees@.len() && 0 <= g2 < groups.len()
            && 0 <= m2 < groups[g2].employees@.len() && (g1 != g2 || m1 != m2) implies #[trigger]
    groups[g1].employees@[m1].id != #[trigger] groups[g2].employees@[m2].id by {
        let a = groups[g1].employees@[m1];
        let b = groups[g2].employees@[m2];
        if g1 == g2 {
            assert(distinct_ids(groups[g1].employees@));
        } else if a.id == b.id {
            // the members come from buckets of different quotas, so they
            // trace to different roster employees, whose ids differ
            assert(groups[g1].required_days != groups[g2].required_days);
            assert(appears_as(a, emps));
            assert(appears_as(b, emps));
            let k1 = choose|k1: int| 0 <= k1 < emps.len() && same_employee(a, #[trigger] emps[k1]);
            let k2 = choose|k2: int| 0 <= k2 < emps.len() && same_employee(b, #[trigger] emps[k2]);
            assert(a.required_days as int == groups[g1].required_days as int);
            assert(b.required_days as int == groups[g2].required_days as int);
            assert(emps[k1].required_days as int == groups[g1].required_days as int);
            assert(emps[k2].required_days as int == groups[g2].required_days as int);
            assert(k1 != k2);
            assert(emps[k1].id != emps[k2].id);
        }
    }
}

/// Bucket the flexible employees by their required-day count, shuffling
/// each bucket; buckets come out in strictly descending quota order, only
/// non-empty buckets are kept, and together they hold each employee once.
pub fn group_by_required_days(employees: &Vec<Employee>) -> (groups: Vec<EmployeeGroup>)
    requires
        distinct_ids(employees@),
    ensures
        forall|a: int, b: int|
            #![trigger groups@[a], groups@[b]]
            0 <= a < b < groups@.len() ==> groups@[a].required_days > groups@[b].required_days,
        forall|g: int|
            0 <= g < groups@.len() ==> group_wf(#[trigger] groups@[g], employees@)
                && groups@[g].employees@.len() > 0,
        forall|k: int|
            0 <= k < employees@.len() ==> exists|g: int|
                0 <= g < groups@.len() && groups@[g].required_days as int == (
                #[trigger] employees@[k]).required_days as int,
        suffix_member_count(groups@, 0) == employees@.len(),
{
    let mut groups: Vec<EmployeeGroup> = Vec::new();
    let mut q: usize = 256;
    proof {
        lemma_quota_ge_none(employees@);
    }
    while q > 0
        invariant
            q <= 256,
            distinct_ids(employees@),
            forall|a: int, b: int|
                #![trigger groups@[a], groups@[b]]
                0 <= a < b < groups@.len() ==> groups@[a].required_days > groups@[b].required_days,
            forall|g: int|
                0 <= g < groups@.len() ==> (#[trigger] groups@[g]).required_days >= q
                    && groups@[g].required_days <= 255,
            forall|g: int|
                0 <= g < groups@.len() ==> group_wf(#[trigger] groups@[g], employees@)
                    && groups@[g].employees@.len() > 0,
            forall|k: int|
                0 <= k < employees@.len() && (#[trigger] employees@[k]).required_days as int >= q
                    ==> exists|g: int|
                    0 <= g < groups@.len() && groups@[g].required_days as int == employees@[
                        k
                    ].required_days as int,
            suffix_member_count(groups@, 0) == quota_ge_count(employees@, q as int),
        decreases q,
    {
        q = q - 1;
        let ghost pred = |e: Employee| e.required_days as int == q as int;
        let mut members: Vec<Employee> = Vec::new();
        let mut k: usize = 0;
        proof {
            assert(employees@.subrange(0, 0) =~= Seq::<Employee>::empty());
            reveal(Seq::filter);
        }
        while k < employees.len()
            invariant
                k <= employees@.len(),
                pointwise_same(
                    members@,
                    quota_filter(employees@.subrange(0, k as int), q as int),
                ),
            decreases employees@.len() - k,
        {
            proof {
                let prefix = employees@.subrange(0, k as int);
                assert(employees@.subrange(0, k as int + 1) =~= prefix.push(
                    employees@[k as int],
                ));
                lemma_filter_push(
                    prefix,
                    employees@[k as int],
                    |e: Employee| e.required_days as int == q as int,
                );
            }
            if employees[k].required_days as usize == q {
                members.push(employees[k].clone());
            }
            k = k + 1;
        }
        proof {
            assert(employees@.subrange(0, employees@.len() as int) =~= employees@);
            lemma_quota_partition(employees@, q as int);
        }
        if members.len() > 0 {
            let ghost before_shuffle = members@;
            shuffle_in_place(&mut members);
            proof {
                lemma_new_group_wf(members@, before_shuffle, employees@, q as int);
            }
            let ghost old_groups = groups@;
            let group = EmployeeGroup { required_days: q, employees: members };
            groups.push(group);
            proof {
                assert(groups@ =~= old_groups.push(group));
                lemma_suffix_count_push(old_groups, group, 0);
                // coverage for quota exactly q comes from the new bucket
                assert forall|kk: int|
                    0 <= kk < employees@.len() && (#[trigger] employees@[kk]).required_days as int
                        >= q implies exists|g: int|
                    0 <= g < groups@.len() && groups@[g].required_days as int == employees@[
                        kk
                    ].required_days as int by {
                    if employees@[kk].required_days as int == q as int {
                        assert(groups@[groups@.len() - 1].required_days as int == q as int);
                    } else {
                        let g = choose|g: int|
                            0 <= g < old_groups.len() && old_groups[g].required_days as int
                                == employees@[kk].required_days as int;
                        assert(groups@[g].required_days as int == employees@[
                            kk
                        ].required_days as int);
                    }
                }
            }
        } else {
            proof {
                // no employee has this quota, so nothing is owed for it
                assert(quota_filter(employees@, q as int).len() == 0);
                assert forall|kk: int|
                    0 <= kk < employees@.len() && (#[trigger] employees@[kk]).required_days as int
                        >= q implies exists|g: int|
                    0 <= g < groups@.len() && groups@[g].required_days as int == employees@[
                        kk
                    ].required_days as int by {
                    if employees@[kk].required_days as int == q as int {
                        employees@.lemma_filter_contains(
                            |e: Employee| e.required_days as int == q as int,
                            kk,
                        );
                    }
                }
            }
        }
    }
    proof {
        lemma_quota_ge_all(employees@);
    }
    groups
}

/// The outcome owed to one flexible employee: when the catalog has
/// combinations for their quota, the employee stands on exactly the days of
/// one such combination; when it has none (a quota outside 1, 2, 3, 5),
/// the employee is left unassigned.
pub open spec fn flexibly_assigned(e: Employee, s: MonthlySchedule) -> bool {
    if catalog_spec(e.required_days as int).len() > 0 {
        exists|c: Seq<Weekday>|
            #[trigger] catalog_spec(e.required_days as int).contains(c) && forall|d: Weekday|
                #[trigger] contains_id(s.row(d), e.id) <==> c.contains(d)
    } else {
        forall|d: Weekday| !(#[trigger] contains_id(s.row(d), e.id))
    }
}

/// The record carries the data of some member of the groups.
pub open spec fn appears_in_groups(x: Employee, groups: Seq<EmployeeGroup>) -> bool {
    exists|g: int, m: int|
        0 <= g < groups.len() && 0 <= m < groups[g].employees@.len() && same_employee(
            x,
            #[trigger] groups[g].employees@[m],
        )
}

/// Some member of the groups carries this id.
pub open spec fn is_member_id(groups: Seq<EmployeeGroup>, id: usize) -> bool {
    exists|g: int, m: int|
        0 <= g < groups.len() && 0 <= m < groups[g].employees@.len()
            && (#[trigger] groups[g].employees@[m]).id == id
}

/// An employee's assignment outcome depends only on the rows' membership of
/// their id, so a change that leaves that membership alone preserves it.
proof fn lemma_flexibly_assigned_preserved(
    e1: Employee,
    s_old: MonthlySchedule,
    s_new: MonthlySchedule,
)
    requires
        flexibly_assigned(e1, s_old),
        forall|d: Weekday| #[trigger] contains_id(s_new.row(d), e1.id) == contains_id(
            s_old.row(d),
            e1.id,
        ),
    ensures
        flexibly_assigned(e1, s_new),
{
    if catalog_spec(e1.required_days as int).len() > 0 {
        let c = choose|c: Seq<Weekday>|
            #[trigger] catalog_spec(e1.required_days as int).contains(c) && forall|d: Weekday|
                #[trigger] contains_id(s_old.row(d), e1.id) <==> c.contains(d);
        assert forall|d: Weekday| #[trigger] contains_id(s_new.row(d), e1.id) <==> c.contains(
            d,
        ) by {
            assert(contains_id(s_old.row(d), e1.id) <==> c.contains(d));
        }
    }
}

/// A step that changes the membership of one id only keeps the recorded
/// outcome of every already-processed member, whose ids all differ from it.
proof fn lemma_processed_preserved(
    groups: Seq<EmployeeGroup>,
    gb: int,
    mb: int,
    s_old: MonthlySchedule,
    s_new: MonthlySchedule,
    changed_id: usize,
)
    requires
        forall|g1: int, m1: int|
            #![trigger groups[g1].employees@[m1]]
            0 <= g1 < groups.len() && 0 <= m1 < groups[g1].employees@.len() && (g1 < gb || (g1
                == gb && m1 < mb)) ==> flexibly_assigned(groups[g1].employees@[m1], s_old),
        forall|d: Weekday, id: usize|
            id != changed_id ==> (#[trigger] contains_id(s_new.row(d), id) <==> contains_id(
                s_old.row(d),
                id,
            )),
        forall|g1: int, m1: int|
            #![trigger groups[g1].employees@[m1]]
            0 <= g1 < groups.len() && 0 <= m1 < groups[g1].employees@.len() && (g1 < gb || (g1
                == gb && m1 < mb)) ==> groups[g1].employees@[m1].id != changed_id,
    ensures
        forall|g1: int, m1: int|
            #![trigger groups[g1].employees@[m1]]
            0 <= g1 < groups.len() && 0 <= m1 < groups[g1].employees@.len() && (g1 < gb || (g1
                == gb && m1 < mb)) ==> flexibly_assigned(groups[g1].employees@[m1], s_new),
{
    assert forall|g1: int, m1: int|
        #![trigger groups[g1].employees@[m1]]
        0 <= g1 < groups.len() && 0 <= m1 < groups[g1].employees@.len() && (g1 < gb || (g1 == gb
            && m1 < mb)) implies flexibly_assigned(groups[g1].employees@[m1], s_new) by {
        let e1 = groups[g1].employees@[m1];
        assert forall|d: Weekday| #[trigger] contains_id(s_new.row(d), e1.id) == contains_id(
            s_old.row(d),
            e1.id,
        ) by {
            assert(contains_id(s_new.row(d), e1.id) <==> contains_id(s_old.row(d), e1.id));
        }
        lemma_flexibly_assigned_preserved(e1, s_old, s_new);
    }
}

/// Prefixes compose: what led to `b` from `a` and to `c` from `b` leads to
/// `c` from `a`.
proof fn lemma_prefix_transitive<A>(a: Seq<A>, b: Seq<A>, c: Seq<A>)
    requires
        a.is_prefix_of(b),
        b.is_prefix_of(c),
    ensures
        a.is_prefix_of(c),
{
    assert(c.subrange(0, a.len() as int) =~= c.subrange(0, b.len() as int).subrange(
        0,
        a.len() as int,
    ));
}

/// Assign every grouped flexible employee, bucket by bucket in the given
/// (descending-quota) order, each to the best-scoring combination of their
/// quota's catalog row; employees whose quota has no catalog row are left
/// unassigned.
pub fn process_flexible_employees(
    generator: &ScheduleGenerator,
    grouped_employees: Vec<EmployeeGroup>,
    day_counts: &mut DayCount,
    schedule: &mut MonthlySchedule,
    past_schedules: &PastSchedules,
)
    requires
        generator.wf(),
        groups_cross_distinct(grouped_employees@),
        forall|g1: int, m1: int|
            #![trigger grouped_employees@[g1].employees@[m1]]
            0 <= g1 < grouped_employees@.len() && 0 <= m1
                < grouped_employees@[g1].employees@.len() ==> grouped_employees@[
                g1
            ].employees@[m1].required_days as int == grouped_employees@[g1].required_days as int,
        forall|d: Weekday, id: usize|
            is_member_id(grouped_employees@, id) ==> !(#[trigger] contains_id(
                old(schedule).row(d),
                id,
            )),
        forall|d: Weekday| distinct_ids(#[trigger] old(schedule).row(d)),
        forall|d: Weekday| #[trigger] old(day_counts).count(d) == old(schedule).row(d).len(),
        forall|d: Weekday|
            #[trigger] old(schedule).row(d).len() + suffix_member_count(grouped_employees@, 0)
                <= MAX_ROSTER,
    ensures
        forall|d: Weekday| distinct_ids(#[trigger] final(schedule).row(d)),
        forall|d: Weekday| #[trigger] final(day_counts).count(d) == final(schedule).row(d).len(),
        forall|d: Weekday| old(schedule).row(d).is_prefix_of(#[trigger] final(schedule).row(d)),
        forall|d: Weekday, j: int|
            old(schedule).row(d).len() <= j < final(schedule).row(d).len() ==> appears_in_groups(
                #[trigger] final(schedule).row(d)[j],
                grouped_employees@,
            ),
        forall|d: Weekday, id: usize|
            !is_member_id(grouped_employees@, id) ==> (#[trigger] contains_id(
                final(schedule).row(d),
                id,
            ) <==> contains_id(old(schedule).row(d), id)),
        forall|g1: int, m1: int|
            #![trigger grouped_employees@[g1].employees@[m1]]
            0 <= g1 < grouped_employees@.len() && 0 <= m1
                < grouped_employees@[g1].employees@.len() ==> flexibly_assigned(
                grouped_employees@[g1].employees@[m1],
                *final(schedule),
            ),
{
    let ghost groups_v = grouped_employees@;
    let ghost s0 = *schedule;
    let mut g: usize = 0;
    while g < grouped_employees.len()
        invariant
            g <= groups_v.len(),
            grouped_employees@ == groups_v,
            generator.wf(),
            groups_cross_distinct(groups_v),
            forall|g1: int, m1: int|
                #![trigger groups_v[g1].employees@[m1]]
                0 <= g1 < groups_v.len() && 0 <= m1 < groups_v[g1].employees@.len() ==> groups_v[
                    g1
                ].employees@[m1].required_days as int == groups_v[g1].required_days as int,
            forall|d: Weekday| distinct_ids(#[trigger] schedule.row(d)),
            forall|d: Weekday| #[trigger] day_counts.count(d) == schedule.row(d).len(),
            forall|d: Weekday| s0.row(d).is_prefix_of(#[trigger] schedule.row(d)),
            forall|d: Weekday, j: int|
                s0.row(d).len() <= j < schedule.row(d).len() ==> appears_in_groups(
                    #[trigger] schedule.row(d)[j],
                    groups_v,
                ),
            forall|d: Weekday, id: usize|
                !is_member_id(groups_v, id) ==> (#[trigger] contains_id(schedule.row(d), id)
                    <==> contains_id(s0.row(d), id)),
            forall|d: Weekday|
                #[trigger] schedule.row(d).len() + suffix_member_count(groups_v, g as int)
                    <= MAX_ROSTER,
            forall|g1: int, m1: int|
                #![trigger groups_v[g1].employees@[m1]]
                0 <= g1 < g && 0 <= m1 < groups_v[g1].employees@.len() ==> flexibly_assigned(
                    groups_v[g1].employees@[m1],
                    *schedule,
                ),
            forall|g1: int, m1: int, d: Weekday|
                g <= g1 < groups_v.len() && 0 <= m1 < groups_v[g1].employees@.len() ==> !(
                #[trigger] contains_id(schedule.row(d), groups_v[g1].employees@[m1].id)),
        decreases groups_v.len() - g,
    {
        let key = grouped_employees[g].required_days;
        let ghost glen = groups_v[g as int].employees@.len() as int;
        proof {
            assert(suffix_member_count(groups_v, g as int) == glen + suffix_member_count(
                groups_v,
                g as int + 1,
            ));
            lemma_suffix_count_nonneg(groups_v, g as int + 1);
        }
        match generator.combinations_for(key) {
            Option::Some(available_combos) => {
                proof {
                    assert(combos_view(available_combos@) == catalog_spec(key as int));
                    assert(available_combos@.len() == catalog_spec(key as int).len());
                    assert forall|i: int|
                        0 <= i < available_combos@.len() implies #[trigger] available_combos@[
                        i
                    ].days@.len() <= 5 by {
                        assert(combos_view(available_combos@)[i] == available_combos@[i].days@);
                        lemma_catalog_combination_wf(key as int, i);
                    }
                }
                let mut m: usize = 0;
                while m < grouped_employees[g].employees.len()
                    invariant
                        0 <= g < groups_v.len(),
                        m <= glen,
                        glen == groups_v[g as int].employees@.len(),
                        key == groups_v[g as int].required_days,
                        grouped_employees@ == groups_v,
                        generator.wf(),
                        groups_cross_distinct(groups_v),
                        catalog_spec(key as int).len() > 0,
                        combos_view(available_combos@) == catalog_spec(key as int),
                        available_combos@.len() == catalog_spec(key as int).len(),
                        forall|i: int|
                            0 <= i < available_combos@.len() ==> #[trigger] available_combos@[
                                i
                            ].days@.len() <= 5,
                        forall|g1: int, m1: int|
                            #![trigger groups_v[g1].employees@[m1]]
                            0 <= g1 < groups_v.len() && 0 <= m1 < groups_v[g1].employees@.len()
                                ==> groups_v[g1].employees@[m1].required_days as int == groups_v[
                                g1
                            ].required_days as int,
                        forall|d: Weekday| distinct_ids(#[trigger] schedule.row(d)),
                        forall|d: Weekday| #[trigger] day_counts.count(d) == schedule.row(d).len(),
                        forall|d: Weekday| s0.row(d).is_prefix_of(#[trigger] schedule.row(d)),
                        forall|d: Weekday, j: int|
                            s0.row(d).len() <= j < schedule.row(d).len() ==> appears_in_groups(
                                #[trigger] schedule.row(d)[j],
                                groups_v,
                            ),
                        forall|d: Weekday, id: usize|
                            !is_member_id(groups_v, id) ==> (#[trigger] contains_id(
                                schedule.row(d),
                                id,
                            ) <==> contains_id(s0.row(d), id)),
                        forall|d: Weekday|
                            #[trigger] schedule.row(d).len() + (glen - m) + suffix_member_count(
                                groups_v,
                                g as int + 1,
                            ) <= MAX_ROSTER,
                        forall|g1: int, m1: int|
                            #![trigger groups_v[g1].employees@[m1]]
                            0 <= g1 < groups_v.len() && 0 <= m1 < groups_v[g1].employees@.len()
                                && (g1 < g || (g1 == g && m1 < m)) ==> flexibly_assigned(
                                groups_v[g1].employees@[m1],
                                *schedule,
                            ),
                        forall|g1: int, m1: int, d: Weekday|
                            0 <= g1 < groups_v.len() && 0 <= m1 < groups_v[g1].employees@.len()
                                && (g1 > g || (g1 == g && m1 >= m)) ==> !(#[trigger] contains_id(
                                schedule.row(d),
                                groups_v[g1].employees@[m1].id,
                            )),
                    decreases glen - m,
                {
                    let member = grouped_employees[g].employees[m].clone();
                    let ghost orig = groups_v[g as int].employees@[m as int];
                    proof {
                        assert(same_employee(member, orig));
                        lemma_suffix_count_nonneg(groups_v, g as int + 1);
                        assert forall|d: Weekday| !contains_id(
                            #[trigger] schedule.row(d),
                            member.id,
                        ) by {
                            assert(!contains_id(schedule.row(d), orig.id));
                        }
                        assert forall|d: Weekday| 0 <= #[trigger] day_counts.count(d)
                            <= MAX_ROSTER by {
                            assert(schedule.row(d).len() + (glen - m) + suffix_member_count(
                                groups_v,
                                g as int + 1,
                            ) <= MAX_ROSTER);
                        }
                    }
                    let best = find_best_day_combination(
                        available_combos,
                        day_counts,
                        &member,
                        past_schedules,
                    );
                    let ghost before = *schedule;
                    proof {
                        let i = choose|i: int|
                            0 <= i < available_combos@.len() && best.days@ == #[trigger]
                            available_combos@[i].days@;
                        assert(catalog_spec(key as int)[i] == combos_view(available_combos@)[i]);
                        assert(catalog_spec(key as int).contains(best.days@));
                    }
                    assign_employee_days(schedule, day_counts, &member, &best.days);
                    proof {
                        // the member now has the owed outcome
                        assert(orig.required_days as int == key as int);
                        assert forall|d: Weekday| #[trigger] contains_id(
                            schedule.row(d),
                            orig.id,
                        ) <==> best.days@.contains(d) by {
                            assert(contains_id(schedule.row(d), member.id) <==> best.days@
                                .contains(d));
                        }
                        assert(flexibly_assigned(orig, *schedule));
                        // earlier members keep theirs: only `member.id` changed
                        assert forall|d: Weekday, id: usize| id != orig.id implies (
                        #[trigger] contains_id(schedule.row(d), id) <==> contains_id(
                            before.row(d),
                            id,
                        )) by {
                            assert(contains_id(schedule.row(d), id) <==> contains_id(
                                before.row(d),
                                id,
                            ));
                        }
                        assert forall|g1: int, m1: int|
                            #![trigger groups_v[g1].employees@[m1]]
                            0 <= g1 < groups_v.len() && 0 <= m1 < groups_v[g1].employees@.len()
                                && (g1 < g || (g1 == g && m1 < m)) implies groups_v[
                            g1
                        ].employees@[m1].id != orig.id by {
                            assert(groups_v[g1].employees@[m1].id != groups_v[
                                g as int
                            ].employees@[m as int].id);
                        }
                        lemma_processed_preserved(
                            groups_v,
                            g as int,
                            m as int,
                            before,
                            *schedule,
                            orig.id,
                        );
                        // later members are still absent
                        assert forall|g1: int, m1: int, d: Weekday|
                            0 <= g1 < groups_v.len() && 0 <= m1 < groups_v[g1].employees@.len()
                                && (g1 > g || (g1 == g && m1 >= m + 1)) implies !(
                        #[trigger] contains_id(
                            schedule.row(d),
                            groups_v[g1].employees@[m1].id,
                        )) by {
                            assert(groups_v[g1].employees@[m1].id != groups_v[
                                g as int
                            ].employees@[m as int].id);
                            assert(!contains_id(before.row(d), groups_v[g1].employees@[m1].id));
                        }
                        // rows only grew by records of this member
                        assert forall|d: Weekday| s0.row(d).is_prefix_of(
                            #[trigger] schedule.row(d),
                        ) by {
                            lemma_prefix_transitive(s0.row(d), before.row(d), schedule.row(d));
                        }
                        assert forall|d: Weekday, j: int|
                            s0.row(d).len() <= j < schedule.row(d).len() implies appears_in_groups(
                            #[trigger] schedule.row(d)[j],
                            groups_v,
                        ) by {
                            if j < before.row(d).len() {
                                assert(schedule.row(d)[j] == before.row(d)[j]);
                                assert(appears_in_groups(before.row(d)[j], groups_v));
                            } else {
                                assert(same_employee(schedule.row(d)[j], member));
                                assert(same_employee(schedule.row(d)[j], orig));
                            }
                        }
                        // ids outside the groups are untouched
                        assert forall|d: Weekday, id: usize| !is_member_id(groups_v, id) implies (
                        #[trigger] contains_id(schedule.row(d), id) <==> contains_id(
                            s0.row(d),
                            id,
                        )) by {
                            assert(id != orig.id);
                            assert(contains_id(before.row(d), id) <==> contains_id(
                                s0.row(d),
                                id,
                            ));
                        }
                    }
                    m = m + 1;
                }
                proof {
                    assert forall|g1: int, m1: int|
                        #![trigger groups_v[g1].employees@[m1]]
                        0 <= g1 < g + 1 && 0 <= m1 < groups_v[g1].employees@.len() implies
                        flexibly_assigned(groups_v[g1].employees@[m1], *schedule) by {
                        if g1 == g {
                            assert(m1 < glen);
                        }
                    }
                }
            },
            Option::None => {
                proof {
                    // a quota without catalog combinations leaves its whole
                    // bucket unassigned, which is the owed outcome
                    assert forall|g1: int, m1: int|
                        #![trigger groups_v[g1].employees@[m1]]
                        0 <= g1 < g + 1 && 0 <= m1 < groups_v[g1].employees@.len() implies
                        flexibly_assigned(groups_v[g1].employees@[m1], *schedule) by {
                        if g1 == g {
                            let e1 = groups_v[g1].employees@[m1];
                            assert(e1.required_days as int == key as int);
                            assert(catalog_spec(e1.required_days as int).len() == 0);
                            assert forall|d: Weekday| !(#[trigger] contains_id(
                                schedule.row(d),
                                e1.id,
                            )) by {
                                assert(!contains_id(schedule.row(d), groups_v[
                                    g1
                                ].employees@[m1].id));
                            }
                        }
                    }
                }
            },
        }
        proof {
            // either way the group's members are all placed (or skipped),
            // so the headroom for the remaining groups stands
            assert forall|d: Weekday|
                #[trigger] schedule.row(d).len() + suffix_member_count(groups_v, g as int + 1)
                    <= MAX_ROSTER by {
                assert(suffix_member_count(groups_v, g as int) == glen + suffix_member_count(
                    groups_v,
                    g as int + 1,
                ));
            }
        }
        g = g + 1;
    }
}

/// What the schedule owes one employee of the roster: a fixed-day employee
/// stands on exactly their fixed weekdays; a flexible one is assigned as
/// `flexibly_assigned` says.
pub open spec fn employee_assigned(e: Employee, s: MonthlySchedule) -> bool {
    if e.fixed_days@.len() > 0 {
        forall|d: Weekday| #[trigger] contains_id(s.row(d), e.id) <==> e.fixed_days@.contains(d)
    } else {
        flexibly_assigned(e, s)
    }
}

/// The full contract of a generated schedule: no day's list repeats an
/// employee id, every entry carries the data of a roster employee, and
/// every roster employee receives exactly their owed assignment.
pub open spec fn schedule_ok(emps: Seq<Employee>, s: MonthlySchedule) -> bool {
    &&& forall|d: Weekday| distinct_ids(#[trigger] s.row(d))
    &&& forall|d: Weekday, j: int|
        0 <= j < s.row(d).len() ==> appears_as(#[trigger] s.row(d)[j], emps)
    &&& forall|k: int| 0 <= k < emps.len() ==> employee_assigned(#[trigger] emps[k], s)
}

/// An employee's owed assignment names only their id and quota, so any
/// record agreeing on those receives the same one.
proof fn lemma_flexibly_assigned_same(e1: Employee, e2: Employee, s: MonthlySchedule)
    requires
        flexibly_assigned(e1, s),
        e1.id == e2.id,
        e1.required_days == e2.required_days,
    ensures
        flexibly_assigned(e2, s),
{
    if catalog_spec(e1.required_days as int).len() > 0 {
        let c = choose|c: Seq<Weekday>|
            #[trigger] catalog_spec(e1.required_days as int).contains(c) && forall|d: Weekday|
                #[trigger] contains_id(s.row(d), e1.id) <==> c.contains(d);
        assert(catalog_spec(e2.required_days as int).contains(c));
        assert forall|d: Weekday| #[trigger] contains_id(s.row(d), e2.id) <==> c.contains(d) by {
            assert(contains_id(s.row(d), e1.id) <==> c.contains(d));
        }
    } else {
        assert forall|d: Weekday| !(#[trigger] contains_id(s.row(d), e2.id)) by {
            assert(!contains_id(s.row(d), e1.id));
        }
    }
}

/// Every id among the groups' members is the id of a flexible roster
/// employee.
proof fn lemma_member_ids_are_flexible(
    groups: Seq<EmployeeGroup>,
    flex: Seq<Employee>,
    emps: Seq<Employee>,
    id: usize,
)
    requires
        forall|g: int| 0 <= g < groups.len() ==> group_wf(#[trigger] groups[g], flex),
        pointwise_same(flex, flex_filter(emps)),
        distinct_ids(emps),
        is_member_id(groups, id),
    ensures
        exists|k: int|
            0 <= k < emps.len() && (#[trigger] emps[k]).id == id && emps[k].fixed_days@.len()
                == 0,
{
    let pred = |e: Employee| e.fixed_days@.len() == 0;
    let (g, m) = choose|g: int, m: int|
        0 <= g < groups.len() && 0 <= m < groups[g].employees@.len()
            && (#[trigger] groups[g].employees@[m]).id == id;
    assert(appears_as(groups[g].employees@[m], flex));
    let k = choose|k: int|
        0 <= k < flex.len() && same_employee(groups[g].employees@[m], #[trigger] flex[k]);
    assert(same_employee(flex[k], flex_filter(emps)[k]));
    lemma_filter_distinct_ids(emps, pred);
    let k2 = choose|k2: int| 0 <= k2 < emps.len() && emps[k2] == #[trigger] flex_filter(emps)[k];
    emps.lemma_filter_pred(pred, k);
    assert(0 <= k2 < emps.len() && emps[k2].id == id && emps[k2].fixed_days@.len() == 0);
}

/// Generate one month's schedule: place the fixed-day employees, bucket the
/// flexible employees by quota, and assign each bucket, largest quota
/// first. The result satisfies `schedule_ok` for the given roster.
pub fn generate_schedule(
    generator: &ScheduleGenerator,
    employees: &Vec<Employee>,
    past_schedules: &PastSchedules,
) -> (schedule: MonthlySchedule)
    requires
        generator.wf(),
        distinct_ids(employees@),
        employees@.len() <= MAX_ROSTER,
    ensures
        schedule_ok(employees@, schedule),
{
    let ghost flexpred = |e: Employee| e.fixed_days@.len() == 0;
    let mut day_counts = DayCount::new();
    let mut schedule = MonthlySchedule::new();

    let (flexible_employees, fixed_employees) = process_fixed_schedules(
        employees,
        &mut day_counts,
        &mut schedule,
    );
    let ghost s1 = schedule;
    let ghost dc1 = day_counts;
    proof {
        lemma_filter_distinct_ids(employees@, flexpred);
        lemma_pointwise_distinct(flexible_employees@, flex_filter(employees@));
    }

    let grouped_employees = group_by_required_days(&flexible_employees);
    let ghost groups_v = grouped_employees@;
    proof {
        // no grouped member is on the schedule yet: the rows hold fixed-day
        // employees only, and ids are distinct
        assert forall|d: Weekday, id: usize| is_member_id(groups_v, id) implies !(
        #[trigger] contains_id(s1.row(d), id)) by {
            lemma_member_ids_are_flexible(groups_v, flexible_employees@, employees@, id);
            let k2 = choose|k2: int|
                0 <= k2 < employees@.len() && (#[trigger] employees@[k2]).id == id && employees@[
                    k2
                ].fixed_days@.len() == 0;
            if contains_id(s1.row(d), id) {
                assert(fixed_assigned(employees@, d, id));
                let k3 = choose|k3: int|
                    0 <= k3 < employees@.len() && #[trigger] employees@[k3].id == id
                        && employees@[k3].fixed_days@.len() > 0 && employees@[k3].fixed_days@
                        .contains(d);
                assert(k3 == k2);
            }
        }
        lemma_groups_cross_distinct(groups_v, flexible_employees@);
        // head counts have room for every grouped member
        lemma_flex_fixed_partition(employees@);
        assert(suffix_member_count(groups_v, 0) == flexible_employees@.len());
        assert forall|d: Weekday|
            #[trigger] s1.row(d).len() + suffix_member_count(groups_v, 0) <= MAX_ROSTER by {
            assert(s1.row(d).len() <= fixed_filter(employees@).len());
        }
    }

    process_flexible_employees(
        generator,
        grouped_employees,
        &mut day_counts,
        &mut schedule,
        past_schedules,
    );
    proof {
        // every entry of every row carries a roster employee's data
        assert forall|d: Weekday, j: int|
            0 <= j < schedule.row(d).len() implies appears_as(
            #[trigger] schedule.row(d)[j],
            employees@,
        ) by {
            if j < s1.row(d).len() {
                assert(schedule.row(d)[j] == s1.row(d)[j]);
                assert(appears_as(s1.row(d)[j], employees@));
            } else {
                assert(appears_in_groups(schedule.row(d)[j], groups_v));
                let (g, m) = choose|g: int, m: int|
                    0 <= g < groups_v.len() && 0 <= m < groups_v[g].employees@.len()
                        && same_employee(
                        schedule.row(d)[j],
                        #[trigger] groups_v[g].employees@[m],
                    );
                assert(appears_as(groups_v[g].employees@[m], flexible_employees@));
                let k = choose|k: int|
                    0 <= k < flexible_employees@.len() && same_employee(
                        groups_v[g].employees@[m],
                        #[trigger] flexible_employees@[k],
                    );
                assert(same_employee(flexible_employees@[k], flex_filter(employees@)[k]));
                let k2 = choose|k2: int|
                    0 <= k2 < employees@.len() && employees@[k2] == #[trigger] flex_filter(
                        employees@,
                    )[k];
                assert(same_employee(schedule.row(d)[j], employees@[k2]));
            }
        }
        // every roster employee has the owed assignment
        assert forall|k: int|
            0 <= k < employees@.len() implies employee_assigned(
            #[trigger] employees@[k],
            schedule,
        ) by {
            let e = employees@[k];
            if e.fixed_days@.len() > 0 {
                // a fixed-day employee's id is no member id, so the flexible
                // phase left their membership alone
                assert(!is_member_id(groups_v, e.id)) by {
                    if is_member_id(groups_v, e.id) {
                        lemma_member_ids_are_flexible(
                            groups_v,
                            flexible_employees@,
                            employees@,
                            e.id,
                        );
                        let k2 = choose|k2: int|
                            0 <= k2 < employees@.len() && (#[trigger] employees@[k2]).id == e.id
                                && employees@[k2].fixed_days@.len() == 0;
                        assert(k2 == k);
                    }
                }
                assert forall|d: Weekday| #[trigger] contains_id(schedule.row(d), e.id)
                    <==> e.fixed_days@.contains(d) by {
                    assert(contains_id(schedule.row(d), e.id) <==> contains_id(
                        s1.row(d),
                        e.id,
                    ));
                    assert(contains_id(s1.row(d), e.id) <==> fixed_assigned(
                        employees@,
                        d,
                        e.id,
                    ));
                    if fixed_assigned(employees@, d, e.id) {
                        let k3 = choose|k3: int|
                            0 <= k3 < employees@.len() && #[trigger] employees@[k3].id == e.id
                                && employees@[k3].fixed_days@.len() > 0 && employees@[
                                k3
                            ].fixed_days@.contains(d);
                        assert(k3 == k);
                    }
                    if e.fixed_days@.contains(d) {
                        assert(employees@[k].id == e.id && employees@[k].fixed_days@.len() > 0
                            && employees@[k].fixed_days@.contains(d));
                    }
                }
            } else {
                // a flexible employee's data stands in some bucket, whose
                // member got the owed assignment
                employees@.lemma_filter_contains(flexpred, k);
                let j = choose|j: int|
                    0 <= j < flex_filter(employees@).len() && #[trigger] flex_filter(
                        employees@,
                    )[j] == e;
                assert(same_employee(flexible_employees@[j], e));
                let g = choose|g: int|
                    0 <= g < groups_v.len() && (#[trigger] groups_v[g]).required_days as int
                        == flexible_employees@[j].required_days as int;
                assert(group_wf(groups_v[g], flexible_employees@));
                let m = choose|m: int|
                    0 <= m < groups_v[g].employees@.len() && same_employee(
                        #[trigger] groups_v[g].employees@[m],
                        flexible_employees@[j],
                    );
                assert(flexibly_assigned(groups_v[g].employees@[m], schedule));
                lemma_flexibly_assigned_same(groups_v[g].employees@[m], e, schedule);
            }
        }
    }
    schedule
}

/// A flexible employee whose quota has no catalog row: the scheduler can
/// give such an employee no days.
pub open spec fn unassignable(e: Employee) -> bool {
    is_flexible(e) && catalog_spec(e.required_days as int).len() == 0
}

/// The employees of the roster that would be left without any assignment:
/// flexible employees whose quota has no catalog combinations. Callers can
/// surface these before or after generating.
pub fn unassignable_employees(employees: &Vec<Employee>) -> (r: Vec<Employee>)
    ensures
        pointwise_same(r@, employees@.filter(|e: Employee| unassignable(e))),
{
    let mut r: Vec<Employee> = Vec::new();
    let mut i: usize = 0;
    proof {
        assert(employees@.subrange(0, 0) =~= Seq::<Employee>::empty());
        reveal(Seq::filter);
    }
    while i < employees.len()
        invariant
            i <= employees@.len(),
            pointwise_same(
                r@,
                employees@.subrange(0, i as int).filter(|e: Employee| unassignable(e)),
            ),
        decreases employees@.len() - i,
    {
        proof {
            let prefix = employees@.subrange(0, i as int);
            assert(employees@.subrange(0, i as int + 1) =~= prefix.push(employees@[i as int]));
            lemma_filter_push(prefix, employees@[i as int], |e: Employee| unassignable(e));
        }
        let e = &employees[i];
        let q = e.required_days;
        if e.fixed_days.len() == 0 && q != 1 && q != 2 && q != 3 && q != 5 {
            r.push(e.clone());
        }
        i = i + 1;
    }
    proof {
        assert(employees@.subrange(0, employees@.len() as int) =~= employees@);
    }
    r
}

/// Generate a balanced monthly schedule with the process-wide combination
/// catalog.
pub fn generate_balanced_schedule(
    employees: &Vec<Employee>,
    past_schedules: &PastSchedules,
) -> (schedule: MonthlySchedule)
    requires
        distinct_ids(employees@),
        employees@.len() <= MAX_ROSTER,
    ensures
        schedule_ok(employees@, schedule),
{
    let generator = ScheduleGenerator::new();
    generate_schedule(&generator, employees, past_schedules)
}

} // verus!
