//! Data model of the scheduler: weekdays, employees, day combinations,
//! the monthly schedule, the per-day head count, and past-month history.

use vstd::prelude::*;

verus! {

/// The five weekdays this scheduler assigns; no other days exist in this
/// domain. The order is calendar order.
#[derive(Clone, Copy, Debug, PartialEq, Eq, Hash, Structural)]
pub enum Weekday {
    Monday,
    Tuesday,
    Wednesday,
    Thursday,
    Friday,
}

/// The position of a weekday in calendar order, starting at Monday = 0.
pub open spec fn day_index(d: Weekday) -> int {
    match d {
        Weekday::Monday => 0,
        Weekday::Tuesday => 1,
        Weekday::Wednesday => 2,
        Weekday::Thursday => 3,
        Weekday::Friday => 4,
    }
}

/// The five weekdays in calendar order, as a sequence.
pub open spec fn all_weekdays() -> Seq<Weekday> {
    seq![
        Weekday::Monday,
        Weekday::Tuesday,
        Weekday::Wednesday,
        Weekday::Thursday,
        Weekday::Friday,
    ]
}

impl Weekday {
    /// All five weekdays, in calendar order.
    pub fn values() -> (r: Vec<Weekday>)
        ensures
            r@ == all_weekdays(),
    {
        let mut v: Vec<Weekday> = Vec::new();
        v.push(Weekday::Monday);
        v.push(Weekday::Tuesday);
        v.push(Weekday::Wednesday);
        v.push(Weekday::Thursday);
        v.push(Weekday::Friday);
        proof {
            assert(v@ =~= all_weekdays());
        }
        v
    }
}

#[derive(Clone, Copy, Debug, PartialEq, Eq, Structural)]
pub enum Sex {
    Male,
    Female,
}

#[derive(Clone, Copy, Debug, PartialEq, Eq, Structural)]
pub enum Role {
    HR,
    AiLlmEngineer,
    SocialMediaMarketing,
    ITSupport,
    MLEngineer,
    DataScientist,
    DataAnalyst,
    FullStackEngineer,
    BackendEngineer,
    FrontendEngineer,
    BlockchainEngineer,
    QaEngineer,
    ProjectManager,
    UiUxDesigner,
    MobileEngineer,
    DevOpsEngineer,
    OperationsManager,
}

/// One member of the roster. An employee with a non-empty `fixed_days` list
/// always works exactly those weekdays; an employee with an empty list is
/// flexible and is assigned `required_days` weekdays by the scheduler.
/// The `sex`, `role` and `is_nsp` attributes play no part in assignment.
#[derive(Debug)]
pub struct Employee {
    pub id: usize,
    pub name: String,
    pub sex: Sex,
    pub role: Role,
    pub required_days: u8,
    pub fixed_days: Vec<Weekday>,
    pub is_nsp: bool,
}

/// Two employee records carry the same data: equal identity, attributes,
/// and fixed-day list. Cloning preserves this relation.
pub open spec fn same_employee(a: Employee, b: Employee) -> bool {
    &&& a.id == b.id
    &&& a.name@ == b.name@
    &&& a.sex == b.sex
    &&& a.role == b.role
    &&& a.required_days == b.required_days
    &&& a.fixed_days@ == b.fixed_days@
    &&& a.is_nsp == b.is_nsp
}

impl Clone for Employee {
    fn clone(&self) -> (res: Self)
        ensures
            same_employee(res, *self),
    {
        let res = Employee {
            id: self.id,
            name: self.name.clone(),
            sex: self.sex,
            role: self.role,
            required_days: self.required_days,
            fixed_days: self.fixed_days.clone(),
            is_nsp: self.is_nsp,
        };
        proof {
            assert(res.fixed_days@ =~= self.fixed_days@);
        }
        res
    }
}

/// No two positions of the sequence hold the same employee id.
pub open spec fn distinct_ids(s: Seq<Employee>) -> bool {
    forall|i: int, j: int|
        0 <= i < s.len() && 0 <= j < s.len() && i != j ==> s[i].id != s[j].id
}

/// Some position of the row holds the given employee id.
pub open spec fn contains_id(row: Seq<Employee>, id: usize) -> bool {
    exists|i: int| 0 <= i < row.len() && #[trigger] row[i].id == id
}

/// How many positions of the row hold the given employee id.
pub open spec fn count_id(row: Seq<Employee>, id: usize) -> int
    decreases row.len(),
{
    if row.len() == 0 {
        0
    } else {
        count_id(row.drop_last(), id) + if row.last().id == id { 1int } else { 0int }
    }
}

/// The two sequences hold the same employee data, position by position.
pub open spec fn pointwise_same(a: Seq<Employee>, b: Seq<Employee>) -> bool {
    a.len() == b.len() && forall|i: int| 0 <= i < a.len() ==> same_employee(#[trigger] a[i], b[i])
}

/// The record carries the data of some employee of the given roster.
pub open spec fn appears_as(x: Employee, emps: Seq<Employee>) -> bool {
    exists|k: int| 0 <= k < emps.len() && same_employee(x, #[trigger] emps[k])
}

/// A set of weekdays of some fixed size, drawn from the static catalog of
/// legal combinations; the scheduler assigns a flexible employee all the
/// days of one combination.
#[derive(Debug)]
pub struct DayCombination {
    pub days: Vec<Weekday>,
}

impl DayCombination {
    pub fn new(days: Vec<Weekday>) -> (r: Self)
        ensures
            r.days@ == days@,
    {
        Self { days }
    }
}

impl Clone for DayCombination {
    fn clone(&self) -> (res: Self)
        ensures
            res.days@ == self.days@,
    {
        let mut days: Vec<Weekday> = Vec::new();
        let mut i: usize = 0;
        while i < self.days.len()
            invariant
                i <= self.days.len(),
                days@ == self.days@.subrange(0, i as int),
            decreases self.days.len() - i,
        {
            days.push(self.days[i]);
            i = i + 1;
            proof {
                assert(days@ =~= self.days@.subrange(0, i as int));
            }
        }
        proof {
            assert(days@ =~= self.days@);
        }
        Self { days }
    }
}

/// The sole output of the scheduler: for each weekday, the ordered list of
/// employees assigned to it. The intended invariant is that no employee id
/// appears twice in the same day's list; `assign` preserves it.
#[derive(Debug)]
pub struct MonthlySchedule {
    pub monday: Vec<Employee>,
    pub tuesday: Vec<Employee>,
    pub wednesday: Vec<Employee>,
    pub thursday: Vec<Employee>,
    pub friday: Vec<Employee>,
}

impl MonthlySchedule {
    /// The list of employees assigned to the given weekday.
    pub open spec fn row(self, d: Weekday) -> Seq<Employee> {
        match d {
            Weekday::Monday => self.monday@,
            Weekday::Tuesday => self.tuesday@,
            Weekday::Wednesday => self.wednesday@,
            Weekday::Thursday => self.thursday@,
            Weekday::Friday => self.friday@,
        }
    }

    /// An empty schedule: every weekday's list is empty.
    pub fn new() -> (r: Self)
        ensures
            forall|d: Weekday| #[trigger] r.row(d).len() == 0,
    {
        MonthlySchedule {
            monday: Vec::new(),
            tuesday: Vec::new(),
            wednesday: Vec::new(),
            thursday: Vec::new(),
            friday: Vec::new(),
        }
    }

    /// Read access to one weekday's list.
    pub fn day(&self, d: Weekday) -> (r: &Vec<Employee>)
        ensures
            r@ == self.row(d),
    {
        match d {
            Weekday::Monday => &self.monday,
            Weekday::Tuesday => &self.tuesday,
            Weekday::Wednesday => &self.wednesday,
            Weekday::Thursday => &self.thursday,
            Weekday::Friday => &self.friday,
        }
    }

    /// Whether the given weekday's list already holds the given employee id.
    pub fn contains_employee(&self, d: Weekday, id: usize) -> (r: bool)
        ensures
            r == contains_id(self.row(d), id),
    {
        let row = self.day(d);
        let mut i: usize = 0;
        while i < row.len()
            invariant
                i <= row.len(),
                row@ == self.row(d),
                forall|k: int| 0 <= k < i ==> #[trigger] row@[k].id != id,
            decreases row.len() - i,
        {
            if row[i].id == id {
                return true;
            }
            i = i + 1;
        }
        false
    }

    /// The assignment step: append the employee to the weekday's list only
    /// if no entry with the same id is already there. Applying it again for
    /// an employee already on the day changes nothing.
    pub fn assign(&mut self, d: Weekday, employee: &Employee) -> (pushed: bool)
        ensures
            pushed == !contains_id(old(self).row(d), employee.id),
            !pushed ==> *final(self) == *old(self),
            pushed ==> final(self).row(d).len() == old(self).row(d).len() + 1,
            pushed ==> final(self).row(d).drop_last() == old(self).row(d),
            pushed ==> same_employee(final(self).row(d).last(), *employee),
            forall|d2: Weekday| d2 != d ==> #[trigger] final(self).row(d2) == old(self).row(d2),
    {
        if self.contains_employee(d, employee.id) {
            return false;
        }
        let e = employee.clone();
        match d {
            Weekday::Monday => self.monday.push(e),
            Weekday::Tuesday => self.tuesday.push(e),
            Weekday::Wednesday => self.wednesday.push(e),
            Weekday::Thursday => self.thursday.push(e),
            Weekday::Friday => self.friday.push(e),
        }
        proof {
            assert(final(self).row(d).drop_last() =~= old(self).row(d));
        }
        true
    }
}

/// The running head count per weekday while a schedule is generated;
/// mirrors the length of the schedule's rows and is discarded afterward.
#[derive(Debug)]
pub struct DayCount {
    pub monday: usize,
    pub tuesday: usize,
    pub wednesday: usize,
    pub thursday: usize,
    pub friday: usize,
}

impl DayCount {
    /// The head count recorded for the given weekday.
    pub open spec fn count(self, d: Weekday) -> int {
        match d {
            Weekday::Monday => self.monday as int,
            Weekday::Tuesday => self.tuesday as int,
            Weekday::Wednesday => self.wednesday as int,
            Weekday::Thursday => self.thursday as int,
            Weekday::Friday => self.friday as int,
        }
    }

    /// All five counts at zero.
    pub fn new() -> (r: Self)
        ensures
            forall|d: Weekday| #[trigger] r.count(d) == 0,
    {
        DayCount { monday: 0, tuesday: 0, wednesday: 0, thursday: 0, friday: 0 }
    }

    /// Read one weekday's count.
    pub fn get(&self, d: Weekday) -> (r: usize)
        ensures
            r as int == self.count(d),
    {
        match d {
            Weekday::Monday => self.monday,
            Weekday::Tuesday => self.tuesday,
            Weekday::Wednesday => self.wednesday,
            Weekday::Thursday => self.thursday,
            Weekday::Friday => self.friday,
        }
    }

    /// Raise one weekday's count by one.
    pub fn increment(&mut self, d: Weekday)
        requires
            old(self).count(d) < usize::MAX,
        ensures
            final(self).count(d) == old(self).count(d) + 1,
            forall|d2: Weekday| d2 != d ==> #[trigger] final(self).count(d2) == old(self).count(d2),
    {
        match d {
            Weekday::Monday => self.monday = self.monday + 1,
            Weekday::Tuesday => self.tuesday = self.tuesday + 1,
            Weekday::Wednesday => self.wednesday = self.wednesday + 1,
            Weekday::Thursday => self.thursday = self.thursday + 1,
            Weekday::Friday => self.friday = self.friday + 1,
        }
    }
}

/// The recorded history of one employee: the weekday sets worked in known
/// prior months, oldest first, one entry per month.
#[derive(Debug)]
pub struct PastEntry {
    pub employee_id: usize,
    pub months: Vec<Vec<Weekday>>,
}

/// Past assignments keyed by employee id, as supplied by the caller. An
/// employee without an entry has no history and draws no repetition penalty.
#[derive(Debug)]
pub struct PastSchedules {
    pub entries: Vec<PastEntry>,
}

/// The months recorded for the given id: those of the first entry carrying
/// it, if any.
pub open spec fn lookup_months(entries: Seq<PastEntry>, id: usize) -> Option<Seq<Vec<Weekday>>>
    decreases entries.len(),
{
    if entries.len() == 0 {
        None
    } else if entries[0].employee_id == id {
        Some(entries[0].months@)
    } else {
        lookup_months(entries.drop_first(), id)
    }
}

impl PastSchedules {
    /// A history with no entries at all.
    pub fn new() -> (r: Self)
        ensures
            r.entries@.len() == 0,
    {
        PastSchedules { entries: Vec::new() }
    }

    /// The recorded months of the given employee, if any.
    pub open spec fn months_of(self, id: usize) -> Option<Seq<Vec<Weekday>>> {
        lookup_months(self.entries@, id)
    }

    /// Find the first entry for the given employee id.
    pub fn get(&self, id: usize) -> (r: Option<&Vec<Vec<Weekday>>>)
        ensures
            match r {
                Some(months) => self.months_of(id) == Some(months@),
                None => self.months_of(id) is None,
            },
    {
        let mut i: usize = 0;
        proof {
            assert(self.entries@.skip(0) =~= self.entries@);
        }
        while i < self.entries.len()
            invariant
                i <= self.entries.len(),
                forall|k: int| 0 <= k < i ==> #[trigger] self.entries@[k].employee_id != id,
                lookup_months(self.entries@, id) == lookup_months(
                    self.entries@.skip(i as int),
                    id,
                ),
            decreases self.entries.len() - i,
        {
            if self.entries[i].employee_id == id {
                proof {
                    assert(self.entries@.skip(i as int)[0] == self.entries@[i as int]);
                }
                return Some(&self.entries[i].months);
            }
            proof {
                assert(self.entries@.skip(i as int).drop_first() =~= self.entries@.skip(
                    i as int + 1,
                ));
                assert(self.entries@.skip(i as int)[0] == self.entries@[i as int]);
            }
            i = i + 1;
        }
        proof {
            assert(self.entries@.skip(i as int).len() == 0);
        }
        None
    }
}

/// The static catalog: all legal weekday combinations for a required-day
/// count. A count outside {1, 2, 3, 5} has no combinations. The two-day
/// combinations are exactly the pairs with no adjacent days.
pub open spec fn catalog_spec(required_days: int) -> Seq<Seq<Weekday>> {
    if required_days == 1 {
        seq![
            seq![Weekday::Monday],
            seq![Weekday::Tuesday],
            seq![Weekday::Wednesday],
            seq![Weekday::Thursday],
            seq![Weekday::Friday],
        ]
    } else if required_days == 2 {
        seq![
            seq![Weekday::Monday, Weekday::Wednesday],
            seq![Weekday::Monday, Weekday::Thursday],
            seq![Weekday::Monday, Weekday::Friday],
            seq![Weekday::Tuesday, Weekday::Thursday],
            seq![Weekday::Tuesday, Weekday::Friday],
            seq![Weekday::Wednesday, Weekday::Friday],
        ]
    } else if required_days == 3 {
        seq![seq![Weekday::Monday, Weekday::Wednesday, Weekday::Friday]]
    } else if required_days == 5 {
        seq![
            seq![
                Weekday::Monday,
                Weekday::Tuesday,
                Weekday::Wednesday,
                Weekday::Thursday,
                Weekday::Friday,
            ],
        ]
    } else {
        Seq::empty()
    }
}

/// Every combination of the catalog lists as many distinct weekdays as its
/// required-day count asks for, and at most five.
pub proof fn lemma_catalog_combination_wf(required_days: int, i: int)
    requires
        0 <= i < catalog_spec(required_days).len(),
    ensures
        catalog_spec(required_days)[i].no_duplicates(),
        catalog_spec(required_days)[i].len() == required_days,
        catalog_spec(required_days)[i].len() <= 5,
{
}

/// The weekday lists of a vector of combinations.
pub open spec fn combos_view(v: Seq<DayCombination>) -> Seq<Seq<Weekday>> {
    v.map_values(|c: DayCombination| c.days@)
}

/// One catalog row: the legal combinations for one required-day count.
#[derive(Debug)]
pub struct QuotaCombinations {
    pub required_days: usize,
    pub combinations: Vec<DayCombination>,
}

/// The process-wide generator: the five weekdays and the combination
/// catalog, built once and shared read-only by every generation call.
#[derive(Debug)]
pub struct ScheduleGenerator {
    pub weekdays: Vec<Weekday>,
    pub day_combinations: Vec<QuotaCombinations>,
}

impl ScheduleGenerator {
    /// The generator holds the five weekdays and a faithful copy of the
    /// static catalog, one row per required-day count 1, 2, 3, 5.
    pub open spec fn wf(self) -> bool {
        &&& self.weekdays@ == all_weekdays()
        &&& self.day_combinations@.len() == 4
        &&& self.day_combinations@[0].required_days == 1
        &&& combos_view(self.day_combinations@[0].combinations@) == catalog_spec(1)
        &&& self.day_combinations@[1].required_days == 2
        &&& combos_view(self.day_combinations@[1].combinations@) == catalog_spec(2)
        &&& self.day_combinations@[2].required_days == 3
        &&& combos_view(self.day_combinations@[2].combinations@) == catalog_spec(3)
        &&& self.day_combinations@[3].required_days == 5
        &&& combos_view(self.day_combinations@[3].combinations@) == catalog_spec(5)
    }

    pub fn new() -> (r: Self)
        ensures
            r.wf(),
    {
        let weekdays = Weekday::values();
        let day_combinations = Self::initialize_day_combinations();
        ScheduleGenerator { weekdays, day_combinations }
    }

    /// Build the catalog rows for required-day counts 1, 2, 3 and 5.
    pub fn initialize_day_combinations() -> (t: Vec<QuotaCombinations>)
        ensures
            t@.len() == 4,
            t@[0].required_days == 1,
            combos_view(t@[0].combinations@) == catalog_spec(1),
            t@[1].required_days == 2,
            combos_view(t@[1].combinations@) == catalog_spec(2),
            t@[2].required_days == 3,
            combos_view(t@[2].combinations@) == catalog_spec(3),
            t@[3].required_days == 5,
            combos_view(t@[3].combinations@) == catalog_spec(5),
    {
        let mut singles: Vec<DayCombination> = Vec::new();
        singles.push(DayCombination::new(vec![Weekday::Monday]));
        singles.push(DayCombination::new(vec![Weekday::Tuesday]));
        singles.push(DayCombination::new(vec![Weekday::Wednesday]));
        singles.push(DayCombination::new(vec![Weekday::Thursday]));
        singles.push(DayCombination::new(vec![Weekday::Friday]));
        proof {
            assert(combos_view(singles@) =~= catalog_spec(1)) by {
                assert(singles@[0].days@ =~= seq![Weekday::Monday]);
                assert(singles@[1].days@ =~= seq![Weekday::Tuesday]);
                assert(singles@[2].days@ =~= seq![Weekday::Wednesday]);
                assert(singles@[3].days@ =~= seq![Weekday::Thursday]);
                assert(singles@[4].days@ =~= seq![Weekday::Friday]);
            }
        }

        let mut pairs: Vec<DayCombination> = Vec::new();
        pairs.push(DayCombination::new(vec![Weekday::Monday, Weekday::Wednesday]));
        pairs.push(DayCombination::new(vec![Weekday::Monday, Weekday::Thursday]));
        pairs.push(DayCombination::new(vec![Weekday::Monday, Weekday::Friday]));
        pairs.push(DayCombination::new(vec![Weekday::Tuesday, Weekday::Thursday]));
        pairs.push(DayCombination::new(vec![Weekday::Tuesday, Weekday::Friday]));
        pairs.push(DayCombination::new(vec![Weekday::Wednesday, Weekday::Friday]));
        proof {
            assert(combos_view(pairs@) =~= catalog_spec(2)) by {
                assert(pairs@[0].days@ =~= seq![Weekday::Monday, Weekday::Wednesday]);
                assert(pairs@[1].days@ =~= seq![Weekday::Monday, Weekday::Thursday]);
                assert(pairs@[2].days@ =~= seq![Weekday::Monday, Weekday::Friday]);
                assert(pairs@[3].days@ =~= seq![Weekday::Tuesday, Weekday::Thursday]);
                assert(pairs@[4].days@ =~= seq![Weekday::Tuesday, Weekday::Friday]);
                assert(pairs@[5].days@ =~= seq![Weekday::Wednesday, Weekday::Friday]);
            }
        }

        let mut triples: Vec<DayCombination> = Vec::new();
        triples.push(
            DayCombination::new(vec![Weekday::Monday, Weekday::Wednesday, Weekday::Friday]),
        );
        proof {
            assert(combos_view(triples@) =~= catalog_spec(3)) by {
                assert(triples@[0].days@ =~= seq![
                    Weekday::Monday,
                    Weekday::Wednesday,
                    Weekday::Friday,
                ]);
            }
        }

        let mut fulls: Vec<DayCombination> = Vec::new();
        fulls.push(
            DayCombination::new(
                vec![
                    Weekday::Monday,
                    Weekday::Tuesday,
                    Weekday::Wednesday,
                    Weekday::Thursday,
                    Weekday::Friday,
                ],
            ),
        );
        proof {
            assert(combos_view(fulls@) =~= catalog_spec(5)) by {
                assert(fulls@[0].days@ =~= seq![
                    Weekday::Monday,
                    Weekday::Tuesday,
                    Weekday::Wednesday,
                    Weekday::Thursday,
                    Weekday::Friday,
                ]);
            }
        }

        let mut t: Vec<QuotaCombinations> = Vec::new();
        t.push(QuotaCombinations { required_days: 1, combinations: singles });
        t.push(QuotaCombinations { required_days: 2, combinations: pairs });
        t.push(QuotaCombinations { required_days: 3, combinations: triples });
        t.push(QuotaCombinations { required_days: 5, combinations: fulls });
        t
    }

    /// The catalog row for a required-day count: present with exactly the
    /// catalog's combinations when the count is 1, 2, 3 or 5, absent
    /// otherwise.
    pub fn combinations_for(&self, required_days: usize) -> (r: Option<&Vec<DayCombination>>)
        requires
            self.wf(),
        ensures
            match r {
                Some(v) => catalog_spec(required_days as int).len() > 0 && combos_view(v@)
                    == catalog_spec(required_days as int),
                None => catalog_spec(required_days as int).len() == 0,
            },
    {
        let mut i: usize = 0;
        while i < self.day_combinations.len()
            invariant
                self.wf(),
                i <= self.day_combinations@.len(),
                forall|k: int|
                    0 <= k < i ==> #[trigger] self.day_combinations@[k].required_days
                        != required_days,
            decreases self.day_combinations@.len() - i,
        {
            if self.day_combinations[i].required_days == required_days {
                return Some(&self.day_combinations[i].combinations);
            }
            i = i + 1;
        }
        None
    }
}

} // verus!
