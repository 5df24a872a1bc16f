use office_scheduler::schema::{
    DayCount, Employee, MonthlySchedule, PastEntry, PastSchedules, Role, ScheduleGenerator, Sex,
    Weekday,
};

fn employee(id: usize) -> Employee {
    Employee {
        id,
        name: format!("employee-{}", id),
        sex: Sex::Male,
        role: Role::BackendEngineer,
        required_days: 1,
        fixed_days: Vec::new(),
        is_nsp: false,
    }
}

#[test]
fn weekday_values_in_calendar_order() {
    assert_eq!(
        Weekday::values(),
        vec![
            Weekday::Monday,
            Weekday::Tuesday,
            Weekday::Wednesday,
            Weekday::Thursday,
            Weekday::Friday,
        ]
    );
}

#[test]
fn catalog_holds_the_fixed_combinations() {
    let generator = ScheduleGenerator::new();
    assert_eq!(generator.weekdays, Weekday::values());

    let singles = generator.combinations_for(1).expect("quota 1");
    let single_days: Vec<Vec<Weekday>> = singles.iter().map(|c| c.days.clone()).collect();
    assert_eq!(
        single_days,
        vec![
            vec![Weekday::Monday],
            vec![Weekday::Tuesday],
            vec![Weekday::Wednesday],
            vec![Weekday::Thursday],
            vec![Weekday::Friday],
        ]
    );

    let pairs = generator.combinations_for(2).expect("quota 2");
    let pair_days: Vec<Vec<Weekday>> = pairs.iter().map(|c| c.days.clone()).collect();
    assert_eq!(
        pair_days,
        vec![
            vec![Weekday::Monday, Weekday::Wednesday],
            vec![Weekday::Monday, Weekday::Thursday],
            vec![Weekday::Monday, Weekday::Friday],
            vec![Weekday::Tuesday, Weekday::Thursday],
            vec![Weekday::Tuesday, Weekday::Friday],
            vec![Weekday::Wednesday, Weekday::Friday],
        ]
    );

    let triples = generator.combinations_for(3).expect("quota 3");
    assert_eq!(triples.len(), 1);
    assert_eq!(triples[0].days, vec![Weekday::Monday, Weekday::Wednesday, Weekday::Friday]);

    let fulls = generator.combinations_for(5).expect("quota 5");
    assert_eq!(fulls.len(), 1);
    assert_eq!(fulls[0].days, Weekday::values());

    assert!(generator.combinations_for(0).is_none());
    assert!(generator.combinations_for(4).is_none());
    assert!(generator.combinations_for(6).is_none());
}

#[test]
fn day_counts_track_increments() {
    let mut counts = DayCount::new();
    assert_eq!(counts.get(Weekday::Monday), 0);
    counts.increment(Weekday::Monday);
    counts.increment(Weekday::Monday);
    counts.increment(Weekday::Friday);
    assert_eq!(counts.get(Weekday::Monday), 2);
    assert_eq!(counts.get(Weekday::Friday), 1);
    assert_eq!(counts.get(Weekday::Wednesday), 0);
}

#[test]
fn schedule_membership_checks_ids() {
    let mut schedule = MonthlySchedule::new();
    assert!(!schedule.contains_employee(Weekday::Monday, 1));
    assert!(schedule.assign(Weekday::Monday, &employee(1)));
    assert!(schedule.contains_employee(Weekday::Monday, 1));
    assert!(!schedule.contains_employee(Weekday::Tuesday, 1));
    assert!(!schedule.contains_employee(Weekday::Monday, 2));
}

#[test]
fn past_schedules_lookup_finds_first_entry() {
    let past = PastSchedules {
        entries: vec![
            PastEntry { employee_id: 1, months: vec![vec![Weekday::Monday]] },
            PastEntry {
                employee_id: 2,
                months: vec![vec![Weekday::Tuesday], vec![Weekday::Friday]],
            },
        ],
    };
    assert_eq!(past.get(1), Some(&vec![vec![Weekday::Monday]]));
    assert_eq!(past.get(2), Some(&vec![vec![Weekday::Tuesday], vec![Weekday::Friday]]));
    assert_eq!(past.get(3), None);
}

#[test]
fn employee_clone_preserves_the_record() {
    let mut e = employee(5);
    e.fixed_days = vec![Weekday::Tuesday, Weekday::Thursday];
    let c = e.clone();
    assert_eq!(c.id, e.id);
    assert_eq!(c.name, e.name);
    assert_eq!(c.sex, e.sex);
    assert_eq!(c.role, e.role);
    assert_eq!(c.required_days, e.required_days);
    assert_eq!(c.fixed_days, e.fixed_days);
    assert_eq!(c.is_nsp, e.is_nsp);
}
