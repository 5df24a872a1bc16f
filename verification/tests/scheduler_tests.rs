use office_scheduler::schema::{
    DayCount, Employee, MonthlySchedule, PastEntry, PastSchedules, Role, ScheduleGenerator, Sex,
    Weekday,
};
use office_scheduler::scheduler::{
    find_best_day_combination, generate_balanced_schedule, generate_schedule,
    group_by_required_days, process_fixed_schedules, unassignable_employees,
};

fn employee(id: usize, required_days: u8, fixed_days: Vec<Weekday>) -> Employee {
    Employee {
        id,
        name: format!("employee-{}", id),
        sex: Sex::Female,
        role: Role::DataAnalyst,
        required_days,
        fixed_days,
        is_nsp: false,
    }
}

fn all_days() -> Vec<Weekday> {
    vec![
        Weekday::Monday,
        Weekday::Tuesday,
        Weekday::Wednesday,
        Weekday::Thursday,
        Weekday::Friday,
    ]
}

fn days_assigned(schedule: &MonthlySchedule, id: usize) -> Vec<Weekday> {
    let mut days = Vec::new();
    for day in all_days() {
        if schedule.day(day).iter().any(|e| e.id == id) {
            days.push(day);
        }
    }
    days
}

fn count_on_day(schedule: &MonthlySchedule, day: Weekday, id: usize) -> usize {
    schedule.day(day).iter().filter(|e| e.id == id).count()
}

#[test]
fn fixed_only_schedule() {
    let employees = vec![employee(1, 2, vec![Weekday::Tuesday])];
    let past = PastSchedules::new();
    let schedule = generate_balanced_schedule(&employees, &past);
    assert_eq!(schedule.day(Weekday::Tuesday).len(), 1);
    assert_eq!(schedule.day(Weekday::Tuesday)[0].id, 1);
    assert_eq!(schedule.day(Weekday::Tuesday)[0].name, "employee-1");
    assert_eq!(schedule.day(Weekday::Monday).len(), 0);
    assert_eq!(schedule.day(Weekday::Wednesday).len(), 0);
    assert_eq!(schedule.day(Weekday::Thursday).len(), 0);
    assert_eq!(schedule.day(Weekday::Friday).len(), 0);
}

#[test]
fn fixed_days_inserted_once_each() {
    let employees = vec![
        employee(1, 1, vec![Weekday::Monday, Weekday::Monday, Weekday::Friday]),
        employee(2, 1, vec![Weekday::Monday]),
    ];
    let past = PastSchedules::new();
    let schedule = generate_balanced_schedule(&employees, &past);
    assert_eq!(count_on_day(&schedule, Weekday::Monday, 1), 1);
    assert_eq!(count_on_day(&schedule, Weekday::Friday, 1), 1);
    assert_eq!(count_on_day(&schedule, Weekday::Monday, 2), 1);
    assert_eq!(days_assigned(&schedule, 1), vec![Weekday::Monday, Weekday::Friday]);
    assert_eq!(days_assigned(&schedule, 2), vec![Weekday::Monday]);
}

#[test]
fn no_duplicate_ids_on_any_day() {
    let mut employees = Vec::new();
    employees.push(employee(1, 3, vec![]));
    employees.push(employee(2, 2, vec![]));
    employees.push(employee(3, 5, vec![]));
    employees.push(employee(4, 1, vec![Weekday::Monday, Weekday::Wednesday]));
    employees.push(employee(5, 2, vec![]));
    let past = PastSchedules::new();
    let schedule = generate_balanced_schedule(&employees, &past);
    for day in all_days() {
        let row = schedule.day(day);
        for a in 0..row.len() {
            for b in 0..row.len() {
                if a != b {
                    assert_ne!(row[a].id, row[b].id);
                }
            }
        }
    }
}

#[test]
fn quota_satisfaction_for_flexible_employees() {
    let employees = vec![
        employee(1, 1, vec![]),
        employee(2, 2, vec![]),
        employee(3, 3, vec![]),
        employee(4, 5, vec![]),
    ];
    let past = PastSchedules::new();
    for _ in 0..10 {
        let schedule = generate_balanced_schedule(&employees, &past);
        assert_eq!(days_assigned(&schedule, 1).len(), 1);
        assert_eq!(days_assigned(&schedule, 2).len(), 2);
        assert_eq!(days_assigned(&schedule, 3).len(), 3);
        assert_eq!(days_assigned(&schedule, 4).len(), 5);
    }
}

#[test]
fn quota_three_always_monday_wednesday_friday() {
    let employees = vec![employee(7, 3, vec![])];
    let past = PastSchedules::new();
    for _ in 0..10 {
        let schedule = generate_balanced_schedule(&employees, &past);
        assert_eq!(
            days_assigned(&schedule, 7),
            vec![Weekday::Monday, Weekday::Wednesday, Weekday::Friday]
        );
    }
}

#[test]
fn quota_five_always_all_days() {
    let employees = vec![employee(9, 5, vec![])];
    let past = PastSchedules::new();
    for _ in 0..10 {
        let schedule = generate_balanced_schedule(&employees, &past);
        assert_eq!(days_assigned(&schedule, 9), all_days());
    }
}

#[test]
fn unmapped_quota_leaves_employee_unassigned() {
    let employees = vec![employee(1, 4, vec![]), employee(2, 1, vec![])];
    let past = PastSchedules::new();
    let schedule = generate_balanced_schedule(&employees, &past);
    assert_eq!(days_assigned(&schedule, 1).len(), 0);
    assert_eq!(days_assigned(&schedule, 2).len(), 1);
}

#[test]
fn unassignable_employees_are_reported() {
    let employees = vec![
        employee(1, 4, vec![]),
        employee(2, 2, vec![]),
        employee(3, 0, vec![]),
        employee(4, 4, vec![Weekday::Tuesday]),
    ];
    let reported = unassignable_employees(&employees);
    let ids: Vec<usize> = reported.iter().map(|e| e.id).collect();
    // quota 4 with a fixed day still gets the fixed day, so only the
    // flexible employees with quotas outside the catalog are reported
    assert_eq!(ids, vec![1, 3]);
}

#[test]
fn assign_is_idempotent() {
    let mut schedule = MonthlySchedule::new();
    let e = employee(4, 1, vec![]);
    let first = schedule.assign(Weekday::Wednesday, &e);
    let second = schedule.assign(Weekday::Wednesday, &e);
    assert!(first);
    assert!(!second);
    assert_eq!(schedule.day(Weekday::Wednesday).len(), 1);
    assert_eq!(count_on_day(&schedule, Weekday::Wednesday, 4), 1);
}

#[test]
fn balance_tendency_ten_singles() {
    let past = PastSchedules::new();
    for _ in 0..5 {
        let mut employees = Vec::new();
        for id in 1..=10 {
            employees.push(employee(id, 1, vec![]));
        }
        let schedule = generate_balanced_schedule(&employees, &past);
        let mut loads = Vec::new();
        for day in all_days() {
            loads.push(schedule.day(day).len());
        }
        let max = *loads.iter().max().unwrap();
        let min = *loads.iter().min().unwrap();
        assert!(max - min <= 2, "unbalanced loads: {:?}", loads);
    }
}

#[test]
fn single_pair_choice_comes_from_catalog() {
    let generator = ScheduleGenerator::new();
    let combos = generator.combinations_for(2).expect("catalog row for quota 2");
    let day_counts = DayCount::new();
    let e = employee(1, 2, vec![]);
    let past = PastSchedules::new();
    let legal: Vec<Vec<Weekday>> = vec![
        vec![Weekday::Monday, Weekday::Wednesday],
        vec![Weekday::Monday, Weekday::Thursday],
        vec![Weekday::Monday, Weekday::Friday],
        vec![Weekday::Tuesday, Weekday::Thursday],
        vec![Weekday::Tuesday, Weekday::Friday],
        vec![Weekday::Wednesday, Weekday::Friday],
    ];
    for _ in 0..20 {
        let best = find_best_day_combination(combos, &day_counts, &e, &past);
        assert!(legal.contains(&best.days), "not a catalog pair: {:?}", best.days);
    }
}

#[test]
fn repetition_avoidance_skips_monday() {
    let past = PastSchedules {
        entries: vec![PastEntry { employee_id: 1, months: vec![vec![Weekday::Monday]] }],
    };
    let employees = vec![employee(1, 1, vec![])];
    let mut monday_count = 0;
    let mut total = 0;
    for _ in 0..50 {
        let schedule = generate_balanced_schedule(&employees, &past);
        let days = days_assigned(&schedule, 1);
        assert_eq!(days.len(), 1);
        if days[0] == Weekday::Monday {
            monday_count += 1;
        }
        total += 1;
    }
    assert_eq!(total, 50);
    // Monday carries a positive repetition penalty against an otherwise
    // balanced load, so it is chosen strictly less often than the
    // penalty-free days: with exact scoring, never.
    assert_eq!(monday_count, 0);
}

#[test]
fn repetition_outweighs_small_imbalance() {
    // Monday is the emptiest day, but the employee just worked Mondays;
    // with the 3x repetition weight every other day scores better.
    let past = PastSchedules {
        entries: vec![PastEntry { employee_id: 9, months: vec![vec![Weekday::Monday]] }],
    };
    let employees = vec![
        employee(1, 1, vec![Weekday::Tuesday]),
        employee(2, 1, vec![Weekday::Wednesday]),
        employee(3, 1, vec![Weekday::Thursday]),
        employee(4, 1, vec![Weekday::Friday]),
        employee(9, 1, vec![]),
    ];
    for _ in 0..20 {
        let schedule = generate_balanced_schedule(&employees, &past);
        let days = days_assigned(&schedule, 9);
        assert_eq!(days.len(), 1);
        assert_ne!(days[0], Weekday::Monday);
    }
}

#[test]
fn empty_roster_gives_empty_schedule() {
    let employees: Vec<Employee> = Vec::new();
    let past = PastSchedules::new();
    let schedule = generate_balanced_schedule(&employees, &past);
    for day in all_days() {
        assert_eq!(schedule.day(day).len(), 0);
    }
}

#[test]
fn tie_breaking_is_randomized() {
    // with one quota-1 employee, no history and an empty month, all five
    // singleton combinations tie; the shuffle decides, so over many runs
    // more than one weekday must show up
    let employees = vec![employee(1, 1, vec![])];
    let past = PastSchedules::new();
    let mut seen = std::collections::HashSet::new();
    for _ in 0..40 {
        let schedule = generate_balanced_schedule(&employees, &past);
        let days = days_assigned(&schedule, 1);
        assert_eq!(days.len(), 1);
        seen.insert(days[0]);
    }
    assert!(seen.len() > 1, "tie-breaking never varied: {:?}", seen);
}

#[test]
fn process_fixed_schedules_splits_roster() {
    let employees = vec![
        employee(1, 2, vec![Weekday::Monday]),
        employee(2, 1, vec![]),
        employee(3, 3, vec![Weekday::Friday]),
        employee(4, 5, vec![]),
    ];
    let mut day_counts = DayCount::new();
    let mut schedule = MonthlySchedule::new();
    let (flexible, fixed) = process_fixed_schedules(&employees, &mut day_counts, &mut schedule);
    let flexible_ids: Vec<usize> = flexible.iter().map(|e| e.id).collect();
    let fixed_ids: Vec<usize> = fixed.iter().map(|e| e.id).collect();
    assert_eq!(flexible_ids, vec![2, 4]);
    assert_eq!(fixed_ids, vec![1, 3]);
    assert_eq!(schedule.day(Weekday::Monday).len(), 1);
    assert_eq!(schedule.day(Weekday::Friday).len(), 1);
    assert_eq!(day_counts.get(Weekday::Monday), 1);
    assert_eq!(day_counts.get(Weekday::Friday), 1);
    assert_eq!(day_counts.get(Weekday::Tuesday), 0);
}

#[test]
fn grouping_buckets_by_quota_descending() {
    let employees = vec![
        employee(1, 1, vec![]),
        employee(2, 2, vec![]),
        employee(3, 2, vec![]),
        employee(4, 5, vec![]),
    ];
    let groups = group_by_required_days(&employees);
    let keys: Vec<usize> = groups.iter().map(|g| g.required_days).collect();
    assert_eq!(keys, vec![5, 2, 1]);
    let sizes: Vec<usize> = groups.iter().map(|g| g.employees.len()).collect();
    assert_eq!(sizes, vec![1, 2, 1]);
    let mut two_ids: Vec<usize> = groups[1].employees.iter().map(|e| e.id).collect();
    two_ids.sort();
    assert_eq!(two_ids, vec![2, 3]);
}

#[test]
fn generate_schedule_with_explicit_generator() {
    let generator = ScheduleGenerator::new();
    let employees = vec![employee(1, 3, vec![]), employee(2, 1, vec![Weekday::Monday])];
    let past = PastSchedules::new();
    let schedule = generate_schedule(&generator, &employees, &past);
    assert_eq!(
        days_assigned(&schedule, 1),
        vec![Weekday::Monday, Weekday::Wednesday, Weekday::Friday]
    );
    assert_eq!(days_assigned(&schedule, 2), vec![Weekday::Monday]);
    assert_eq!(schedule.day(Weekday::Monday).len(), 2);
}
