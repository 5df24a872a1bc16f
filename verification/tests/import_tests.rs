use office_scheduler::import::{convert_to_employee, EmployeeImport, ImportError};
use office_scheduler::schema::{Role, Sex, Weekday};

fn import_record(sex: &str, role: &str, fixed_days: Vec<&str>) -> EmployeeImport {
    EmployeeImport {
        name: "Jo".to_string(),
        sex: sex.to_string(),
        role: role.to_string(),
        required_days: 2,
        fixed_days: fixed_days.into_iter().map(|d| d.to_string()).collect(),
        is_nsp: true,
    }
}

#[test]
fn converts_a_valid_record() {
    let record = import_record("Male", "Data Scientist", vec!["monday", "FRIDAY"]);
    let e = convert_to_employee(record).expect("record is valid");
    assert_eq!(e.id, 0);
    assert_eq!(e.name, "Jo");
    assert_eq!(e.sex, Sex::Male);
    assert_eq!(e.role, Role::DataScientist);
    assert_eq!(e.required_days, 2);
    assert_eq!(e.fixed_days, vec![Weekday::Monday, Weekday::Friday]);
    assert!(e.is_nsp);
}

#[test]
fn sex_is_matched_case_insensitively() {
    for s in ["male", "MALE", "mAlE"] {
        let e = convert_to_employee(import_record(s, "IT Support", vec![])).unwrap();
        assert_eq!(e.sex, Sex::Male);
    }
    for s in ["female", "Female", "FEMALE"] {
        let e = convert_to_employee(import_record(s, "IT Support", vec![])).unwrap();
        assert_eq!(e.sex, Sex::Female);
    }
}

#[test]
fn every_role_name_is_recognized() {
    let table = [
        ("Human Resource Manager", Role::HR),
        ("AI-LLM Engineer", Role::AiLlmEngineer),
        ("Social Media Marketing", Role::SocialMediaMarketing),
        ("IT Support", Role::ITSupport),
        ("Machine Learning Engineer", Role::MLEngineer),
        ("Data Scientist", Role::DataScientist),
        ("Data Analyst", Role::DataAnalyst),
        ("Full-stack Engineer", Role::FullStackEngineer),
        ("Backend Engineer", Role::BackendEngineer),
        ("Frontend Engineer", Role::FrontendEngineer),
        ("Blockchain Engineer", Role::BlockchainEngineer),
        ("QA Engineer", Role::QaEngineer),
        ("Project Manager", Role::ProjectManager),
        ("UI/UX Designer", Role::UiUxDesigner),
        ("Mobile Engineer", Role::MobileEngineer),
        ("DevOps Engineer", Role::DevOpsEngineer),
        ("Operations Manager", Role::OperationsManager),
    ];
    for (name, role) in table {
        let e = convert_to_employee(import_record("female", name, vec![])).unwrap();
        assert_eq!(e.role, role);
    }
}

#[test]
fn role_match_is_case_sensitive() {
    let r = convert_to_employee(import_record("female", "data scientist", vec![]));
    match r {
        Err(ImportError::InvalidRole(v)) => assert_eq!(v, "data scientist"),
        other => panic!("expected an invalid-role error, got {:?}", other),
    }
}

#[test]
fn invalid_sex_is_reported_first() {
    let r = convert_to_employee(import_record("alien", "not a role", vec!["noday"]));
    match r {
        Err(ImportError::InvalidSex(v)) => {
            assert_eq!(v, "alien");
        },
        other => panic!("expected an invalid-sex error, got {:?}", other),
    }
}

#[test]
fn invalid_weekday_reports_the_first_offender() {
    let r = convert_to_employee(
        import_record("male", "QA Engineer", vec!["monday", "Funday", "sunday"]),
    );
    match r {
        Err(ImportError::InvalidWeekday(v)) => assert_eq!(v, "Funday"),
        other => panic!("expected an invalid-weekday error, got {:?}", other),
    }
}

#[test]
fn error_messages_name_the_value() {
    let e1 = convert_to_employee(import_record("alien", "IT Support", vec![])).unwrap_err();
    assert_eq!(e1.message(), "Invalid sex value: alien");
    let e2 = convert_to_employee(import_record("male", "Boss", vec![])).unwrap_err();
    assert_eq!(e2.message(), "Invalid role value: Boss");
    let e3 = convert_to_employee(import_record("male", "IT Support", vec!["caturday"]))
        .unwrap_err();
    assert_eq!(e3.message(), "Invalid weekday value: caturday");
}

#[test]
fn weekday_names_cover_the_week() {
    let record = import_record(
        "female",
        "Project Manager",
        vec!["Monday", "tuesday", "WEDNESDAY", "thursday", "friDAY"],
    );
    let e = convert_to_employee(record).unwrap();
    assert_eq!(
        e.fixed_days,
        vec![
            Weekday::Monday,
            Weekday::Tuesday,
            Weekday::Wednesday,
            Weekday::Thursday,
            Weekday::Friday,
        ]
    );
}
