//! Conversion of imported employee records — plain strings for sex, role
//! and weekdays — into the scheduler's `Employee` type. Sex and weekday
//! names are matched without regard to ASCII case; role names must match
//! exactly. The first offending value is reported.

use vstd::prelude::*;
use vstd::string::StrSliceExecFns;
use vstd::string::StringExecFns;

use crate::schema::{Employee, Role, Sex, Weekday};

verus! {

/// An employee record as it arrives from an import file, before its
/// fields are checked and decoded.
#[derive(Debug)]
pub struct EmployeeImport {
    pub name: String,
    pub sex: String,
    pub role: String,
    pub required_days: u8,
    pub fixed_days: Vec<String>,
    pub is_nsp: bool,
}

/// A rejected import value: the offending string is carried along.
#[derive(Debug)]
pub enum ImportError {
    InvalidSex(String),
    InvalidRole(String),
    InvalidWeekday(String),
}

impl ImportError {
    /// A human-readable description naming the offending value.
    pub fn message(&self) -> (r: String)
        ensures
            match self {
                ImportError::InvalidSex(v) => r@ == "Invalid sex value: "@ + v@,
                ImportError::InvalidRole(v) => r@ == "Invalid role value: "@ + v@,
                ImportError::InvalidWeekday(v) => r@ == "Invalid weekday value: "@ + v@,
            },
    {
        match self {
            ImportError::InvalidSex(v) => {
                let mut s = String::from_str("Invalid sex value: ");
                s.append(v.as_str());
                s
            },
            ImportError::InvalidRole(v) => {
                let mut s = String::from_str("Invalid role value: ");
                s.append(v.as_str());
                s
            },
            ImportError::InvalidWeekday(v) => {
                let mut s = String::from_str("Invalid weekday value: ");
                s.append(v.as_str());
                s
            },
        }
    }
}

/// The code point of a character with an ASCII capital letter lowered.
pub open spec fn lower_code(c: char) -> int {
    if 65 <= c as int <= 90 {
        c as int + 32
    } else {
        c as int
    }
}

/// The two texts are equal once ASCII capital letters are lowered.
pub open spec fn ascii_ci_eq(a: Seq<char>, b: Seq<char>) -> bool {
    a.len() == b.len() && forall|i: int| 0 <= i < a.len() ==> lower_code(#[trigger] a[i])
        == lower_code(b[i])
}

fn char_ci_eq(a: char, b: char) -> (r: bool)
    ensures
        r == (lower_code(a) == lower_code(b)),
{
    let x: u32 = a as u32;
    let y: u32 = b as u32;
    let xl: u32 = if 65 <= x && x <= 90 {
        x + 32
    } else {
        x
    };
    let yl: u32 = if 65 <= y && y <= 90 {
        y + 32
    } else {
        y
    };
    xl == yl
}

fn str_ci_eq(a: &str, b: &str) -> (r: bool)
    ensures
        r == ascii_ci_eq(a@, b@),
{
    let n = a.unicode_len();
    if n != b.unicode_len() {
        return false;
    }
    let mut i: usize = 0;
    while i < n
        invariant
            i <= n,
            n == a@.len(),
            n == b@.len(),
            forall|k: int| 0 <= k < i ==> lower_code(#[trigger] a@[k]) == lower_code(b@[k]),
        decreases n - i,
    {
        if !char_ci_eq(a.get_char(i), b.get_char(i)) {
            return false;
        }
        i = i + 1;
    }
    true
}

fn str_eq(a: &str, b: &str) -> (r: bool)
    ensures
        r == (a@ == b@),
{
    let n = a.unicode_len();
    if n != b.unicode_len() {
        return false;
    }
    let mut i: usize = 0;
    while i < n
        invariant
            i <= n,
            n == a@.len(),
            n == b@.len(),
            forall|k: int| 0 <= k < i ==> #[trigger] a@[k] == b@[k],
        decreases n - i,
    {
        if a.get_char(i) != b.get_char(i) {
            return false;
        }
        i = i + 1;
    }
    proof {
        assert(a@ =~= b@);
    }
    true
}

/// The sex a string decodes to: "male" or "female", ASCII case ignored.
pub open spec fn sex_of(s: Seq<char>) -> Option<Sex> {
    if ascii_ci_eq(s, "male"@) {
        Option::Some(Sex::Male)
    } else if ascii_ci_eq(s, "female"@) {
        Option::Some(Sex::Female)
    } else {
        Option::None
    }
}

/// The role a string decodes to, by exact match of its display name.
pub open spec fn role_of(s: Seq<char>) -> Option<Role> {
    if s == "Human Resource Manager"@ {
        Option::Some(Role::HR)
    } else if s == "AI-LLM Engineer"@ {
        Option::Some(Role::AiLlmEngineer)
    } else if s == "Social Media Marketing"@ {
        Option::Some(Role::SocialMediaMarketing)
    } else if s == "IT Support"@ {
        Option::Some(Role::ITSupport)
    } else if s == "Machine Learning Engineer"@ {
        Option::Some(Role::MLEngineer)
    } else if s == "Data Scientist"@ {
        Option::Some(Role::DataScientist)
    } else if s == "Data Analyst"@ {
        Option::Some(Role::DataAnalyst)
    } else if s == "Full-stack Engineer"@ {
        Option::Some(Role::FullStackEngineer)
    } else if s == "Backend Engineer"@ {
        Option::Some(Role::BackendEngineer)
    } else if s == "Frontend Engineer"@ {
        Option::Some(Role::FrontendEngineer)
    } else if s == "Blockchain Engineer"@ {
        Option::Some(Role::BlockchainEngineer)
    } else if s == "QA Engineer"@ {
        Option::Some(Role::QaEngineer)
    } else if s == "Project Manager"@ {
        Option::Some(Role::ProjectManager)
    } else if s == "UI/UX Designer"@ {
        Option::Some(Role::UiUxDesigner)
    } else if s == "Mobile Engineer"@ {
        Option::Some(Role::MobileEngineer)
    } else if s == "DevOps Engineer"@ {
        Option::Some(Role::DevOpsEngineer)
    } else if s == "Operations Manager"@ {
        Option::Some(Role::OperationsManager)
    } else {
        Option::None
    }
}

/// The weekday a string decodes to, by its English name, ASCII case
/// ignored.
pub open spec fn weekday_of(s: Seq<char>) -> Option<Weekday> {
    if ascii_ci_eq(s, "monday"@) {
        Option::Some(Weekday::Monday)
    } else if ascii_ci_eq(s, "tuesday"@) {
        Option::Some(Weekday::Tuesday)
    } else if ascii_ci_eq(s, "wednesday"@) {
        Option::Some(Weekday::Wednesday)
    } else if ascii_ci_eq(s, "thursday"@) {
        Option::Some(Weekday::Thursday)
    } else if ascii_ci_eq(s, "friday"@) {
        Option::Some(Weekday::Friday)
    } else {
        Option::None
    }
}

fn parse_sex(s: &str) -> (r: Option<Sex>)
    ensures
        r == sex_of(s@),
{
    if str_ci_eq(s, "male") {
        Option::Some(Sex::Male)
    } else if str_ci_eq(s, "female") {
        Option::Some(Sex::Female)
    } else {
        Option::None
    }
}

fn parse_role(s: &str) -> (r: Option<Role>)
    ensures
        r == role_of(s@),
{
    if str_eq(s, "Human Resource Manager") {
        Option::Some(Role::HR)
    } else if str_eq(s, "AI-LLM Engineer") {
        Option::Some(Role::AiLlmEngineer)
    } else if str_eq(s, "Social Media Marketing") {
        Option::Some(Role::SocialMediaMarketing)
    } else if str_eq(s, "IT Support") {
        Option::Some(Role::ITSupport)
    } else if str_eq(s, "Machine Learning Engineer") {
        Option::Some(Role::MLEngineer)
    } else if str_eq(s, "Data Scientist") {
        Option::Some(Role::DataScientist)
    } else if str_eq(s, "Data Analyst") {
        Option::Some(Role::DataAnalyst)
    } else if str_eq(s, "Full-stack Engineer") {
        Option::Some(Role::FullStackEngineer)
    } else if str_eq(s, "Backend Engineer") {
        Option::Some(Role::BackendEngineer)
    } else if str_eq(s, "Frontend Engineer") {
        Option::Some(Role::FrontendEngineer)
    } else if str_eq(s, "Blockchain Engineer") {
        Option::Some(Role::BlockchainEngineer)
    } else if str_eq(s, "QA Engineer") {
        Option::Some(Role::QaEngineer)
    } else if str_eq(s, "Project Manager") {
        Option::Some(Role::ProjectManager)
    } else if str_eq(s, "UI/UX Designer") {
        Option::Some(Role::UiUxDesigner)
    } else if str_eq(s, "Mobile Engineer") {
        Option::Some(Role::MobileEngineer)
    } else if str_eq(s, "DevOps Engineer") {
        Option::Some(Role::DevOpsEngineer)
    } else if str_eq(s, "Operations Manager") {
        Option::Some(Role::OperationsManager)
    } else {
        Option::None
    }
}

fn parse_weekday(s: &str) -> (r: Option<Weekday>)
    ensures
        r == weekday_of(s@),
{
    if str_ci_eq(s, "monday") {
        Option::Some(Weekday::Monday)
    } else if str_ci_eq(s, "tuesday") {
        Option::Some(Weekday::Tuesday)
    } else if str_ci_eq(s, "wednesday") {
        Option::Some(Weekday::Wednesday)
    } else if str_ci_eq(s, "thursday") {
        Option::Some(Weekday::Thursday)
    } else if str_ci_eq(s, "friday") {
        Option::Some(Weekday::Friday)
    } else {
        Option::None
    }
}

/// Decode an imported record into an `Employee`. The sex is checked
/// first, then the role, then each fixed day in order; the first invalid
/// value is returned as the error. A decoded employee carries id 0 —
/// identities are handed out by the persistence layer, not here.
pub fn convert_to_employee(import: EmployeeImport) -> (r: Result<Employee, ImportError>)
    ensures
        match r {
            Result::Ok(e) => {
                &&& sex_of(import.sex@) == Option::Some(e.sex)
                &&& role_of(import.role@) == Option::Some(e.role)
                &&& e.id == 0
                &&& e.name@ == import.name@
                &&& e.required_days == import.required_days
                &&& e.is_nsp == import.is_nsp
                &&& e.fixed_days@.len() == import.fixed_days@.len()
                &&& forall|i: int|
                    0 <= i < import.fixed_days@.len() ==> weekday_of(
                        #[trigger] import.fixed_days@[i]@,
                    ) == Option::Some(e.fixed_days@[i])
            },
            Result::Err(ImportError::InvalidSex(v)) => {
                &&& sex_of(import.sex@) is None
                &&& v@ == import.sex@
            },
            Result::Err(ImportError::InvalidRole(v)) => {
                &&& sex_of(import.sex@) is Some
                &&& role_of(import.role@) is None
                &&& v@ == import.role@
            },
            Result::Err(ImportError::InvalidWeekday(v)) => {
                &&& sex_of(import.sex@) is Some
                &&& role_of(import.role@) is Some
                &&& exists|i: int|
                    0 <= i < import.fixed_days@.len() && weekday_of(
                        #[trigger] import.fixed_days@[i]@,
                    ) is None && v@ == import.fixed_days@[i]@ && (forall|j: int|
                        0 <= j < i ==> weekday_of(#[trigger] import.fixed_days@[j]@) is Some)
            },
        },
{
    let sex = match parse_sex(import.sex.as_str()) {
        Option::Some(sex) => sex,
        Option::None => {
            return Result::Err(ImportError::InvalidSex(import.sex));
        },
    };
    let role = match parse_role(import.role.as_str()) {
        Option::Some(role) => role,
        Option::None => {
            return Result::Err(ImportError::InvalidRole(import.role));
        },
    };
    let mut fixed_days: Vec<Weekday> = Vec::new();
    let mut i: usize = 0;
    while i < import.fixed_days.len()
        invariant
            i <= import.fixed_days@.len(),
            fixed_days@.len() == i,
            sex_of(import.sex@) == Option::Some(sex),
            role_of(import.role@) == Option::Some(role),
            forall|j: int|
                0 <= j < i ==> weekday_of(#[trigger] import.fixed_days@[j]@) == Option::Some(
                    fixed_days@[j],
                ),
        decreases import.fixed_days@.len() - i,
    {
        match parse_weekday(import.fixed_days[i].as_str()) {
            Option::Some(day) => {
                fixed_days.push(day);
            },
            Option::None => {
                let ghost bad = i as int;
                let v = import.fixed_days[i].clone();
                proof {
                    assert(weekday_of(import.fixed_days@[bad]@) is None && v@
                        == import.fixed_days@[bad]@ && (forall|j: int|
                        0 <= j < bad ==> weekday_of(#[trigger] import.fixed_days@[j]@) is Some));
                }
                return Result::Err(ImportError::InvalidWeekday(v));
            },
        }
        i = i + 1;
    }
    Result::Ok(
        Employee {
            id: 0,
            name: import.name,
            sex,
            role,
            required_days: import.required_days,
            fixed_days,
            is_nsp: import.is_nsp,
        },
    )
}

} // verus!
