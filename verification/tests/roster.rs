use roster::menu::{menu, MenuOption};
use roster::ops::{add_person_to_dept, get_all_people, get_people_in_dept, AddOutcome};
use roster::seed::{setup_departments, setup_emp_dept_map, setup_employees};

fn name_vec(names: &[&str]) -> Vec<String> {
    names.iter().map(|s| String::from(*s)).collect()
}

#[test]
fn seed_lists() {
    let emps = setup_employees();
    assert_eq!(emps, name_vec(&["Sally", "Bob", "Amir", "Sales", "Aaron"]));
    let depts = setup_departments();
    assert_eq!(depts, name_vec(&["Sales", "Engineering", "HR", "Cybersecurity"]));
}

#[test]
fn seed_query_sales() {
    let depts = setup_departments();
    let map = setup_emp_dept_map();
    let found = get_people_in_dept(&depts, &map, "Sales").unwrap();
    assert_eq!(found.len(), 4);
    assert_eq!(found, name_vec(&["Aaron", "Amir", "Sally", "Zara"]));
}

#[test]
fn seed_query_engineering() {
    let depts = setup_departments();
    let map = setup_emp_dept_map();
    let found = get_people_in_dept(&depts, &map, "Engineering").unwrap();
    assert_eq!(found, name_vec(&["Bob"]));
}

#[test]
fn valid_unused_dept_is_empty() {
    let depts = setup_departments();
    let map = setup_emp_dept_map();
    let found = get_people_in_dept(&depts, &map, "HR").unwrap();
    assert_eq!(found.len(), 0);
    let found = get_people_in_dept(&depts, &map, "Cybersecurity").unwrap();
    assert_eq!(found.len(), 0);
}

#[test]
fn unknown_dept_query_not_found() {
    let depts = setup_departments();
    let map = setup_emp_dept_map();
    assert!(get_people_in_dept(&depts, &map, "Marketing").is_none());
    assert!(get_people_in_dept(&depts, &map, "sales").is_none());
    assert!(get_people_in_dept(&depts, &map, "").is_none());
}

#[test]
fn query_line_is_trimmed() {
    let depts = setup_departments();
    let map = setup_emp_dept_map();
    let found = get_people_in_dept(&depts, &map, "  Engineering \n").unwrap();
    assert_eq!(found, name_vec(&["Bob"]));
}

#[test]
fn reassignment_moves_bob() {
    let depts = setup_departments();
    let emps = setup_employees();
    let mut map = setup_emp_dept_map();
    let r = add_person_to_dept(&depts, &emps, &mut map, "add Bob to HR");
    assert!(matches!(r, AddOutcome::Added { .. }));
    let found = get_people_in_dept(&depts, &map, "Engineering").unwrap();
    assert_eq!(found.len(), 0);
    let found = get_people_in_dept(&depts, &map, "HR").unwrap();
    assert_eq!(found, name_vec(&["Bob"]));
}

#[test]
fn assign_then_query_contains_name() {
    let depts = setup_departments();
    let emps = setup_employees();
    let mut map = setup_emp_dept_map();
    let r = add_person_to_dept(&depts, &emps, &mut map, "move Amir to Cybersecurity");
    match r {
        AddOutcome::Added { name, dept } => {
            assert_eq!(name, "Amir");
            assert_eq!(dept, "Cybersecurity");
        },
        _ => panic!("expected a successful assignment"),
    }
    let found = get_people_in_dept(&depts, &map, "Cybersecurity").unwrap();
    assert!(found.contains(&String::from("Amir")));
}

#[test]
fn second_assignment_overwrites_first() {
    let depts = setup_departments();
    let emps = setup_employees();
    let mut map = setup_emp_dept_map();
    let r = add_person_to_dept(&depts, &emps, &mut map, "add Aaron to HR");
    assert!(matches!(r, AddOutcome::Added { .. }));
    let r = add_person_to_dept(&depts, &emps, &mut map, "add Aaron to Engineering");
    assert!(matches!(r, AddOutcome::Added { .. }));
    let hr = get_people_in_dept(&depts, &map, "HR").unwrap();
    assert!(!hr.contains(&String::from("Aaron")));
    let eng = get_people_in_dept(&depts, &map, "Engineering").unwrap();
    assert_eq!(eng, name_vec(&["Aaron", "Bob"]));
    let all = get_all_people(&map);
    assert_eq!(all.iter().filter(|n| *n == "Aaron").count(), 1);
}

#[test]
fn malformed_command_changes_nothing() {
    let depts = setup_departments();
    let emps = setup_employees();
    let mut map = setup_emp_dept_map();
    let before = get_all_people(&map);
    let r = add_person_to_dept(&depts, &emps, &mut map, "add Bob HR");
    assert!(matches!(r, AddOutcome::Invalid));
    let r = add_person_to_dept(&depts, &emps, &mut map, "");
    assert!(matches!(r, AddOutcome::Invalid));
    let r = add_person_to_dept(&depts, &emps, &mut map, "add Bob to HR now");
    assert!(matches!(r, AddOutcome::Invalid));
    let after = get_all_people(&map);
    assert_eq!(before, after);
    let found = get_people_in_dept(&depts, &map, "HR").unwrap();
    assert_eq!(found.len(), 0);
}

#[test]
fn unknown_candidates_change_nothing() {
    let depts = setup_departments();
    let emps = setup_employees();
    let mut map = setup_emp_dept_map();
    let before = get_all_people(&map);
    // Zara sits in the seed table but is not a valid employee, so an explicit
    // assignment of her is rejected.
    let r = add_person_to_dept(&depts, &emps, &mut map, "add Zara to Sales");
    match r {
        AddOutcome::NotFound { name, dept } => {
            assert_eq!(name, "Zara");
            assert_eq!(dept, "Sales");
        },
        _ => panic!("expected a rejected assignment"),
    }
    let r = add_person_to_dept(&depts, &emps, &mut map, "add Bob to Accounting");
    assert!(matches!(r, AddOutcome::NotFound { .. }));
    let after = get_all_people(&map);
    assert_eq!(before, after);
}

#[test]
fn command_splits_on_any_whitespace() {
    let depts = setup_departments();
    let emps = setup_employees();
    let mut map = setup_emp_dept_map();
    let r = add_person_to_dept(&depts, &emps, &mut map, "  add \t Bob \t to   HR \n");
    assert!(matches!(r, AddOutcome::Added { .. }));
    let found = get_people_in_dept(&depts, &map, "HR").unwrap();
    assert_eq!(found, name_vec(&["Bob"]));
}

#[test]
fn all_people_is_sorted_and_complete() {
    let map = setup_emp_dept_map();
    let all = get_all_people(&map);
    assert_eq!(all, name_vec(&["Aaron", "Amir", "Bob", "Sally", "Zara"]));
}

#[test]
fn menu_dispatch() {
    assert_eq!(menu("1"), MenuOption::AddPerson);
    assert_eq!(menu("2"), MenuOption::PeopleInDepartment);
    assert_eq!(menu("3"), MenuOption::PeopleInCompany);
    assert_eq!(menu("4"), MenuOption::Quit);
}

#[test]
fn menu_unknown_inputs() {
    assert_eq!(menu("0"), MenuOption::Unknown);
    assert_eq!(menu("5"), MenuOption::Unknown);
    assert_eq!(menu(""), MenuOption::Unknown);
    assert_eq!(menu("quit"), MenuOption::Unknown);
    assert_eq!(menu("1x"), MenuOption::Unknown);
    assert_eq!(menu("-1"), MenuOption::Unknown);
    assert_eq!(menu("4294967296"), MenuOption::Unknown);
}

#[test]
fn menu_parses_as_an_integer() {
    assert_eq!(menu(" 2 \n"), MenuOption::PeopleInDepartment);
    assert_eq!(menu("+3"), MenuOption::PeopleInCompany);
    assert_eq!(menu("04"), MenuOption::Quit);
    assert_eq!(menu("4294967295"), MenuOption::Unknown);
}
