//! The fixed reference lists and the initial assignment table.

use vstd::prelude::*;
use crate::table::AssignmentTable;

verus! {

/// The fixed list of valid employee names.
pub fn setup_employees() -> (emps: Vec<String>)
    ensures
        emps@.map_values(|s: String| s@) == seq!["Sally"@, "Bob"@, "Amir"@, "Sales"@, "Aaron"@],
{
    let mut emps: Vec<String> = Vec::new();
    emps.push("Sally".to_owned());
    emps.push("Bob".to_owned());
    emps.push("Amir".to_owned());
    emps.push("Sales".to_owned());
    emps.push("Aaron".to_owned());
    proof {
        assert(emps@.map_values(|s: String| s@) =~= seq![
            "Sally"@,
            "Bob"@,
            "Amir"@,
            "Sales"@,
            "Aaron"@,
        ]);
    }
    emps
}

/// The fixed list of valid department names.
pub fn setup_departments() -> (depts: Vec<String>)
    ensures
        depts@.map_values(|s: String| s@) == seq![
            "Sales"@,
            "Engineering"@,
            "HR"@,
            "Cybersecurity"@,
        ],
{
    let mut depts: Vec<String> = Vec::new();
    depts.push("Sales".to_owned());
    depts.push("Engineering".to_owned());
    depts.push("HR".to_owned());
    depts.push("Cybersecurity".to_owned());
    proof {
        assert(depts@.map_values(|s: String| s@) =~= seq![
            "Sales"@,
            "Engineering"@,
            "HR"@,
            "Cybersecurity"@,
        ]);
    }
    depts
}

/// The initial table. The entries go in one by one, so the later entry for
/// Sally overwrites the earlier one, and Zara enters although she is not a
/// valid employee: the seed bypasses the validation that later assignment
/// commands go through.
pub fn setup_emp_dept_map() -> (map: AssignmentTable)
    ensures
        map.wf(),
        map@ == Map::<Seq<char>, Seq<char>>::empty().insert("Sally"@, "Engineering"@).insert(
            "Bob"@,
            "Engineering"@,
        ).insert("Zara"@, "Sales"@).insert("Aaron"@, "Sales"@).insert("Sally"@, "Sales"@).insert(
            "Amir"@,
            "Sales"@,
        ),
{
    let mut map = AssignmentTable::new();
    map.assign("Sally".to_owned(), "Engineering".to_owned());
    map.assign("Bob".to_owned(), "Engineering".to_owned());
    map.assign("Zara".to_owned(), "Sales".to_owned());
    map.assign("Aaron".to_owned(), "Sales".to_owned());
    map.assign("Sally".to_owned(), "Sales".to_owned());
    map.assign("Amir".to_owned(), "Sales".to_owned());
    map
}

} // verus!
