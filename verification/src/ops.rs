//! The three roster operations: assigning a person to a department and the
//! two queries, each taking one raw line of user input.

use vstd::prelude::*;
use crate::table::{dept_listing, roster_listing, AssignmentTable};
use crate::text::{split_words, trim, trim_spec, words_of};

verus! {

/// Some entry of the list reads exactly `x`.
pub open spec fn list_has(list: Seq<String>, x: Seq<char>) -> bool {
    exists|i: int| 0 <= i < list.len() && list[i]@ == x
}

/// Decides `list_has`.
pub fn list_contains(list: &Vec<String>, x: &String) -> (r: bool)
    ensures
        r == list_has(list@, x@),
{
    let mut i: usize = 0;
    let n: usize = list.len();
    while i < n
        invariant
            n == list@.len(),
            i <= n,
            forall|q: int| 0 <= q < i ==> (#[trigger] list@[q])@ != x@,
        decreases n - i,
    {
        if list[i].eq(x) {
            proof {
                assert(list@[i as int]@ == x@);
            }
            return true;
        }
        i = i + 1;
    }
    false
}

/// How one assignment command ended.
#[derive(Debug)]
pub enum AddOutcome {
    /// The command did not have exactly four words; nothing changed.
    Invalid,
    /// Both candidates were valid; the table now has the assignment.
    Added { name: String, dept: String },
    /// Name or department failed validation; nothing changed.
    NotFound { name: String, dept: String },
}

/// Carries out one assignment command: the line must split into exactly four
/// words, of which the second names the employee and the fourth the
/// department; both must appear in the respective reference lists, and only
/// then is the table changed.
pub fn add_person_to_dept(
    depts: &Vec<String>,
    emps: &Vec<String>,
    map: &mut AssignmentTable,
    command: &str,
) -> (r: AddOutcome)
    requires
        old(map).wf(),
    ensures
        final(map).wf(),
        ({
            let ws = words_of(command@);
            if ws.len() != 4 {
                r is Invalid && *final(map) == *old(map)
            } else if list_has(emps@, ws[1]) && list_has(depts@, ws[3]) {
                final(map)@ == old(map)@.insert(ws[1], ws[3]) && (r matches AddOutcome::Added {
                    name,
                    dept,
                } && name@ == ws[1] && dept@ == ws[3])
            } else {
                *final(map) == *old(map) && (r matches AddOutcome::NotFound { name, dept } && name@
                    == ws[1] && dept@ == ws[3])
            }
        }),
{
    let words = split_words(command);
    if words.len() != 4 {
        AddOutcome::Invalid
    } else {
        let name = words[1].clone();
        let dept = words[3].clone();
        proof {
            assert(name@ == words@.map_values(|w: String| w@)[1]);
            assert(dept@ == words@.map_values(|w: String| w@)[3]);
        }
        if list_contains(emps, &name) && list_contains(depts, &dept) {
            map.assign(name.clone(), dept.clone());
            AddOutcome::Added { name, dept }
        } else {
            AddOutcome::NotFound { name, dept }
        }
    }
}

/// Answers one department query: the line is trimmed and must name a valid
/// department, else the result is `None` whatever the table holds; a valid
/// department yields its names, ascending.
pub fn get_people_in_dept(depts: &Vec<String>, map: &AssignmentTable, line: &str) -> (r: Option<
    Vec<String>,
>)
    requires
        map.wf(),
    ensures
        ({
            let d = trim_spec(line@);
            match r {
                Some(names) => list_has(depts@, d) && dept_listing(
                    map@,
                    d,
                    names@.map_values(|s: String| s@),
                ),
                None => !list_has(depts@, d),
            }
        }),
{
    let dept = trim(line);
    if list_contains(depts, &dept) {
        Some(map.names_in_dept(&dept))
    } else {
        None
    }
}

/// Every person currently in the table, in ascending order of name.
pub fn get_all_people(map: &AssignmentTable) -> (names: Vec<String>)
    requires
        map.wf(),
    ensures
        roster_listing(map@, names@.map_values(|s: String| s@)),
{
    map.all_names()
}

} // verus!
