//! Laws that relate the roster operations to one another, stated over the
//! mapping view and the listing predicates that the operations' contracts use.

use vstd::prelude::*;
use vstd::map::*;
use crate::ops::list_has;
use crate::table::dept_listing;

verus! {

/// Law: assigning a valid name to a valid department and then querying that
/// department yields the name in the result set.
pub proof fn lemma_assign_then_query(
    emps: Seq<String>,
    depts: Seq<String>,
    m: Map<Seq<char>, Seq<char>>,
    name: Seq<char>,
    dept: Seq<char>,
    names: Seq<Seq<char>>,
)
    requires
        list_has(emps, name),
        list_has(depts, dept),
        dept_listing(m.insert(name, dept), dept, names),
    ensures
        names.contains(name),
{
    assert(m.insert(name, dept).contains_key(name));
}

/// Law: assigning the same name to two departments in sequence leaves only
/// the most recent one — the table ends exactly as if the first assignment
/// had never happened, and the name maps to the second department.
pub proof fn lemma_assign_overwrites(
    m: Map<Seq<char>, Seq<char>>,
    name: Seq<char>,
    first_dept: Seq<char>,
    second_dept: Seq<char>,
)
    ensures
        m.insert(name, first_dept).insert(name, second_dept) == m.insert(name, second_dept),
        m.insert(name, first_dept).insert(name, second_dept)[name] == second_dept,
{
    assert_maps_equal!(
        m.insert(name, first_dept).insert(name, second_dept),
        m.insert(name, second_dept)
    );
}

/// Law: querying a department to which no one is assigned yields an empty
/// listing, so the reported count is zero and no name is printed.
pub proof fn lemma_unused_dept_lists_nobody(
    m: Map<Seq<char>, Seq<char>>,
    dept: Seq<char>,
    names: Seq<Seq<char>>,
)
    requires
        dept_listing(m, dept, names),
        forall|k: Seq<char>| m.contains_key(k) ==> m[k] != dept,
    ensures
        names.len() == 0,
{
    if names.len() > 0 {
        assert(m.contains_key(names[0]) && m[names[0]] == dept);
    }
}

} // verus!
