//! The menu of the command loop: which operation a line of input selects.

use vstd::prelude::*;
use crate::text::{parse_u32, parse_u32_spec, trim, trim_spec};

verus! {

/// One selectable operation, or `Unknown` for anything unrecognized.
#[derive(Clone, Copy, Debug, PartialEq, Eq)]
pub enum MenuOption {
    AddPerson,
    PeopleInDepartment,
    PeopleInCompany,
    Quit,
    Unknown,
}

/// The operation that menu choice `c` selects.
pub open spec fn option_for_choice(c: u32) -> MenuOption {
    if c == 1 {
        MenuOption::AddPerson
    } else if c == 2 {
        MenuOption::PeopleInDepartment
    } else if c == 3 {
        MenuOption::PeopleInCompany
    } else if c == 4 {
        MenuOption::Quit
    } else {
        MenuOption::Unknown
    }
}

/// The operation that a raw input line selects: the line is trimmed and read
/// as a number; a line that is no number in range selects `Unknown`.
pub open spec fn menu_choice_of(line: Seq<char>) -> MenuOption {
    match parse_u32_spec(trim_spec(line)) {
        Some(c) => option_for_choice(c),
        None => MenuOption::Unknown,
    }
}

/// Reads one line of menu input as the operation it selects.
pub fn menu(line: &str) -> (m: MenuOption)
    ensures
        m == menu_choice_of(line@),
{
    let t = trim(line);
    match parse_u32(t.as_str()) {
        Some(c) => {
            if c == 1 {
                MenuOption::AddPerson
            } else if c == 2 {
                MenuOption::PeopleInDepartment
            } else if c == 3 {
                MenuOption::PeopleInCompany
            } else if c == 4 {
                MenuOption::Quit
            } else {
                MenuOption::Unknown
            }
        },
        None => MenuOption::Unknown,
    }
}

} // verus!
