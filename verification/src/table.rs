//! The assignment table: a mapping from employee name to current department,
//! held as a vector of entries kept strictly sorted by name.

use vstd::prelude::*;
use vstd::map::*;
use crate::order::{lex_lt, lemma_lex_lt_connected, lemma_lex_lt_irrefl, lemma_lex_lt_trans, str_lt};

verus! {

/// The mapping that a sequence of (name, department) entries denotes; a later
/// entry for a name overrides an earlier one.
pub open spec fn map_of(s: Seq<(Seq<char>, Seq<char>)>) -> Map<Seq<char>, Seq<char>>
    decreases s.len(),
{
    if s.len() == 0 {
        Map::empty()
    } else {
        map_of(s.drop_last()).insert(s.last().0, s.last().1)
    }
}

/// Some entry of `s` bears the name `k`.
pub open spec fn has_key(s: Seq<(Seq<char>, Seq<char>)>, k: Seq<char>) -> bool {
    exists|i: int| 0 <= i < s.len() && s[i].0 == k
}

/// No two entries of `s` bear the same name.
pub open spec fn unique_keys(s: Seq<(Seq<char>, Seq<char>)>) -> bool {
    forall|i: int, j: int| 0 <= i < j < s.len() ==> s[i].0 != s[j].0
}

/// The names of the entries of `s` are strictly ascending.
pub open spec fn sorted_keys(s: Seq<(Seq<char>, Seq<char>)>) -> bool {
    forall|i: int, j: int| 0 <= i < j < s.len() ==> lex_lt(s[i].0, s[j].0)
}

pub proof fn lemma_sorted_keys_unique(s: Seq<(Seq<char>, Seq<char>)>)
    requires
        sorted_keys(s),
    ensures
        unique_keys(s),
{
    assert forall|i: int, j: int| 0 <= i < j < s.len() implies s[i].0 != s[j].0 by {
        lemma_lex_lt_irrefl(s[i].0);
    }
}

/// The names that `map_of` knows are exactly the names of the entries.
pub proof fn lemma_map_of_dom(s: Seq<(Seq<char>, Seq<char>)>)
    ensures
        forall|k: Seq<char>| #[trigger] map_of(s).contains_key(k) <==> has_key(s, k),
    decreases s.len(),
{
    if s.len() > 0 {
        let t = s.drop_last();
        lemma_map_of_dom(t);
        assert(forall|i: int| 0 <= i < t.len() ==> t[i] == s[i]);
        assert forall|k: Seq<char>| #[trigger] map_of(s).contains_key(k) implies has_key(
            s,
            k,
        ) by {
            if k == s.last().0 {
                assert(s[s.len() - 1].0 == k);
            } else {
                assert(map_of(s) == map_of(t).insert(s.last().0, s.last().1));
                assert(map_of(t).contains_key(k));
                assert(has_key(t, k));
                let i = choose|i: int| 0 <= i < t.len() && t[i].0 == k;
                assert(s[i].0 == k);
            }
        }
        assert forall|k: Seq<char>| has_key(s, k) implies #[trigger] map_of(s).contains_key(
            k,
        ) by {
            let i = choose|i: int| 0 <= i < s.len() && s[i].0 == k;
            assert(map_of(s) == map_of(t).insert(s.last().0, s.last().1));
            if i < s.len() - 1 {
                assert(t[i].0 == k);
                assert(has_key(t, k));
                assert(map_of(t).contains_key(k));
            } else {
                assert(k == s.last().0);
            }
        }
    }
}

/// With unique names, `map_of` sends each entry's name to its department.
pub proof fn lemma_map_of_index(s: Seq<(Seq<char>, Seq<char>)>, i: int)
    requires
        unique_keys(s),
        0 <= i < s.len(),
    ensures
        map_of(s).contains_key(s[i].0),
        map_of(s)[s[i].0] == s[i].1,
    decreases s.len(),
{
    let t = s.drop_last();
    assert(forall|q: int| 0 <= q < t.len() ==> t[q] == s[q]);
    if i < s.len() - 1 {
        lemma_map_of_index(t, i);
        assert(s[i].0 != s.last().0);
    }
}

/// Inserting an entry with a fresh name at any position inserts it into the
/// mapping.
pub proof fn lemma_map_of_insert(s: Seq<(Seq<char>, Seq<char>)>, p: int, k: Seq<char>, v: Seq<char>)
    requires
        0 <= p <= s.len(),
        !has_key(s, k),
    ensures
        map_of(s.insert(p, (k, v))) == map_of(s).insert(k, v),
    decreases s.len(),
{
    let w = s.insert(p, (k, v));
    if p == s.len() {
        assert(w.drop_last() =~= s);
        assert(w.last() == (k, v));
    } else {
        let t = s.drop_last();
        let last = s.last();
        assert(forall|q: int| 0 <= q < t.len() ==> t[q] == s[q]);
        assert(w.drop_last() =~= t.insert(p, (k, v)));
        assert(w.last() == last);
        assert(!has_key(t, k)) by {
            if has_key(t, k) {
                let i = choose|i: int| 0 <= i < t.len() && t[i].0 == k;
                assert(s[i].0 == k);
            }
        }
        lemma_map_of_insert(t, p, k, v);
        assert(s[s.len() - 1].0 != k);
        assert_maps_equal!(
            map_of(t).insert(k, v).insert(last.0, last.1),
            map_of(t).insert(last.0, last.1).insert(k, v)
        );
    }
}

/// Replacing the department of the entry at `p` updates the mapping at that
/// entry's name.
pub proof fn lemma_map_of_update(s: Seq<(Seq<char>, Seq<char>)>, p: int, v: Seq<char>)
    requires
        unique_keys(s),
        0 <= p < s.len(),
    ensures
        map_of(s.update(p, (s[p].0, v))) == map_of(s).insert(s[p].0, v),
    decreases s.len(),
{
    let k = s[p].0;
    let w = s.update(p, (k, v));
    let t = s.drop_last();
    assert(forall|q: int| 0 <= q < t.len() ==> t[q] == s[q]);
    if p == s.len() - 1 {
        assert(w.drop_last() =~= t);
        assert(w.last() == (k, v));
        assert_maps_equal!(
            map_of(t).insert(k, v),
            map_of(t).insert(k, s[p].1).insert(k, v)
        );
    } else {
        let last = s.last();
        assert(w.drop_last() =~= t.update(p, (k, v)));
        assert(w.last() == last);
        lemma_map_of_update(t, p, v);
        assert(s[p].0 != s[s.len() - 1].0);
        assert_maps_equal!(
            map_of(t).insert(k, v).insert(last.0, last.1),
            map_of(t).insert(last.0, last.1).insert(k, v)
        );
    }
}

/// `names` lists, in strictly ascending order, exactly the names that the
/// mapping `m` sends to `dept`.
pub open spec fn dept_listing(
    m: Map<Seq<char>, Seq<char>>,
    dept: Seq<char>,
    names: Seq<Seq<char>>,
) -> bool {
    &&& forall|i: int|
        0 <= i < names.len() ==> m.contains_key(#[trigger] names[i]) && m[names[i]] == dept
    &&& forall|k: Seq<char>| m.contains_key(k) && m[k] == dept ==> names.contains(k)
    &&& crate::order::strictly_sorted(names)
}

/// `names` lists, in strictly ascending order, exactly the names that the
/// mapping `m` knows.
pub open spec fn roster_listing(m: Map<Seq<char>, Seq<char>>, names: Seq<Seq<char>>) -> bool {
    &&& forall|i: int| 0 <= i < names.len() ==> m.contains_key(#[trigger] names[i])
    &&& forall|k: Seq<char>| m.contains_key(k) ==> names.contains(k)
    &&& crate::order::strictly_sorted(names)
}

/// The table that maps each employee name to the department the employee
/// currently belongs to.
pub struct AssignmentTable {
    entries: Vec<(String, String)>,
}

impl View for AssignmentTable {
    type V = Map<Seq<char>, Seq<char>>;

    closed spec fn view(&self) -> Map<Seq<char>, Seq<char>> {
        map_of(self.entry_seq())
    }
}

impl AssignmentTable {
    /// The entries as the character sequences they hold, in table order.
    pub closed spec fn entry_seq(self) -> Seq<(Seq<char>, Seq<char>)> {
        self.entries@.map_values(|p: (String, String)| (p.0@, p.1@))
    }

    /// Well-formed: the entries are strictly sorted by name, so each name
    /// appears at most once.
    pub closed spec fn wf(self) -> bool {
        sorted_keys(self.entry_seq())
    }

    /// An empty table.
    pub fn new() -> (t: AssignmentTable)
        ensures
            t.wf(),
            t@ == Map::<Seq<char>, Seq<char>>::empty(),
    {
        let t = AssignmentTable { entries: Vec::new() };
        proof {
            assert(t.entry_seq() =~= Seq::<(Seq<char>, Seq<char>)>::empty());
        }
        t
    }

    /// Puts `name` in `dept`, overwriting any department the name had before.
    pub fn assign(&mut self, name: String, dept: String)
        requires
            old(self).wf(),
        ensures
            final(self).wf(),
            final(self)@ == old(self)@.insert(name@, dept@),
    {
        let n: usize = self.entries.len();
        let mut p: usize = 0;
        while p < n && str_lt(self.entries[p].0.as_str(), name.as_str())
            invariant
                *self == *old(self),
                n == self.entries.len(),
                p <= n,
                forall|q: int| 0 <= q < p ==> lex_lt(self.entry_seq()[q].0, name@),
            decreases n - p,
        {
            proof {
                assert(self.entry_seq()[p as int].0 == self.entries@[p as int].0@);
            }
            p = p + 1;
        }
        let ghost s = self.entry_seq();
        proof {
            lemma_sorted_keys_unique(s);
        }
        if p < n && !str_lt(name.as_str(), self.entries[p].0.as_str()) {
            // Neither name comes first: the entry at `p` already bears `name`.
            proof {
                assert(s[p as int].0 == self.entries@[p as int].0@);
                lemma_lex_lt_connected(name@, s[p as int].0);
                lemma_map_of_update(s, p as int, dept@);
            }
            self.entries.remove(p);
            self.entries.insert(p, (name, dept));
            proof {
                assert(self.entry_seq() =~= s.update(p as int, (s[p as int].0, dept@)));
                assert forall|i: int, j: int|
                    0 <= i < j < self.entry_seq().len() implies lex_lt(
                    self.entry_seq()[i].0,
                    self.entry_seq()[j].0,
                ) by {
                    assert(self.entry_seq()[i].0 == s[i].0);
                    assert(self.entry_seq()[j].0 == s[j].0);
                }
            }
        } else {
            // Every entry before `p` comes before `name`, and `name` comes
            // before every entry from `p` on: a fresh name enters at `p`.
            proof {
                if p < n {
                    assert(s[p as int].0 == self.entries@[p as int].0@);
                }
                assert forall|q: int| 0 <= q < s.len() implies s[q].0 != name@ by {
                    if q < p {
                        lemma_lex_lt_irrefl(name@);
                    } else {
                        if p < q {
                            lemma_lex_lt_trans(name@, s[p as int].0, s[q].0);
                        }
                        lemma_lex_lt_irrefl(name@);
                    }
                }
                assert(!has_key(s, name@));
                lemma_map_of_insert(s, p as int, name@, dept@);
            }
            self.entries.insert(p, (name, dept));
            proof {
                assert(self.entry_seq() =~= s.insert(p as int, (name@, dept@)));
                let w = self.entry_seq();
                assert forall|i: int, j: int| 0 <= i < j < w.len() implies lex_lt(
                    w[i].0,
                    w[j].0,
                ) by {
                    s.insert_ensures(p as int, (name@, dept@));
                    if i < p && j < p {
                    } else if i < p && j == p {
                    } else if i < p && j > p {
                    } else if i == p {
                        if j - 1 > p {
                            lemma_lex_lt_trans(name@, s[p as int].0, s[j - 1].0);
                        }
                    } else {
                    }
                }
            }
        }
    }

    /// The names currently assigned to `dept`, in ascending order.
    pub fn names_in_dept(&self, dept: &String) -> (names: Vec<String>)
        requires
            self.wf(),
        ensures
            dept_listing(self@, dept@, names@.map_values(|s: String| s@)),
    {
        let ghost s = self.entry_seq();
        let mut names: Vec<String> = Vec::new();
        let ghost idxs: Seq<int> = Seq::empty();
        let mut j: usize = 0;
        let n: usize = self.entries.len();
        while j < n
            invariant
                self.wf(),
                s == self.entry_seq(),
                n == self.entries@.len(),
                n == s.len(),
                j <= n,
                idxs.len() == names@.len(),
                forall|a: int| 0 <= a < idxs.len() ==> 0 <= #[trigger] idxs[a] < j,
                forall|a: int, b: int| 0 <= a < b < idxs.len() ==> idxs[a] < idxs[b],
                forall|a: int|
                    0 <= a < idxs.len() ==> names@[a]@ == s[#[trigger] idxs[a]].0 && s[idxs[a]].1
                        == dept@,
                forall|i: int|
                    0 <= i < j && (#[trigger] s[i]).1 == dept@ ==> exists|a: int|
                        0 <= a < idxs.len() && idxs[a] == i,
            decreases n - j,
        {
            let ghost idxs0 = idxs;
            proof {
                assert(s[j as int] == (self.entries@[j as int].0@, self.entries@[j as int].1@));
            }
            if self.entries[j].1.eq(dept) {
                names.push(self.entries[j].0.clone());
                proof {
                    idxs = idxs.push(j as int);
                }
            }
            proof {
                assert forall|i: int|
                    0 <= i < j + 1 && (#[trigger] s[i]).1 == dept@ implies exists|a: int|
                        0 <= a < idxs.len() && idxs[a] == i by {
                    if i == j {
                        assert(idxs[idxs.len() - 1] == i);
                    } else {
                        let a = choose|a: int| 0 <= a < idxs0.len() && idxs0[a] == i;
                        assert(idxs[a] == i);
                    }
                }
            }
            j = j + 1;
        }
        proof {
            lemma_sorted_keys_unique(s);
            lemma_map_of_dom(s);
            let nv = names@.map_values(|t: String| t@);
            assert forall|i: int|
                0 <= i < nv.len() implies self@.contains_key(#[trigger] nv[i]) && self@[nv[i]]
                == dept@ by {
                assert(nv[i] == names@[i]@);
                lemma_map_of_index(s, idxs[i]);
            }
            assert forall|k: Seq<char>|
                self@.contains_key(k) && self@[k] == dept@ implies nv.contains(k) by {
                assert(has_key(s, k));
                let i = choose|i: int| 0 <= i < s.len() && s[i].0 == k;
                lemma_map_of_index(s, i);
                assert(s[i].1 == dept@);
                let a = choose|a: int| 0 <= a < idxs.len() && idxs[a] == i;
                assert(nv[a] == k);
            }
            assert forall|a: int, b: int| 0 <= a < b < nv.len() implies lex_lt(
                nv[a],
                nv[b],
            ) by {
                assert(nv[a] == s[idxs[a]].0);
                assert(nv[b] == s[idxs[b]].0);
            }
        }
        names
    }

    /// Every name in the table, in ascending order.
    pub fn all_names(&self) -> (names: Vec<String>)
        requires
            self.wf(),
        ensures
            roster_listing(self@, names@.map_values(|s: String| s@)),
    {
        let ghost s = self.entry_seq();
        let mut names: Vec<String> = Vec::new();
        let mut j: usize = 0;
        let n: usize = self.entries.len();
        while j < n
            invariant
                self.wf(),
                s == self.entry_seq(),
                n == self.entries@.len(),
                n == s.len(),
                j <= n,
                names@.len() == j,
                forall|a: int| 0 <= a < j ==> (#[trigger] names@[a])@ == s[a].0,
            decreases n - j,
        {
            proof {
                assert(s[j as int] == (self.entries@[j as int].0@, self.entries@[j as int].1@));
            }
            names.push(self.entries[j].0.clone());
            j = j + 1;
        }
        proof {
            lemma_sorted_keys_unique(s);
            lemma_map_of_dom(s);
            let nv = names@.map_values(|t: String| t@);
            assert forall|i: int| 0 <= i < nv.len() implies self@.contains_key(
                #[trigger] nv[i],
            ) by {
                assert(nv[i] == names@[i]@);
                lemma_map_of_index(s, i);
            }
            assert forall|k: Seq<char>| self@.contains_key(k) implies nv.contains(k) by {
                assert(has_key(s, k));
                let i = choose|i: int| 0 <= i < s.len() && s[i].0 == k;
                assert(nv[i] == k);
            }
            assert forall|a: int, b: int| 0 <= a < b < nv.len() implies lex_lt(
                nv[a],
                nv[b],
            ) by {
                assert(nv[a] == s[a].0);
                assert(nv[b] == s[b].0);
            }
        }
        names
    }
}

} // verus!
