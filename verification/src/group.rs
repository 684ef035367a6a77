//! A group of people that wants to draw names, the exclusion rules among
//! them, and the assignment engine.
//!
//! The engine emulates drawing names from a basket: per attempt it shuffles
//! the participants, builds a fresh eligibility matrix, applies every
//! stored rule to it, and lets each participant in turn draw a random
//! still-eligible receiver. An attempt that leaves some participant with no
//! eligible receiver is abandoned and retried with a fresh shuffle, up to
//! the attempt ceiling.

use crate::matrix::Matrix;
use crate::names::{
    lemma_distinct_len, lemma_first_index_of, lemma_first_index_of_distinct,
    lemma_reorder_preserves, views_of,
};
use crate::rng::{random_below, shuffle_names};
use vstd::prelude::*;
use vstd::set_lib::lemma_subset_equality;

verus! {

/// A stored exclusion rule. Rules may reference names that were never
/// added to the group; that is only detected when an assignment is run.
#[derive(Debug, Clone, PartialEq, Eq)]
pub enum Constraint {
    /// Neither `a` nor `b` may give to the other.
    ExcludePair { a: String, b: String },
    /// `from` may not give to `to`; the other direction stays allowed.
    Exclude { from: String, to: String },
}

/// Errors that can happen while assigning names.
#[derive(Debug)]
pub enum AssignError {
    /// A stored rule references this name, which is not in the group.
    BadConstraint(String),
    /// No valid assignment was found within the attempt ceiling.
    GivingUp,
}

/// The first name referenced by a rule that is not in `people`, if any.
pub open spec fn bad_name_of(c: Constraint, people: Set<Seq<char>>) -> Option<Seq<char>> {
    match c {
        Constraint::ExcludePair { a, b } => {
            if !people.contains(a@) {
                Some(a@)
            } else if !people.contains(b@) {
                Some(b@)
            } else {
                None
            }
        },
        Constraint::Exclude { from, to } => {
            if !people.contains(from@) {
                Some(from@)
            } else if !people.contains(to@) {
                Some(to@)
            } else {
                None
            }
        },
    }
}

/// The name that an assignment run reports as `BadConstraint`: the first
/// unknown name of the first offending rule, in store order.
pub open spec fn first_bad_name(cs: Seq<Constraint>, people: Set<Seq<char>>) -> Option<Seq<char>>
    decreases cs.len(),
{
    if cs.len() == 0 {
        None
    } else if bad_name_of(cs[0], people) is Some {
        bad_name_of(cs[0], people)
    } else {
        first_bad_name(cs.drop_first(), people)
    }
}

/// Whether a single rule allows `giver` to give to `receiver`.
pub open spec fn permits(c: Constraint, giver: Seq<char>, receiver: Seq<char>) -> bool {
    match c {
        Constraint::ExcludePair { a, b } => !(giver == a@ && receiver == b@) && !(giver == b@
            && receiver == a@),
        Constraint::Exclude { from, to } => !(giver == from@ && receiver == to@),
    }
}

/// Whether every rule in `cs` allows `giver` to give to `receiver`.
pub open spec fn all_permit(cs: Seq<Constraint>, giver: Seq<char>, receiver: Seq<char>) -> bool {
    forall|k: int| 0 <= k < cs.len() ==> permits(#[trigger] cs[k], giver, receiver)
}

/// Whether the first `upto` rules of `cs` allow `giver` to give to
/// `receiver`: the applied part of the store, midway through an attempt.
pub open spec fn prefix_permits(cs: Seq<Constraint>, upto: int, giver: Seq<char>, receiver: Seq<
    char,
>) -> bool {
    forall|k: int| 0 <= k < upto ==> permits(#[trigger] cs[k], giver, receiver)
}

/// Adding a name to a group is idempotent: registering the same name twice
/// leaves the same eligible participant set as registering it once, which
/// is how `Group::add` describes its effect on `Group::people_set`.
pub proof fn lemma_add_idempotent(people: Set<Seq<char>>, name: Seq<char>)
    ensures
        people.insert(name).insert(name) == people.insert(name),
{
    assert(people.insert(name).insert(name) =~= people.insert(name));
}

/// The givers of a list of (giver, receiver) pairs, as name views.
pub open spec fn givers(pairs: Seq<(String, String)>) -> Seq<Seq<char>> {
    pairs.map_values(|p: (String, String)| p.0@)
}

/// The receivers of a list of (giver, receiver) pairs, as name views.
pub open spec fn receivers(pairs: Seq<(String, String)>) -> Seq<Seq<char>> {
    pairs.map_values(|p: (String, String)| p.1@)
}

/// A group of people that wants to draw names.
#[derive(Debug, Clone)]
pub struct Group {
    people: Vec<String>,
    constraints: Vec<Constraint>,
    /// When trying to resolve group assignments, try up to `max_attempts`
    /// times until giving up.
    max_attempts: u32,
}

impl Group {
    /// The registered names in registration order.
    pub closed spec fn people_seq(self) -> Seq<Seq<char>> {
        views_of(self.people@)
    }

    /// The set of registered names.
    pub open spec fn people_set(self) -> Set<Seq<char>> {
        self.people_seq().to_set()
    }

    /// The stored rules in store order.
    pub closed spec fn constraints_seq(self) -> Seq<Constraint> {
        self.constraints@
    }

    /// The attempt ceiling.
    pub closed spec fn attempt_ceiling(self) -> u32 {
        self.max_attempts
    }

    /// Registered names are unique, and at least one attempt is made.
    pub open spec fn wf(self) -> bool {
        &&& self.people_seq().no_duplicates()
        &&& self.attempt_ceiling() >= 1
    }

    /// An assignment that the group accepts: one pair per participant,
    /// every participant gives exactly once and receives exactly once,
    /// nobody gives to themselves, and every stored rule is honored.
    pub open spec fn valid_assignment(self, pairs: Seq<(String, String)>) -> bool {
        &&& pairs.len() == self.people_seq().len()
        &&& givers(pairs).no_duplicates()
        &&& receivers(pairs).no_duplicates()
        &&& givers(pairs).to_set() == self.people_set()
        &&& receivers(pairs).to_set() == self.people_set()
        &&& forall|i: int|
            0 <= i < pairs.len() ==> #[trigger] givers(pairs)[i] != receivers(pairs)[i]
        &&& forall|i: int|
            0 <= i < pairs.len() ==> all_permit(
                self.constraints_seq(),
                #[trigger] givers(pairs)[i],
                receivers(pairs)[i],
            )
    }

    /// Create a new `Group` with the default attempt ceiling.
    pub fn new() -> (g: Group)
        ensures
            g.wf(),
            g.people_seq() == Seq::<Seq<char>>::empty(),
            g.constraints_seq() == Seq::<Constraint>::empty(),
            g.attempt_ceiling() == 1000,
    {
        let g = Group { people: Vec::new(), constraints: Vec::new(), max_attempts: 1000 };
        proof {
            assert(g.people_seq() =~= Seq::<Seq<char>>::empty());
        }
        g
    }

    /// Change the attempt ceiling. At least one attempt must be allowed,
    /// otherwise a run could give up before even checking the rules.
    pub fn set_max_attempts(&mut self, n: u32)
        requires
            n >= 1,
        ensures
            final(self).people_seq() == old(self).people_seq(),
            final(self).constraints_seq() == old(self).constraints_seq(),
            final(self).attempt_ceiling() == n,
            old(self).wf() ==> final(self).wf(),
    {
        self.max_attempts = n;
    }

    /// Add a name to the group. Re-adding a known name changes nothing.
    pub fn add(&mut self, name: String)
        requires
            old(self).wf(),
        ensures
            final(self).wf(),
            final(self).people_set() == old(self).people_set().insert(name@),
            old(self).people_set().contains(name@) ==> final(self).people_seq() == old(
                self,
            ).people_seq(),
            !old(self).people_set().contains(name@) ==> final(self).people_seq() == old(
                self,
            ).people_seq().push(name@),
            final(self).constraints_seq() == old(self).constraints_seq(),
            final(self).attempt_ceiling() == old(self).attempt_ceiling(),
    {
        let present = self.contains_name(name.as_str());
        if !present {
            self.people.push(name);
            proof {
                assert(self.people_seq() =~= old(self).people_seq().push(name@));
                old(self).people_seq().lemma_push_to_set_commute(name@);
                assert(old(self).people_seq().push(name@) =~= old(self).people_seq() + seq![
                    name@,
                ]);
                assert(self.people_set() =~= old(self).people_set().insert(name@));
            }
        } else {
            proof {
                assert(old(self).people_seq().to_set().contains(name@));
                assert(self.people_set() =~= old(self).people_set().insert(name@));
            }
        }
    }

    /// Make sure that `from` does not have to give `to` a gift.
    pub fn exclude(&mut self, from: String, to: String)
        requires
            old(self).wf(),
        ensures
            final(self).wf(),
            final(self).people_seq() == old(self).people_seq(),
            final(self).constraints_seq() == old(self).constraints_seq().push(
                Constraint::Exclude { from: from, to: to },
            ),
            final(self).attempt_ceiling() == old(self).attempt_ceiling(),
    {
        let constraint = Constraint::Exclude { from: from, to: to };
        self.add_constraint(constraint);
    }

    /// Make sure that `a` and `b` don't have to give each other gifts.
    pub fn exclude_pair(&mut self, a: String, b: String)
        requires
            old(self).wf(),
        ensures
            final(self).wf(),
            final(self).people_seq() == old(self).people_seq(),
            final(self).constraints_seq() == old(self).constraints_seq().push(
                Constraint::ExcludePair { a: a, b: b },
            ),
            final(self).attempt_ceiling() == old(self).attempt_ceiling(),
    {
        let constraint = Constraint::ExcludePair { a: a, b: b };
        self.add_constraint(constraint);
    }

    /// Append a rule to the store.
    fn add_constraint(&mut self, constraint: Constraint)
        requires
            old(self).wf(),
        ensures
            final(self).wf(),
            final(self).people_seq() == old(self).people_seq(),
            final(self).constraints_seq() == old(self).constraints_seq().push(constraint),
            final(self).attempt_ceiling() == old(self).attempt_ceiling(),
    {
        self.constraints.push(constraint);
    }

    /// Return whether the specified name is already in the group.
    pub fn contains_name(&self, name: &str) -> (r: bool)
        ensures
            r == self.people_set().contains(name@),
    {
        let target: String = name.to_owned();
        let n = self.people.len();
        let mut i: usize = 0;
        while i < n
            invariant
                i <= n,
                n == self.people_seq().len(),
                target@ == name@,
                forall|k: int| 0 <= k < i ==> self.people_seq()[k] != name@,
            decreases n - i,
        {
            if self.people[i] == target {
                assert(self.people_seq()[i as int] == name@);
                assert(self.people_seq().contains(name@));
                return true;
            }
            i += 1;
        }
        proof {
            if self.people_seq().contains(name@) {
                let j = choose|j: int|
                    0 <= j < self.people_seq().len() && self.people_seq()[j] == name@;
                assert(self.people_seq()[j] != name@);
            }
        }
        false
    }

    /// One attempt over an already shuffled list of the group's people:
    /// build a fresh matrix, apply every rule, then let each person in turn
    /// draw a random still-eligible receiver. `Ok(None)` is a dead end (some
    /// person had nobody left to draw); `Err` is a rule with an unknown name.
    #[verifier::loop_isolation(false)]
    #[verifier::rlimit(50)]
    fn attempt_once(&self, people: &Vec<String>) -> (r: Result<
        Option<Vec<(String, String)>>,
        AssignError,
    >)
        requires
            self.wf(),
            views_of(people@).no_duplicates(),
            views_of(people@).to_set() == self.people_set(),
        ensures
            match r {
                Result::Ok(opt) => {
                    &&& first_bad_name(self.constraints_seq(), self.people_set()) is None
                    &&& match opt {
                        Option::Some(pairs) => self.valid_assignment(pairs@)
                            && self.people_seq().len() != 1,
                        Option::None => self.people_seq().len() != 0,
                    }
                },
                Result::Err(e) => match e {
                    AssignError::BadConstraint(n) => first_bad_name(
                        self.constraints_seq(),
                        self.people_set(),
                    ) == Some(n@),
                    AssignError::GivingUp => false,
                },
            },
    {
        let ghost pnames = views_of(people@);
        let ghost pset = self.people_set();
        let ghost cs = self.constraints@;
        let n = people.len();
        proof {
            lemma_distinct_len(self.people_seq());
            lemma_distinct_len(pnames);
            assert(self.people_seq().len() == n);
        }

        let keys = people.clone();
        proof {
            assert(keys@ =~= people@);
        }
        let mut matrix = Matrix::new(keys);

        // Apply every stored rule; abort on the first unknown name.
        let mut ci: usize = 0;
        proof {
            assert(cs.skip(0) =~= cs);
        }
        while ci < self.constraints.len()
            invariant
                ci <= cs.len(),
                matrix.wf(),
                matrix.names() == pnames,
                first_bad_name(cs, pset) == first_bad_name(cs.skip(ci as int), pset),
                forall|i: int, j: int|
                    0 <= i < n && 0 <= j < n ==> #[trigger] matrix.cell(i, j) == (i != j
                        && prefix_permits(cs, ci as int, pnames[i], pnames[j])),
            decreases cs.len() - ci,
        {
            proof {
                assert(cs.skip(ci as int).len() > 0);
                assert(cs.skip(ci as int)[0] == cs[ci as int]);
                assert(cs.skip(ci as int).drop_first() =~= cs.skip(ci as int + 1));
            }
            let c = &self.constraints[ci];
            match c {
                Constraint::ExcludePair { a, b } => {
                    if !matrix.contains(a.as_str()) {
                        proof {
                            assert(bad_name_of(cs[ci as int], pset) == Some(a@));
                        }
                        return Result::Err(AssignError::BadConstraint(a.clone()));
                    }
                    if !matrix.contains(b.as_str()) {
                        proof {
                            assert(bad_name_of(cs[ci as int], pset) == Some(b@));
                        }
                        return Result::Err(AssignError::BadConstraint(b.clone()));
                    }
                    let ghost m0 = matrix;
                    let ok1 = matrix.set(a.as_str(), b.as_str(), false);
                    let ok2 = matrix.set(b.as_str(), a.as_str(), false);
                    proof {
                        assert(ok1);
                        assert(ok2);
                        assert(bad_name_of(cs[ci as int], pset) is None);
                        let ia = m0.idx(a@);
                        let ib = m0.idx(b@);
                        lemma_first_index_of(pnames, a@);
                        lemma_first_index_of(pnames, b@);
                        assert(0 <= ia < n && pnames[ia] == a@);
                        assert(0 <= ib < n && pnames[ib] == b@);
                        assert forall|i: int, j: int| 0 <= i < n && 0 <= j < n implies #[trigger]
                        matrix.cell(i, j) == (i != j && prefix_permits(
                            cs,
                            ci as int + 1,
                            pnames[i],
                            pnames[j],
                        )) by {
                            lemma_first_index_of_distinct(pnames, i);
                            lemma_first_index_of_distinct(pnames, j);
                            assert(prefix_permits(cs, ci as int + 1, pnames[i], pnames[j])
                                == (prefix_permits(cs, ci as int, pnames[i], pnames[j]) && permits(
                                cs[ci as int],
                                pnames[i],
                                pnames[j],
                            ))) by {
                                if prefix_permits(cs, ci as int, pnames[i], pnames[j]) && permits(
                                    cs[ci as int],
                                    pnames[i],
                                    pnames[j],
                                ) {
                                    assert forall|k: int| 0 <= k < ci as int + 1 implies permits(
                                        #[trigger] cs[k],
                                        pnames[i],
                                        pnames[j],
                                    ) by {}
                                }
                            }
                            if i == ia && j == ib {
                                assert(!permits(cs[ci as int], pnames[i], pnames[j]));
                            } else if i == ib && j == ia {
                                assert(!permits(cs[ci as int], pnames[i], pnames[j]));
                            } else {
                                assert(matrix.cell(i, j) == m0.cell(i, j));
                                assert(pnames[i] == a@ ==> i == ia);
                                assert(pnames[j] == b@ ==> j == ib);
                                assert(pnames[i] == b@ ==> i == ib);
                                assert(pnames[j] == a@ ==> j == ia);
                                assert(permits(cs[ci as int], pnames[i], pnames[j]));
                            }
                        }
                    }
                },
                Constraint::Exclude { from, to } => {
                    if !matrix.contains(from.as_str()) {
                        proof {
                            assert(bad_name_of(cs[ci as int], pset) == Some(from@));
                        }
                        return Result::Err(AssignError::BadConstraint(from.clone()));
                    }
                    if !matrix.contains(to.as_str()) {
                        proof {
                            assert(bad_name_of(cs[ci as int], pset) == Some(to@));
                        }
                        return Result::Err(AssignError::BadConstraint(to.clone()));
                    }
                    let ghost m0 = matrix;
                    let ok1 = matrix.set(from.as_str(), to.as_str(), false);
                    proof {
                        assert(ok1);
                        assert(bad_name_of(cs[ci as int], pset) is None);
                        let ia = m0.idx(from@);
                        let ib = m0.idx(to@);
                        lemma_first_index_of(pnames, from@);
                        lemma_first_index_of(pnames, to@);
                        assert(0 <= ia < n && pnames[ia] == from@);
                        assert(0 <= ib < n && pnames[ib] == to@);
                        assert forall|i: int, j: int| 0 <= i < n && 0 <= j < n implies #[trigger]
                        matrix.cell(i, j) == (i != j && prefix_permits(
                            cs,
                            ci as int + 1,
                            pnames[i],
                            pnames[j],
                        )) by {
                            lemma_first_index_of_distinct(pnames, i);
                            lemma_first_index_of_distinct(pnames, j);
                            assert(prefix_permits(cs, ci as int + 1, pnames[i], pnames[j])
                                == (prefix_permits(cs, ci as int, pnames[i], pnames[j]) && permits(
                                cs[ci as int],
                                pnames[i],
                                pnames[j],
                            ))) by {
                                if prefix_permits(cs, ci as int, pnames[i], pnames[j]) && permits(
                                    cs[ci as int],
                                    pnames[i],
                                    pnames[j],
                                ) {
                                    assert forall|k: int| 0 <= k < ci as int + 1 implies permits(
                                        #[trigger] cs[k],
                                        pnames[i],
                                        pnames[j],
                                    ) by {}
                                }
                            }
                            if i == ia && j == ib {
                                assert(!permits(cs[ci as int], pnames[i], pnames[j]));
                            } else {
                                assert(matrix.cell(i, j) == m0.cell(i, j));
                                assert(pnames[i] == from@ ==> i == ia);
                                assert(pnames[j] == to@ ==> j == ib);
                                assert(permits(cs[ci as int], pnames[i], pnames[j]));
                            }
                        }
                    }
                },
            }
            ci += 1;
        }
        proof {
            assert(cs.skip(cs.len() as int) =~= Seq::<Constraint>::empty());
            assert(first_bad_name(cs, pset) is None);
        }

        // Draw, in shuffled order: each person picks a random name out of
        // the still-eligible ones; a claimed receiver's column is cleared.
        let mut pairs: Vec<(String, String)> = Vec::new();
        let mut pi: usize = 0;
        proof {
            assert(givers(pairs@) =~= pnames.take(0));
            assert forall|g: Seq<char>, rc: Seq<char>|
                prefix_permits(cs, cs.len() as int, g, rc) implies all_permit(cs, g, rc) by {}
        }
        while pi < n
            invariant
                pi <= n,
                pairs@.len() == pi as int,
                matrix.wf(),
                matrix.names() == pnames,
                givers(pairs@) == pnames.take(pi as int),
                receivers(pairs@).no_duplicates(),
                forall|k: int| 0 <= k < pi ==> pnames.contains(#[trigger] receivers(pairs@)[k]),
                forall|k: int|
                    0 <= k < pi ==> #[trigger] givers(pairs@)[k] != receivers(pairs@)[k],
                forall|k: int|
                    0 <= k < pi ==> all_permit(
                        cs,
                        #[trigger] givers(pairs@)[k],
                        receivers(pairs@)[k],
                    ),
                forall|i: int, j: int|
                    0 <= i < n && 0 <= j < n && #[trigger] matrix.cell(i, j) ==> i != j
                        && all_permit(cs, pnames[i], pnames[j]) && !receivers(pairs@).contains(
                        pnames[j],
                    ),
                n == 1 ==> pi == 0,
            decreases n - pi,
        {
            let person = &people[pi];
            proof {
                assert(pnames[pi as int] == person@);
                assert(pnames.contains(pnames[pi as int]));
                lemma_first_index_of_distinct(pnames, pi as int);
            }
            let row = matrix.get_row(person.as_str()).unwrap();
            proof {
                assert(row@ == matrix.grid()[pi as int]);
                assert(row@.len() == n);
            }

            let mut basket: Vec<usize> = Vec::new();
            let mut j: usize = 0;
            while j < n
                invariant
                    j <= n,
                    forall|k: int|
                        0 <= k < basket@.len() ==> (#[trigger] basket@[k]) < n && matrix.cell(
                            pi as int,
                            basket@[k] as int,
                        ),
                decreases n - j,
            {
                if row[j] {
                    basket.push(j);
                }
                j += 1;
            }

            if basket.len() == 0 {
                return Result::Ok(None);
            }

            let bi = random_below(basket.len());
            let drawn = basket[bi];
            proof {
                assert(matrix.cell(pi as int, drawn as int));
                assert(n != 1) by {
                    if n == 1 {
                        assert(pi == 0 && drawn == 0);
                    }
                }
                lemma_first_index_of_distinct(pnames, drawn as int);
            }
            let choice: String = matrix.key_at(drawn).to_owned();
            let ghost m0 = matrix;
            let applied = matrix.set_col(choice.as_str(), false);
            let ghost pairs0 = pairs@;
            let pair = (person.clone(), choice);
            pairs.push(pair);
            proof {
                assert(applied);
                assert(m0.idx(choice@) == drawn as int);
                assert(pair.0@ == pnames[pi as int]);
                assert(pair.1@ == pnames[drawn as int]);
                assert(pairs@ == pairs0.push(pair));
                assert(!receivers(pairs0).contains(pnames[drawn as int]));

                assert forall|k: int| 0 <= k < pi as int + 1 implies givers(pairs@)[k]
                    == pnames.take(pi as int + 1)[k] by {
                    if k < pi as int {
                        assert(pairs@[k] == pairs0[k]);
                        assert(givers(pairs0)[k] == pnames.take(pi as int)[k]);
                    }
                }
                assert(givers(pairs@) =~= pnames.take(pi as int + 1));

                assert forall|k1: int, k2: int|
                    0 <= k1 < pairs@.len() && 0 <= k2 < pairs@.len() && k1 != k2 implies receivers(
                    pairs@,
                )[k1] != receivers(pairs@)[k2] by {
                    if k1 < pi as int && k2 < pi as int {
                        assert(receivers(pairs@)[k1] == receivers(pairs0)[k1]);
                        assert(receivers(pairs@)[k2] == receivers(pairs0)[k2]);
                    } else if k1 == pi as int {
                        assert(receivers(pairs@)[k2] == receivers(pairs0)[k2]);
                        assert(receivers(pairs0).contains(receivers(pairs0)[k2]));
                        assert(receivers(pairs@)[k1] == pnames[drawn as int]);
                    } else {
                        assert(receivers(pairs@)[k1] == receivers(pairs0)[k1]);
                        assert(receivers(pairs0).contains(receivers(pairs0)[k1]));
                        assert(receivers(pairs@)[k2] == pnames[drawn as int]);
                    }
                }
                assert(receivers(pairs@).no_duplicates());

                assert forall|k: int| 0 <= k < pi as int + 1 implies pnames.contains(
                    #[trigger] receivers(pairs@)[k],
                ) by {
                    if k < pi as int {
                        assert(receivers(pairs@)[k] == receivers(pairs0)[k]);
                    } else {
                        assert(receivers(pairs@)[k] == pnames[drawn as int]);
                    }
                }

                assert forall|i: int, j2: int|
                    0 <= i < n && 0 <= j2 < n && #[trigger] matrix.cell(i, j2) implies i != j2
                    && all_permit(cs, pnames[i], pnames[j2]) && !receivers(pairs@).contains(
                    pnames[j2],
                ) by {
                    assert(matrix.cell(i, j2) == (if j2 == drawn as int {
                        false
                    } else {
                        m0.cell(i, j2)
                    }));
                    assert(m0.cell(i, j2));
                    if receivers(pairs@).contains(pnames[j2]) {
                        let k = choose|k: int|
                            0 <= k < receivers(pairs@).len() && receivers(pairs@)[k] == pnames[j2];
                        if k < pi as int {
                            assert(receivers(pairs0)[k] == pnames[j2]);
                            assert(receivers(pairs0).contains(pnames[j2]));
                        } else {
                            assert(pnames[j2] == pnames[drawn as int]);
                        }
                    }
                }
            }
            pi += 1;
        }

        proof {
            assert(pnames.take(n as int) =~= pnames);
            assert(givers(pairs@) == pnames);
            lemma_distinct_len(receivers(pairs@));
            lemma_distinct_len(pnames);
            assert(receivers(pairs@).to_set().subset_of(pset)) by {
                assert forall|x: Seq<char>| receivers(pairs@).to_set().contains(x) implies
                    pset.contains(x) by {
                    assert(receivers(pairs@).contains(x));
                    let k = choose|k: int|
                        0 <= k < receivers(pairs@).len() && receivers(pairs@)[k] == x;
                    assert(pnames.contains(x));
                }
            }
            lemma_subset_equality(receivers(pairs@).to_set(), pset);
            assert(self.valid_assignment(pairs@));
            assert(n != 1) by {
                if n == 1 {
                    assert(pi == 0);
                }
            }
        }
        Result::Ok(Some(pairs))
    }

    /// Run the name assignment.
    ///
    /// For every success the result is a derangement of the registered
    /// names that honors every stored rule: each name gives exactly once,
    /// receives exactly once, and never to itself. A rule referencing an
    /// unknown name makes every run fail with `BadConstraint` carrying the
    /// first such name, whatever the randomness does; with one registered
    /// person (whose only possible receiver is themselves) a run never
    /// succeeds and, when the rules are clean, gives up.
    #[verifier::loop_isolation(false)]
    pub fn assign(&self) -> (r: Result<Vec<(String, String)>, AssignError>)
        requires
            self.wf(),
        ensures
            match r {
                Result::Ok(pairs) => {
                    &&& first_bad_name(self.constraints_seq(), self.people_set()) is None
                    &&& self.valid_assignment(pairs@)
                },
                Result::Err(e) => match e {
                    AssignError::BadConstraint(n) => first_bad_name(
                        self.constraints_seq(),
                        self.people_set(),
                    ) == Some(n@),
                    AssignError::GivingUp => first_bad_name(
                        self.constraints_seq(),
                        self.people_set(),
                    ) is None,
                },
            },
            self.people_seq().len() == 1 ==> !(r is Ok),
            self.people_seq().len() == 0 && first_bad_name(
                self.constraints_seq(),
                self.people_set(),
            ) is None ==> r is Ok,
    {
        let max = self.max_attempts;
        let mut attempt: u32 = 0;
        while attempt < max
            invariant
                attempt <= max,
                attempt > 0 ==> first_bad_name(self.constraints_seq(), self.people_set()) is None
                    && self.people_seq().len() != 0,
            decreases max - attempt,
        {
            let mut people = self.people.clone();
            proof {
                assert(people@ =~= self.people@);
                assert(views_of(people@) == self.people_seq());
            }
            shuffle_names(&mut people);
            proof {
                lemma_reorder_preserves(self.people_seq(), views_of(people@));
            }
            match self.attempt_once(&people) {
                Result::Ok(Some(pairs)) => {
                    return Result::Ok(pairs);
                },
                Result::Ok(None) => {},
                Result::Err(e) => {
                    return Result::Err(e);
                },
            }
            attempt += 1;
        }
        Result::Err(AssignError::GivingUp)
    }
}

} // verus!
