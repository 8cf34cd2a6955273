use vstd::prelude::*;
use crate::hashing::set_contains;
use crate::hashing::LiteralSet;
use crate::literal::neg;
use crate::literal::signed_code;
use crate::literal::Literal;
use crate::literal::Sign;

verus! {

/// The place of a clause in the clause database.
pub type ClauseId = usize;

/// What a clause is: its literals in order, and its two watch slots.
pub struct ClauseView {
    pub lits: Seq<i32>,
    pub first: i32,
    pub second: Option<i32>,
}

impl ClauseView {
    /// The clause is not empty, holds no literal twice, and watches literals
    /// of its own, two different ones where both slots are set.
    pub open spec fn wf(self) -> bool {
        &&& self.lits.len() > 0
        &&& self.lits.no_duplicates()
        &&& self.lits.contains(self.first)
        &&& match self.second {
            Some(s) => self.lits.contains(s) && s != self.first,
            None => true,
        }
    }

    /// `strengthen` may be called on the literal: it is the second watch, or
    /// it is the first and a second one can take its place.
    pub open spec fn can_strengthen(self, code: i32) -> bool {
        if self.first == code {
            self.second is Some
        } else {
            self.second == Some(code)
        }
    }

    /// The clause after `strengthen` on a literal under an assignment.
    pub open spec fn strengthened(self, code: i32, assigned: Set<i32>) -> ClauseView
        recommends
            self.can_strengthen(code),
    {
        let first = if self.first == code {
            self.second->0
        } else {
            self.first
        };
        ClauseView { lits: self.lits, first, second: next_watch(self.lits, first, assigned) }
    }

    /// The clause after `un_strengthen` under an assignment.
    pub open spec fn restored(self, assigned: Set<i32>) -> ClauseView {
        ClauseView {
            lits: self.lits,
            first: self.first,
            second: next_watch(self.lits, self.first, assigned),
        }
    }

    /// Both clauses watch the same literals, in either order.
    pub open spec fn same_watches(self, other: ClauseView) -> bool {
        ||| self.first == other.first && self.second == other.second
        ||| self.second == Some(other.first) && other.second == Some(self.first)
    }
}

/// Every literal of the sequence but one is false under the assignment, so
/// that the clause forces that one.
pub open spec fn forced(lits: Seq<i32>, code: i32, assigned: Set<i32>) -> bool {
    forall|i: int|
        0 <= i < lits.len() && #[trigger] lits[i] != code ==> assigned.contains(neg(lits[i]))
}

/// Every literal of the clause but its first watch is false under the
/// assignment.
pub open spec fn others_false(clause: ClauseView, assigned: Set<i32>) -> bool {
    forced(clause.lits, clause.first, assigned)
}

/// A literal can take the second watch slot: it is not the first watch, and
/// the assignment does not make it false.
pub open spec fn can_watch(code: i32, first: i32, assigned: Set<i32>) -> bool {
    code != first && !assigned.contains(neg(code))
}

/// The earliest literal of the sequence that can take the second watch slot.
pub open spec fn next_watch(lits: Seq<i32>, first: i32, assigned: Set<i32>) -> Option<i32>
    decreases lits.len(),
{
    if lits.len() == 0 {
        None
    } else if can_watch(lits[0], first, assigned) {
        Some(lits[0])
    } else {
        next_watch(lits.drop_first(), first, assigned)
    }
}

/// Where there is no next watch, no literal can take the slot: each one is
/// the first watch or false.
pub proof fn lemma_no_next_watch(lits: Seq<i32>, first: i32, assigned: Set<i32>)
    requires
        next_watch(lits, first, assigned) is None,
    ensures
        forall|i: int| 0 <= i < lits.len() ==> !can_watch(#[trigger] lits[i], first, assigned),
    decreases lits.len(),
{
    if lits.len() > 0 {
        lemma_no_next_watch(lits.drop_first(), first, assigned);
        assert forall|i: int| 0 <= i < lits.len() implies !can_watch(
            #[trigger] lits[i],
            first,
            assigned,
        ) by {
            if i > 0 {
                assert(lits[i] == lits.drop_first()[i - 1]);
            }
        }
    }
}

/// The next watch, where there is one, is the earliest literal that can take
/// the slot.
pub proof fn lemma_next_watch_is_earliest(lits: Seq<i32>, first: i32, assigned: Set<i32>)
    requires
        next_watch(lits, first, assigned) is Some,
    ensures
        exists|i: int|
            0 <= i < lits.len() && #[trigger] lits[i] == next_watch(lits, first, assigned)->0
                && can_watch(lits[i], first, assigned) && forall|j: int|
                0 <= j < i ==> !can_watch(#[trigger] lits[j], first, assigned),
    decreases lits.len(),
{
    if can_watch(lits[0], first, assigned) {
        assert(lits[0] == next_watch(lits, first, assigned)->0);
    } else {
        let rest = lits.drop_first();
        lemma_next_watch_is_earliest(rest, first, assigned);
        let k = choose|i: int|
            0 <= i < rest.len() && #[trigger] rest[i] == next_watch(rest, first, assigned)->0
                && can_watch(rest[i], first, assigned) && forall|j: int|
                0 <= j < i ==> !can_watch(#[trigger] rest[j], first, assigned);
        assert(lits[k + 1] == rest[k]);
        assert forall|j: int| 0 <= j < k + 1 implies !can_watch(
            #[trigger] lits[j],
            first,
            assigned,
        ) by {
            if j > 0 {
                assert(lits[j] == rest[j - 1]);
            }
        }
    }
}

/// The earliest literal that can take the slot is the next watch.
pub proof fn lemma_earliest_is_next_watch(lits: Seq<i32>, first: i32, assigned: Set<i32>, i: int)
    requires
        0 <= i < lits.len(),
        can_watch(lits[i], first, assigned),
        forall|j: int| 0 <= j < i ==> !can_watch(#[trigger] lits[j], first, assigned),
    ensures
        next_watch(lits, first, assigned) == Some(lits[i]),
    decreases lits.len(),
{
    if i > 0 {
        let rest = lits.drop_first();
        assert(!can_watch(lits[0], first, assigned));
        assert forall|j: int| 0 <= j < i - 1 implies !can_watch(
            #[trigger] rest[j],
            first,
            assigned,
        ) by {
            assert(rest[j] == lits[j + 1]);
        }
        lemma_earliest_is_next_watch(rest, first, assigned, i - 1);
    }
}

/// A disjunction of literals with two watch slots.
#[derive(Debug, Clone, PartialEq, Eq, Hash)]
pub struct Clause {
    lits: Vec<Literal>,
    lit_a: Literal,
    lit_b: Option<Literal>,
}

/// The codes of a sequence of literals.
pub open spec fn codes(lits: Seq<Literal>) -> Seq<i32> {
    lits.map_values(|l: Literal| l@)
}

/// The codes that a sequence of DIMACS literals stands for.
pub open spec fn signed_codes(lits: Seq<(Sign, u64)>) -> Seq<i32> {
    lits.map_values(|l: (Sign, u64)| signed_code(l.0, l.1))
}

impl View for Clause {
    type V = ClauseView;

    closed spec fn view(&self) -> ClauseView {
        ClauseView {
            lits: codes(self.lits@),
            first: self.lit_a@,
            second: match self.lit_b {
                Some(l) => Some(l@),
                None => None,
            },
        }
    }
}

impl Clause {
    /// The clause of a DIMACS clause, watched on its first two literals, or on
    /// its only one.
    pub fn from_dimacs_clause(lits: &[(Sign, u64)]) -> (clause: Clause)
        requires
            lits@.len() > 0,
            forall|i: int| 0 <= i < lits@.len() ==> (#[trigger] lits@[i]).1 <= i32::MAX,
            signed_codes(lits@).no_duplicates(),
        ensures
            clause@.lits == signed_codes(lits@),
            clause@.first == clause@.lits[0],
            clause@.second == (if lits@.len() > 1 {
                Some(clause@.lits[1])
            } else {
                None
            }),
            clause@.wf(),
    {
        let mut clause_lits: Vec<Literal> = Vec::new();
        let mut i: usize = 0;
        while i < lits.len()
            invariant
                i <= lits@.len(),
                forall|k: int| 0 <= k < lits@.len() ==> (#[trigger] lits@[k]).1 <= i32::MAX,
                clause_lits@.len() == i,
                forall|k: int|
                    0 <= k < i ==> (#[trigger] clause_lits@[k])@ == signed_code(
                        lits@[k].0,
                        lits@[k].1,
                    ),
            decreases lits@.len() - i,
        {
            let (sign, var) = lits[i];
            clause_lits.push(Literal::from_dimacs_lit(sign, var));
            i = i + 1;
        }
        proof {
            assert(codes(clause_lits@) =~= signed_codes(lits@));
        }
        let lit_a = clause_lits[0];
        let lit_b = if clause_lits.len() > 1 {
            Some(clause_lits[1])
        } else {
            None
        };
        proof {
            assert(codes(clause_lits@)[0] == lit_a@);
            if clause_lits@.len() > 1 {
                assert(codes(clause_lits@)[1] == clause_lits@[1]@);
            }
        }
        Clause { lits: clause_lits, lit_a, lit_b }
    }

    /// The clause that conflict analysis emits: the asserting literal first,
    /// the other literals after it. Only the asserting literal is watched.
    pub fn new_asserting_clause(last_lit: Literal, strengthen_lits: Vec<Literal>) -> (clause: Clause)
        requires
            codes(strengthen_lits@).no_duplicates(),
            !codes(strengthen_lits@).contains(last_lit@),
        ensures
            clause@.lits == seq![last_lit@] + codes(strengthen_lits@),
            clause@.first == last_lit@,
            clause@.second is None,
            clause@.wf(),
    {
        let mut lits: Vec<Literal> = Vec::new();
        lits.push(last_lit);
        let mut i: usize = 0;
        while i < strengthen_lits.len()
            invariant
                i <= strengthen_lits@.len(),
                lits@.len() == i + 1,
                lits@[0] == last_lit,
                forall|k: int| 0 <= k < i ==> #[trigger] lits@[k + 1] == strengthen_lits@[k],
            decreases strengthen_lits@.len() - i,
        {
            lits.push(strengthen_lits[i]);
            i = i + 1;
        }
        proof {
            let tail = codes(strengthen_lits@);
            let all = seq![last_lit@] + tail;
            assert forall|k: int| 0 <= k < all.len() implies codes(lits@)[k] == all[k] by {
                if k > 0 {
                    assert(lits@[(k - 1) + 1] == strengthen_lits@[k - 1]);
                }
            }
            assert(codes(lits@) =~= all);
            assert(all[0] == last_lit@);
            assert forall|a: int, b: int| 0 <= a < all.len() && 0 <= b < all.len() && a != b implies all[a]
                != all[b] by {
                if a > 0 && b > 0 {
                    assert(all[a] == tail[a - 1] && all[b] == tail[b - 1]);
                } else if a > 0 {
                    assert(all[a] == tail[a - 1]);
                } else {
                    assert(all[b] == tail[b - 1]);
                }
            }
        }
        Clause { lits, lit_a: last_lit, lit_b: None }
    }

    /// The literals of the clause, in their order.
    pub fn lits(&self) -> (lits: &[Literal])
        ensures
            codes(lits@) == self@.lits,
    {
        self.lits.as_slice()
    }

    /// The literal in the first watch slot.
    pub fn first_watched_lit(&self) -> (lit: Literal)
        ensures
            lit@ == self@.first,
    {
        self.lit_a
    }

    /// The literal in the second watch slot, if the slot is set.
    pub fn second_watched_lit(&self) -> (lit: Option<Literal>)
        ensures
            lit is Some <==> self@.second is Some,
            lit is Some ==> lit->0@ == self@.second->0,
    {
        self.lit_b
    }

    /// Whether only the first watch slot is set.
    pub fn is_unary(&self) -> (unary: bool)
        ensures
            unary == (self@.second is None),
    {
        self.lit_b.is_none()
    }

    /// Moves a watch off a literal that has become false. Where the literal is
    /// the first watch, the second takes its place. The second slot goes to the
    /// earliest literal that is not the first watch and not false; where there
    /// is none, the slot is left empty and the first watch is the last literal
    /// standing.
    pub fn strengthen(&mut self, lit: Literal, assigned_lits: &LiteralSet) -> (next: Option<Literal>)
        requires
            old(self)@.wf(),
            old(self)@.can_strengthen(lit@),
        ensures
            final(self)@ == old(self)@.strengthened(lit@, assigned_lits@),
            final(self)@.wf(),
            next is Some <==> final(self)@.second is Some,
            next is Some ==> next->0@ == final(self)@.second->0,
            next is None ==> others_false(final(self)@, assigned_lits@),
    {
        if self.lit_a.code() == lit.code() {
            match self.lit_b {
                Some(b) => {
                    self.lit_a = b;
                },
                None => {},
            }
        }
        let next = self.find_new_second(assigned_lits);
        self.lit_b = next;
        proof {
            if next is None {
                lemma_no_next_watch(self@.lits, self@.first, assigned_lits@);
            }
        }
        next
    }

    /// Sets the second watch slot anew under the assignment as it is now: to
    /// the earliest literal that is not the first watch and not false.
    pub fn un_strengthen(&mut self, assigned_lits: &LiteralSet) -> (next: Option<Literal>)
        requires
            old(self)@.wf(),
        ensures
            final(self)@ == old(self)@.restored(assigned_lits@),
            final(self)@.wf(),
            next is Some <==> final(self)@.second is Some,
            next is Some ==> next->0@ == final(self)@.second->0,
            next is None ==> others_false(final(self)@, assigned_lits@),
    {
        let next = self.find_new_second(assigned_lits);
        self.lit_b = next;
        proof {
            if next is None {
                lemma_no_next_watch(self@.lits, self@.first, assigned_lits@);
            }
        }
        next
    }

    fn find_new_second(&self, assigned_lits: &LiteralSet) -> (next: Option<Literal>)
        ensures
            match next {
                Some(l) => next_watch(self@.lits, self@.first, assigned_lits@) == Some(l@),
                None => next_watch(self@.lits, self@.first, assigned_lits@) is None,
            },
            next is Some ==> self@.lits.contains(next->0@) && next->0@ != self@.first,
    {
        let mut i: usize = 0;
        while i < self.lits.len()
            invariant
                i <= self.lits@.len(),
                forall|j: int|
                    0 <= j < i ==> !can_watch(
                        #[trigger] codes(self.lits@)[j],
                        self.lit_a@,
                        assigned_lits@,
                    ),
            decreases self.lits@.len() - i,
        {
            let lit = self.lits[i];
            if lit.code() != self.lit_a.code() {
                let other = lit.complementary();
                if !set_contains(assigned_lits, other.code()) {
                    proof {
                        assert(codes(self.lits@)[i as int] == lit@);
                        lemma_earliest_is_next_watch(
                            codes(self.lits@),
                            self.lit_a@,
                            assigned_lits@,
                            i as int,
                        );
                    }
                    return Some(lit);
                }
            }
            i = i + 1;
        }
        proof {
            let lits = codes(self.lits@);
            if next_watch(lits, self.lit_a@, assigned_lits@) is Some {
                lemma_next_watch_is_earliest(lits, self.lit_a@, assigned_lits@);
            }
        }
        None
    }
}

/// Strengthening a clause on a watch that an assignment makes false, and
/// restoring it once that assignment is undone, leaves the literal that stayed
/// as the first watch; the second is then the earliest literal that the
/// restored assignment does not make false. So the clause watches the same
/// two literals as before exactly when the other watch was that literal.
pub proof fn law_strengthen_then_restore(clause: ClauseView, lit: i32, assigned: Set<i32>)
    requires
        clause.wf(),
        clause.can_strengthen(neg(lit)),
        !assigned.contains(lit),
        !assigned.contains(neg(lit)),
    ensures
        ({
            let after = clause.strengthened(neg(lit), assigned.insert(lit)).restored(assigned);
            let kept = if clause.first == neg(lit) {
                clause.second->0
            } else {
                clause.first
            };
            &&& after.lits == clause.lits
            &&& after.first == kept
            &&& after.second == next_watch(clause.lits, kept, assigned)
            &&& after.same_watches(clause) <==> next_watch(clause.lits, kept, assigned) == Some(
                neg(lit),
            )
        }),
{
}

} // verus!
