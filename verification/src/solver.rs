use vstd::prelude::*;
use fnv::FnvHashMap;
use fnv::FnvHashSet;
use crate::clause::Clause;
use crate::clause::ClauseId;
use crate::clause::ClauseView;
use crate::decider::bumped;
use crate::decider::increment;
use crate::decider::DeciderView;
use crate::decider::VSIDSDecider;
use crate::decision::Decision;
use crate::decision::DecisionView;
use crate::clause::forced;
use crate::conflict_analyzer::db_lits;
use crate::conflict_analyzer::layered;
use crate::conflict_analyzer::learn_from_conflict;
use crate::conflict_analyzer::learnt_clause;
use crate::hashing::map_get;
use crate::hashing::map_insert;
use crate::hashing::map_remove;
use crate::hashing::set_contains;
use crate::hashing::set_insert;
use crate::hashing::set_members;
use crate::hashing::set_remove;
use crate::hashing::LiteralSet;
use crate::literal::neg;
use crate::literal::Literal;

verus! {

// Each function of this module is proved by a prover of its own
// (`spinoff_prover`): the module is large, and no proof is to depend on what
// else the module holds.

/// The outcomes of the solver's steps: of the whole search, and of one round
/// of propagation.
#[derive(Debug, PartialEq, Eq, Structural, Clone, Copy)]
pub enum Constant {
    Sat,
    Unsat,
    Conflict,
    NoConflict,
}

/// What a solver holds.
pub struct SolverView {
    /// The clause database, by clause id.
    pub clauses: Seq<ClauseView>,
    /// The ids of the clauses that conflict analysis added.
    pub learnt: Set<ClauseId>,
    /// For each literal, the clauses that hold it, in the order of insertion.
    pub occurrences: Map<i32, Seq<ClauseId>>,
    /// For each literal, the clauses registered as watching it.
    pub watchers: Map<i32, Set<ClauseId>>,
    /// The clauses marked as satisfied.
    pub satisfied: Set<ClauseId>,
    /// The literals that are true.
    pub assigned: Set<i32>,
    /// The decision frames, the root frame first.
    pub trail: Seq<DecisionView>,
    /// For each frame, the assignment as it was when the frame was pushed.
    pub snapshots: Seq<Set<i32>>,
    pub decider: DeciderView,
    /// The model that the last search gave, if it gave one.
    pub model: Set<i32>,
}

/// The occurrence lists after a clause id was appended to the list of a
/// literal.
pub open spec fn noted(occurrences: Map<i32, Seq<ClauseId>>, code: i32, id: ClauseId) -> Map<
    i32,
    Seq<ClauseId>,
> {
    if occurrences.contains_key(code) {
        occurrences.insert(code, occurrences[code].push(id))
    } else {
        occurrences.insert(code, seq![id])
    }
}

/// The occurrence lists after a clause id was appended to the list of each
/// literal of a sequence.
pub open spec fn noted_all(occurrences: Map<i32, Seq<ClauseId>>, lits: Seq<i32>, id: ClauseId) -> Map<
    i32,
    Seq<ClauseId>,
>
    decreases lits.len(),
{
    if lits.len() == 0 {
        occurrences
    } else {
        noted(noted_all(occurrences, lits.drop_last(), id), lits.last(), id)
    }
}

/// The watch index after a clause was registered under a literal.
pub open spec fn watched(watchers: Map<i32, Set<ClauseId>>, code: i32, id: ClauseId) -> Map<
    i32,
    Set<ClauseId>,
> {
    if watchers.contains_key(code) {
        watchers.insert(code, watchers[code].insert(id))
    } else {
        watchers.insert(code, set![id])
    }
}

impl SolverView {
    /// The decider and the assignment leave out no literal that has a score.
    pub open spec fn covers(self) -> bool {
        covering(self.decider, self.assigned)
    }

    /// An assignment gives a value to every variable of every clause.
    pub open spec fn decided_by(self, model: Set<i32>) -> bool {
        forall|i: int, j: int|
            0 <= i < self.clauses.len() && 0 <= j < self.clauses[i].lits.len() ==> model.contains(
                #[trigger] self.clauses[i].lits[j],
            ) || model.contains(neg(self.clauses[i].lits[j]))
    }

    /// The clauses registered as watching a literal.
    pub open spec fn watching(self, code: i32) -> Set<ClauseId> {
        if self.watchers.contains_key(code) {
            self.watchers[code]
        } else {
            Set::empty()
        }
    }

    /// An assignment is a model of the clauses: it holds no literal together
    /// with its complement, and a literal of every clause.
    pub open spec fn modelled_by(self, model: Set<i32>) -> bool {
        &&& consistent(model)
        &&& forall|i: int| 0 <= i < self.clauses.len() ==> holds_one(model, #[trigger] self.clauses[i].lits)
    }

    /// An answer to the question whether the clauses can be satisfied is
    /// right: a model of the clauses, or none where they have no model.
    pub open spec fn answered_by(self, answer: Option<Set<i32>>) -> bool {
        match answer {
            Some(found) => self.modelled_by(found),
            None => forall|m: Set<i32>| !self.modelled_by(m),
        }
    }

    /// Every clause of two literals or more that is not marked as satisfied
    /// watches two literals and is registered under both.
    pub open spec fn fully_watched(self) -> bool {
        forall|i: int|
            0 <= i < self.clauses.len() && (#[trigger] self.clauses[i]).lits.len() >= 2
                && !self.satisfied.contains(i as usize) ==> {
                &&& self.clauses[i].second is Some
                &&& self.watching(self.clauses[i].first).contains(i as usize)
                &&& self.watching(self.clauses[i].second->0).contains(i as usize)
            }
    }

    /// The assignment that a frame left behind: the one that the next frame
    /// started from, or after the last frame the present one.
    pub open spec fn left_by(self, k: int) -> Set<i32> {
        if k + 1 < self.trail.len() {
            self.snapshots[k + 1]
        } else {
            self.assigned
        }
    }

    /// Every clause watches literals of its own, two different ones where
    /// both slots are set.
    pub open spec fn clauses_watch_their_own(self) -> bool {
        forall|i: int| 0 <= i < self.clauses.len() ==> (#[trigger] self.clauses[i]).wf()
    }

    /// The trail has its root frame, and the assignment is what the frames
    /// made of it one after the other: each frame kept what was assigned
    /// before it and added only literals of its own, none of which was
    /// assigned before.
    pub open spec fn trail_agrees(self) -> bool {
        &&& self.trail.len() >= 1
        &&& self.snapshots.len() == self.trail.len()
        &&& forall|k: int|
            0 <= k < self.trail.len() ==> frame_added(
                #[trigger] self.trail[k],
                self.snapshots[k],
                self.left_by(k),
            )
    }

    /// When a frame was pushed for a decision, neither the decision literal
    /// nor its complement was assigned.
    pub open spec fn decisions_were_free(self) -> bool {
        forall|k: int|
            1 <= k < self.trail.len() ==> !self.snapshots[k].contains((#[trigger] self.trail[k]).lit)
                && !self.snapshots[k].contains(neg(self.trail[k].lit))
    }

    /// Every literal propagated in a frame has an antecedent in the
    /// database, and every other literal of that clause is false under the
    /// assignment that the frame left behind.
    pub open spec fn propagations_are_forced(self) -> bool {
        forall|k: int, c: i32|
            0 <= k < self.trail.len() && #[trigger] self.trail[k].antecedents.contains_key(c) ==> {
                &&& self.trail[k].antecedents[c] < self.clauses.len()
                &&& forced(
                    self.clauses[self.trail[k].antecedents[c] as int].lits,
                    c,
                    self.left_by(k),
                )
            }
    }

    /// The propagations of every frame follow one another: for each
    /// propagated literal, the complements of the other literals of its
    /// antecedent were propagated earlier in the frame, or not in the frame.
    pub open spec fn frames_are_layered(self) -> bool {
        forall|k: int|
            0 <= k < self.trail.len() ==> layered(
                #[trigger] self.trail[k],
                self.clauses.map_values(|c: ClauseView| c.lits),
            )
    }

    /// The solver after a clause was inserted: the clause has the next free
    /// id, is listed under each of its literals, is registered under each
    /// literal that it watches, and was observed by the decider.
    pub open spec fn with_clause(self, clause: ClauseView) -> SolverView {
        let id = self.clauses.len() as usize;
        let under_first = watched(self.watchers, clause.first, id);
        SolverView {
            clauses: self.clauses.push(clause),
            occurrences: noted_all(self.occurrences, clause.lits, id),
            watchers: match clause.second {
                Some(second) => watched(under_first, second, id),
                None => under_first,
            },
            decider: DeciderView {
                scores: bumped(self.decider.scores, clause.lits, increment(self.decider.age)),
                ..self.decider
            },
            ..self
        }
    }
}

/// A conflict-driven clause-learning solver: a clause database with a watch
/// index, a trail of decision frames, and a decider.
pub struct Solver {
    clauses: Vec<Clause>,
    learnt_clauses: FnvHashSet<ClauseId>,
    lit_to_clause: FnvHashMap<i32, Vec<ClauseId>>,
    watched_lit_to_clause: FnvHashMap<i32, FnvHashSet<ClauseId>>,
    satisfied_clauses: FnvHashSet<ClauseId>,
    assigned_lits: LiteralSet,
    decision_stack: Vec<Decision>,
    decider: VSIDSDecider,
    snapshots: Ghost<Seq<Set<i32>>>,
    model: LiteralSet,
}

spec fn lists_view(lists: Map<i32, Vec<ClauseId>>) -> Map<i32, Seq<ClauseId>> {
    lists.map_values(|list: Vec<ClauseId>| list@)
}

spec fn sets_view(sets: Map<i32, FnvHashSet<ClauseId>>) -> Map<i32, Set<ClauseId>> {
    sets.map_values(|set: FnvHashSet<ClauseId>| set@)
}

/// Every clause of the database is well-formed.
spec fn clauses_ok(clauses: Seq<Clause>) -> bool {
    forall|i: int| 0 <= i < clauses.len() ==> (#[trigger] clauses[i])@.wf()
}

/// Every id in the occurrence lists is below a bound.
spec fn lists_below(lists: Map<i32, Vec<ClauseId>>, bound: nat) -> bool {
    forall|code: i32, k: int|
        lists.contains_key(code) && 0 <= k < lists[code]@.len() ==> #[trigger] lists[code]@[k]
            < bound
}

/// Every id in the watch index is below a bound.
spec fn sets_below(sets: Map<i32, FnvHashSet<ClauseId>>, bound: nat) -> bool {
    forall|code: i32, id: ClauseId|
        sets.contains_key(code) && #[trigger] sets[code]@.contains(id) ==> id < bound
}

/// A frame is well-formed, and every antecedent in it is below a bound.
spec fn frame_ok(frame: DecisionView, bound: nat) -> bool {
    &&& frame.wf()
    &&& forall|code: i32| #[trigger]
        frame.antecedents.contains_key(code) ==> frame.antecedents[code] < bound
}

spec fn frames_ok(frames: Seq<Decision>, bound: nat) -> bool {
    forall|i: int| 0 <= i < frames.len() ==> frame_ok((#[trigger] frames[i])@, bound)
}

/// The literals that a frame can have assigned: its decision literal and
/// the literals propagated under it.
pub open spec fn own(frame: DecisionView) -> Set<i32> {
    frame.antecedents.dom().insert(frame.lit)
}

/// What a frame did to the assignment: it kept what was assigned before it,
/// and added only literals of its own, none of which was assigned before.
pub open spec fn frame_added(frame: DecisionView, before: Set<i32>, after: Set<i32>) -> bool {
    &&& before.subset_of(after)
    &&& after.subset_of(before.union(own(frame)))
    &&& before.disjoint(own(frame))
}

/// The assignment after each frame is the one that the next frame started
/// from, and after the last frame the present one. The variable of each
/// decision was unassigned when its frame was pushed.
spec fn trail_ok(frames: Seq<Decision>, snapshots: Seq<Set<i32>>, assigned: Set<i32>) -> bool {
    &&& snapshots.len() == frames.len()
    &&& forall|k: int|
        1 <= k < frames.len() ==> !snapshots[k].contains(neg((#[trigger] frames[k])@.lit))
    &&& forall|k: int|
        0 <= k < frames.len() ==> frame_added(
            (#[trigger] frames[k])@,
            snapshots[k],
            if k + 1 < frames.len() {
                snapshots[k + 1]
            } else {
                assigned
            },
        )
}

/// Every literal of every clause has a score.
spec fn lits_scored(clauses: Seq<Clause>, scores: Map<i32, u64>) -> bool {
    forall|i: int, j: int|
        0 <= i < clauses.len() && 0 <= j < clauses[i]@.lits.len() ==> scores.contains_key(
            #[trigger] clauses[i]@.lits[j],
        )
}

/// Every literal propagated in a frame has a score.
spec fn frames_scored(frames: Seq<Decision>, scores: Map<i32, u64>) -> bool {
    forall|k: int, c: i32|
        0 <= k < frames.len() && #[trigger] frames[k]@.antecedents.contains_key(c)
            ==> scores.contains_key(c)
}

/// The decider and the assignment leave out no literal that has a score:
/// the literal is in the decider's pool, or its variable is assigned.
pub open spec fn covering(decider: DeciderView, assigned: Set<i32>) -> bool {
    forall|c: i32| #[trigger]
        decider.scores.contains_key(c) ==> decider.pool().contains(c) || assigned.contains(c)
            || assigned.contains(neg(c))
}

/// An assignment holds no literal together with its complement.
pub open spec fn consistent(model: Set<i32>) -> bool {
    forall|c: i32| #[trigger] model.contains(c) && neg(c) != c ==> !model.contains(neg(c))
}

/// An assignment holds a literal of a clause.
pub open spec fn holds_one(model: Set<i32>, lits: Seq<i32>) -> bool {
    exists|j: int| 0 <= j < lits.len() && model.contains(#[trigger] lits[j])
}

/// An assignment is a model of a formula: it holds no literal together with
/// its complement, and a literal of every clause.
pub open spec fn satisfies(formula: Seq<Seq<i32>>, model: Set<i32>) -> bool {
    &&& consistent(model)
    &&& forall|i: int| 0 <= i < formula.len() ==> holds_one(model, #[trigger] formula[i])
}

/// The literals of the clauses of a formula, clause by clause.
spec fn joined(formula: Seq<Seq<i32>>) -> Seq<i32>
    decreases formula.len(),
{
    if formula.len() == 0 {
        Seq::empty()
    } else {
        joined(formula.drop_last()) + formula.last()
    }
}

/// An assignment makes every literal of a clause false.
spec fn refutes(partial: Set<i32>, lits: Seq<i32>) -> bool {
    forall|k: int|
        0 <= k < lits.len() ==> neg(#[trigger] lits[k]) != lits[k] && partial.contains(neg(lits[k]))
}

/// No model of a formula holds every literal of a set.
pub open spec fn no_model_over(formula: Seq<Seq<i32>>, partial: Set<i32>) -> bool {
    forall|m: Set<i32>| #[trigger] satisfies(formula, m) ==> !partial.subset_of(m)
}

/// A model stays one when it is given a literal whose complement it does not
/// hold.
#[verifier::spinoff_prover]
pub proof fn law_model_takes_a_free_literal(formula: Seq<Seq<i32>>, model: Set<i32>, code: i32)
    requires
        satisfies(formula, model),
        !model.contains(neg(code)),
    ensures
        satisfies(formula, model.insert(code)),
{
    let more = model.insert(code);
    assert forall|c: i32| #[trigger] more.contains(c) && neg(c) != c implies !more.contains(neg(c)) by {
        assert(neg(neg(c)) == c);
        if c != code {
            assert(model.contains(c));
        }
    }
    assert forall|i: int| 0 <= i < formula.len() implies holds_one(more, #[trigger] formula[i]) by {
        assert(holds_one(model, formula[i]));
        let j = choose|j: int| 0 <= j < formula[i].len() && model.contains(#[trigger] formula[i][j]);
        assert(more.contains(formula[i][j]));
    }
}

/// An assignment that gives every literal of a formula a value, and that some
/// model of the formula holds, is a model itself.
#[verifier::spinoff_prover]
pub proof fn law_total_part_of_a_model_is_a_model(
    formula: Seq<Seq<i32>>,
    part: Set<i32>,
    model: Set<i32>,
)
    requires
        satisfies(formula, model),
        part.subset_of(model),
        forall|i: int, j: int|
            0 <= i < formula.len() && 0 <= j < formula[i].len() ==> part.contains(
                #[trigger] formula[i][j],
            ) || part.contains(neg(formula[i][j])),
    ensures
        satisfies(formula, part),
{
    assert forall|c: i32| #[trigger] part.contains(c) && neg(c) != c implies !part.contains(neg(c)) by {
        assert(model.contains(c));
    }
    assert forall|i: int| 0 <= i < formula.len() implies holds_one(part, #[trigger] formula[i]) by {
        assert(holds_one(model, formula[i]));
        let j = choose|j: int| 0 <= j < formula[i].len() && model.contains(#[trigger] formula[i][j]);
        let l = formula[i][j];
        if !part.contains(l) {
            assert(part.contains(neg(l)));
            assert(model.contains(neg(l)));
            assert(neg(l) == l);
        }
    }
}

/// A clause that was just inserted is registered as watching each literal
/// that it watches: its first two literals, which differ and are its own, or
/// its only literal.
#[verifier::spinoff_prover]
pub proof fn law_inserted_clause_is_watched(solver: SolverView, clause: ClauseView)
    requires
        clause.wf(),
        solver.clauses.len() <= usize::MAX,
    ensures
        ({
            let after = solver.with_clause(clause);
            let id = solver.clauses.len() as usize;
            &&& after.clauses[id as int] == clause
            &&& clause.lits.contains(clause.first)
            &&& after.watching(clause.first).contains(id)
            &&& match clause.second {
                Some(second) => second != clause.first && clause.lits.contains(second)
                    && after.watching(second).contains(id),
                None => true,
            }
        }),
{
}

/// Inserting a clause that watches its first two literals, or its only one,
/// keeps every unsatisfied clause of two literals or more registered under
/// the two literals that it watches.
#[verifier::spinoff_prover]
pub proof fn law_insertion_keeps_clauses_watched(solver: SolverView, clause: ClauseView)
    requires
        solver.fully_watched(),
        solver.clauses.len() <= usize::MAX,
        clause.wf(),
        clause.lits.len() >= 2 ==> clause.second is Some,
    ensures
        solver.with_clause(clause).fully_watched(),
{
    let after = solver.with_clause(clause);
    assert forall|i: int|
        0 <= i < after.clauses.len() && (#[trigger] after.clauses[i]).lits.len() >= 2
            && !after.satisfied.contains(i as usize) implies after.clauses[i].second is Some
        && after.watching(after.clauses[i].first).contains(i as usize) && after.watching(
        after.clauses[i].second->0,
    ).contains(i as usize) by {
        if i < solver.clauses.len() {
            assert(after.clauses[i] == solver.clauses[i]);
            assert(solver.watching(solver.clauses[i].first).contains(i as usize));
            assert(solver.watching(solver.clauses[i].second->0).contains(i as usize));
        }
    }
}

/// Two solvers whose clauses have the same literals get the same answer:
/// a right answer for the one is a model exactly where a right answer for
/// the other is, and a model of the one is a model of the other.
#[verifier::spinoff_prover]
pub proof fn law_same_clauses_same_answer(
    one: SolverView,
    other: SolverView,
    first: Option<Set<i32>>,
    second: Option<Set<i32>>,
)
    requires
        one.clauses.len() == other.clauses.len(),
        forall|i: int|
            0 <= i < one.clauses.len() ==> (#[trigger] one.clauses[i]).lits == other.clauses[i].lits,
        one.answered_by(first),
        other.answered_by(second),
    ensures
        first is Some <==> second is Some,
        first is Some ==> other.modelled_by(first->0) && one.modelled_by(second->0),
{
    if first is Some {
        let found = first->0;
        assert forall|i: int| 0 <= i < other.clauses.len() implies holds_one(
            found,
            #[trigger] other.clauses[i].lits,
        ) by {
            assert(one.clauses[i].lits == other.clauses[i].lits);
        }
        assert(other.modelled_by(found));
    }
    if second is Some {
        let found = second->0;
        assert forall|i: int| 0 <= i < one.clauses.len() implies holds_one(
            found,
            #[trigger] one.clauses[i].lits,
        ) by {
            assert(one.clauses[i].lits == other.clauses[i].lits);
        }
        assert(one.modelled_by(found));
    }
}

/// Undoing what a frame added to the assignment gives the assignment back as
/// it was when the frame was pushed.
#[verifier::spinoff_prover]
pub proof fn law_undo_restores_assignment(frame: DecisionView, before: Set<i32>, after: Set<i32>)
    requires
        frame_added(frame, before, after),
    ensures
        after.difference(own(frame)) == before,
{
    assert(after.difference(own(frame)) =~= before);
}

/// Every literal propagated in a frame is forced by its antecedent under
/// the assignment that the frame left behind: every other literal of that
/// clause is false.
spec fn supported(
    frames: Seq<Decision>,
    snapshots: Seq<Set<i32>>,
    assigned: Set<i32>,
    clauses: Seq<Clause>,
) -> bool {
    forall|k: int, c: i32|
        0 <= k < frames.len() && #[trigger] frames[k]@.antecedents.contains_key(c) ==> forced(
            clauses[frames[k]@.antecedents[c] as int]@.lits,
            c,
            if k + 1 < frames.len() {
                snapshots[k + 1]
            } else {
                assigned
            },
        )
}

/// Every literal of a clause after its first is false under an assignment.
spec fn tail_false(clause: ClauseView, assigned: Set<i32>) -> bool {
    forall|i: int| 1 <= i < clause.lits.len() ==> assigned.contains(neg(#[trigger] clause.lits[i]))
}

/// The propagations of every frame follow one another.
spec fn frames_layered(frames: Seq<Decision>, clauses: Seq<Clause>) -> bool {
    forall|k: int| 0 <= k < frames.len() ==> layered((#[trigger] frames[k])@, db_lits(clauses))
}

/// The clauses listed as holding a literal.
spec fn listed(lists: Map<i32, Vec<ClauseId>>, code: i32) -> Set<ClauseId> {
    if lists.contains_key(code) {
        lists[code]@.to_set()
    } else {
        Set::empty()
    }
}

/// The clauses are the same in number and in their literals.
spec fn same_lits(before: Seq<Clause>, after: Seq<Clause>) -> bool {
    &&& after.len() == before.len()
    &&& forall|i: int| 0 <= i < before.len() ==> (#[trigger] after[i])@.lits == before[i]@.lits
}

/// A frame kept its decision and every antecedent that it had.
spec fn frame_grew(before: DecisionView, after: DecisionView) -> bool {
    &&& after.lit == before.lit
    &&& after.level == before.level
    &&& forall|c: i32| #[trigger]
        before.antecedents.contains_key(c) ==> after.antecedents.contains_key(c)
            && after.antecedents[c] == before.antecedents[c]
}

/// What propagation may do to a solver: move watches, mark more clauses as
/// satisfied, assign more literals, and record propagations in the top frame.
spec fn propagated(before: Solver, after: Solver) -> bool {
    let last = before.decision_stack@.len() - 1;
    &&& same_lits(before.clauses@, after.clauses@)
    &&& after.learnt_clauses == before.learnt_clauses
    &&& after.lit_to_clause == before.lit_to_clause
    &&& after.snapshots == before.snapshots
    &&& after.decision_stack@.len() == before.decision_stack@.len()
    &&& forall|i: int| 0 <= i < last ==> after.decision_stack@[i] == before.decision_stack@[i]
    &&& frame_grew(before.decision_stack@[last]@, after.decision_stack@[last]@)
    &&& before.assigned_lits@.subset_of(after.assigned_lits@)
    &&& before.satisfied_clauses@.subset_of(after.satisfied_clauses@)
    &&& after.decider@.scores == before.decider@.scores
    &&& after.decider@.age == before.decider@.age
    &&& after.decider@.unassigned.subset_of(before.decider@.unassigned)
}

/// The literals waiting to be assigned are propagated in the top frame, not
/// assigned yet, and each waits once.
spec fn waiting(pending: Seq<Literal>, solver: Solver) -> bool {
    let top = solver.decision_stack@[solver.decision_stack@.len() - 1]@;
    &&& crate::clause::codes(pending).no_duplicates()
    &&& forall|i: int|
        0 <= i < pending.len() ==> top.antecedents.contains_key((#[trigger] pending[i])@)
            && !solver.assigned_lits@.contains(pending[i]@)
}

/// What each clause of a database is.
spec fn clause_views(clauses: Seq<Clause>) -> Seq<ClauseView> {
    clauses.map_values(|c: Clause| c@)
}

/// Every clause of a single literal among the first of a database is marked
/// as satisfied, or its literal is true.
spec fn units_done(
    clauses: Seq<Clause>,
    upto: int,
    satisfied: Set<ClauseId>,
    assigned: Set<i32>,
) -> bool {
    forall|i: int|
        0 <= i < upto && (#[trigger] clauses[i])@.lits.len() == 1 ==> satisfied.contains(i as usize)
            || assigned.contains(clauses[i]@.lits[0])
}

/// The part of a solver that the handling of the clauses registered under
/// one literal works on, and how the handling ended.
struct Watch {
    /// The clauses, by clause id.
    clauses: Seq<ClauseView>,
    /// The watch index.
    index: Map<i32, Set<ClauseId>>,
    /// The top frame.
    top: DecisionView,
    /// The literals waiting to be assigned.
    pending: Seq<i32>,
    outcome: Constant,
}

/// The clauses registered under a literal in a watch index.
spec fn watchers_at(index: Map<i32, Set<ClauseId>>, code: i32) -> Set<ClauseId> {
    if index.contains_key(code) {
        index[code]
    } else {
        Set::empty()
    }
}

/// The state after the first watch of a clause was recorded as propagated
/// by that clause. A literal that is true is left alone. Otherwise the top
/// frame records it; that is a conflict where the frame holds its complement
/// too, and else the literal waits for its assignment, once.
spec fn recorded_step(state: Watch, assigned: Set<i32>, id: ClauseId) -> Watch {
    let lit = state.clauses[id as int].first;
    if assigned.contains(lit) {
        Watch { outcome: Constant::NoConflict, ..state }
    } else {
        let top = state.top.recorded(lit, id);
        if top.antecedents.contains_key(neg(lit)) {
            Watch { top, outcome: Constant::Conflict, ..state }
        } else {
            Watch {
                top,
                pending: crate::conflict_analyzer::with(state.pending, lit),
                outcome: Constant::NoConflict,
                ..state
            }
        }
    }
}

/// A clause with a single watch that is the falsified literal, scanned for
/// a second watch again; any other clause as it is.
spec fn rescued(clause: ClauseView, falsified: i32, assigned: Set<i32>) -> ClauseView {
    if clause.second is None && clause.first == falsified {
        clause.restored(assigned)
    } else {
        clause
    }
}

/// The state after one clause that is registered under a falsified literal
/// was handled. A clause with a single watch is left alone unless that watch
/// is the literal; then it is scanned for a second watch and registered under
/// it. A clause with two watches, one of them the literal, moves that watch
/// to the earliest literal that is not false, and is registered under it.
/// Where no literal can take the watch, the first watch is recorded as
/// propagated by the clause.
spec fn tightened_step(state: Watch, assigned: Set<i32>, id: ClauseId, falsified: i32) -> Watch {
    let clause = state.clauses[id as int];
    let scanned = rescued(clause, falsified, assigned);
    let index = if clause.second is None && scanned.second is Some {
        watched(state.index, scanned.second->0, id)
    } else {
        state.index
    };
    if scanned.second is None {
        if clause.first == falsified {
            recorded_step(
                Watch { clauses: state.clauses.update(id as int, scanned), ..state },
                assigned,
                id,
            )
        } else {
            Watch { outcome: Constant::NoConflict, ..state }
        }
    } else if scanned.first == falsified || scanned.second == Some(falsified) {
        let moved = scanned.strengthened(falsified, assigned);
        let clauses = state.clauses.update(id as int, moved);
        match moved.second {
            Some(next) => Watch {
                clauses,
                index: watched(index, next, id),
                outcome: Constant::NoConflict,
                ..state
            },
            None => recorded_step(Watch { clauses, index, ..state }, assigned, id),
        }
    } else {
        Watch {
            clauses: state.clauses.update(id as int, scanned),
            index,
            outcome: Constant::NoConflict,
            ..state
        }
    }
}

/// The state after the clauses of a sequence were handled one after the
/// other, as far as no conflict was met: a clause that is marked as
/// satisfied is passed over, and the handling ends with the first conflict.
spec fn visited(
    state: Watch,
    order: Seq<ClauseId>,
    satisfied: Set<ClauseId>,
    assigned: Set<i32>,
    falsified: i32,
) -> Watch
    decreases order.len(),
{
    if order.len() == 0 {
        Watch { outcome: Constant::NoConflict, ..state }
    } else {
        let so_far = visited(state, order.drop_last(), satisfied, assigned, falsified);
        if so_far.outcome is Conflict || satisfied.contains(order.last()) {
            so_far
        } else {
            tightened_step(so_far, assigned, order.last(), falsified)
        }
    }
}

/// The state with the watch set of the falsified literal emptied, unless a
/// conflict was met.
spec fn cleared(state: Watch, falsified: i32) -> Watch {
    if state.outcome is Conflict {
        state
    } else {
        Watch { index: state.index.insert(falsified, Set::empty()), ..state }
    }
}

/// Once a conflict is met, the clauses that follow are not handled.
#[verifier::spinoff_prover]
proof fn lemma_visited_stops(
    state: Watch,
    order: Seq<ClauseId>,
    n: int,
    satisfied: Set<ClauseId>,
    assigned: Set<i32>,
    falsified: i32,
)
    requires
        0 <= n <= order.len(),
        visited(state, order.take(n), satisfied, assigned, falsified).outcome is Conflict,
    ensures
        visited(state, order, satisfied, assigned, falsified) == visited(
            state,
            order.take(n),
            satisfied,
            assigned,
            falsified,
        ),
    decreases order.len() - n,
{
    if n < order.len() {
        assert(order.take(n + 1).drop_last() =~= order.take(n));
        lemma_visited_stops(state, order, n + 1, satisfied, assigned, falsified);
    } else {
        assert(order.take(n) =~= order);
    }
}

/// What the handling of watchers never does: it leaves the clauses that the
/// top frame notes as satisfied as they are, it registers no clause under a
/// literal that is false, and where it meets no conflict it leaves the
/// frame's conflict literal as it is.
spec fn quiet(before: Watch, after: Watch, assigned: Set<i32>) -> bool {
    &&& after.top.satisfied == before.top.satisfied
    &&& after.top.lit == before.top.lit
    &&& after.outcome is NoConflict ==> after.top.conflict == before.top.conflict
    &&& forall|code: i32|
        assigned.contains(neg(code)) ==> #[trigger] watchers_at(after.index, code) == watchers_at(
            before.index,
            code,
        )
}

#[verifier::spinoff_prover]
proof fn lemma_watched_elsewhere(index: Map<i32, Set<ClauseId>>, at: i32, id: ClauseId, code: i32)
    requires
        code != at,
    ensures
        watchers_at(watched(index, at, id), code) == watchers_at(index, code),
{
}

#[verifier::spinoff_prover]
proof fn lemma_recorded_quiet(state: Watch, assigned: Set<i32>, id: ClauseId)
    ensures
        quiet(state, recorded_step(state, assigned, id), assigned),
        recorded_step(state, assigned, id).index == state.index,
{
}

#[verifier::spinoff_prover]
proof fn lemma_tightened_quiet(state: Watch, assigned: Set<i32>, id: ClauseId, falsified: i32)
    ensures
        quiet(state, tightened_step(state, assigned, id, falsified), assigned),
        tightened_step(state, assigned, id, falsified).outcome is Conflict || tightened_step(
            state,
            assigned,
            id,
            falsified,
        ).outcome is NoConflict,
{
    let clause = state.clauses[id as int];
    let scanned = rescued(clause, falsified, assigned);
    let index = if clause.second is None && scanned.second is Some {
        watched(state.index, scanned.second->0, id)
    } else {
        state.index
    };
    assert forall|code: i32| assigned.contains(neg(code)) implies #[trigger] watchers_at(
        index,
        code,
    ) == watchers_at(state.index, code) by {
        if clause.second is None && scanned.second is Some {
            crate::clause::lemma_next_watch_is_earliest(clause.lits, clause.first, assigned);
            lemma_watched_elsewhere(state.index, scanned.second->0, id, code);
        }
    }
    if scanned.second is None {
        if clause.first == falsified {
            lemma_recorded_quiet(
                Watch { clauses: state.clauses.update(id as int, scanned), ..state },
                assigned,
                id,
            );
        }
    } else if scanned.first == falsified || scanned.second == Some(falsified) {
        let moved = scanned.strengthened(falsified, assigned);
        let clauses = state.clauses.update(id as int, moved);
        match moved.second {
            Some(next) => {
                crate::clause::lemma_next_watch_is_earliest(scanned.lits, moved.first, assigned);
                assert forall|code: i32| assigned.contains(neg(code)) implies #[trigger] watchers_at(
                    watched(index, next, id),
                    code,
                ) == watchers_at(state.index, code) by {
                    lemma_watched_elsewhere(index, next, id, code);
                    assert(watchers_at(index, code) == watchers_at(state.index, code));
                }
            },
            None => {
                lemma_recorded_quiet(Watch { clauses, index, ..state }, assigned, id);
            },
        }
    }
}

#[verifier::spinoff_prover]
proof fn lemma_visited_quiet(
    state: Watch,
    order: Seq<ClauseId>,
    satisfied: Set<ClauseId>,
    assigned: Set<i32>,
    falsified: i32,
)
    ensures
        quiet(state, visited(state, order, satisfied, assigned, falsified), assigned),
        visited(state, order, satisfied, assigned, falsified).outcome is Conflict || visited(
            state,
            order,
            satisfied,
            assigned,
            falsified,
        ).outcome is NoConflict,
    decreases order.len(),
{
    if order.len() > 0 {
        lemma_visited_quiet(state, order.drop_last(), satisfied, assigned, falsified);
        let so_far = visited(state, order.drop_last(), satisfied, assigned, falsified);
        if !(so_far.outcome is Conflict || satisfied.contains(order.last())) {
            lemma_tightened_quiet(so_far, assigned, order.last(), falsified);
            let end = tightened_step(so_far, assigned, order.last(), falsified);
            assert forall|code: i32| assigned.contains(neg(code)) implies #[trigger] watchers_at(
                end.index,
                code,
            ) == watchers_at(state.index, code) by {
                assert(watchers_at(so_far.index, code) == watchers_at(state.index, code));
            }
        }
    }
}

/// The part of a solver that propagation works on.
struct Flow {
    /// The clauses, the watch index, the top frame and the literals that
    /// wait, and how the last visit of watchers ended.
    watch: Watch,
    /// The literals that are true.
    assigned: Set<i32>,
    /// The clauses marked as satisfied.
    satisfied: Set<ClauseId>,
    /// The literals that the decider holds as unassigned.
    unassigned: Set<i32>,
    /// The literal that is made true next.
    current: i32,
    /// Every visit so far went through the whole watch set, each clause once,
    /// and every round but the last left a literal waiting and met no
    /// conflict.
    orderly: bool,
}

/// The state after the current literal was made true and the clauses that
/// are listed as holding it were marked as satisfied, the top frame noting
/// those that were not marked before.
spec fn made_true(flow: Flow, lists: Map<i32, Vec<ClauseId>>) -> Flow {
    let holding = listed(lists, flow.current);
    Flow {
        assigned: flow.assigned.insert(flow.current),
        unassigned: flow.unassigned.remove(flow.current).remove(neg(flow.current)),
        satisfied: flow.satisfied.union(holding),
        watch: Watch {
            top: DecisionView {
                satisfied: flow.watch.top.satisfied.union(holding.difference(flow.satisfied)),
                ..flow.watch.top
            },
            outcome: Constant::NoConflict,
            ..flow.watch
        },
        ..flow
    }
}

/// The state after one round of propagation: the current literal is made
/// true, and the clauses registered under its complement are visited in an
/// order.
spec fn round(flow: Flow, lists: Map<i32, Vec<ClauseId>>, order: Seq<ClauseId>) -> Flow {
    let held = made_true(flow, lists);
    let complement = neg(flow.current);
    Flow {
        watch: cleared(
            visited(held.watch, order, held.satisfied, held.assigned, complement),
            complement,
        ),
        orderly: flow.orderly && order.no_duplicates() && order.to_set() == watchers_at(
            held.watch.index,
            complement,
        ),
        ..held
    }
}

/// The state once the literal that has waited for the shortest time was
/// taken as the next to be made true.
spec fn taken(flow: Flow) -> Flow {
    Flow {
        current: flow.watch.pending.last(),
        watch: Watch { pending: flow.watch.pending.drop_last(), ..flow.watch },
        orderly: flow.orderly && flow.watch.outcome is NoConflict && flow.watch.pending.len() > 0,
        ..flow
    }
}

/// The state before the next round, after as many rounds as there are orders.
spec fn ready(start: Flow, lists: Map<i32, Vec<ClauseId>>, orders: Seq<Seq<ClauseId>>) -> Flow
    decreases orders.len(),
{
    if orders.len() == 0 {
        start
    } else {
        taken(round(ready(start, lists, orders.drop_last()), lists, orders.last()))
    }
}

/// A clause of a watch state watches two literals and is registered under
/// both.
spec fn two_watched(state: Watch, id: ClauseId) -> bool {
    let clause = state.clauses[id as int];
    &&& clause.second is Some
    &&& watchers_at(state.index, clause.first).contains(id)
    &&& watchers_at(state.index, clause.second->0).contains(id)
}

/// Every clause that holds a true literal is marked as satisfied.
spec fn marks_complete(clauses: Seq<ClauseView>, assigned: Set<i32>, satisfied: Set<ClauseId>) -> bool {
    forall|id: ClauseId, j: int|
        id < clauses.len() && 0 <= j < clauses[id as int].lits.len() && assigned.contains(
            #[trigger] clauses[id as int].lits[j],
        ) ==> satisfied.contains(id)
}

/// Every clause is listed under each of its literals.
spec fn lists_complete(lists: Map<i32, Vec<ClauseId>>, clauses: Seq<ClauseView>) -> bool {
    forall|id: ClauseId, j: int|
        id < clauses.len() && 0 <= j < clauses[id as int].lits.len() ==> listed(
            lists,
            #[trigger] clauses[id as int].lits[j],
        ).contains(id)
}

/// Two databases hold clauses of the same literals.
spec fn same_literals(before: Seq<ClauseView>, after: Seq<ClauseView>) -> bool {
    &&& after.len() == before.len()
    &&& forall|i: int| 0 <= i < before.len() ==> (#[trigger] after[i]).lits == before[i].lits
}

/// The watch invariant while the watchers of a falsified literal are
/// handled. The clauses are well-formed and the index holds ids of the
/// database. Every clause of two literals or more that is not marked as
/// satisfied watches two literals and is registered under both, and where
/// it watches the falsified literal it was not handled yet; or it has a
/// single watch, which waits to be made true.
spec fn kept(state: Watch, satisfied: Set<ClauseId>, falsified: i32, done: Set<ClauseId>) -> bool {
    &&& forall|i: int| 0 <= i < state.clauses.len() ==> (#[trigger] state.clauses[i]).wf()
    &&& forall|code: i32, id: ClauseId|
        (#[trigger] watchers_at(state.index, code).contains(id)) ==> id < state.clauses.len()
    &&& forall|id: ClauseId|
        id < state.clauses.len() && (#[trigger] state.clauses[id as int]).lits.len() >= 2
            && !satisfied.contains(id) ==> {
            ||| two_watched(state, id) && (state.clauses[id as int].first == falsified
                || state.clauses[id as int].second == Some(falsified) ==> !done.contains(id))
            ||| state.clauses[id as int].second is None && state.pending.contains(
                state.clauses[id as int].first,
            )
        }
}

/// The watch invariant between the rounds of propagation. The marks and the
/// occurrence lists are complete, the clauses are well-formed and the index
/// holds ids of the database. Every clause of two literals or more that is
/// not marked as satisfied watches two literals and is registered under
/// both; or it has a single watch, which waits to be made true or, before a
/// round, is the literal that the round makes true.
spec fn settled(flow: Flow, lists: Map<i32, Vec<ClauseId>>, opening: bool) -> bool {
    &&& marks_complete(flow.watch.clauses, flow.assigned, flow.satisfied)
    &&& lists_complete(lists, flow.watch.clauses)
    &&& forall|i: int| 0 <= i < flow.watch.clauses.len() ==> (#[trigger] flow.watch.clauses[i]).wf()
    &&& forall|code: i32, id: ClauseId|
        (#[trigger] watchers_at(flow.watch.index, code).contains(id)) ==> id
            < flow.watch.clauses.len()
    &&& forall|id: ClauseId|
        id < flow.watch.clauses.len() && (#[trigger] flow.watch.clauses[id as int]).lits.len() >= 2
            && !flow.satisfied.contains(id) ==> {
            ||| two_watched(flow.watch, id)
            ||| flow.watch.clauses[id as int].second is None && (flow.watch.pending.contains(
                flow.watch.clauses[id as int].first,
            ) || (opening && flow.watch.clauses[id as int].first == flow.current))
        }
}

/// A next watch is a literal of the clause, is not the first watch and is
/// not false.
#[verifier::spinoff_prover]
proof fn lemma_next_watch_fits(lits: Seq<i32>, first: i32, assigned: Set<i32>)
    requires
        crate::clause::next_watch(lits, first, assigned) is Some,
    ensures
        lits.contains(crate::clause::next_watch(lits, first, assigned)->0),
        crate::clause::next_watch(lits, first, assigned)->0 != first,
        !assigned.contains(neg(crate::clause::next_watch(lits, first, assigned)->0)),
{
    crate::clause::lemma_next_watch_is_earliest(lits, first, assigned);
}

/// Registering a clause under a literal takes no registration away.
#[verifier::spinoff_prover]
proof fn lemma_watched_grows(index: Map<i32, Set<ClauseId>>, at: i32, id: ClauseId)
    ensures
        watchers_at(watched(index, at, id), at).contains(id),
        forall|code: i32, other: ClauseId|
            watchers_at(index, code).contains(other) ==> #[trigger] watchers_at(
                watched(index, at, id),
                code,
            ).contains(other),
        forall|code: i32, other: ClauseId|
            (#[trigger] watchers_at(watched(index, at, id), code).contains(other))
                ==> watchers_at(index, code).contains(other) || other == id,
{
}

/// Recording the first watch of a clause that is not marked as satisfied
/// leaves the clauses and the index alone and, where it meets no conflict,
/// leaves the literal waiting.
#[verifier::spinoff_prover]
proof fn lemma_recorded_waits(state: Watch, assigned: Set<i32>, satisfied: Set<ClauseId>, id: ClauseId)
    requires
        id < state.clauses.len(),
        state.clauses[id as int].wf(),
        !satisfied.contains(id),
        marks_complete(state.clauses, assigned, satisfied),
        recorded_step(state, assigned, id).outcome is NoConflict,
    ensures
        recorded_step(state, assigned, id).clauses == state.clauses,
        recorded_step(state, assigned, id).index == state.index,
        recorded_step(state, assigned, id).pending.contains(state.clauses[id as int].first),
        forall|code: i32|
            state.pending.contains(code) ==> #[trigger] recorded_step(
                state,
                assigned,
                id,
            ).pending.contains(code),
        forall|code: i32| #[trigger]
            recorded_step(state, assigned, id).pending.contains(code) ==> state.pending.contains(
                code,
            ) || code == state.clauses[id as int].first,
        recorded_step(state, assigned, id).top == state.top.recorded(
            state.clauses[id as int].first,
            id,
        ),
        !recorded_step(state, assigned, id).top.antecedents.contains_key(
            neg(state.clauses[id as int].first),
        ),
{
    let clause = state.clauses[id as int];
    let lit = clause.first;
    let j = choose|j: int| 0 <= j < clause.lits.len() && clause.lits[j] == lit;
    assert(state.clauses[id as int].lits[j] == lit);
    assert(!assigned.contains(lit));
    let after = recorded_step(state, assigned, id).pending;
    if !state.pending.contains(lit) {
        assert forall|code: i32| #[trigger] after.contains(code) implies state.pending.contains(
            code,
        ) || code == lit by {
            let k = choose|k: int| 0 <= k < after.len() && after[k] == code;
            if k < state.pending.len() {
                assert(state.pending[k] == code);
            }
        }
        assert(after == state.pending.push(lit));
        assert(after[state.pending.len() as int] == lit);
        assert forall|code: i32| state.pending.contains(code) implies #[trigger] after.contains(
            code,
        ) by {
            let k = choose|k: int| 0 <= k < state.pending.len() && state.pending[k] == code;
            assert(after[k] == code);
        }
    }
}

/// Handling one clause that is not marked as satisfied keeps the watch
/// invariant, where no conflict is met.
#[verifier::spinoff_prover]
proof fn lemma_tightened_kept(
    state: Watch,
    assigned: Set<i32>,
    satisfied: Set<ClauseId>,
    id: ClauseId,
    falsified: i32,
    done: Set<ClauseId>,
)
    requires
        id < state.clauses.len(),
        !satisfied.contains(id),
        assigned.contains(neg(falsified)),
        marks_complete(state.clauses, assigned, satisfied),
        kept(state, satisfied, falsified, done),
        tightened_step(state, assigned, id, falsified).outcome is NoConflict,
    ensures
        kept(tightened_step(state, assigned, id, falsified), satisfied, falsified, done.insert(id)),
        same_literals(state.clauses, tightened_step(state, assigned, id, falsified).clauses),
{
    let end = tightened_step(state, assigned, id, falsified);
    let clause = state.clauses[id as int];
    let scanned = rescued(clause, falsified, assigned);
    let index = if clause.second is None && scanned.second is Some {
        watched(state.index, scanned.second->0, id)
    } else {
        state.index
    };
    assert(clause.wf());
    if scanned.second is Some {
        if clause.second is None {
            lemma_next_watch_fits(clause.lits, clause.first, assigned);
            lemma_watched_grows(state.index, scanned.second->0, id);
        }
    }
    assert(scanned.wf());
    assert(scanned.lits == clause.lits);
    if scanned.second is None {
        if clause.first == falsified {
            let middle = Watch { clauses: state.clauses.update(id as int, scanned), ..state };
            assert(middle.clauses[id as int] == scanned);
            assert(marks_complete(middle.clauses, assigned, satisfied)) by {
                assert forall|c: ClauseId, j: int|
                    c < middle.clauses.len() && 0 <= j < middle.clauses[c as int].lits.len()
                        && assigned.contains(
                        #[trigger] middle.clauses[c as int].lits[j],
                    ) implies satisfied.contains(c) by {
                    assert(middle.clauses[c as int].lits == state.clauses[c as int].lits);
                    assert(assigned.contains(state.clauses[c as int].lits[j]));
                }
            }
            lemma_recorded_waits(middle, assigned, satisfied, id);
            assert(end.clauses == middle.clauses);
            assert(end.index == state.index);
        }
    } else if scanned.first == falsified || scanned.second == Some(falsified) {
        let moved = scanned.strengthened(falsified, assigned);
        let clauses = state.clauses.update(id as int, moved);
        assert(clauses[id as int] == moved);
        if moved.second is Some {
            lemma_next_watch_fits(scanned.lits, moved.first, assigned);
            lemma_watched_grows(index, moved.second->0, id);
        }
        assert(moved.wf());
        match moved.second {
            Some(next) => {
                assert(end.clauses == clauses);
                assert(end.index == watched(index, next, id));
                assert(two_watched(end, id));
                assert(moved.first != falsified);
                assert(next != falsified);
            },
            None => {
                let middle = Watch { clauses, index, ..state };
                assert(marks_complete(middle.clauses, assigned, satisfied)) by {
                    assert forall|c: ClauseId, j: int|
                        c < middle.clauses.len() && 0 <= j < middle.clauses[c as int].lits.len()
                            && assigned.contains(
                            #[trigger] middle.clauses[c as int].lits[j],
                        ) implies satisfied.contains(c) by {
                        assert(middle.clauses[c as int].lits == state.clauses[c as int].lits);
                        assert(assigned.contains(state.clauses[c as int].lits[j]));
                    }
                }
                lemma_recorded_waits(middle, assigned, satisfied, id);
                assert(end.clauses == clauses);
                assert(end.index == index);
            },
        }
    } else {
        assert(end.clauses == state.clauses.update(id as int, scanned));
        assert(end.index == index);
    }
    assert(end.clauses.len() == state.clauses.len());
    assert forall|i: int| 0 <= i < state.clauses.len() implies (#[trigger] end.clauses[i]).lits
        == state.clauses[i].lits && end.clauses[i].wf() && (i != id ==> end.clauses[i]
        == state.clauses[i]) by {}
    assert forall|code: i32, other: ClauseId|
        watchers_at(state.index, code).contains(other) implies #[trigger] watchers_at(
        end.index,
        code,
    ).contains(other) by {
        assert(watchers_at(index, code).contains(other));
    }
    assert forall|code: i32, other: ClauseId| #[trigger]
        watchers_at(end.index, code).contains(other) implies other < end.clauses.len() by {
        if !watchers_at(index, code).contains(other) {
            assert(other == id);
        } else if !watchers_at(state.index, code).contains(other) {
            assert(other == id);
        }
    }
    assert forall|code: i32| state.pending.contains(code) implies #[trigger] end.pending.contains(
        code,
    ) by {}
    assert forall|c: ClauseId|
        c < end.clauses.len() && (#[trigger] end.clauses[c as int]).lits.len() >= 2
            && !satisfied.contains(c) implies (two_watched(end, c) && (end.clauses[c as int].first
        == falsified || end.clauses[c as int].second == Some(falsified) ==> !done.insert(
        id,
    ).contains(c))) || (end.clauses[c as int].second is None && end.pending.contains(
        end.clauses[c as int].first,
    )) by {
        if c != id {
            assert(end.clauses[c as int] == state.clauses[c as int]);
            assert(state.clauses[c as int].lits.len() >= 2);
            if two_watched(state, c) {
                assert(two_watched(end, c));
            } else {
                assert(state.pending.contains(state.clauses[c as int].first));
            }
        } else {
            assert(state.clauses[c as int].lits.len() >= 2);
        }
    }
}

/// Handling the watchers of a falsified literal keeps the watch invariant,
/// where no conflict is met.
#[verifier::spinoff_prover]
proof fn lemma_visited_kept(
    state: Watch,
    order: Seq<ClauseId>,
    satisfied: Set<ClauseId>,
    assigned: Set<i32>,
    falsified: i32,
)
    requires
        forall|k: int| 0 <= k < order.len() ==> order[k] < state.clauses.len(),
        assigned.contains(neg(falsified)),
        marks_complete(state.clauses, assigned, satisfied),
        kept(state, satisfied, falsified, Set::empty()),
        visited(state, order, satisfied, assigned, falsified).outcome is NoConflict,
    ensures
        kept(
            visited(state, order, satisfied, assigned, falsified),
            satisfied,
            falsified,
            order.to_set(),
        ),
        same_literals(state.clauses, visited(state, order, satisfied, assigned, falsified).clauses),
    decreases order.len(),
{
    if order.len() == 0 {
        assert(order.to_set() =~= Set::<ClauseId>::empty());
        let end = visited(state, order, satisfied, assigned, falsified);
        assert(end.clauses == state.clauses);
        assert(end.index == state.index);
        assert(end.pending == state.pending);
        assert forall|c: ClauseId|
            c < end.clauses.len() && (#[trigger] end.clauses[c as int]).lits.len() >= 2
                && !satisfied.contains(c) implies (two_watched(end, c)) || (
            end.clauses[c as int].second is None && end.pending.contains(
                end.clauses[c as int].first,
            )) by {
            assert(state.clauses[c as int].lits.len() >= 2);
            if two_watched(state, c) {
                assert(two_watched(end, c));
            }
        }
    } else {
        let front = order.drop_last();
        let so_far = visited(state, front, satisfied, assigned, falsified);
        lemma_visited_quiet(state, front, satisfied, assigned, falsified);
        lemma_visited_kept(state, front, satisfied, assigned, falsified);
        let last = order.last();
        assert(order.to_set() =~= front.to_set().insert(last)) by {
            assert forall|id: ClauseId| order.to_set().contains(id) <==> front.to_set().insert(
                last,
            ).contains(id) by {
                if order.to_set().contains(id) {
                    let k = choose|k: int| 0 <= k < order.len() && order[k] == id;
                    if k < order.len() - 1 {
                        assert(front[k] == id);
                    }
                }
                if front.to_set().contains(id) {
                    let k = choose|k: int| 0 <= k < front.len() && front[k] == id;
                    assert(order[k] == id);
                }
                if id == last {
                    assert(order[order.len() - 1] == id);
                }
            }
        }
        if satisfied.contains(last) {
            let end = so_far;
            assert forall|c: ClauseId|
                c < end.clauses.len() && (#[trigger] end.clauses[c as int]).lits.len() >= 2
                    && !satisfied.contains(c) implies (two_watched(end, c) && (
                end.clauses[c as int].first == falsified || end.clauses[c as int].second == Some(
                    falsified,
                ) ==> !order.to_set().contains(c))) || (end.clauses[c as int].second is None
                && end.pending.contains(end.clauses[c as int].first)) by {
                assert(c != last);
            }
        } else {
            assert(marks_complete(so_far.clauses, assigned, satisfied)) by {
                assert forall|c: ClauseId, j: int|
                    c < so_far.clauses.len() && 0 <= j < so_far.clauses[c as int].lits.len()
                        && assigned.contains(
                        #[trigger] so_far.clauses[c as int].lits[j],
                    ) implies satisfied.contains(c) by {
                    assert(so_far.clauses[c as int].lits == state.clauses[c as int].lits);
                    assert(assigned.contains(state.clauses[c as int].lits[j]));
                }
            }
            lemma_tightened_kept(so_far, assigned, satisfied, last, falsified, front.to_set());
            let end = tightened_step(so_far, assigned, last, falsified);
            assert forall|i: int| 0 <= i < state.clauses.len() implies (#[trigger] end.clauses[i]).lits
                == state.clauses[i].lits by {
                assert(so_far.clauses[i].lits == state.clauses[i].lits);
            }
        }
    }
}

/// One round of propagation keeps the watch invariant, where the round meets
/// no conflict and walks through the whole watch set.
#[verifier::spinoff_prover]
proof fn lemma_round_settled(flow: Flow, lists: Map<i32, Vec<ClauseId>>, order: Seq<ClauseId>)
    requires
        settled(flow, lists, true),
        round(flow, lists, order).orderly,
        round(flow, lists, order).watch.outcome is NoConflict,
    ensures
        settled(round(flow, lists, order), lists, false),
{
    let held = made_true(flow, lists);
    let complement = neg(flow.current);
    let end = round(flow, lists, order);
    assert(neg(complement) == flow.current);
    assert(held.assigned.contains(neg(complement)));
    assert(held.watch.clauses == flow.watch.clauses);
    assert(held.watch.index == flow.watch.index);
    assert(held.watch.pending == flow.watch.pending);
    assert(marks_complete(held.watch.clauses, held.assigned, held.satisfied)) by {
        assert forall|c: ClauseId, j: int|
            c < held.watch.clauses.len() && 0 <= j < held.watch.clauses[c as int].lits.len()
                && held.assigned.contains(
                #[trigger] held.watch.clauses[c as int].lits[j],
            ) implies held.satisfied.contains(c) by {
            let code = flow.watch.clauses[c as int].lits[j];
            if code == flow.current {
                assert(listed(lists, flow.watch.clauses[c as int].lits[j]).contains(c));
            } else {
                assert(flow.assigned.contains(flow.watch.clauses[c as int].lits[j]));
            }
        }
    }
    assert(kept(held.watch, held.satisfied, complement, Set::empty())) by {
        assert forall|c: ClauseId|
            c < held.watch.clauses.len() && (#[trigger] held.watch.clauses[c as int]).lits.len()
                >= 2 && !held.satisfied.contains(c) implies (two_watched(held.watch, c)) || (
            held.watch.clauses[c as int].second is None && held.watch.pending.contains(
                held.watch.clauses[c as int].first,
            )) by {
            let clause = flow.watch.clauses[c as int];
            assert(clause.lits.len() >= 2);
            assert(!flow.satisfied.contains(c));
            if two_watched(flow.watch, c) {
                assert(two_watched(held.watch, c));
            } else if clause.first == flow.current {
                assert(clause.wf());
                let j = choose|j: int| 0 <= j < clause.lits.len() && clause.lits[j] == clause.first;
                assert(listed(lists, flow.watch.clauses[c as int].lits[j]).contains(c));
            }
        }
    }
    assert forall|k: int| 0 <= k < order.len() implies order[k] < held.watch.clauses.len() by {
        assert(order.to_set().contains(order[k]));
        assert(watchers_at(held.watch.index, complement).contains(order[k]));
    }
    let walked = visited(held.watch, order, held.satisfied, held.assigned, complement);
    lemma_visited_quiet(held.watch, order, held.satisfied, held.assigned, complement);
    assert(walked.outcome is NoConflict);
    lemma_visited_kept(held.watch, order, held.satisfied, held.assigned, complement);
    assert(watchers_at(walked.index, complement) == watchers_at(held.watch.index, complement));
    assert(end.watch == cleared(walked, complement));
    assert(end.watch.clauses == walked.clauses);
    assert(end.watch.pending == walked.pending);
    assert(end.watch.index == walked.index.insert(complement, Set::empty()));
    assert forall|code: i32, id: ClauseId| #[trigger]
        watchers_at(end.watch.index, code).contains(id) implies id < end.watch.clauses.len() by {
        assert(watchers_at(walked.index, code).contains(id));
    }
    assert(marks_complete(end.watch.clauses, end.assigned, end.satisfied)) by {
        assert forall|c: ClauseId, j: int|
            c < end.watch.clauses.len() && 0 <= j < end.watch.clauses[c as int].lits.len()
                && end.assigned.contains(
                #[trigger] end.watch.clauses[c as int].lits[j],
            ) implies end.satisfied.contains(c) by {
            assert(walked.clauses[c as int].lits == held.watch.clauses[c as int].lits);
            assert(held.assigned.contains(held.watch.clauses[c as int].lits[j]));
        }
    }
    assert(lists_complete(lists, end.watch.clauses)) by {
        assert forall|c: ClauseId, j: int|
            c < end.watch.clauses.len() && 0 <= j < end.watch.clauses[c as int].lits.len() implies listed(
            lists,
            #[trigger] end.watch.clauses[c as int].lits[j],
        ).contains(c) by {
            assert(walked.clauses[c as int].lits == flow.watch.clauses[c as int].lits);
            assert(listed(lists, flow.watch.clauses[c as int].lits[j]).contains(c));
        }
    }
    assert forall|c: ClauseId|
        c < end.watch.clauses.len() && (#[trigger] end.watch.clauses[c as int]).lits.len() >= 2
            && !end.satisfied.contains(c) implies two_watched(end.watch, c) || (
        end.watch.clauses[c as int].second is None && end.watch.pending.contains(
            end.watch.clauses[c as int].first,
        )) by {
        let clause = walked.clauses[c as int];
        assert(clause.lits.len() >= 2);
        if two_watched(walked, c) {
            if clause.first == complement || clause.second == Some(complement) {
                assert(watchers_at(walked.index, complement).contains(c));
                assert(order.to_set().contains(c));
            }
            assert(watchers_at(end.watch.index, clause.first) == watchers_at(
                walked.index,
                clause.first,
            ));
            assert(watchers_at(end.watch.index, clause.second->0) == watchers_at(
                walked.index,
                clause.second->0,
            ));
        }
    }
}

/// The rounds of propagation keep the watch invariant, where each but the
/// last meets no conflict, leaves a literal waiting and walks through the
/// whole watch set.
#[verifier::spinoff_prover]
proof fn lemma_ready_settled(start: Flow, lists: Map<i32, Vec<ClauseId>>, orders: Seq<Seq<ClauseId>>)
    requires
        settled(start, lists, true),
        ready(start, lists, orders).orderly,
    ensures
        settled(ready(start, lists, orders), lists, true),
    decreases orders.len(),
{
    if orders.len() > 0 {
        let before = ready(start, lists, orders.drop_last());
        let after = round(before, lists, orders.last());
        lemma_ready_settled(start, lists, orders.drop_last());
        lemma_round_settled(before, lists, orders.last());
        let next = taken(after);
        assert forall|c: ClauseId|
            c < next.watch.clauses.len() && (#[trigger] next.watch.clauses[c as int]).lits.len()
                >= 2 && !next.satisfied.contains(c) implies two_watched(next.watch, c) || (
            next.watch.clauses[c as int].second is None && (next.watch.pending.contains(
                next.watch.clauses[c as int].first,
            ) || next.watch.clauses[c as int].first == next.current)) by {
            let clause = after.watch.clauses[c as int];
            assert(clause.lits.len() >= 2);
            if two_watched(after.watch, c) {
                assert(two_watched(next.watch, c));
            } else {
                let waits = after.watch.pending;
                let k = choose|k: int| 0 <= k < waits.len() && waits[k] == clause.first;
                if k < waits.len() - 1 {
                    assert(waits.drop_last()[k] == clause.first);
                }
            }
        }
    }
}


/// What the watch invariant holds beside the registrations while the
/// watchers of a falsified literal are handled. Every literal that waits is
/// propagated in the top frame without its complement and is not false. Every
/// clause that is not marked as satisfied has two literals or more, and each
/// literal that it watches is not false, unless it is the falsified one.
spec fn fits(state: Watch, satisfied: Set<ClauseId>, assigned: Set<i32>, falsified: i32) -> bool {
    &&& forall|code: i32| #[trigger]
        state.pending.contains(code) ==> state.top.antecedents.contains_key(code)
            && !state.top.antecedents.contains_key(neg(code)) && !assigned.contains(neg(code))
    &&& forall|id: ClauseId|
        id < state.clauses.len() && !satisfied.contains(id) ==> (#[trigger] state.clauses[id as int]).lits.len()
            >= 2
    &&& forall|id: ClauseId|
        id < state.clauses.len() && !satisfied.contains(id) && (#[trigger] state.clauses[id as int]).second is Some
            ==> {
            &&& state.clauses[id as int].first != falsified ==> !assigned.contains(
                neg(state.clauses[id as int].first),
            )
            &&& state.clauses[id as int].second->0 != falsified ==> !assigned.contains(
                neg(state.clauses[id as int].second->0),
            )
        }
}

/// What the watch invariant holds beside the registrations between the
/// rounds of propagation. The assignment is consistent. Every literal that
/// waits is propagated in the top frame without its complement and is not
/// false. Every clause that is not marked as satisfied has two literals or
/// more, and no literal that it watches is false. Before a round, the literal
/// that the round makes true is not false, and is the complement of no
/// literal that waits.
spec fn sound(flow: Flow, opening: bool) -> bool {
    &&& consistent(flow.assigned)
    &&& opening ==> !flow.assigned.contains(neg(flow.current))
    &&& opening ==> forall|code: i32| #[trigger]
        flow.watch.pending.contains(code) ==> neg(code) != flow.current
    &&& forall|code: i32| #[trigger]
        flow.watch.pending.contains(code) ==> flow.watch.top.antecedents.contains_key(code)
            && !flow.watch.top.antecedents.contains_key(neg(code)) && !flow.assigned.contains(
            neg(code),
        )
    &&& forall|id: ClauseId|
        id < flow.watch.clauses.len() && !flow.satisfied.contains(id) ==> (
        #[trigger] flow.watch.clauses[id as int]).lits.len() >= 2
    &&& forall|id: ClauseId|
        id < flow.watch.clauses.len() && !flow.satisfied.contains(id) && (
        #[trigger] flow.watch.clauses[id as int]).second is Some ==> {
            &&& !flow.assigned.contains(neg(flow.watch.clauses[id as int].first))
            &&& !flow.assigned.contains(neg(flow.watch.clauses[id as int].second->0))
        }
}

/// Handling one clause that is not marked as satisfied keeps what the
/// invariant holds beside the registrations, where no conflict is met.
#[verifier::spinoff_prover]
proof fn lemma_tightened_fits(
    state: Watch,
    assigned: Set<i32>,
    satisfied: Set<ClauseId>,
    id: ClauseId,
    falsified: i32,
    done: Set<ClauseId>,
)
    requires
        id < state.clauses.len(),
        !satisfied.contains(id),
        assigned.contains(neg(falsified)),
        marks_complete(state.clauses, assigned, satisfied),
        kept(state, satisfied, falsified, done),
        fits(state, satisfied, assigned, falsified),
        tightened_step(state, assigned, id, falsified).outcome is NoConflict,
    ensures
        fits(tightened_step(state, assigned, id, falsified), satisfied, assigned, falsified),
{
    lemma_tightened_kept(state, assigned, satisfied, id, falsified, done);
    let end = tightened_step(state, assigned, id, falsified);
    let clause = state.clauses[id as int];
    assert(clause.wf());
    assert(clause.lits.len() >= 2);
    assert(neg(neg(falsified)) == falsified);
    assert forall|c: ClauseId| c < state.clauses.len() implies (#[trigger] end.clauses[c as int]).lits
        == state.clauses[c as int].lits by {}
    if clause.second is None {
        assert(state.pending.contains(clause.first));
        assert(clause.first != falsified);
        assert(end.clauses == state.clauses);
        assert(end.pending == state.pending);
        assert(end.top == state.top);
    } else if clause.first == falsified || clause.second == Some(falsified) {
        let moved = clause.strengthened(falsified, assigned);
        let clauses = state.clauses.update(id as int, moved);
        assert(clauses[id as int] == moved);
        assert(moved.first != falsified);
        assert(!assigned.contains(neg(moved.first)));
        if moved.second is Some {
            lemma_next_watch_fits(clause.lits, moved.first, assigned);
            assert(end.clauses == clauses);
            assert(end.pending == state.pending);
            assert(end.top == state.top);
        } else {
            let middle = Watch { clauses, ..state };
            assert(marks_complete(middle.clauses, assigned, satisfied)) by {
                assert forall|c: ClauseId, j: int|
                    c < middle.clauses.len() && 0 <= j < middle.clauses[c as int].lits.len()
                        && assigned.contains(
                        #[trigger] middle.clauses[c as int].lits[j],
                    ) implies satisfied.contains(c) by {
                    assert(middle.clauses[c as int].lits == state.clauses[c as int].lits);
                    assert(assigned.contains(state.clauses[c as int].lits[j]));
                }
            }
            assert(moved.wf());
            lemma_recorded_waits(middle, assigned, satisfied, id);
            assert(end == recorded_step(middle, assigned, id));
            assert(end.clauses == clauses);
            let lit = moved.first;
            assert forall|code: i32| #[trigger] end.pending.contains(code) implies end.top.antecedents.contains_key(
                code,
            ) && !end.top.antecedents.contains_key(neg(code)) && !assigned.contains(neg(code)) by {
                if code != lit {
                    assert(state.pending.contains(code));
                    assert(state.top.antecedents.contains_key(code));
                    if neg(code) == lit {
                        assert(neg(lit) == code) by {
                            assert(neg(neg(code)) == code);
                        }
                    }
                }
            }
        }
    } else {
        assert(end.clauses == state.clauses.update(id as int, clause));
        assert(end.pending == state.pending);
        assert(end.top == state.top);
    }
    assert forall|c: ClauseId|
        c < end.clauses.len() && !satisfied.contains(c) && (#[trigger] end.clauses[c as int]).second is Some implies (
    end.clauses[c as int].first != falsified ==> !assigned.contains(
        neg(end.clauses[c as int].first),
    )) && (end.clauses[c as int].second->0 != falsified ==> !assigned.contains(
        neg(end.clauses[c as int].second->0),
    )) by {
        if c != id {
            assert(end.clauses[c as int] == state.clauses[c as int]);
        }
    }
    assert forall|c: ClauseId| c < end.clauses.len() && !satisfied.contains(c) implies (
    #[trigger] end.clauses[c as int]).lits.len() >= 2 by {
        assert(state.clauses[c as int].lits.len() >= 2);
    }
}

/// Handling the watchers of a falsified literal keeps what the invariant
/// holds beside the registrations, where no conflict is met.
#[verifier::spinoff_prover]
proof fn lemma_visited_fits(
    state: Watch,
    order: Seq<ClauseId>,
    satisfied: Set<ClauseId>,
    assigned: Set<i32>,
    falsified: i32,
)
    requires
        forall|k: int| 0 <= k < order.len() ==> order[k] < state.clauses.len(),
        assigned.contains(neg(falsified)),
        marks_complete(state.clauses, assigned, satisfied),
        kept(state, satisfied, falsified, Set::empty()),
        fits(state, satisfied, assigned, falsified),
        visited(state, order, satisfied, assigned, falsified).outcome is NoConflict,
    ensures
        fits(visited(state, order, satisfied, assigned, falsified), satisfied, assigned, falsified),
    decreases order.len(),
{
    if order.len() == 0 {
        let end = visited(state, order, satisfied, assigned, falsified);
        assert(end.clauses == state.clauses);
        assert(end.pending == state.pending);
        assert(end.top == state.top);
    } else {
        let front = order.drop_last();
        let so_far = visited(state, front, satisfied, assigned, falsified);
        lemma_visited_quiet(state, front, satisfied, assigned, falsified);
        lemma_visited_kept(state, front, satisfied, assigned, falsified);
        lemma_visited_fits(state, front, satisfied, assigned, falsified);
        let last = order.last();
        if !satisfied.contains(last) {
            assert(marks_complete(so_far.clauses, assigned, satisfied)) by {
                assert forall|c: ClauseId, j: int|
                    c < so_far.clauses.len() && 0 <= j < so_far.clauses[c as int].lits.len()
                        && assigned.contains(
                        #[trigger] so_far.clauses[c as int].lits[j],
                    ) implies satisfied.contains(c) by {
                    assert(so_far.clauses[c as int].lits == state.clauses[c as int].lits);
                    assert(assigned.contains(state.clauses[c as int].lits[j]));
                }
            }
            lemma_tightened_fits(so_far, assigned, satisfied, last, falsified, front.to_set());
        }
    }
}

/// One round of propagation keeps the whole watch invariant, where the
/// round meets no conflict and walks through the whole watch set.
#[verifier::spinoff_prover]
proof fn lemma_round_sound(flow: Flow, lists: Map<i32, Vec<ClauseId>>, order: Seq<ClauseId>)
    requires
        settled(flow, lists, true),
        sound(flow, true),
        round(flow, lists, order).orderly,
        round(flow, lists, order).watch.outcome is NoConflict,
    ensures
        settled(round(flow, lists, order), lists, false),
        sound(round(flow, lists, order), false),
{
    lemma_round_settled(flow, lists, order);
    let held = made_true(flow, lists);
    let complement = neg(flow.current);
    let end = round(flow, lists, order);
    assert(neg(complement) == flow.current);
    assert(held.watch.clauses == flow.watch.clauses);
    assert(held.watch.index == flow.watch.index);
    assert(held.watch.pending == flow.watch.pending);
    assert(held.watch.top.antecedents == flow.watch.top.antecedents);
    assert(consistent(held.assigned)) by {
        assert forall|c: i32| #[trigger] held.assigned.contains(c) && neg(c) != c implies !held.assigned.contains(
            neg(c),
        ) by {
            assert(neg(neg(c)) == c);
            if c != flow.current {
                assert(flow.assigned.contains(c));
            }
        }
    }
    assert(marks_complete(held.watch.clauses, held.assigned, held.satisfied)) by {
        assert forall|c: ClauseId, j: int|
            c < held.watch.clauses.len() && 0 <= j < held.watch.clauses[c as int].lits.len()
                && held.assigned.contains(
                #[trigger] held.watch.clauses[c as int].lits[j],
            ) implies held.satisfied.contains(c) by {
            let code = flow.watch.clauses[c as int].lits[j];
            if code == flow.current {
                assert(listed(lists, flow.watch.clauses[c as int].lits[j]).contains(c));
            } else {
                assert(flow.assigned.contains(flow.watch.clauses[c as int].lits[j]));
            }
        }
    }
    assert(kept(held.watch, held.satisfied, complement, Set::empty())) by {
        assert forall|c: ClauseId|
            c < held.watch.clauses.len() && (#[trigger] held.watch.clauses[c as int]).lits.len()
                >= 2 && !held.satisfied.contains(c) implies (two_watched(held.watch, c)) || (
            held.watch.clauses[c as int].second is None && held.watch.pending.contains(
                held.watch.clauses[c as int].first,
            )) by {
            let clause = flow.watch.clauses[c as int];
            assert(clause.lits.len() >= 2);
            assert(!flow.satisfied.contains(c));
            if two_watched(flow.watch, c) {
                assert(two_watched(held.watch, c));
            } else if clause.first == flow.current {
                assert(clause.wf());
                let j = choose|j: int| 0 <= j < clause.lits.len() && clause.lits[j] == clause.first;
                assert(listed(lists, flow.watch.clauses[c as int].lits[j]).contains(c));
            }
        }
    }
    assert(fits(held.watch, held.satisfied, held.assigned, complement)) by {
        assert forall|code: i32| #[trigger] held.watch.pending.contains(code) implies !held.assigned.contains(
            neg(code),
        ) by {
            assert(flow.watch.pending.contains(code));
        }
        assert forall|c: ClauseId|
            c < held.watch.clauses.len() && !held.satisfied.contains(c) implies (
        #[trigger] held.watch.clauses[c as int]).lits.len() >= 2 by {
            assert(!flow.satisfied.contains(c));
            assert(flow.watch.clauses[c as int].lits.len() >= 2);
        }
        assert forall|c: ClauseId|
            c < held.watch.clauses.len() && !held.satisfied.contains(c) && (
            #[trigger] held.watch.clauses[c as int]).second is Some implies (
        held.watch.clauses[c as int].first != complement ==> !held.assigned.contains(
            neg(held.watch.clauses[c as int].first),
        )) && (held.watch.clauses[c as int].second->0 != complement ==> !held.assigned.contains(
            neg(held.watch.clauses[c as int].second->0),
        )) by {
            let clause = flow.watch.clauses[c as int];
            assert(!flow.satisfied.contains(c));
            assert(clause.second is Some);
            assert(neg(neg(clause.first)) == clause.first);
            assert(neg(neg(clause.second->0)) == clause.second->0);
        }
    }
    assert forall|k: int| 0 <= k < order.len() implies order[k] < held.watch.clauses.len() by {
        assert(order.to_set().contains(order[k]));
        assert(watchers_at(held.watch.index, complement).contains(order[k]));
    }
    let walked = visited(held.watch, order, held.satisfied, held.assigned, complement);
    lemma_visited_quiet(held.watch, order, held.satisfied, held.assigned, complement);
    lemma_visited_kept(held.watch, order, held.satisfied, held.assigned, complement);
    lemma_visited_fits(held.watch, order, held.satisfied, held.assigned, complement);
    assert(watchers_at(walked.index, complement) == watchers_at(held.watch.index, complement));
    assert(end.watch == cleared(walked, complement));
    assert(end.watch.clauses == walked.clauses);
    assert(end.watch.pending == walked.pending);
    assert(end.watch.top == walked.top);
    assert forall|c: ClauseId|
        c < end.watch.clauses.len() && !end.satisfied.contains(c) && (
        #[trigger] end.watch.clauses[c as int]).second is Some implies !end.assigned.contains(
        neg(end.watch.clauses[c as int].first),
    ) && !end.assigned.contains(neg(end.watch.clauses[c as int].second->0)) by {
        let clause = walked.clauses[c as int];
        assert(clause.lits.len() >= 2);
        assert(two_watched(walked, c));
        if clause.first == complement || clause.second == Some(complement) {
            assert(watchers_at(walked.index, complement).contains(c));
            assert(order.to_set().contains(c));
        }
    }
}

/// The rounds of propagation keep the whole watch invariant, where each
/// but the last meets no conflict, leaves a literal waiting and walks
/// through the whole watch set.
#[verifier::spinoff_prover]
proof fn lemma_ready_sound(start: Flow, lists: Map<i32, Vec<ClauseId>>, orders: Seq<Seq<ClauseId>>)
    requires
        settled(start, lists, true),
        sound(start, true),
        ready(start, lists, orders).orderly,
    ensures
        settled(ready(start, lists, orders), lists, true),
        sound(ready(start, lists, orders), true),
    decreases orders.len(),
{
    lemma_ready_settled(start, lists, orders);
    if orders.len() > 0 {
        let before = ready(start, lists, orders.drop_last());
        let after = round(before, lists, orders.last());
        lemma_ready_sound(start, lists, orders.drop_last());
        lemma_round_sound(before, lists, orders.last());
        let next = taken(after);
        let waits = after.watch.pending;
        assert(waits.contains(waits.last())) by {
            assert(waits[waits.len() - 1] == waits.last());
        }
        assert forall|code: i32| #[trigger] next.watch.pending.contains(code) implies waits.contains(
            code,
        ) by {
            let k = choose|k: int| 0 <= k < waits.drop_last().len() && waits.drop_last()[k] == code;
            assert(waits[k] == code);
        }
    }
}


/// The clauses that are listed as holding a literal of a set.
spec fn marked_by(lists: Map<i32, Vec<ClauseId>>, made: Set<i32>) -> Set<ClauseId> {
    Set::new(|id: ClauseId| exists|code: i32| made.contains(code) && #[trigger] listed(lists, code).contains(id))
}

/// A step without conflict has left the watchers of every literal that it
/// made false behind: the watch set of the complement of every literal that
/// it made true is empty.
spec fn swept(before: Solver, after: Solver) -> bool {
    forall|code: i32|
        after.assigned_lits@.contains(code) && !before.assigned_lits@.contains(code)
            ==> #[trigger] watchers_at(sets_view(after.watched_lit_to_clause@), neg(code))
            == Set::<ClauseId>::empty()
}

/// The marks of a step: the clauses marked as satisfied are those that were
/// marked before and those that hold a literal that the step made true, and
/// the top frame notes the ones that were not marked before.
spec fn marks_kept(before: Solver, after: Solver) -> bool {
    let made = after.assigned_lits@.difference(before.assigned_lits@);
    let last = before.decision_stack@.len() - 1;
    &&& after.satisfied_clauses@ == before.satisfied_clauses@.union(
        marked_by(before.lit_to_clause@, made),
    )
    &&& after.decision_stack@[last]@.satisfied == before.decision_stack@[last]@.satisfied.union(
        after.satisfied_clauses@.difference(before.satisfied_clauses@),
    )
}

/// The literals of a set and their complements.
spec fn freed(made: Set<i32>) -> Set<i32> {
    Set::new(|code: i32| made.contains(code) || made.contains(neg(code)))
}

/// The clauses that the frames from a place of the trail on note as
/// satisfied.
spec fn noted_from(frames: Seq<Decision>, from: int) -> Set<ClauseId> {
    Set::new(
        |id: ClauseId|
            exists|k: int| from <= k < frames.len() && (#[trigger] frames[k])@.satisfied.contains(id),
    )
}

/// The literals of the frames from a place of the trail on: their decisions
/// and what was propagated under them.
spec fn made_from(frames: Seq<Decision>, from: int) -> Set<i32> {
    Set::new(
        |code: i32| exists|k: int| from <= k < frames.len() && own((#[trigger] frames[k])@).contains(code),
    )
}

/// The clauses of a database after each clause of a set was scanned for a
/// second watch again.
spec fn resynced(clauses: Seq<ClauseView>, ids: Set<ClauseId>, assigned: Set<i32>) -> Seq<
    ClauseView,
> {
    Seq::new(
        clauses.len(),
        |i: int|
            if ids.contains(i as usize) {
                clauses[i].restored(assigned)
            } else {
                clauses[i]
            },
    )
}

/// The clauses of a set that have a literal as their second watch once they
/// were scanned for one again.
spec fn resuming(clauses: Seq<ClauseView>, ids: Set<ClauseId>, assigned: Set<i32>, code: i32) -> Set<
    ClauseId,
> {
    Set::new(
        |id: ClauseId|
            ids.contains(id) && id < clauses.len() && clauses[id as int].restored(assigned).second
                == Some(code),
    )
}

/// The clauses of a database after the frames from a place of the trail on
/// were taken off, the topmost first: the clauses that propagated under a
/// frame are scanned for a second watch under the assignment that the frame
/// was pushed on.
spec fn unwound(clauses: Seq<ClauseView>, frames: Seq<Decision>, bases: Seq<Set<i32>>, from: int) -> Seq<
    ClauseView,
>
    decreases frames.len() - from,
{
    if 0 <= from < frames.len() {
        resynced(
            unwound(clauses, frames, bases, from + 1),
            frames[from]@.antecedents.values(),
            bases[from],
        )
    } else {
        clauses
    }
}

/// The clauses that are registered under a literal as the frames from a
/// place of the trail on are taken off: those that get the literal as their
/// second watch when their frame leaves.
spec fn resumed(
    clauses: Seq<ClauseView>,
    frames: Seq<Decision>,
    bases: Seq<Set<i32>>,
    from: int,
    code: i32,
) -> Set<ClauseId>
    decreases frames.len() - from,
{
    if 0 <= from < frames.len() {
        resumed(clauses, frames, bases, from + 1, code).union(
            resuming(
                unwound(clauses, frames, bases, from + 1),
                frames[from]@.antecedents.values(),
                bases[from],
                code,
            ),
        )
    } else {
        Set::empty()
    }
}

/// What the handling of watchers leaves as it is: everything but the
/// clauses, the watch index and the top frame.
spec fn rest_same(before: Solver, after: Solver) -> bool {
    &&& after.learnt_clauses == before.learnt_clauses
    &&& after.lit_to_clause == before.lit_to_clause
    &&& after.satisfied_clauses == before.satisfied_clauses
    &&& after.assigned_lits == before.assigned_lits
    &&& after.decider == before.decider
    &&& after.snapshots == before.snapshots
    &&& after.decision_stack@.len() == before.decision_stack@.len()
    &&& forall|i: int|
        0 <= i < before.decision_stack@.len() - 1 ==> after.decision_stack@[i]
            == before.decision_stack@[i]
}

/// No more literals are assigned than there are literal codes.
#[verifier::spinoff_prover]
proof fn lemma_assigned_bound(assigned: Set<i32>)
    requires
        assigned.finite(),
    ensures
        assigned.len() <= 0x1_0000_0000,
{
    let widen = |c: i32| c as int;
    let wide = assigned.map(widen);
    assert(vstd::relations::injective_on(widen, assigned));
    vstd::set_lib::lemma_map_size(assigned, wide, widen);
    let all = vstd::set_lib::set_int_range(-0x8000_0000, 0x8000_0000);
    vstd::set_lib::lemma_int_range(-0x8000_0000, 0x8000_0000);
    assert(wide.subset_of(all));
    vstd::set_lib::lemma_len_subset(wide, all);
}

#[verifier::spinoff_prover]
fn holds(items: &Vec<Literal>, lit: Literal) -> (found: bool)
    ensures
        found == crate::clause::codes(items@).contains(lit@),
{
    let mut i: usize = 0;
    while i < items.len()
        invariant
            i <= items@.len(),
            forall|k: int| 0 <= k < i ==> crate::clause::codes(items@)[k] != lit@,
        decreases items@.len() - i,
    {
        if items[i].code() == lit.code() {
            assert(crate::clause::codes(items@)[i as int] == lit@);
            return true;
        }
        i = i + 1;
    }
    false
}

/// Assigning a literal leaves no scored literal out.
#[verifier::spinoff_prover]
proof fn lemma_covering_assign(decider: DeciderView, assigned: Set<i32>, code: i32)
    requires
        covering(decider, assigned),
    ensures
        covering(
            DeciderView { unassigned: decider.unassigned.remove(code).remove(neg(code)), ..decider },
            assigned.insert(code),
        ),
{
    let after = DeciderView {
        unassigned: decider.unassigned.remove(code).remove(neg(code)),
        ..decider
    };
    assert(neg(neg(code)) == code);
    assert forall|c: i32| #[trigger] after.scores.contains_key(c) implies after.pool().contains(c)
        || assigned.insert(code).contains(c) || assigned.insert(code).contains(neg(c)) by {
        assert(decider.scores.contains_key(c));
        if decider.pool().contains(c) && c != code && c != neg(code) {
            if decider.unassigned.is_empty() {
                assert(after.unassigned =~= Set::empty());
            } else {
                assert(after.unassigned.contains(c));
            }
        }
    }
}

/// Undoing the assignments of a set of literals, and telling the decider of
/// each, leaves no scored literal out, once the decider has been asked.
#[verifier::spinoff_prover]
proof fn lemma_covering_unassign(
    decider: DeciderView,
    assigned: Set<i32>,
    after: DeciderView,
    freed: Set<i32>,
)
    requires
        covering(decider, assigned),
        decider.age != 0,
        after.age == decider.age,
        after.scores == decider.scores,
        decider.unassigned.subset_of(after.unassigned),
        forall|c: i32| freed.contains(c) ==> after.unassigned.contains(c) && after.unassigned.contains(
            neg(c),
        ),
    ensures
        covering(after, assigned.difference(freed)),
{
    assert forall|c: i32| #[trigger] after.scores.contains_key(c) implies after.pool().contains(c)
        || assigned.difference(freed).contains(c) || assigned.difference(freed).contains(
        neg(c),
    ) by {
        assert(decider.scores.contains_key(c));
        assert(neg(neg(c)) == c);
    }
}

/// Frames whose propagations follow one another still do so in a database
/// that kept the literals of every clause that it had.
#[verifier::spinoff_prover]
proof fn lemma_layered_kept(frames: Seq<Decision>, before: Seq<Clause>, after: Seq<Clause>)
    requires
        frames_layered(frames, before),
        frames_ok(frames, before.len()),
        grown(before, after),
    ensures
        frames_layered(frames, after),
{
    assert forall|k: int| 0 <= k < frames.len() implies layered(
        (#[trigger] frames[k])@,
        db_lits(after),
    ) by {
        let frame = frames[k]@;
        assert(layered(frame, db_lits(before)));
        assert(frame_ok(frame, before.len()));
        assert forall|code: i32, j: int|
            crate::conflict_analyzer::expands(frame, db_lits(after), code) && 0 <= j < db_lits(
                after,
            )[frame.antecedents[code] as int].len() && #[trigger] db_lits(
                after,
            )[frame.antecedents[code] as int][j] != code implies crate::conflict_analyzer::depth(
            frame,
            neg(db_lits(after)[frame.antecedents[code] as int][j]),
        ) < crate::conflict_analyzer::depth(frame, code) by {
            let id = frame.antecedents[code] as int;
            assert(after[id]@.lits == before[id]@.lits);
            assert(db_lits(after)[id] == db_lits(before)[id]);
            assert(crate::conflict_analyzer::expands(frame, db_lits(before), code));
            assert(db_lits(before)[id][j] != code);
        }
    }
}

/// Propagation after propagation is propagation.
#[verifier::spinoff_prover]
proof fn lemma_propagated_twice(start: Solver, middle: Solver, end: Solver)
    requires
        propagated(start, middle),
        propagated(middle, end),
    ensures
        propagated(start, end),
{
}

/// The database kept every clause that it had, with the same literals.
spec fn grown(before: Seq<Clause>, after: Seq<Clause>) -> bool {
    &&& before.len() <= after.len()
    &&& forall|i: int| 0 <= i < before.len() ==> (#[trigger] after[i])@.lits == before[i]@.lits
}

/// Whether the decider has still to fill its pool: 1 before the first
/// request where nothing is unassigned, 0 afterwards.
spec fn unseeded(decider: DeciderView) -> nat {
    if decider.unassigned.is_empty() && decider.age == 0 {
        1
    } else {
        0
    }
}

/// The decider has come closer to having nothing to offer, or stayed where
/// it was.
spec fn no_further(now: DeciderView, to_fill: nat, left: nat) -> bool {
    unseeded(now) < to_fill || (unseeded(now) == to_fill && now.unassigned.len() <= left)
}

/// The decider has come closer to having nothing to offer.
spec fn closer(now: DeciderView, to_fill: nat, left: nat) -> bool {
    unseeded(now) < to_fill || (unseeded(now) == to_fill && now.unassigned.len() < left)
}

/// A clause holds a literal, other than its first watch, that a frame makes
/// false: its complement is the frame's decision or was propagated under it.
pub open spec fn reaches(clause: ClauseView, frame: DecisionView) -> bool {
    exists|i: int|
        0 <= i < clause.lits.len() && #[trigger] clause.lits[i] != clause.first && own(
            frame,
        ).contains(neg(clause.lits[i]))
}

impl View for Solver {
    type V = SolverView;

    closed spec fn view(&self) -> SolverView {
        SolverView {
            clauses: self.clauses@.map_values(|c: Clause| c@),
            learnt: self.learnt_clauses@,
            occurrences: lists_view(self.lit_to_clause@),
            watchers: sets_view(self.watched_lit_to_clause@),
            satisfied: self.satisfied_clauses@,
            assigned: self.assigned_lits@,
            trail: self.decision_stack@.map_values(|d: Decision| d@),
            snapshots: self.snapshots@,
            decider: self.decider@,
            model: self.model@,
        }
    }
}

/// A set of the same literals.
#[verifier::spinoff_prover]
fn copy_of(set: &LiteralSet) -> (copy: LiteralSet)
    ensures
        copy@ == set@,
{
    let members = set_members(set);
    let mut copy: LiteralSet = FnvHashSet::default();
    let mut i: usize = 0;
    while i < members.len()
        invariant
            i <= members@.len(),
            copy@ == members@.take(i as int).to_set(),
        decreases members@.len() - i,
    {
        set_insert(&mut copy, members[i]);
        i = i + 1;
        proof {
            let done = members@.take(i as int);
            let earlier = members@.take(i - 1);
            assert(done =~= earlier.push(members@[i - 1]));
            earlier.lemma_push_to_set_commute(members@[i - 1]);
        }
    }
    proof {
        assert(members@.take(i as int) =~= members@);
    }
    copy
}

/// Registers a clause as watching a literal.
#[verifier::spinoff_prover]
fn add_watched_lit(
    index: &mut FnvHashMap<i32, FnvHashSet<ClauseId>>,
    clause_id: ClauseId,
    lit: Literal,
)
    ensures
        sets_view(final(index)@) == watched(sets_view(old(index)@), lit@, clause_id),
        forall|bound: nat|
            sets_below(old(index)@, bound) && clause_id < bound ==> sets_below(
                final(index)@,
                bound,
            ),
{
    let code = lit.code();
    let mut set = match map_remove(index, code) {
        Some(set) => set,
        None => FnvHashSet::default(),
    };
    set_insert(&mut set, clause_id);
    map_insert(index, code, set);
    proof {
        assert(sets_view(index@) =~= watched(sets_view(old(index)@), lit@, clause_id));
    }
}

/// Appends a clause id to the list of the clauses that hold a literal.
#[verifier::spinoff_prover]
fn note_occurrence(lists: &mut FnvHashMap<i32, Vec<ClauseId>>, clause_id: ClauseId, code: i32)
    ensures
        lists_view(final(lists)@) == noted(lists_view(old(lists)@), code, clause_id),
        forall|bound: nat|
            lists_below(old(lists)@, bound) && clause_id < bound ==> lists_below(
                final(lists)@,
                bound,
            ),
{
    let mut list = match map_remove(lists, code) {
        Some(list) => list,
        None => Vec::new(),
    };
    list.push(clause_id);
    map_insert(lists, code, list);
    proof {
        assert(lists_view(lists@) =~= noted(lists_view(old(lists)@), code, clause_id));
        assert forall|bound: nat| lists_below(old(lists)@, bound) && clause_id < bound implies lists_below(
            lists@,
            bound,
        ) by {
            assert forall|c: i32, k: int|
                lists@.contains_key(c) && 0 <= k < lists@[c]@.len() implies #[trigger] lists@[c]@[k]
                < bound by {
                if c == code {
                    if k < lists@[c]@.len() - 1 {
                        assert(old(lists)@[c]@[k] < bound);
                    }
                } else {
                    assert(old(lists)@[c]@[k] < bound);
                }
            }
        }
    }
}

impl Solver {
    /// The solver's parts fit together. Every clause is well-formed, and
    /// every clause id that an index or a frame holds is one of the database.
    /// The trail has its root frame, and the assignment is what the frames
    /// made of it one after the other. Every propagation is forced by its
    /// antecedent, and the propagations of a frame follow one another. The
    /// decider is well-formed and has a score for every literal of a clause.
    /// `lemma_well_formed` states these in terms of what the solver holds.
    pub closed spec fn wf(&self) -> bool {
        &&& clauses_ok(self.clauses@)
        &&& lists_below(self.lit_to_clause@, self.clauses@.len())
        &&& sets_below(self.watched_lit_to_clause@, self.clauses@.len())
        &&& frames_ok(self.decision_stack@, self.clauses@.len())
        &&& self.decision_stack@.len() >= 1
        &&& self.decider.wf()
        &&& self.assigned_lits@.finite()
        &&& trail_ok(self.decision_stack@, self.snapshots@, self.assigned_lits@)
        &&& lits_scored(self.clauses@, self.decider@.scores)
        &&& frames_scored(self.decision_stack@, self.decider@.scores)
        &&& (self.decision_stack@.len() > 1 ==> self.decider@.age != 0)
        &&& supported(
            self.decision_stack@,
            self.snapshots@,
            self.assigned_lits@,
            self.clauses@,
        )
        &&& frames_layered(self.decision_stack@, self.clauses@)
    }

    /// What holds of every well-formed solver, in terms of what it holds.
    #[verifier::spinoff_prover]
    pub proof fn lemma_well_formed(&self)
        requires
            self.wf(),
        ensures
            self@.clauses_watch_their_own(),
            self@.trail_agrees(),
            self@.decisions_were_free(),
            self@.propagations_are_forced(),
            self@.frames_are_layered(),
    {
        let view = self@;
        assert forall|k: int| 1 <= k < view.trail.len() implies !view.snapshots[k].contains(
            (#[trigger] view.trail[k]).lit,
        ) && !view.snapshots[k].contains(neg(view.trail[k].lit)) by {
            assert(frame_added(
                self.decision_stack@[k]@,
                self.snapshots@[k],
                if k + 1 < self.decision_stack@.len() {
                    self.snapshots@[k + 1]
                } else {
                    self.assigned_lits@
                },
            ));
            assert(own(self.decision_stack@[k]@).contains(self.decision_stack@[k]@.lit));
        }
        assert(view.clauses.map_values(|c: ClauseView| c.lits) =~= db_lits(self.clauses@));
        assert forall|k: int| 0 <= k < view.trail.len() implies layered(
            #[trigger] view.trail[k],
            view.clauses.map_values(|c: ClauseView| c.lits),
        ) by {
            assert(layered(self.decision_stack@[k]@, db_lits(self.clauses@)));
        }
        assert forall|i: int| 0 <= i < view.clauses.len() implies (#[trigger] view.clauses[i]).wf() by {
            assert(self.clauses@[i]@.wf());
        }
        assert forall|k: int| 0 <= k < view.trail.len() implies frame_added(
            #[trigger] view.trail[k],
            view.snapshots[k],
            view.left_by(k),
        ) by {
            assert(frame_added(
                self.decision_stack@[k]@,
                self.snapshots@[k],
                if k + 1 < self.decision_stack@.len() {
                    self.snapshots@[k + 1]
                } else {
                    self.assigned_lits@
                },
            ));
        }
        assert forall|k: int, c: i32|
            0 <= k < view.trail.len() && #[trigger] view.trail[k].antecedents.contains_key(
                c,
            ) implies view.trail[k].antecedents[c] < view.clauses.len() && forced(
            view.clauses[view.trail[k].antecedents[c] as int].lits,
            c,
            view.left_by(k),
        ) by {
            assert(frame_ok(self.decision_stack@[k]@, self.clauses@.len()));
            assert(self.decision_stack@[k]@.antecedents.contains_key(c));
        }
    }

    /// A solver with no clause, nothing assigned, and the root frame on its
    /// trail.
    #[verifier::spinoff_prover]
    pub fn new() -> (solver: Solver)
        ensures
            solver.wf(),
            solver@ == (SolverView {
                clauses: Seq::empty(),
                learnt: Set::empty(),
                occurrences: Map::empty(),
                watchers: Map::empty(),
                satisfied: Set::empty(),
                assigned: Set::empty(),
                trail: seq![
                    DecisionView {
                        lit: 0,
                        level: 0,
                        satisfied: Set::empty(),
                        antecedents: Map::empty(),
                        order: Map::empty(),
                        conflict: None,
                    },
                ],
                snapshots: seq![Set::empty()],
                decider: DeciderView { scores: Map::empty(), unassigned: Set::empty(), age: 0 },
                model: Set::empty(),
            }),
    {
        let mut decision_stack: Vec<Decision> = Vec::new();
        decision_stack.push(Decision::from(Literal::non_existent(), 0));
        let ghost start: Seq<Set<i32>> = seq![Set::empty()];
        let solver = Solver {
            clauses: Vec::new(),
            learnt_clauses: FnvHashSet::default(),
            lit_to_clause: FnvHashMap::default(),
            watched_lit_to_clause: FnvHashMap::default(),
            satisfied_clauses: FnvHashSet::default(),
            assigned_lits: FnvHashSet::default(),
            decision_stack,
            decider: VSIDSDecider::new(),
            snapshots: Ghost(start),
            model: FnvHashSet::default(),
        };
        proof {
            assert(solver@.clauses =~= Seq::empty());
            assert(solver@.occurrences =~= Map::empty());
            assert(solver@.watchers =~= Map::empty());
            assert(solver@.trail =~= seq![solver.decision_stack@[0]@]);
        }
        solver
    }

    /// The clause database, by clause id.
    #[verifier::spinoff_prover]
    pub fn clauses(&self) -> (clauses: &Vec<Clause>)
        ensures
            clauses@.map_values(|c: Clause| c@) == self@.clauses,
    {
        &self.clauses
    }

    /// The literals that are true.
    #[verifier::spinoff_prover]
    pub fn assigned_lits(&self) -> (assigned: &LiteralSet)
        ensures
            assigned@ == self@.assigned,
    {
        &self.assigned_lits
    }

    /// The clauses marked as satisfied.
    #[verifier::spinoff_prover]
    pub fn satisfied_clauses(&self) -> (satisfied: &FnvHashSet<ClauseId>)
        ensures
            satisfied@ == self@.satisfied,
    {
        &self.satisfied_clauses
    }

    /// The decision frames, the root frame first.
    #[verifier::spinoff_prover]
    pub fn decision_stack(&self) -> (frames: &Vec<Decision>)
        ensures
            frames@.map_values(|d: Decision| d@) == self@.trail,
    {
        &self.decision_stack
    }

    /// The clauses registered as watching a literal.
    #[verifier::spinoff_prover]
    pub fn watchers_of(&self, lit: Literal) -> (watching: Vec<ClauseId>)
        ensures
            watching@.no_duplicates(),
            watching@.to_set() == self@.watching(lit@),
    {
        match map_get(&self.watched_lit_to_clause, lit.code()) {
            Some(clause_ids) => set_members(clause_ids),
            None => {
                let watching: Vec<ClauseId> = Vec::new();
                proof {
                    assert(watching@.to_set() =~= Set::<ClauseId>::empty());
                }
                watching
            },
        }
    }

    /// An assignment is a model of the clause database exactly when it is
    /// one of the formula that the clauses' literals make.
    #[verifier::spinoff_prover]
    proof fn lemma_modelled(&self, model: Set<i32>)
        ensures
            self@.modelled_by(model) == satisfies(db_lits(self.clauses@), model),
    {
        let formula = db_lits(self.clauses@);
        assert forall|i: int| 0 <= i < formula.len() implies formula[i] == self@.clauses[i].lits by {}
        if satisfies(formula, model) {
            assert forall|i: int| 0 <= i < self@.clauses.len() implies holds_one(
                model,
                #[trigger] self@.clauses[i].lits,
            ) by {
                assert(holds_one(model, formula[i]));
            }
        }
        if self@.modelled_by(model) {
            assert forall|i: int| 0 <= i < formula.len() implies holds_one(
                model,
                #[trigger] formula[i],
            ) by {
                assert(holds_one(model, self@.clauses[i].lits));
            }
        }
    }

    /// Whether an assignment is a model of the clause database.
    #[verifier::spinoff_prover]
    pub fn is_model(&self, model: &LiteralSet) -> (ok: bool)
        ensures
            ok == self@.modelled_by(model@),
    {
        let ok = self.models_first(self.clauses.len(), model);
        proof {
            let formula = db_lits(self.clauses@);
            assert(formula.take(self.clauses@.len() as int) =~= formula);
            self.lemma_modelled(model@);
        }
        ok
    }

    /// Whether an assignment is a model of the first clauses of the database.
    #[verifier::spinoff_prover]
    fn models_first(&self, count: usize, model: &LiteralSet) -> (ok: bool)
        requires
            count <= self.clauses@.len(),
        ensures
            ok == satisfies(db_lits(self.clauses@).take(count as int), model@),
    {
        let ghost formula = db_lits(self.clauses@).take(count as int);
        let members = set_members(model);
        let mut m: usize = 0;
        while m < members.len()
            invariant
                m <= members@.len(),
                members@.to_set() == model@,
                forall|k: int|
                    0 <= k < m && neg(members@[k]) != members@[k] ==> !model@.contains(
                        neg(#[trigger] members@[k]),
                    ),
            decreases members@.len() - m,
        {
            let code = members[m];
            proof {
                assert(members@.to_set().contains(members@[m as int]));
            }
            if code != i32::MIN && code != 0 {
                if set_contains(model, -code) {
                    proof {
                        assert(model@.contains(code) && neg(code) != code && model@.contains(
                            neg(code),
                        ));
                    }
                    return false;
                }
            }
            m = m + 1;
        }
        proof {
            assert forall|c: i32| #[trigger] model@.contains(c) && neg(c) != c implies !model@.contains(
                neg(c),
            ) by {
                assert(members@.to_set().contains(c));
                let k = choose|k: int| 0 <= k < members@.len() && members@[k] == c;
                assert(!model@.contains(neg(members@[k])));
            }
        }
        let mut i: usize = 0;
        while i < count
            invariant
                i <= count,
                count <= self.clauses@.len(),
                formula == db_lits(self.clauses@).take(count as int),
                consistent(model@),
                forall|k: int| 0 <= k < i ==> holds_one(model@, #[trigger] formula[k]),
            decreases count - i,
        {
            let lits = self.clauses[i].lits();
            let mut found = false;
            let mut j: usize = 0;
            proof {
                assert(formula[i as int] == self.clauses@[i as int]@.lits);
            }
            while j < lits.len()
                invariant
                    j <= lits@.len(),
                    i < count,
                    crate::clause::codes(lits@) == formula[i as int],
                    found ==> holds_one(model@, formula[i as int]),
                    !found ==> forall|k: int|
                        0 <= k < j ==> !model@.contains(#[trigger] formula[i as int][k]),
                decreases lits@.len() - j,
            {
                proof {
                    assert(crate::clause::codes(lits@)[j as int] == lits@[j as int]@);
                }
                if set_contains(model, lits[j].code()) {
                    proof {
                        assert(model@.contains(formula[i as int][j as int]));
                    }
                    found = true;
                }
                j = j + 1;
            }
            if !found {
                proof {
                    assert(!holds_one(model@, formula[i as int]));
                }
                return false;
            }
            i = i + 1;
        }
        true
    }

    /// The literals of the first clauses of the database, clause by clause.
    #[verifier::spinoff_prover]
    fn literals_first(&self, count: usize) -> (lits: Vec<i32>)
        requires
            count <= self.clauses@.len(),
        ensures
            lits@ == joined(db_lits(self.clauses@).take(count as int)),
            forall|i: int, j: int|
                0 <= i < count && 0 <= j < db_lits(self.clauses@)[i].len() ==> lits@.contains(
                    #[trigger] db_lits(self.clauses@)[i][j],
                ),
            forall|k: int| 0 <= k < lits@.len() ==> lits@[k] != i32::MIN,
    {
        let mut all: Vec<i32> = Vec::new();
        let mut i: usize = 0;
        proof {
            assert(db_lits(self.clauses@).take(0).len() == 0);
            assert(all@ =~= joined(db_lits(self.clauses@).take(0)));
        }
        while i < count
            invariant
                i <= count,
                count <= self.clauses@.len(),
                all@ == joined(db_lits(self.clauses@).take(i as int)),
                forall|a: int, b: int|
                    0 <= a < i && 0 <= b < db_lits(self.clauses@)[a].len() ==> all@.contains(
                        #[trigger] db_lits(self.clauses@)[a][b],
                    ),
                forall|k: int| 0 <= k < all@.len() ==> all@[k] != i32::MIN,
            decreases count - i,
        {
            let lits = self.clauses[i].lits();
            let ghost row = db_lits(self.clauses@)[i as int];
            let ghost before = all@;
            let mut j: usize = 0;
            proof {
                assert(all@ =~= before + row.take(0));
            }
            while j < lits.len()
                invariant
                    j <= lits@.len(),
                    i < count,
                    count <= self.clauses@.len(),
                    row == db_lits(self.clauses@)[i as int],
                    crate::clause::codes(lits@) == row,
                    all@ == before + row.take(j as int),
                    forall|k: int| 0 <= k < before.len() ==> all@.contains(#[trigger] before[k]),
                    forall|b: int| 0 <= b < j ==> all@.contains(#[trigger] row[b]),
                    forall|k: int| 0 <= k < all@.len() ==> all@[k] != i32::MIN,
                decreases lits@.len() - j,
            {
                let code = lits[j].code();
                let ghost earlier = all@;
                all.push(code);
                proof {
                    assert(crate::clause::codes(lits@)[j as int] == code);
                    assert(all@[all@.len() - 1] == code);
                    assert(all@ =~= before + row.take(j + 1));
                    assert forall|k: int| 0 <= k < before.len() implies all@.contains(
                        #[trigger] before[k],
                    ) by {
                        assert(earlier.contains(before[k]));
                        let x = choose|x: int| 0 <= x < earlier.len() && earlier[x] == before[k];
                        assert(all@[x] == before[k]);
                    }
                    assert forall|b: int| 0 <= b < j + 1 implies all@.contains(#[trigger] row[b]) by {
                        if b < j {
                            assert(earlier.contains(row[b]));
                            let x = choose|x: int| 0 <= x < earlier.len() && earlier[x] == row[b];
                            assert(all@[x] == row[b]);
                        }
                    }
                }
                j = j + 1;
            }
            proof {
                let formula = db_lits(self.clauses@);
                assert(row.take(j as int) =~= row);
                assert(formula.take(i + 1).drop_last() =~= formula.take(i as int));
                assert(formula.take(i + 1).last() == row);
                assert forall|a: int, b: int|
                    0 <= a < i + 1 && 0 <= b < db_lits(self.clauses@)[a].len() implies all@.contains(
                    #[trigger] db_lits(self.clauses@)[a][b],
                ) by {
                    if a < i {
                        assert(before.contains(db_lits(self.clauses@)[a][b]));
                        let x = choose|x: int|
                            0 <= x < before.len() && before[x] == db_lits(self.clauses@)[a][b];
                        assert(all@.contains(before[x]));
                    }
                }
            }
            i = i + 1;
        }
        all
    }

    /// Whether one of the first clauses of the database has every literal
    /// made false by an assignment. No model of those clauses holds such an
    /// assignment.
    #[verifier::spinoff_prover]
    fn refuted_first(&self, count: usize, partial: &LiteralSet) -> (refuted: bool)
        requires
            count <= self.clauses@.len(),
        ensures
            refuted == exists|i: int|
                0 <= i < count && refutes(partial@, #[trigger] db_lits(self.clauses@)[i]),
            refuted ==> no_model_over(db_lits(self.clauses@).take(count as int), partial@),
    {
        let ghost formula = db_lits(self.clauses@).take(count as int);
        let mut i: usize = 0;
        while i < count
            invariant
                i <= count,
                count <= self.clauses@.len(),
                formula == db_lits(self.clauses@).take(count as int),
                forall|a: int| 0 <= a < i ==> !refutes(partial@, #[trigger] db_lits(self.clauses@)[a]),
            decreases count - i,
        {
            let lits = self.clauses[i].lits();
            let mut all_false = true;
            let mut j: usize = 0;
            let ghost mut bad: int = 0;
            proof {
                assert(formula[i as int] == self.clauses@[i as int]@.lits);
                assert(formula[i as int] == db_lits(self.clauses@)[i as int]);
            }
            while j < lits.len()
                invariant
                    j <= lits@.len(),
                    i < count,
                    crate::clause::codes(lits@) == formula[i as int],
                    all_false ==> forall|k: int|
                        0 <= k < j ==> neg(#[trigger] formula[i as int][k]) != formula[i as int][k]
                            && partial@.contains(neg(formula[i as int][k])),
                    !all_false ==> 0 <= bad < lits@.len() && !(neg(formula[i as int][bad])
                        != formula[i as int][bad] && partial@.contains(neg(formula[i as int][bad]))),
                decreases lits@.len() - j,
            {
                let code = lits[j].code();
                proof {
                    assert(crate::clause::codes(lits@)[j as int] == code);
                }
                if code == 0 || !set_contains(partial, -code) {
                    proof {
                        if all_false {
                            bad = j as int;
                        }
                    }
                    all_false = false;
                }
                j = j + 1;
            }
            proof {
                if !all_false {
                    assert(!refutes(partial@, formula[i as int]));
                }
            }
            if all_false {
                proof {
                    assert(refutes(partial@, db_lits(self.clauses@)[i as int]));
                    let row = formula[i as int];
                    assert forall|m: Set<i32>| #[trigger] satisfies(formula, m) implies !partial@.subset_of(
                        m,
                    ) by {
                        if partial@.subset_of(m) {
                            assert(holds_one(m, formula[i as int]));
                            let k = choose|k: int| 0 <= k < row.len() && m.contains(#[trigger] row[k]);
                            assert(partial@.contains(neg(row[k])));
                            assert(m.contains(neg(row[k])));
                        }
                    }
                }
                return true;
            }
            i = i + 1;
        }
        false
    }

    /// Searches every way of giving the literals of a list a value, beyond
    /// those that an assignment gives one already, for a model of the first
    /// clauses of the database. A way that makes every literal of a clause
    /// false is not followed further. A model that is found holds what the
    /// assignment held. Where there is no model, the assignment is left as
    /// it was.
    #[verifier::spinoff_prover]
    fn exhaust(&self, count: usize, lits: &Vec<i32>, from: usize, partial: &mut LiteralSet) -> (found:
        bool)
        requires
            count <= self.clauses@.len(),
            from <= lits@.len(),
            forall|k: int| 0 <= k < lits@.len() ==> lits@[k] != i32::MIN,
            forall|i: int, j: int|
                0 <= i < count && 0 <= j < db_lits(self.clauses@)[i].len() ==> lits@.contains(
                    #[trigger] db_lits(self.clauses@)[i][j],
                ),
            forall|k: int|
                0 <= k < from ==> old(partial)@.contains(#[trigger] lits@[k]) || old(partial)@.contains(neg(lits@[k])),
        ensures
            found ==> satisfies(db_lits(self.clauses@).take(count as int), final(partial)@),
            found ==> old(partial)@.subset_of(final(partial)@),
            found ==> forall|k: int|
                0 <= k < lits@.len() ==> final(partial)@.contains(#[trigger] lits@[k]) || final(partial)@.contains(neg(lits@[k])),
            !found ==> final(partial)@ == old(partial)@,
            !found ==> no_model_over(db_lits(self.clauses@).take(count as int), old(partial)@),
        decreases lits@.len() - from,
    {
        let ghost formula = db_lits(self.clauses@).take(count as int);
        let ghost start = partial@;
        if self.refuted_first(count, partial) {
            return false;
        }
        if from == lits.len() {
            let ok = self.models_first(count, partial);
            proof {
                if !ok {
                    assert forall|m: Set<i32>| #[trigger] satisfies(formula, m) implies !start.subset_of(
                        m,
                    ) by {
                        if start.subset_of(m) {
                            assert forall|i: int, j: int|
                                0 <= i < formula.len() && 0 <= j < formula[i].len() implies start.contains(
                                #[trigger] formula[i][j],
                            ) || start.contains(neg(formula[i][j])) by {
                                assert(formula[i][j] == db_lits(self.clauses@)[i][j]);
                                assert(lits@.contains(db_lits(self.clauses@)[i][j]));
                                let k = choose|k: int|
                                    0 <= k < lits@.len() && lits@[k] == formula[i][j];
                                assert(start.contains(lits@[k]) || start.contains(neg(lits@[k])));
                            }
                            law_total_part_of_a_model_is_a_model(formula, start, m);
                        }
                    }
                }
            }
            return ok;
        }
        let code = lits[from];
        if set_contains(partial, code) || set_contains(partial, -code) {
            return self.exhaust(count, lits, from + 1, partial);
        }
        set_insert(partial, code);
        if self.exhaust(count, lits, from + 1, partial) {
            return true;
        }
        set_remove(partial, code);
        set_insert(partial, -code);
        proof {
            assert(neg(code) == -code);
            assert(start.insert(code).remove(code) =~= start);
        }
        if self.exhaust(count, lits, from + 1, partial) {
            return true;
        }
        set_remove(partial, -code);
        proof {
            assert(start.insert(neg(code)).remove(neg(code)) =~= start);
            assert(partial@ =~= start);
            assert forall|m: Set<i32>| #[trigger] satisfies(formula, m) implies !start.subset_of(m) by {
                if start.subset_of(m) {
                    if m.contains(code) {
                        assert(start.insert(code).subset_of(m));
                    } else if m.contains(neg(code)) {
                        assert(start.insert(neg(code)).subset_of(m));
                    } else {
                        law_model_takes_a_free_literal(formula, m, code);
                        assert(start.insert(code).subset_of(m.insert(code)));
                        assert(satisfies(formula, m.insert(code)));
                    }
                }
            }
        }
        false
    }

    /// Inserts a clause under the next free id: lists it under each of its
    /// literals, registers it under the literals that it watches, and lets the
    /// decider observe it.
    #[verifier::spinoff_prover]
    pub fn add_clause(&mut self, clause: Clause) -> (clause_id: ClauseId)
        requires
            old(self).wf(),
            clause@.wf(),
        ensures
            clause_id == old(self)@.clauses.len(),
            final(self)@ == old(self)@.with_clause(clause@),
            final(self)@.clauses[clause_id as int] == clause@,
            final(self).wf(),
    {
        self.insert(clause)
    }

    #[verifier::spinoff_prover]
    fn insert(&mut self, clause: Clause) -> (clause_id: ClauseId)
        requires
            old(self).wf(),
            clause@.wf(),
        ensures
            clause_id == old(self).clauses@.len(),
            final(self)@ == old(self)@.with_clause(clause@),
            final(self).wf(),
            final(self).clauses@ == old(self).clauses@.push(clause),
            final(self).learnt_clauses == old(self).learnt_clauses,
            final(self).satisfied_clauses == old(self).satisfied_clauses,
            final(self).assigned_lits == old(self).assigned_lits,
            final(self).decision_stack == old(self).decision_stack,
            final(self).snapshots == old(self).snapshots,
            final(self).decider@.unassigned == old(self).decider@.unassigned,
            final(self).decider@.age == old(self).decider@.age,
            (forall|j: int|
                0 <= j < clause@.lits.len() ==> old(self).decider@.scores.contains_key(
                    #[trigger] clause@.lits[j],
                )) ==> final(self).decider@.scores.dom() == old(self).decider@.scores.dom(),
    {
        let clause_id = self.clauses.len();
        let lits = clause.lits();
        let mut i: usize = 0;
        while i < lits.len()
            invariant
                i <= lits@.len(),
                crate::clause::codes(lits@) == clause@.lits,
                self.clauses == old(self).clauses,
                self.learnt_clauses == old(self).learnt_clauses,
                self.watched_lit_to_clause == old(self).watched_lit_to_clause,
                self.satisfied_clauses == old(self).satisfied_clauses,
                self.assigned_lits == old(self).assigned_lits,
                self.decision_stack == old(self).decision_stack,
                self.decider == old(self).decider,
                self.snapshots == old(self).snapshots,
                self.model == old(self).model,
                clause_id == self.clauses@.len(),
                lists_below(self.lit_to_clause@, (clause_id + 1) as nat),
                lists_view(self.lit_to_clause@) == noted_all(
                    lists_view(old(self).lit_to_clause@),
                    clause@.lits.take(i as int),
                    clause_id,
                ),
            decreases lits@.len() - i,
        {
            note_occurrence(&mut self.lit_to_clause, clause_id, lits[i].code());
            i = i + 1;
            proof {
                let done = clause@.lits.take(i as int);
                assert(done.drop_last() =~= clause@.lits.take(i - 1));
                assert(done.last() == lits@[i - 1]@);
            }
        }
        proof {
            assert(clause@.lits.take(i as int) =~= clause@.lits);
        }
        add_watched_lit(&mut self.watched_lit_to_clause, clause_id, clause.first_watched_lit());
        if let Some(lit) = clause.second_watched_lit() {
            add_watched_lit(&mut self.watched_lit_to_clause, clause_id, lit);
        }
        self.decider.add_clause(&clause);
        self.clauses.push(clause);
        proof {
            assert(self@.clauses =~= old(self)@.clauses.push(clause@));
            assert(self@.trail =~= old(self)@.trail);
            assert(self.decision_stack@ == old(self).decision_stack@);
            let before = old(self).decider@.scores;
            let by = increment(old(self).decider@.age);
            crate::decider::law_observe_scores_the_clause(before, clause@.lits, by);
            lemma_layered_kept(self.decision_stack@, old(self).clauses@, self.clauses@);
            let after = self.decider@.scores;
            assert forall|i: int, j: int|
                0 <= i < self.clauses@.len() && 0 <= j < self.clauses@[i]@.lits.len() implies after.contains_key(
                #[trigger] self.clauses@[i]@.lits[j],
            ) by {
                if i < old(self).clauses@.len() {
                    assert(self.clauses@[i] == old(self).clauses@[i]);
                    assert(before.contains_key(old(self).clauses@[i]@.lits[j]));
                } else {
                    assert(clause@.lits.contains(clause@.lits[j]));
                }
            }
            assert forall|k: int, c: i32|
                0 <= k < self.decision_stack@.len() && #[trigger] self.decision_stack@[k]@.antecedents.contains_key(
                    c,
                ) implies after.contains_key(c) by {
                assert(before.contains_key(c));
            }
            if forall|j: int|
                0 <= j < clause@.lits.len() ==> before.contains_key(#[trigger] clause@.lits[j]) {
                assert forall|c: i32| after.contains_key(c) implies before.contains_key(c) by {
                    if clause@.lits.contains(c) {
                        let j = choose|j: int| 0 <= j < clause@.lits.len() && clause@.lits[j] == c;
                        assert(before.contains_key(clause@.lits[j]));
                    }
                }
                assert(after.dom() =~= before.dom());
            }
        }
        clause_id
    }

    spec fn top(&self) -> Decision {
        self.decision_stack@[self.decision_stack@.len() - 1]
    }

    /// The part of the solver that propagation works on.
    spec fn flow(&self, pending: Seq<Literal>, current: i32, outcome: Constant) -> Flow {
        Flow {
            watch: self.watch_state(pending, outcome),
            assigned: self.assigned_lits@,
            satisfied: self.satisfied_clauses@,
            unassigned: self.decider@.unassigned,
            current,
            orderly: true,
        }
    }

    /// The watch invariant before a literal is propagated: the marks and
    /// the occurrence lists are complete, and every clause of two literals
    /// or more that is not marked as satisfied watches two literals and is
    /// registered under both, or has the literal as its single watch.
    spec fn tidy_before(&self, lit: i32) -> bool {
        settled(self.flow(Seq::empty(), lit, Constant::NoConflict), self.lit_to_clause@, true)
    }

    /// The watch invariant between steps: the marks and the occurrence
    /// lists are complete, and every clause of two literals or more that is
    /// not marked as satisfied watches two literals and is registered under
    /// both.
    spec fn tidy(&self) -> bool {
        settled(self.flow(Seq::empty(), 0, Constant::NoConflict), self.lit_to_clause@, false)
    }

    /// The whole watch invariant before a literal is propagated: beside
    /// `tidy_before`, the assignment is consistent and does not make the
    /// literal false, every clause that is not marked as satisfied has two
    /// literals or more, and no literal that such a clause watches is false.
    spec fn clean_before(&self, lit: i32) -> bool {
        &&& self.tidy_before(lit)
        &&& sound(self.flow(Seq::empty(), lit, Constant::NoConflict), true)
    }

    /// The whole watch invariant between steps: beside `tidy`, the
    /// assignment is consistent, every clause that is not marked as
    /// satisfied has two literals or more, and no literal that such a clause
    /// watches is false.
    spec fn clean(&self) -> bool {
        &&& self.tidy()
        &&& sound(self.flow(Seq::empty(), 0, Constant::NoConflict), false)
    }

    /// The part of the solver that the handling of watchers works on.
    spec fn watch_state(&self, pending: Seq<Literal>, outcome: Constant) -> Watch {
        Watch {
            clauses: clause_views(self.clauses@),
            index: sets_view(self.watched_lit_to_clause@),
            top: self.top()@,
            pending: crate::clause::codes(pending),
            outcome,
        }
    }

    /// The level of the top frame.
    #[verifier::spinoff_prover]
    fn current_decision_level(&self) -> (level: u32)
        requires
            self.decision_stack@.len() >= 1,
        ensures
            level == self.top()@.level,
    {
        self.decision_stack[self.decision_stack.len() - 1].lvl()
    }

    /// Records the first watch of a clause that has no second watch left as
    /// propagated by that clause in the top frame, and lets it wait for its
    /// assignment. A literal that is true already is left alone.
    #[verifier::spinoff_prover]
    fn record(&mut self, clause_id: ClauseId, pending: &mut Vec<Literal>) -> (outcome: Constant)
        requires
            old(self).wf(),
            clause_id < old(self).clauses@.len(),
            waiting(old(pending)@, *old(self)),
            forced(
                old(self).clauses@[clause_id as int]@.lits,
                old(self).clauses@[clause_id as int]@.first,
                old(self).assigned_lits@,
            ),
        ensures
            final(self).wf(),
            propagated(*old(self), *final(self)),
            final(self).clauses == old(self).clauses,
            final(self).assigned_lits == old(self).assigned_lits,
            final(self).watched_lit_to_clause == old(self).watched_lit_to_clause,
            final(self).satisfied_clauses == old(self).satisfied_clauses,
            final(self).decider == old(self).decider,
            waiting(final(pending)@, *final(self)),
            outcome is Conflict || outcome is NoConflict,
            outcome is Conflict ==> final(self).top()@.conflict is Some,
            rest_same(*old(self), *final(self)),
            final(self).watch_state(final(pending)@, outcome) == recorded_step(
                old(self).watch_state(old(pending)@, Constant::NoConflict),
                old(self).assigned_lits@,
                clause_id,
            ),
    {
        let top = self.decision_stack.len() - 1;
        let lit = self.clauses[clause_id].first_watched_lit();
        if set_contains(&self.assigned_lits, lit.code()) {
            return Constant::NoConflict;
        }
        let ghost before = self.decision_stack@[top as int]@;
        let outcome = self.decision_stack[top].add_propagated_lit(lit, clause_id);
        proof {
            let after = self.decision_stack@[top as int]@;
            assert(after == before.recorded(lit@, clause_id));
            assert(own(after) =~= own(before).insert(lit@));
            assert(frame_ok(after, self.clauses@.len()));
            assert(trail_ok(self.decision_stack@, self.snapshots@, self.assigned_lits@)) by {
                assert forall|k: int| 0 <= k < self.decision_stack@.len() implies frame_added(
                    (#[trigger] self.decision_stack@[k])@,
                    self.snapshots@[k],
                    if k + 1 < self.decision_stack@.len() {
                        self.snapshots@[k + 1]
                    } else {
                        self.assigned_lits@
                    },
                ) by {
                    assert(frame_added(
                        old(self).decision_stack@[k]@,
                        self.snapshots@[k],
                        if k + 1 < self.decision_stack@.len() {
                            self.snapshots@[k + 1]
                        } else {
                            self.assigned_lits@
                        },
                    ));
                }
            }
        }
        if outcome == Constant::Conflict {
            return Constant::Conflict;
        }
        if !holds(pending, lit) {
            let ghost waited = crate::clause::codes(pending@);
            pending.push(lit);
            proof {
                assert(crate::clause::codes(pending@) =~= waited.push(lit@));
            }
        }
        Constant::NoConflict
    }

    /// Makes a literal of the top frame true.
    #[verifier::spinoff_prover]
    fn assign(&mut self, lit: Literal)
        requires
            old(self).wf(),
            own(old(self).top()@).contains(lit@),
            !old(self).assigned_lits@.contains(lit@),
        ensures
            final(self).wf(),
            propagated(*old(self), *final(self)),
            final(self).clauses == old(self).clauses,
            final(self).decision_stack == old(self).decision_stack,
            final(self).watched_lit_to_clause == old(self).watched_lit_to_clause,
            final(self).satisfied_clauses == old(self).satisfied_clauses,
            final(self).assigned_lits@ == old(self).assigned_lits@.insert(lit@),
            final(self).decider@.unassigned == old(self).decider@.unassigned.remove(lit@).remove(
                neg(lit@),
            ),
            covering(old(self).decider@, old(self).assigned_lits@) ==> covering(
                final(self).decider@,
                final(self).assigned_lits@,
            ),
    {
        self.decider.assign_lit(lit);
        set_insert(&mut self.assigned_lits, lit.code());
        proof {
            if covering(old(self).decider@, old(self).assigned_lits@) {
                lemma_covering_assign(old(self).decider@, old(self).assigned_lits@, lit@);
            }
            assert forall|k: int| 0 <= k < self.decision_stack@.len() implies frame_added(
                (#[trigger] self.decision_stack@[k])@,
                self.snapshots@[k],
                if k + 1 < self.decision_stack@.len() {
                    self.snapshots@[k + 1]
                } else {
                    self.assigned_lits@
                },
            ) by {
                assert(frame_added(
                    old(self).decision_stack@[k]@,
                    self.snapshots@[k],
                    if k + 1 < self.decision_stack@.len() {
                        self.snapshots@[k + 1]
                    } else {
                        old(self).assigned_lits@
                    },
                ));
            }
        }
    }

    /// Marks every clause that holds a literal as satisfied, and notes in the
    /// top frame those that were not marked before.
    #[verifier::spinoff_prover]
    fn satisfy(&mut self, lit: Literal)
        requires
            old(self).wf(),
        ensures
            final(self).wf(),
            propagated(*old(self), *final(self)),
            final(self).clauses == old(self).clauses,
            final(self).assigned_lits == old(self).assigned_lits,
            final(self).watched_lit_to_clause == old(self).watched_lit_to_clause,
            final(self).decider == old(self).decider,
            final(self).top()@.antecedents == old(self).top()@.antecedents,
            final(self).top()@.conflict == old(self).top()@.conflict,
            final(self).satisfied_clauses@ == old(self).satisfied_clauses@.union(
                listed(old(self).lit_to_clause@, lit@),
            ),
            final(self).top()@.satisfied == old(self).top()@.satisfied.union(
                listed(old(self).lit_to_clause@, lit@).difference(old(self).satisfied_clauses@),
            ),
            final(self).top()@ == (DecisionView {
                satisfied: final(self).top()@.satisfied,
                ..old(self).top()@
            }),
    {
        let top = self.decision_stack.len() - 1;
        proof {
            assert(self.satisfied_clauses@.union(Set::<ClauseId>::empty())
                =~= self.satisfied_clauses@);
            assert(self.top()@.satisfied.union(
                Set::<ClauseId>::empty().difference(self.satisfied_clauses@),
            ) =~= self.top()@.satisfied);
        }
        match map_get(&self.lit_to_clause, lit.code()) {
            Some(clause_ids) => {
                let mut k: usize = 0;
                proof {
                    assert(clause_ids@.take(0).to_set() =~= Set::<ClauseId>::empty());
                }
                while k < clause_ids.len()
                    invariant
                        k <= clause_ids@.len(),
                        self.satisfied_clauses@ == old(self).satisfied_clauses@.union(
                            clause_ids@.take(k as int).to_set(),
                        ),
                        self.decision_stack@[top as int]@.satisfied == old(self).decision_stack@[top as int]@.satisfied.union(
                            clause_ids@.take(k as int).to_set().difference(
                                old(self).satisfied_clauses@,
                            ),
                        ),
                        top == old(self).decision_stack@.len() - 1,
                        self.clauses == old(self).clauses,
                        self.learnt_clauses == old(self).learnt_clauses,
                        self.lit_to_clause == old(self).lit_to_clause,
                        self.watched_lit_to_clause == old(self).watched_lit_to_clause,
                        self.assigned_lits == old(self).assigned_lits,
                        self.decider == old(self).decider,
                        self.snapshots == old(self).snapshots,
                        self.decision_stack@.len() == old(self).decision_stack@.len(),
                        forall|i: int|
                            0 <= i < top ==> self.decision_stack@[i] == old(self).decision_stack@[i],
                        self.decision_stack@[top as int]@ == (DecisionView {
                            satisfied: self.decision_stack@[top as int]@.satisfied,
                            ..old(self).decision_stack@[top as int]@
                        }),
                    decreases clause_ids@.len() - k,
                {
                    let clause_id = clause_ids[k];
                    let ghost marked = self.satisfied_clauses@;
                    let ghost noted = self.decision_stack@[top as int]@.satisfied;
                    if set_insert(&mut self.satisfied_clauses, clause_id) {
                        self.decision_stack[top].add_satisfied_clause(clause_id);
                    }
                    k = k + 1;
                    proof {
                        let earlier = clause_ids@.take(k - 1);
                        let done = clause_ids@.take(k as int);
                        assert(done =~= earlier.push(clause_id));
                        earlier.lemma_push_to_set_commute(clause_id);
                        let before = old(self).satisfied_clauses@;
                        assert(self.satisfied_clauses@ =~= before.union(done.to_set()));
                        assert(self.decision_stack@[top as int]@.satisfied =~= old(self).decision_stack@[top as int]@.satisfied.union(
                            done.to_set().difference(before),
                        ));
                    }
                }
                proof {
                    assert(clause_ids@.take(k as int) =~= clause_ids@);
                }
            },
            None => {},
        }
        proof {
            assert forall|k: int| 0 <= k < self.decision_stack@.len() implies frame_added(
                (#[trigger] self.decision_stack@[k])@,
                self.snapshots@[k],
                if k + 1 < self.decision_stack@.len() {
                    self.snapshots@[k + 1]
                } else {
                    self.assigned_lits@
                },
            ) && frame_ok(self.decision_stack@[k]@, self.clauses@.len()) by {
                assert(frame_added(
                    old(self).decision_stack@[k]@,
                    self.snapshots@[k],
                    if k + 1 < self.decision_stack@.len() {
                        self.snapshots@[k + 1]
                    } else {
                        self.assigned_lits@
                    },
                ));
                assert(frame_ok(old(self).decision_stack@[k]@, self.clauses@.len()));
            }
        }
    }

    /// Handles one unsatisfied clause that is registered under a literal that
    /// has become false. Where the clause watches the literal, the watch
    /// moves to a literal that is not false and the clause is registered
    /// under it; where there is none, the first watch is recorded as
    /// propagated by the clause.
    #[verifier::spinoff_prover]
    fn tighten(&mut self, clause_id: ClauseId, falsified: Literal, pending: &mut Vec<Literal>) -> (outcome:
        Constant)
        requires
            old(self).wf(),
            clause_id < old(self).clauses@.len(),
            waiting(old(pending)@, *old(self)),
        ensures
            final(self).wf(),
            propagated(*old(self), *final(self)),
            final(self).assigned_lits == old(self).assigned_lits,
            final(self).decider == old(self).decider,
            waiting(final(pending)@, *final(self)),
            outcome is Conflict || outcome is NoConflict,
            outcome is Conflict ==> final(self).top()@.conflict is Some,
            rest_same(*old(self), *final(self)),
            final(self).watch_state(final(pending)@, outcome) == tightened_step(
                old(self).watch_state(old(pending)@, Constant::NoConflict),
                old(self).assigned_lits@,
                clause_id,
                falsified@,
            ),
    {
        let ghost start = old(self).watch_state(old(pending)@, Constant::NoConflict);
        let ghost assigned = self.assigned_lits@;
        let ghost clause = start.clauses[clause_id as int];
        let ghost scanned = rescued(clause, falsified@, assigned);
        proof {
            assert(clause == self.clauses@[clause_id as int]@);
        }
        if self.clauses[clause_id].is_unary() {
            if self.clauses[clause_id].first_watched_lit().code() != falsified.code() {
                return Constant::NoConflict;
            }
            match self.clauses[clause_id].un_strengthen(&self.assigned_lits) {
                None => {
                    proof {
                        self.lemma_clause_changed(*old(self), clause_id);
                        assert(self.watch_state(pending@, Constant::NoConflict).clauses
                            =~= start.clauses.update(clause_id as int, scanned));
                    }
                    return self.record(clause_id, pending);
                },
                Some(second) => {
                    add_watched_lit(&mut self.watched_lit_to_clause, clause_id, second);
                },
            }
        }
        proof {
            self.lemma_clause_changed(*old(self), clause_id);
            assert(self.clauses@[clause_id as int]@ == scanned);
            assert(self.watch_state(pending@, Constant::NoConflict).clauses
                =~= start.clauses.update(clause_id as int, scanned));
        }
        let on_first = self.clauses[clause_id].first_watched_lit().code() == falsified.code();
        let on_second = match self.clauses[clause_id].second_watched_lit() {
            Some(second) => second.code() == falsified.code(),
            None => false,
        };
        if !on_first && !on_second {
            return Constant::NoConflict;
        }
        let ghost middle = *self;
        let ghost moved = scanned.strengthened(falsified@, assigned);
        match self.clauses[clause_id].strengthen(falsified, &self.assigned_lits) {
            Some(next) => {
                add_watched_lit(&mut self.watched_lit_to_clause, clause_id, next);
                proof {
                    self.lemma_clause_changed(middle, clause_id);
                    lemma_propagated_twice(*old(self), middle, *self);
                    assert(self.watch_state(pending@, Constant::NoConflict).clauses
                        =~= start.clauses.update(clause_id as int, moved));
                }
                Constant::NoConflict
            },
            None => {
                proof {
                    self.lemma_clause_changed(middle, clause_id);
                    lemma_propagated_twice(*old(self), middle, *self);
                    assert(self.watch_state(pending@, Constant::NoConflict).clauses
                        =~= start.clauses.update(clause_id as int, moved));
                }
                let ghost changed = *self;
                let outcome = self.record(clause_id, pending);
                proof {
                    lemma_propagated_twice(*old(self), changed, *self);
                }
                outcome
            },
        }
    }

    /// A solver in which one clause moved its watches, and clauses were
    /// registered in the watch index, is as well-formed as before.
    #[verifier::spinoff_prover]
    proof fn lemma_clause_changed(&self, before: Solver, clause_id: ClauseId)
        requires
            before.wf(),
            clause_id < before.clauses@.len(),
            self.clauses@.len() == before.clauses@.len(),
            forall|i: int|
                0 <= i < before.clauses@.len() && i != clause_id ==> self.clauses@[i]
                    == before.clauses@[i],
            self.clauses@[clause_id as int]@.wf(),
            self.clauses@[clause_id as int]@.lits == before.clauses@[clause_id as int]@.lits,
            sets_below(self.watched_lit_to_clause@, self.clauses@.len()),
            self.learnt_clauses == before.learnt_clauses,
            self.lit_to_clause == before.lit_to_clause,
            self.satisfied_clauses == before.satisfied_clauses,
            self.assigned_lits == before.assigned_lits,
            self.decision_stack == before.decision_stack,
            self.decider == before.decider,
            self.snapshots == before.snapshots,
        ensures
            self.wf(),
            propagated(before, *self),
            rest_same(before, *self),
    {
        assert forall|k: int| 0 <= k < self.decision_stack@.len() implies frame_ok(
            (#[trigger] self.decision_stack@[k])@,
            self.clauses@.len(),
        ) by {
            assert(frame_ok(before.decision_stack@[k]@, before.clauses@.len()));
        }
        lemma_layered_kept(self.decision_stack@, before.clauses@, self.clauses@);
    }

    /// Visits the clauses registered under the complement of a literal that
    /// has become true, in an order that is not stated, and then empties that
    /// watch set. Each clause that is not marked as satisfied is handled as
    /// `tightened_step` says; the first conflict ends the visit at once.
    #[verifier::spinoff_prover]
    fn visit(&mut self, lit: Literal, pending: &mut Vec<Literal>) -> (outcome: Constant)
        requires
            old(self).wf(),
            waiting(old(pending)@, *old(self)),
        ensures
            final(self).wf(),
            propagated(*old(self), *final(self)),
            final(self).assigned_lits == old(self).assigned_lits,
            final(self).decider == old(self).decider,
            waiting(final(pending)@, *final(self)),
            outcome is Conflict || outcome is NoConflict,
            outcome is Conflict ==> final(self).top()@.conflict is Some,
            rest_same(*old(self), *final(self)),
            exists|order: Seq<ClauseId>|
                #![trigger order.no_duplicates()]
                {
                    &&& order.no_duplicates()
                    &&& order.to_set() == watchers_at(
                        sets_view(old(self).watched_lit_to_clause@),
                        neg(lit@),
                    )
                    &&& final(self).watch_state(final(pending)@, outcome) == cleared(
                        visited(
                            old(self).watch_state(old(pending)@, Constant::NoConflict),
                            order,
                            old(self).satisfied_clauses@,
                            old(self).assigned_lits@,
                            neg(lit@),
                        ),
                        neg(lit@),
                    )
                },
    {
        let complementary = lit.complementary();
        let watching: Vec<ClauseId> = match map_get(
            &self.watched_lit_to_clause,
            complementary.code(),
        ) {
            Some(clause_ids) => set_members(clause_ids),
            None => Vec::new(),
        };
        proof {
            assert forall|k: int| 0 <= k < watching@.len() implies watching@[k]
                < self.clauses@.len() by {
                assert(watching@.to_set().contains(watching@[k]));
            }
            assert(watching@.to_set() =~= watchers_at(
                sets_view(self.watched_lit_to_clause@),
                neg(lit@),
            ));
            assert(watching@.take(0) =~= Seq::<ClauseId>::empty());
        }
        let mut w: usize = 0;
        while w < watching.len()
            invariant
                w <= watching@.len(),
                old(self).wf(),
                self.wf(),
                propagated(*old(self), *self),
                rest_same(*old(self), *self),
                self.assigned_lits == old(self).assigned_lits,
                self.decider == old(self).decider,
                waiting(pending@, *self),
                complementary@ == neg(lit@),
                watching@.no_duplicates(),
                watching@.to_set() == watchers_at(
                    sets_view(old(self).watched_lit_to_clause@),
                    neg(lit@),
                ),
                forall|k: int| 0 <= k < watching@.len() ==> watching@[k] < self.clauses@.len(),
                self.watch_state(pending@, Constant::NoConflict) == visited(
                    old(self).watch_state(old(pending)@, Constant::NoConflict),
                    watching@.take(w as int),
                    old(self).satisfied_clauses@,
                    old(self).assigned_lits@,
                    neg(lit@),
                ),
            decreases watching@.len() - w,
        {
            let clause_id = watching[w];
            w = w + 1;
            proof {
                assert(watching@.take(w as int).drop_last() =~= watching@.take(w - 1));
                assert(watching@.take(w as int).last() == clause_id);
            }
            if !set_contains(&self.satisfied_clauses, clause_id) {
                let ghost middle = *self;
                let outcome = self.tighten(clause_id, complementary, pending);
                proof {
                    lemma_propagated_twice(*old(self), middle, *self);
                }
                if outcome == Constant::Conflict {
                    proof {
                        lemma_visited_stops(
                            old(self).watch_state(old(pending)@, Constant::NoConflict),
                            watching@,
                            w as int,
                            old(self).satisfied_clauses@,
                            old(self).assigned_lits@,
                            neg(lit@),
                        );
                        assert(watching@.no_duplicates());
                    }
                    return Constant::Conflict;
                }
            }
        }
        let ghost middle = *self;
        map_insert(&mut self.watched_lit_to_clause, complementary.code(), FnvHashSet::default());
        proof {
            assert forall|k: int| 0 <= k < self.decision_stack@.len() implies frame_ok(
                (#[trigger] self.decision_stack@[k])@,
                self.clauses@.len(),
            ) by {
                assert(frame_ok(middle.decision_stack@[k]@, middle.clauses@.len()));
            }
            assert(watching@.take(w as int) =~= watching@);
            assert(sets_view(self.watched_lit_to_clause@) =~= sets_view(
                middle.watched_lit_to_clause@,
            ).insert(neg(lit@), Set::empty()));
            assert(watching@.no_duplicates());
        }
        Constant::NoConflict
    }

    /// Boolean constraint propagation from a literal of the top frame: the
    /// literal is made true, the clauses that hold it are marked as
    /// satisfied, and the clauses that watched its complement move their
    /// watch or propagate their last literal, which is then treated in the
    /// same way.
    ///
    /// The propagated literals wait in a vector, each once, and the one that
    /// was propagated last is taken first; a hash set would take them in an
    /// order of its own. What the step does is so a function of the orders in
    /// which the watch sets are walked, one order for each literal made true:
    /// the state afterwards is the one that `round` gives after the rounds
    /// that `ready` runs through.
    ///
    /// A step without conflict keeps the watch invariant where it holds
    /// before: every clause that is not marked as satisfied then still
    /// watches two literals and is registered under both (`tidy`), no
    /// literal that such a clause watches is false, and the assignment holds
    /// no literal together with its complement (`clean`).
    #[verifier::spinoff_prover]
    fn deduce(&mut self, lit: Literal) -> (outcome: Constant)
        requires
            old(self).wf(),
            own(old(self).top()@).contains(lit@),
            !old(self).assigned_lits@.contains(lit@),
        ensures
            final(self).wf(),
            propagated(*old(self), *final(self)),
            final(self).assigned_lits@.contains(lit@),
            !final(self).decider@.unassigned.contains(lit@),
            outcome is Conflict || outcome is NoConflict,
            outcome is Conflict ==> final(self).top()@.conflict is Some,
            covering(old(self).decider@, old(self).assigned_lits@) ==> covering(
                final(self).decider@,
                final(self).assigned_lits@,
            ),
            marks_kept(*old(self), *final(self)),
            exists|rounds: Seq<Seq<ClauseId>>, order: Seq<ClauseId>|
                #![trigger round(ready(old(self).flow(Seq::empty(), lit@, Constant::NoConflict), old(self).lit_to_clause@, rounds), old(self).lit_to_clause@, order)]
                {
                    let end = round(
                        ready(
                            old(self).flow(Seq::empty(), lit@, Constant::NoConflict),
                            old(self).lit_to_clause@,
                            rounds,
                        ),
                        old(self).lit_to_clause@,
                        order,
                    );
                    &&& end.orderly
                    &&& end.watch.outcome == outcome
                    &&& outcome is NoConflict ==> end.watch.pending.len() == 0
                    &&& final(self).flow(Seq::empty(), end.current, outcome) == (Flow {
                        watch: Watch { pending: Seq::empty(), ..end.watch },
                        ..end
                    })
                },
            outcome is NoConflict ==> final(self).top()@.conflict == old(self).top()@.conflict,
            outcome is NoConflict ==> swept(*old(self), *final(self)),
            outcome is NoConflict && old(self).tidy_before(lit@) ==> final(self).tidy()
                && final(self)@.fully_watched(),
            outcome is NoConflict && old(self).clean_before(lit@) ==> final(self).clean()
                && consistent(final(self)@.assigned),
            outcome is Conflict ==> ({
                let top = final(self).top()@;
                let lit = top.conflict->0;
                &&& top.antecedents.contains_key(lit)
                &&& top.antecedents.contains_key(neg(lit))
                &&& forced(
                    final(self).clauses@[top.antecedents[lit] as int]@.lits,
                    lit,
                    final(self).assigned_lits@,
                )
                &&& forced(
                    final(self).clauses@[top.antecedents[neg(lit)] as int]@.lits,
                    neg(lit),
                    final(self).assigned_lits@,
                )
            }),
    {
        let mut current = lit;
        let mut pending: Vec<Literal> = Vec::new();
        let ghost begin = self.flow(Seq::empty(), lit@, Constant::NoConflict);
        let ghost lists = self.lit_to_clause@;
        let ghost mut rounds: Seq<Seq<ClauseId>> = Seq::empty();
        let ghost mut walk: Seq<ClauseId> = Seq::empty();
        proof {
            assert(pending@ =~= Seq::<Literal>::empty());
            assert(crate::clause::codes(pending@) =~= Seq::<i32>::empty());
            let none = self.assigned_lits@.difference(self.assigned_lits@);
            assert(none =~= Set::<i32>::empty());
            assert(marked_by(self.lit_to_clause@, none) =~= Set::<ClauseId>::empty());
            assert(self.satisfied_clauses@.union(Set::<ClauseId>::empty())
                =~= self.satisfied_clauses@);
            assert(self.top()@.satisfied.union(
                self.satisfied_clauses@.difference(self.satisfied_clauses@),
            ) =~= self.top()@.satisfied);
        }
        loop
            invariant_except_break
                own(self.top()@).contains(current@),
                !self.assigned_lits@.contains(current@),
                !crate::clause::codes(pending@).contains(current@),
                self.flow(pending@, current@, Constant::NoConflict) == ready(begin, lists, rounds),
            invariant
                old(self).wf(),
                self.wf(),
                propagated(*old(self), *self),
                waiting(pending@, *self),
                current == lit || (self.assigned_lits@.contains(lit@)
                    && !self.decider@.unassigned.contains(lit@)),
                covering(old(self).decider@, old(self).assigned_lits@) ==> covering(
                    self.decider@,
                    self.assigned_lits@,
                ),
                marks_kept(*old(self), *self),
                self.top()@.conflict == old(self).top()@.conflict,
                swept(*old(self), *self),
                begin == old(self).flow(Seq::empty(), lit@, Constant::NoConflict),
                lists == old(self).lit_to_clause@,
            ensures
                self.assigned_lits@.contains(lit@),
                !self.decider@.unassigned.contains(lit@),
                pending@.len() == 0,
                self.flow(pending@, current@, Constant::NoConflict) == round(
                    ready(begin, lists, rounds),
                    lists,
                    walk,
                ),
                ready(begin, lists, rounds).orderly,
            decreases 0x1_0000_0000 - self.assigned_lits@.len(),
        {
            proof {
                lemma_assigned_bound(self.assigned_lits@);
            }
            let ghost start = *self;
            self.assign(current);
            let ghost assigned = *self;
            self.satisfy(current);
            let ghost marked = *self;
            proof {
                assert forall|i: int| 0 <= i < pending@.len() implies self.top()@.antecedents.contains_key(
                    (#[trigger] pending@[i])@,
                ) && !self.assigned_lits@.contains(pending@[i]@) by {
                    assert(crate::clause::codes(pending@)[i] == pending@[i]@);
                    assert(start.top()@.antecedents.contains_key(pending@[i]@));
                }
            }
            let ghost waited_before = pending@;
            let outcome = self.visit(current, &mut pending);
            proof {
                lemma_propagated_twice(start, assigned, marked);
                lemma_propagated_twice(start, marked, *self);
                lemma_propagated_twice(*old(self), start, *self);
                lemma_assigned_bound(self.assigned_lits@);
                assert(self.assigned_lits@.contains(current@));
                assert(!self.decider@.unassigned.contains(current@));
                assert(self.assigned_lits@.contains(lit@));
                assert(!self.decider@.unassigned.contains(lit@));
                // what the visit left alone
                let first = marked.watch_state(waited_before, Constant::NoConflict);
                let now = self.assigned_lits@;
                let order = choose|order: Seq<ClauseId>|
                    #![trigger order.no_duplicates()]
                    {
                        &&& order.no_duplicates()
                        &&& order.to_set() == watchers_at(
                            sets_view(marked.watched_lit_to_clause@),
                            neg(current@),
                        )
                        &&& self.watch_state(pending@, outcome) == cleared(
                            visited(
                                first,
                                order,
                                marked.satisfied_clauses@,
                                marked.assigned_lits@,
                                neg(current@),
                            ),
                            neg(current@),
                        )
                    };
                let head = ready(begin, lists, rounds);
                let held = made_true(head, lists);
                assert(start.lit_to_clause == old(self).lit_to_clause);
                assert(held.watch.top == first.top);
                assert(held.watch == first);
                assert(self.flow(pending@, current@, outcome) == round(head, lists, order));
                walk = order;
                let walked = visited(first, order, marked.satisfied_clauses@, now, neg(current@));
                lemma_visited_quiet(first, order, marked.satisfied_clauses@, now, neg(current@));
                assert(neg(neg(current@)) == current@);
                // marks
                let given = old(self).assigned_lits@;
                let made_before = start.assigned_lits@.difference(given);
                let made = now.difference(given);
                assert(made =~= made_before.insert(current@));
                assert(marked_by(old(self).lit_to_clause@, made) =~= marked_by(
                    old(self).lit_to_clause@,
                    made_before,
                ).union(listed(old(self).lit_to_clause@, current@))) by {
                    let lists = old(self).lit_to_clause@;
                    assert forall|id: ClauseId|
                        marked_by(lists, made).contains(id) <==> marked_by(lists, made_before).union(
                            listed(lists, current@),
                        ).contains(id) by {
                        if marked_by(lists, made).contains(id) {
                            let code = choose|code: i32|
                                made.contains(code) && #[trigger] listed(lists, code).contains(id);
                            if code != current@ {
                                assert(made_before.contains(code));
                            }
                        }
                        if marked_by(lists, made_before).contains(id) {
                            let code = choose|code: i32|
                                made_before.contains(code) && #[trigger] listed(lists, code).contains(
                                    id,
                                );
                            assert(made.contains(code));
                        }
                        if listed(lists, current@).contains(id) {
                            assert(made.contains(current@));
                        }
                    }
                }
                assert(self.satisfied_clauses@ =~= old(self).satisfied_clauses@.union(
                    marked_by(old(self).lit_to_clause@, made),
                ));
                assert(self.top()@.satisfied =~= old(self).top()@.satisfied.union(
                    self.satisfied_clauses@.difference(old(self).satisfied_clauses@),
                ));
                if outcome is NoConflict {
                    assert forall|code: i32|
                        now.contains(code) && !given.contains(code) implies #[trigger] watchers_at(
                        sets_view(self.watched_lit_to_clause@),
                        neg(code),
                    ) == Set::<ClauseId>::empty() by {
                        if code != current@ {
                            assert(start.assigned_lits@.contains(code));
                            assert(neg(neg(code)) == code);
                            assert(watchers_at(walked.index, neg(code)) == watchers_at(
                                first.index,
                                neg(code),
                            ));
                            assert(neg(code) != neg(current@)) by {
                                assert(neg(neg(current@)) == current@);
                            }
                            assert(watchers_at(
                                sets_view(start.watched_lit_to_clause@),
                                neg(code),
                            ) == Set::<ClauseId>::empty());
                        }
                    }
                }
            }
            if outcome == Constant::Conflict {
                proof {
                    let top = self.top()@;
                    let last = self.decision_stack@.len() - 1;
                    assert(frame_ok(self.decision_stack@[last]@, self.clauses@.len()));
                    assert(top.wf());
                    let end = round(ready(begin, lists, rounds), lists, walk);
                    assert(end == self.flow(pending@, current@, outcome));
                    assert(crate::clause::codes(Seq::<Literal>::empty()) =~= Seq::<i32>::empty());
                    assert(self.flow(Seq::empty(), end.current, outcome) == (Flow {
                        watch: Watch { pending: Seq::empty(), ..end.watch },
                        ..end
                    }));
                }
                return Constant::Conflict;
            }
            let ghost waited = pending@;
            match pending.pop() {
                None => {
                    break ;
                },
                Some(next) => {
                    proof {
                        let all = crate::clause::codes(waited);
                        let rest = crate::clause::codes(pending@);
                        assert(rest =~= all.drop_last());
                        assert(all[all.len() - 1] == next@);
                        assert(waited[waited.len() - 1] == next);
                        if rest.contains(next@) {
                            let i = choose|i: int| 0 <= i < rest.len() && rest[i] == next@;
                            assert(all[i] == all[all.len() - 1]);
                        }
                        assert forall|i: int| 0 <= i < pending@.len() implies self.top()@.antecedents.contains_key(
                            (#[trigger] pending@[i])@,
                        ) && !self.assigned_lits@.contains(pending@[i]@) by {
                            assert(pending@[i] == waited[i]);
                        }
                        let done = round(ready(begin, lists, rounds), lists, walk);
                        assert(done == self.flow(waited, current@, outcome));
                        assert(rounds.push(walk).drop_last() =~= rounds);
                        assert(rounds.push(walk).last() == walk);
                        assert(ready(begin, lists, rounds.push(walk)) == taken(done));
                        assert(taken(done) == self.flow(pending@, next@, Constant::NoConflict));
                        rounds = rounds.push(walk);
                    }
                    current = next;
                },
            }
        }
        proof {
            let end = round(ready(begin, lists, rounds), lists, walk);
            assert(end == self.flow(pending@, current@, Constant::NoConflict));
            assert(pending@ =~= Seq::<Literal>::empty());
            if old(self).tidy_before(lit@) {
                lemma_ready_settled(begin, lists, rounds);
                lemma_round_settled(ready(begin, lists, rounds), lists, walk);
                assert(self.flow(Seq::empty(), 0, Constant::NoConflict).watch == end.watch);
                assert(self.lit_to_clause@ == lists);
                assert(self.clauses@.len() == self.clauses.len());
                assert forall|i: int|
                    0 <= i < self@.clauses.len() && (#[trigger] self@.clauses[i]).lits.len() >= 2
                        && !self@.satisfied.contains(i as usize) implies self@.clauses[i].second is Some
                    && self@.watching(self@.clauses[i].first).contains(i as usize)
                    && self@.watching(self@.clauses[i].second->0).contains(i as usize) by {
                    let id = i as usize;
                    assert(end.watch.clauses[id as int] == self@.clauses[i]);
                    assert(two_watched(end.watch, id));
                }
            }
            if old(self).clean_before(lit@) {
                lemma_ready_sound(begin, lists, rounds);
                lemma_round_sound(ready(begin, lists, rounds), lists, walk);
            }
        }
        Constant::NoConflict
    }

    /// Records a literal that is not true yet as propagated by a clause in
    /// the top frame.
    #[verifier::spinoff_prover]
    fn imply(&mut self, lit: Literal, clause_id: ClauseId) -> (outcome: Constant)
        requires
            old(self).wf(),
            clause_id < old(self).clauses@.len(),
            !old(self).assigned_lits@.contains(lit@),
            old(self).decider@.scores.contains_key(lit@),
            forced(old(self).clauses@[clause_id as int]@.lits, lit@, old(self).assigned_lits@),
        ensures
            final(self).wf(),
            own(final(self).top()@).contains(lit@),
            final(self).clauses == old(self).clauses,
            final(self).learnt_clauses == old(self).learnt_clauses,
            final(self).assigned_lits == old(self).assigned_lits,
            final(self).decider == old(self).decider,
            final(self).snapshots == old(self).snapshots,
            final(self).decision_stack@.len() == old(self).decision_stack@.len(),
            final(self).satisfied_clauses == old(self).satisfied_clauses,
            final(self).watched_lit_to_clause == old(self).watched_lit_to_clause,
            propagated(*old(self), *final(self)),
            outcome is Conflict ==> final(self).top()@.conflict is Some,
            final(self).top()@ == old(self).top()@.recorded(lit@, clause_id),
            outcome == (if final(self).top()@.antecedents.contains_key(neg(lit@)) {
                Constant::Conflict
            } else {
                Constant::NoConflict
            }),
    {
        let top = self.decision_stack.len() - 1;
        let ghost before = self.decision_stack@[top as int]@;
        let outcome = self.decision_stack[top].add_propagated_lit(lit, clause_id);
        proof {
            let after = self.decision_stack@[top as int]@;
            assert(after == before.recorded(lit@, clause_id));
            assert(own(after) =~= own(before).insert(lit@));
            assert(frame_ok(after, self.clauses@.len()));
            assert forall|k: int| 0 <= k < self.decision_stack@.len() implies frame_added(
                (#[trigger] self.decision_stack@[k])@,
                self.snapshots@[k],
                if k + 1 < self.decision_stack@.len() {
                    self.snapshots@[k + 1]
                } else {
                    self.assigned_lits@
                },
            ) && frame_ok(self.decision_stack@[k]@, self.clauses@.len()) by {
                assert(frame_added(
                    old(self).decision_stack@[k]@,
                    self.snapshots@[k],
                    if k + 1 < self.decision_stack@.len() {
                        self.snapshots@[k + 1]
                    } else {
                        self.assigned_lits@
                    },
                ));
                assert(frame_ok(old(self).decision_stack@[k]@, self.clauses@.len()));
            }
        }
        outcome
    }

    /// Asks the decider for the next decision literal and pushes a frame for
    /// it, one level above the top frame. A literal that the decider offers
    /// although its variable is assigned is reported to it as assigned, and
    /// the decider is asked again: the literal that is taken is the best
    /// that the decider held at the last request.
    #[verifier::spinoff_prover]
    fn decide_next_literal(&mut self) -> (next: Option<Literal>)
        requires
            old(self).wf(),
        ensures
            final(self).wf(),
            final(self).clauses == old(self).clauses,
            final(self).assigned_lits == old(self).assigned_lits,
            final(self).decider@.scores == old(self).decider@.scores,
            final(self).decider@.age != 0,
            old(self).decider@.scores.dom().is_empty() ==> next is None,
            covering(old(self).decider@, old(self).assigned_lits@) ==> covering(
                final(self).decider@,
                final(self).assigned_lits@,
            ),
            match next {
                Some(lit) => {
                    &&& final(self).decision_stack@.len() == old(self).decision_stack@.len() + 1
                    &&& forall|i: int|
                        0 <= i < old(self).decision_stack@.len() ==> final(self).decision_stack@[i]
                            == old(self).decision_stack@[i]
                    &&& final(self).snapshots@ == old(self).snapshots@.push(
                        old(self).assigned_lits@,
                    )
                    &&& final(self).top()@ == (DecisionView {
                        lit: lit@,
                        level: if old(self).top()@.level < 0xffff_ffff {
                            (old(self).top()@.level + 1) as u32
                        } else {
                            old(self).top()@.level
                        },
                        satisfied: Set::empty(),
                        antecedents: Map::empty(),
                        order: Map::empty(),
                        conflict: None,
                    })
                    &&& exists|asked: DeciderView|
                        #![trigger asked.is_best(lit@)]
                        {
                            &&& asked.is_best(lit@)
                            &&& asked.scores == old(self).decider@.scores
                            &&& final(self).decider@ == (DeciderView {
                                unassigned: asked.pool(),
                                age: crate::decider::aged(asked.age),
                                ..asked
                            })
                        }
                    &&& final(self).top()@.lit == lit@
                    &&& final(self).top()@.antecedents == Map::<i32, ClauseId>::empty()
                    &&& !final(self).assigned_lits@.contains(lit@)
                    &&& !final(self).assigned_lits@.contains(neg(lit@))
                    &&& final(self).decider@.unassigned.contains(lit@)
                    &&& final(self).decider@.age != 0
                    &&& no_further(
                        final(self).decider@,
                        unseeded(old(self).decider@),
                        old(self).decider@.unassigned.len(),
                    )
                },
                None => {
                    &&& final(self).decision_stack == old(self).decision_stack
                    &&& final(self).snapshots == old(self).snapshots
                    &&& final(self).decider@.unassigned.disjoint(final(self).decider@.scores.dom())
                },
            },
    {
        loop
            invariant
                self.wf(),
                self.clauses == old(self).clauses,
                self.learnt_clauses == old(self).learnt_clauses,
                self.lit_to_clause == old(self).lit_to_clause,
                self.watched_lit_to_clause == old(self).watched_lit_to_clause,
                self.satisfied_clauses == old(self).satisfied_clauses,
                self.assigned_lits == old(self).assigned_lits,
                self.decision_stack == old(self).decision_stack,
                self.snapshots == old(self).snapshots,
                self.decider@.scores == old(self).decider@.scores,
                no_further(
                    self.decider@,
                    unseeded(old(self).decider@),
                    old(self).decider@.unassigned.len(),
                ),
                covering(old(self).decider@, old(self).assigned_lits@) ==> covering(
                    self.decider@,
                    self.assigned_lits@,
                ),
            decreases unseeded(self.decider@), self.decider@.unassigned.len(),
        {
            let ghost before = self.decider@;
            proof {
                self.decider.lemma_unassigned_finite();
            }
            match self.decider.next_literal() {
                None => {
                    proof {
                        if before.exhausted() {
                            assert(self.decider@.unassigned =~= Set::empty());
                        } else {
                            assert(self.decider@.pool() == before.pool());
                        }
                    }
                    return None;
                },
                Some(lit) => {
                    proof {
                        assert(self.decider@.pool() == before.pool());
                        self.decider.lemma_unassigned_finite();
                        assert(self.decider@.unassigned.contains(lit@));
                        assert(self.decider@.age != 0);
                        if unseeded(before) == 0 {
                            assert(self.decider@.unassigned == before.unassigned);
                        }
                    }
                    if set_contains(&self.assigned_lits, lit.code()) || set_contains(
                        &self.assigned_lits,
                        lit.complementary().code(),
                    ) {
                        let ghost offered = self.decider@.unassigned;
                        let ghost asked = self.decider@;
                        self.decider.assign_lit(lit);
                        proof {
                            if covering(asked, self.assigned_lits@) {
                                lemma_covering_assign(asked, self.assigned_lits@, lit@);
                                assert(neg(neg(lit@)) == lit@);
                                assert(self.assigned_lits@.insert(lit@).insert(neg(lit@)).contains(lit@));
                                assert forall|c: i32| #[trigger] self.decider@.scores.contains_key(
                                    c,
                                ) implies self.decider@.pool().contains(c) || self.assigned_lits@.contains(
                                    c,
                                ) || self.assigned_lits@.contains(neg(c)) by {
                                    assert(asked.scores.contains_key(c));
                                    if c == lit@ || c == neg(lit@) {
                                    } else if asked.pool().contains(c) {
                                        assert(self.decider@.unassigned.contains(c));
                                    }
                                }
                            }
                            let rest = self.decider@.unassigned;
                            assert(rest.subset_of(offered.remove(lit@)));
                            vstd::set_lib::lemma_len_subset(rest, offered.remove(lit@));
                        }
                    } else {
                        let level = self.current_decision_level();
                        proof {
                            assert(!before.exhausted());
                            assert(before.is_best(lit@));
                        }
                        let next_level = if level < 0xffff_ffff {
                            level + 1
                        } else {
                            level
                        };
                        self.decision_stack.push(Decision::from(lit, next_level));
                        let ghost pushed = self.snapshots@.push(self.assigned_lits@);
                        self.snapshots = Ghost(pushed);
                        proof {
                            let frames = self.decision_stack@;
                            let before_frames = old(self).decision_stack@;
                            assert(own(frames[frames.len() - 1]@) =~= set![lit@]);
                            assert forall|k: int| 0 <= k < frames.len() implies frame_added(
                                (#[trigger] frames[k])@,
                                self.snapshots@[k],
                                if k + 1 < frames.len() {
                                    self.snapshots@[k + 1]
                                } else {
                                    self.assigned_lits@
                                },
                            ) && frame_ok(frames[k]@, self.clauses@.len()) by {
                                if k < before_frames.len() {
                                    assert(frames[k] == before_frames[k]);
                                    assert(frame_added(
                                        before_frames[k]@,
                                        old(self).snapshots@[k],
                                        if k + 1 < before_frames.len() {
                                            old(self).snapshots@[k + 1]
                                        } else {
                                            self.assigned_lits@
                                        },
                                    ));
                                    assert(frame_ok(before_frames[k]@, self.clauses@.len()));
                                }
                            }
                        }
                        return Some(lit);
                    }
                },
            }
        }
    }

    /// Learns a clause from the conflict of the top frame, inserts it as any
    /// clause is inserted, and notes it as learnt. Every literal of the clause
    /// but the asserting one is false.
    #[verifier::spinoff_prover]
    fn analyze_conflict(&mut self) -> (clause_id: ClauseId)
        requires
            old(self).wf(),
            old(self).top()@.conflict is Some,
        ensures
            final(self).wf(),
            clause_id == old(self).clauses@.len(),
            final(self).clauses@.len() == old(self).clauses@.len() + 1,
            forall|i: int|
                0 <= i < old(self).clauses@.len() ==> final(self).clauses@[i] == old(self).clauses@[i],
            final(self).clauses@[clause_id as int]@ == learnt_clause(
                old(self).top()@,
                db_lits(old(self).clauses@),
            ),
            final(self).assigned_lits == old(self).assigned_lits,
            final(self).decision_stack == old(self).decision_stack,
            final(self).snapshots == old(self).snapshots,
            final(self).decider@.unassigned == old(self).decider@.unassigned,
            final(self).decider@.age == old(self).decider@.age,
            final(self).decider@.scores.dom() == old(self).decider@.scores.dom(),
            final(self).clauses@[clause_id as int]@.first == final(self).clauses@[clause_id as int]@.lits[0],
            tail_false(final(self).clauses@[clause_id as int]@, final(self).assigned_lits@),
            tail_false(
                final(self).clauses@[clause_id as int]@,
                final(self).snapshots@[final(self).decision_stack@.len() - 1],
            ),
            crate::conflict_analyzer::antecedents_force(
                old(self).top()@,
                db_lits(old(self).clauses@),
                old(self).assigned_lits@,
            ),
            final(self)@ == (SolverView {
                learnt: old(self)@.learnt.insert(clause_id),
                ..old(self)@.with_clause(
                    learnt_clause(old(self).top()@, db_lits(old(self).clauses@)),
                )
            }),
    {
        let top = self.decision_stack.len() - 1;
        proof {
            let frame = self.decision_stack@[top as int]@;
            let db = db_lits(self.clauses@);
            assert(frame_ok(frame, self.clauses@.len()));
            assert(crate::conflict_analyzer::antecedents_force(frame, db, self.assigned_lits@)) by {
                assert forall|code: i32| #[trigger]
                    frame.antecedents.contains_key(code) implies frame.antecedents[code] < db.len()
                    && forced(db[frame.antecedents[code] as int], code, self.assigned_lits@) by {
                    assert(self.decision_stack@[top as int]@.antecedents.contains_key(code));
                }
            }
            crate::conflict_analyzer::law_learnt_tail_is_false(frame, db, self.assigned_lits@);
            assert(frame_added(frame, self.snapshots@[top as int], self.assigned_lits@));
            assert(layered(frame, db));
            crate::conflict_analyzer::law_learnt_tail_precedes_the_frame(
                frame,
                db,
                self.snapshots@[top as int],
                self.assigned_lits@,
            );
            crate::conflict_analyzer::law_learnt_literals_are_known(frame, db);
            let lits = learnt_clause(frame, db).lits;
            assert forall|j: int| 0 <= j < lits.len() implies self.decider@.scores.contains_key(
                #[trigger] lits[j],
            ) by {
                assert(crate::conflict_analyzer::known(frame, db, lits[j]));
                if !frame.antecedents.contains_key(lits[j]) {
                    let (a, b) = choose|a: int, b: int|
                        0 <= a < db.len() && 0 <= b < db[a].len() && #[trigger] db[a][b] == lits[j];
                    assert(self.clauses@[a]@.lits[b] == lits[j]);
                }
            }
        }
        let asserting_clause = learn_from_conflict(&self.decision_stack[top], &self.clauses);
        let clause_id = self.insert(asserting_clause);
        set_insert(&mut self.learnt_clauses, clause_id);
        clause_id
    }

    /// Undoes the assignments of a frame that has left the trail: of the
    /// literals propagated under it, and of its decision literal.
    #[verifier::spinoff_prover]
    fn unassign(&mut self, frame: &Decision)
        requires
            old(self).decider.wf(),
            old(self).assigned_lits@.finite(),
            frame@.wf(),
        ensures
            old(self).decider@.unassigned.subset_of(final(self).decider@.unassigned),
            forall|c: i32|
                own(frame@).contains(c) ==> final(self).decider@.unassigned.contains(c) && final(self).decider@.unassigned.contains(neg(c)),
            final(self).decider@.unassigned == old(self).decider@.unassigned.union(
                freed(own(frame@)),
            ),
            final(self).assigned_lits@ == old(self).assigned_lits@.difference(own(frame@)),
            final(self).assigned_lits@.finite(),
            final(self).decider.wf(),
            final(self).decider@.scores == old(self).decider@.scores,
            final(self).decider@.age == old(self).decider@.age,
            final(self).clauses == old(self).clauses,
            final(self).learnt_clauses == old(self).learnt_clauses,
            final(self).lit_to_clause == old(self).lit_to_clause,
            final(self).watched_lit_to_clause == old(self).watched_lit_to_clause,
            final(self).satisfied_clauses == old(self).satisfied_clauses,
            final(self).decision_stack == old(self).decision_stack,
            final(self).snapshots == old(self).snapshots,
    {
        let lits = frame.propagated_lits_iter();
        let ghost all = crate::clause::codes(lits@);
        let mut i: usize = 0;
        proof {
            assert(all.take(0).to_set() =~= Set::<i32>::empty());
            assert(freed(Set::<i32>::empty()) =~= Set::<i32>::empty());
            assert(self.decider@.unassigned.union(Set::<i32>::empty()) =~= self.decider@.unassigned);
        }
        while i < lits.len()
            invariant
                i <= lits@.len(),
                all == crate::clause::codes(lits@),
                old(self).decider@.unassigned.subset_of(self.decider@.unassigned),
                forall|c: i32|
                    all.take(i as int).to_set().contains(c) ==> self.decider@.unassigned.contains(c)
                        && self.decider@.unassigned.contains(neg(c)),
                self.decider@.unassigned == old(self).decider@.unassigned.union(
                    freed(all.take(i as int).to_set()),
                ),
                self.assigned_lits@ == old(self).assigned_lits@.difference(
                    all.take(i as int).to_set(),
                ),
                self.assigned_lits@.finite(),
                self.decider.wf(),
                self.decider@.scores == old(self).decider@.scores,
                self.decider@.age == old(self).decider@.age,
                self.clauses == old(self).clauses,
                self.learnt_clauses == old(self).learnt_clauses,
                self.lit_to_clause == old(self).lit_to_clause,
                self.watched_lit_to_clause == old(self).watched_lit_to_clause,
                self.satisfied_clauses == old(self).satisfied_clauses,
                self.decision_stack == old(self).decision_stack,
                self.snapshots == old(self).snapshots,
            decreases lits@.len() - i,
        {
            let lit = lits[i];
            set_remove(&mut self.assigned_lits, lit.code());
            self.decider.un_assign_lit(lit);
            i = i + 1;
            proof {
                let done = all.take(i as int);
                let earlier = all.take(i - 1);
                assert(done =~= earlier.push(lit@));
                earlier.lemma_push_to_set_commute(lit@);
                assert(self.assigned_lits@ =~= old(self).assigned_lits@.difference(done.to_set()));
                assert(neg(neg(lit@)) == lit@);
                assert(freed(done.to_set()) =~= freed(earlier.to_set()).insert(lit@).insert(
                    neg(lit@),
                )) by {
                    assert forall|c: i32|
                        freed(done.to_set()).contains(c) <==> freed(earlier.to_set()).insert(
                            lit@,
                        ).insert(neg(lit@)).contains(c) by {
                        assert(neg(neg(c)) == c);
                    }
                }
                assert(self.decider@.unassigned =~= old(self).decider@.unassigned.union(
                    freed(done.to_set()),
                ));
            }
        }
        let decision_lit = frame.lit();
        let ghost before_last = self.decider@.unassigned;
        set_remove(&mut self.assigned_lits, decision_lit.code());
        self.decider.un_assign_lit(decision_lit);
        proof {
            assert(all.take(i as int) =~= all);
            assert(self.assigned_lits@ =~= old(self).assigned_lits@.difference(own(frame@)));
            assert(neg(neg(decision_lit@)) == decision_lit@);
            assert(freed(own(frame@)) =~= freed(all.to_set()).insert(decision_lit@).insert(
                neg(decision_lit@),
            )) by {
                assert forall|c: i32|
                    freed(own(frame@)).contains(c) <==> freed(all.to_set()).insert(
                        decision_lit@,
                    ).insert(neg(decision_lit@)).contains(c) by {
                    assert(neg(neg(c)) == c);
                }
            }
            assert(self.decider@.unassigned =~= old(self).decider@.unassigned.union(
                freed(own(frame@)),
            ));
        }
    }

    /// Takes the marks of the clauses that a frame satisfied off again.
    #[verifier::spinoff_prover]
    fn unmark(&mut self, frame: &Decision)
        ensures
            final(self).clauses == old(self).clauses,
            final(self).learnt_clauses == old(self).learnt_clauses,
            final(self).lit_to_clause == old(self).lit_to_clause,
            final(self).watched_lit_to_clause == old(self).watched_lit_to_clause,
            final(self).assigned_lits == old(self).assigned_lits,
            final(self).decision_stack == old(self).decision_stack,
            final(self).snapshots == old(self).snapshots,
            final(self).decider == old(self).decider,
            final(self).satisfied_clauses@ == old(self).satisfied_clauses@.difference(
                frame@.satisfied,
            ),
    {
        let clause_ids = set_members(frame.satisfied_clauses());
        let mut i: usize = 0;
        while i < clause_ids.len()
            invariant
                i <= clause_ids@.len(),
                self.clauses == old(self).clauses,
                self.learnt_clauses == old(self).learnt_clauses,
                self.lit_to_clause == old(self).lit_to_clause,
                self.watched_lit_to_clause == old(self).watched_lit_to_clause,
                self.assigned_lits == old(self).assigned_lits,
                self.decision_stack == old(self).decision_stack,
                self.snapshots == old(self).snapshots,
                self.decider == old(self).decider,
                self.satisfied_clauses@ == old(self).satisfied_clauses@.difference(
                    clause_ids@.take(i as int).to_set(),
                ),
            decreases clause_ids@.len() - i,
        {
            let clause_id = clause_ids[i];
            set_remove(&mut self.satisfied_clauses, clause_id);
            i = i + 1;
            proof {
                let done = clause_ids@.take(i as int);
                let earlier = clause_ids@.take(i - 1);
                assert(done =~= earlier.push(clause_id));
                earlier.lemma_push_to_set_commute(clause_id);
                assert(self.satisfied_clauses@ =~= old(self).satisfied_clauses@.difference(
                    done.to_set(),
                ));
            }
        }
        proof {
            assert(clause_ids@.take(i as int) =~= clause_ids@);
        }
    }

    /// Gives each clause that propagated under a frame that has left the
    /// trail a second watch again, under the assignment as it is now, and
    /// registers the clause under it. No other clause changes, and nothing
    /// else is registered.
    #[verifier::spinoff_prover]
    fn resync(&mut self, frame: &Decision)
        requires
            clauses_ok(old(self).clauses@),
            sets_below(old(self).watched_lit_to_clause@, old(self).clauses@.len()),
            frame_ok(frame@, old(self).clauses@.len()),
        ensures
            clauses_ok(final(self).clauses@),
            same_lits(old(self).clauses@, final(self).clauses@),
            forall|k: int|
                0 <= k < old(self).clauses@.len() ==> (#[trigger] final(self).clauses@[k])@.first
                    == old(self).clauses@[k]@.first,
            sets_below(final(self).watched_lit_to_clause@, final(self).clauses@.len()),
            final(self).learnt_clauses == old(self).learnt_clauses,
            final(self).lit_to_clause == old(self).lit_to_clause,
            final(self).satisfied_clauses == old(self).satisfied_clauses,
            final(self).assigned_lits == old(self).assigned_lits,
            final(self).decision_stack == old(self).decision_stack,
            final(self).snapshots == old(self).snapshots,
            final(self).decider == old(self).decider,
            clause_views(final(self).clauses@) == resynced(
                clause_views(old(self).clauses@),
                frame@.antecedents.values(),
                old(self).assigned_lits@,
            ),
            forall|code: i32|
                #[trigger] watchers_at(sets_view(final(self).watched_lit_to_clause@), code)
                    == watchers_at(sets_view(old(self).watched_lit_to_clause@), code).union(
                    resuming(
                        clause_views(old(self).clauses@),
                        frame@.antecedents.values(),
                        old(self).assigned_lits@,
                        code,
                    ),
                ),
    {
        let clause_ids = frame.implying_clauses_iter();
        let ghost start = clause_views(self.clauses@);
        let ghost assigned = self.assigned_lits@;
        proof {
            assert forall|k: int| 0 <= k < clause_ids@.len() implies clause_ids@[k]
                < self.clauses@.len() by {
                assert(clause_ids@.contains(clause_ids@[k]));
                assert(frame@.antecedents.values().contains(clause_ids@[k]));
            }
            let none = clause_ids@.take(0).to_set();
            assert(none =~= Set::<ClauseId>::empty());
            assert(clause_views(self.clauses@) =~= resynced(start, none, assigned));
            assert forall|code: i32|
                #[trigger] watchers_at(sets_view(self.watched_lit_to_clause@), code)
                    == watchers_at(sets_view(self.watched_lit_to_clause@), code).union(
                    resuming(start, none, assigned, code),
                ) by {
                assert(resuming(start, none, assigned, code) =~= Set::<ClauseId>::empty());
                assert(watchers_at(sets_view(self.watched_lit_to_clause@), code).union(
                    Set::<ClauseId>::empty(),
                ) =~= watchers_at(sets_view(self.watched_lit_to_clause@), code));
            }
        }
        let mut i: usize = 0;
        while i < clause_ids.len()
            invariant
                i <= clause_ids@.len(),
                forall|k: int| 0 <= k < clause_ids@.len() ==> clause_ids@[k] < self.clauses@.len(),
                clauses_ok(self.clauses@),
                same_lits(old(self).clauses@, self.clauses@),
                forall|k: int|
                    0 <= k < old(self).clauses@.len() ==> (#[trigger] self.clauses@[k])@.first
                        == old(self).clauses@[k]@.first,
                sets_below(self.watched_lit_to_clause@, self.clauses@.len()),
                self.learnt_clauses == old(self).learnt_clauses,
                self.lit_to_clause == old(self).lit_to_clause,
                self.satisfied_clauses == old(self).satisfied_clauses,
                self.assigned_lits == old(self).assigned_lits,
                self.decision_stack == old(self).decision_stack,
                self.snapshots == old(self).snapshots,
                self.decider == old(self).decider,
                start == clause_views(old(self).clauses@),
                assigned == old(self).assigned_lits@,
                clause_views(self.clauses@) == resynced(
                    start,
                    clause_ids@.take(i as int).to_set(),
                    assigned,
                ),
                forall|code: i32|
                    #[trigger] watchers_at(sets_view(self.watched_lit_to_clause@), code)
                        == watchers_at(sets_view(old(self).watched_lit_to_clause@), code).union(
                        resuming(start, clause_ids@.take(i as int).to_set(), assigned, code),
                    ),
            decreases clause_ids@.len() - i,
        {
            let clause_id = clause_ids[i];
            let ghost before = self.clauses@;
            let ghost index = sets_view(self.watched_lit_to_clause@);
            let ghost done = clause_ids@.take(i as int).to_set();
            let ghost more = clause_ids@.take(i + 1).to_set();
            let second = self.clauses[clause_id].un_strengthen(&self.assigned_lits);
            match second {
                Some(watch) => {
                    add_watched_lit(&mut self.watched_lit_to_clause, clause_id, watch);
                },
                None => {},
            }
            proof {
                assert forall|k: int| 0 <= k < self.clauses@.len() implies (#[trigger] self.clauses@[k])@.wf()
                    && self.clauses@[k]@.lits == before[k]@.lits && self.clauses@[k]@.first
                    == before[k]@.first by {
                    if k != clause_id {
                        assert(self.clauses@[k] == before[k]);
                    }
                }
                assert(clause_ids@.take(i + 1) =~= clause_ids@.take(i as int).push(clause_id));
                clause_ids@.take(i as int).lemma_push_to_set_commute(clause_id);
                assert(more == done.insert(clause_id));
                let restored = start[clause_id as int].restored(assigned);
                assert(clause_views(before)[clause_id as int] == before[clause_id as int]@);
                assert(before[clause_id as int]@.restored(assigned) == restored);
                assert(self.clauses@[clause_id as int]@ == restored);
                assert(self.clauses@.len() == self.clauses.len());
                assert(start.len() == self.clauses@.len());
                assert forall|k: int| 0 <= k < self.clauses@.len() implies clause_views(
                    self.clauses@,
                )[k] == resynced(start, more, assigned)[k] by {
                    assert(clause_views(self.clauses@)[k] == self.clauses@[k]@);
                    if k != clause_id {
                        assert(self.clauses@[k] == before[k]);
                        assert(clause_views(before)[k] == before[k]@);
                        assert(clause_views(before)[k] == resynced(start, done, assigned)[k]);
                        assert(k as usize != clause_id);
                        assert(more.contains(k as usize) == done.contains(k as usize));
                    } else {
                        assert(more.contains(k as usize));
                    }
                }
                assert(clause_views(self.clauses@) =~= resynced(start, more, assigned));
                assert forall|code: i32|
                    #[trigger] watchers_at(sets_view(self.watched_lit_to_clause@), code)
                        == watchers_at(sets_view(old(self).watched_lit_to_clause@), code).union(
                        resuming(start, more, assigned, code),
                    ) by {
                    let base = watchers_at(sets_view(old(self).watched_lit_to_clause@), code);
                    assert(watchers_at(index, code) == base.union(
                        resuming(start, done, assigned, code),
                    ));
                    if restored.second == Some(code) {
                        assert(resuming(start, more, assigned, code) =~= resuming(
                            start,
                            done,
                            assigned,
                            code,
                        ).insert(clause_id));
                        assert(watchers_at(sets_view(self.watched_lit_to_clause@), code)
                            =~= watchers_at(index, code).insert(clause_id));
                    } else {
                        assert(resuming(start, more, assigned, code) =~= resuming(
                            start,
                            done,
                            assigned,
                            code,
                        ));
                        assert(watchers_at(sets_view(self.watched_lit_to_clause@), code)
                            =~= watchers_at(index, code));
                    }
                    assert(watchers_at(sets_view(self.watched_lit_to_clause@), code) =~= base.union(
                        resuming(start, more, assigned, code),
                    ));
                }
            }
            i = i + 1;
        }
        proof {
            assert(clause_ids@.take(i as int) =~= clause_ids@);
            assert(clause_ids@.to_set() =~= frame@.antecedents.values());
        }
    }

    /// Whether a clause holds a literal, other than its first watch, that the
    /// top frame makes false.
    #[verifier::spinoff_prover]
    fn reaches_top(&self, clause_id: ClauseId) -> (found: bool)
        requires
            clause_id < self.clauses@.len(),
            self.decision_stack@.len() >= 1,
        ensures
            found == reaches(self.clauses@[clause_id as int]@, self.top()@),
    {
        let top = self.decision_stack.len() - 1;
        let frame = &self.decision_stack[top];
        let clause = &self.clauses[clause_id];
        let first = clause.first_watched_lit();
        let lits = clause.lits();
        let mut i: usize = 0;
        while i < lits.len()
            invariant
                i <= lits@.len(),
                crate::clause::codes(lits@) == clause@.lits,
                first@ == clause@.first,
                clause_id < self.clauses@.len(),
                self.decision_stack@.len() >= 1,
                *clause == self.clauses@[clause_id as int],
                *frame == self.top(),
                forall|k: int|
                    0 <= k < i ==> !(#[trigger] clause@.lits[k] != clause@.first && own(
                        frame@,
                    ).contains(neg(clause@.lits[k]))),
            decreases lits@.len() - i,
        {
            let lit = lits[i];
            proof {
                assert(crate::clause::codes(lits@)[i as int] == lit@);
            }
            if lit.code() != first.code() {
                let other = lit.complementary();
                if other.code() == frame.lit().code() || frame.implying_clause_of(other).is_some() {
                    proof {
                        let k = i as int;
                        assert(clause@.lits[k] != clause@.first && own(frame@).contains(
                            neg(clause@.lits[k]),
                        ));
                    }
                    return true;
                }
            }
            i = i + 1;
        }
        false
    }

    /// Pops frames off the trail and undoes what each one did, until the
    /// frame on top is the root frame or one that makes a literal of the
    /// learnt clause false. The result is `false` where the root frame itself
    /// was on top, which is then popped. Otherwise the assignment is again
    /// what it was when the lowest of the popped frames was pushed: nothing
    /// that the frame of the conflict made true is true any more, so that the
    /// complement of the asserting literal is unassigned where that frame
    /// made it true. The clauses that propagated under the popped frames
    /// were scanned for a second watch again, the topmost frame first, and
    /// are registered under it.
    #[verifier::spinoff_prover]
    fn backtrack(&mut self, conflict_clause_id: ClauseId) -> (more: bool)
        requires
            old(self).wf(),
            conflict_clause_id < old(self).clauses@.len(),
            old(self).clauses@[conflict_clause_id as int]@.first == old(self).clauses@[conflict_clause_id as int]@.lits[0],
            tail_false(
                old(self).clauses@[conflict_clause_id as int]@,
                old(self).snapshots@[old(self).decision_stack@.len() - 1],
            ),
        ensures
            same_lits(old(self).clauses@, final(self).clauses@),
            final(self).learnt_clauses == old(self).learnt_clauses,
            final(self).lit_to_clause == old(self).lit_to_clause,
            final(self).decider@.scores == old(self).decider@.scores,
            final(self).decider@.age == old(self).decider@.age,
            more ==> forall|j: int|
                final(self).decision_stack@.len() <= j < old(self).decision_stack@.len() - 1
                    ==> !reaches(
                    old(self).clauses@[conflict_clause_id as int]@,
                    (#[trigger] old(self).decision_stack@[j])@,
                ),
            more ==> forced(
                final(self).clauses@[conflict_clause_id as int]@.lits,
                final(self).clauses@[conflict_clause_id as int]@.first,
                final(self).assigned_lits@,
            ),
            more && covering(old(self).decider@, old(self).assigned_lits@) ==> covering(
                final(self).decider@,
                final(self).assigned_lits@,
            ),
            more ==> {
                &&& final(self).wf()
                &&& final(self).decision_stack@.len() < old(self).decision_stack@.len()
                &&& forall|i: int|
                    0 <= i < final(self).decision_stack@.len() ==> final(self).decision_stack@[i]
                        == old(self).decision_stack@[i]
                &&& final(self).snapshots@ == old(self).snapshots@.take(
                    final(self).decision_stack@.len() as int,
                )
                &&& final(self).assigned_lits@ == old(self).snapshots@[final(self).decision_stack@.len() as int]
                &&& final(self).assigned_lits@.subset_of(old(self).assigned_lits@)
                &&& final(self).assigned_lits@.disjoint(own(old(self).top()@))
                &&& final(self).satisfied_clauses@ == old(self).satisfied_clauses@.difference(
                    noted_from(old(self).decision_stack@, final(self).decision_stack@.len() as int),
                )
                &&& final(self).decider@.unassigned == old(self).decider@.unassigned.union(
                    freed(
                        made_from(
                            old(self).decision_stack@,
                            final(self).decision_stack@.len() as int,
                        ),
                    ),
                )
                &&& (final(self).decision_stack@.len() == 1 || reaches(
                    final(self).clauses@[conflict_clause_id as int]@,
                    final(self).top()@,
                ))
                &&& clause_views(final(self).clauses@) == unwound(
                    clause_views(old(self).clauses@),
                    old(self).decision_stack@,
                    old(self).snapshots@,
                    final(self).decision_stack@.len() as int,
                )
                &&& forall|code: i32|
                    #[trigger] watchers_at(sets_view(final(self).watched_lit_to_clause@), code)
                        == watchers_at(sets_view(old(self).watched_lit_to_clause@), code).union(
                        resumed(
                            clause_views(old(self).clauses@),
                            old(self).decision_stack@,
                            old(self).snapshots@,
                            final(self).decision_stack@.len() as int,
                            code,
                        ),
                    )
            },
            !more ==> old(self).decision_stack@.len() == 1 && final(self).decision_stack@.len()
                == 0,
            !more ==> final(self).clauses == old(self).clauses && final(self).assigned_lits
                == old(self).assigned_lits && final(self).satisfied_clauses
                == old(self).satisfied_clauses && final(self).watched_lit_to_clause
                == old(self).watched_lit_to_clause && final(self).decider == old(self).decider,
    {
        if self.decision_stack.len() == 1 {
            self.decision_stack.pop();
            return false;
        }
        proof {
            assert(self.snapshots@.take(self.decision_stack@.len() as int) =~= self.snapshots@);
            let all = self.decision_stack@;
            assert(noted_from(all, all.len() as int) =~= Set::<ClauseId>::empty());
            assert(made_from(all, all.len() as int) =~= Set::<i32>::empty());
            assert(freed(Set::<i32>::empty()) =~= Set::<i32>::empty());
            assert(self.satisfied_clauses@.difference(Set::<ClauseId>::empty())
                =~= self.satisfied_clauses@);
            assert(self.decider@.unassigned.union(Set::<i32>::empty()) =~= self.decider@.unassigned);
            assert forall|code: i32|
                #[trigger] watchers_at(sets_view(self.watched_lit_to_clause@), code) == watchers_at(
                    sets_view(self.watched_lit_to_clause@),
                    code,
                ).union(
                    resumed(
                        clause_views(self.clauses@),
                        all,
                        self.snapshots@,
                        all.len() as int,
                        code,
                    ),
                ) by {
                assert(watchers_at(sets_view(self.watched_lit_to_clause@), code).union(
                    Set::<ClauseId>::empty(),
                ) =~= watchers_at(sets_view(self.watched_lit_to_clause@), code));
            }
        }
        loop
            invariant_except_break
                self.decision_stack@.len() >= 2,
                tail_false(
                    self.clauses@[conflict_clause_id as int]@,
                    self.snapshots@[self.decision_stack@.len() - 1],
                ),
                forall|j: int|
                    self.decision_stack@.len() - 1 <= j < old(self).decision_stack@.len() - 1
                        ==> !reaches(
                        old(self).clauses@[conflict_clause_id as int]@,
                        (#[trigger] old(self).decision_stack@[j])@,
                    ),
            invariant
                old(self).wf(),
                self.wf(),
                conflict_clause_id < self.clauses@.len(),
                old(self).clauses@[conflict_clause_id as int]@.first
                    == old(self).clauses@[conflict_clause_id as int]@.lits[0],
                self.learnt_clauses == old(self).learnt_clauses,
                self.lit_to_clause == old(self).lit_to_clause,
                same_lits(old(self).clauses@, self.clauses@),
                self.decider@.scores == old(self).decider@.scores,
                self.decider@.age == old(self).decider@.age,
                covering(old(self).decider@, old(self).assigned_lits@) ==> covering(
                    self.decider@,
                    self.assigned_lits@,
                ),
                self.decision_stack@.len() <= old(self).decision_stack@.len(),
                forall|i: int|
                    0 <= i < self.decision_stack@.len() ==> self.decision_stack@[i] == old(self).decision_stack@[i],
                self.snapshots@ == old(self).snapshots@.take(self.decision_stack@.len() as int),
                self.decision_stack@.len() < old(self).decision_stack@.len()
                    ==> self.assigned_lits@ == old(self).snapshots@[self.decision_stack@.len() as int],
                self.assigned_lits@.subset_of(old(self).assigned_lits@),
                self.decision_stack@.len() < old(self).decision_stack@.len()
                    ==> self.assigned_lits@.disjoint(own(old(self).top()@)),
                self.satisfied_clauses@ == old(self).satisfied_clauses@.difference(
                    noted_from(old(self).decision_stack@, self.decision_stack@.len() as int),
                ),
                self.decider@.unassigned == old(self).decider@.unassigned.union(
                    freed(made_from(old(self).decision_stack@, self.decision_stack@.len() as int)),
                ),
                self.clauses@[conflict_clause_id as int]@.first
                    == self.clauses@[conflict_clause_id as int]@.lits[0],
                self.decision_stack@.len() < old(self).decision_stack@.len() ==> tail_false(
                    self.clauses@[conflict_clause_id as int]@,
                    self.assigned_lits@,
                ),
                clause_views(self.clauses@) == unwound(
                    clause_views(old(self).clauses@),
                    old(self).decision_stack@,
                    old(self).snapshots@,
                    self.decision_stack@.len() as int,
                ),
                forall|code: i32|
                    #[trigger] watchers_at(sets_view(self.watched_lit_to_clause@), code)
                        == watchers_at(sets_view(old(self).watched_lit_to_clause@), code).union(
                        resumed(
                            clause_views(old(self).clauses@),
                            old(self).decision_stack@,
                            old(self).snapshots@,
                            self.decision_stack@.len() as int,
                            code,
                        ),
                    ),
            ensures
                self.decision_stack@.len() < old(self).decision_stack@.len(),
                self.decision_stack@.len() == 1 || reaches(
                    self.clauses@[conflict_clause_id as int]@,
                    self.top()@,
                ),
                forall|j: int|
                    self.decision_stack@.len() <= j < old(self).decision_stack@.len() - 1
                        ==> !reaches(
                        old(self).clauses@[conflict_clause_id as int]@,
                        (#[trigger] old(self).decision_stack@[j])@,
                    ),
            decreases self.decision_stack@.len(),
        {
            let ghost frames = self.decision_stack@;
            let ghost bases = self.snapshots@;
            let ghost assigned = self.assigned_lits@;
            let ghost clauses = self.clauses@;
            let last_decision = match self.decision_stack.pop() {
                Some(frame) => frame,
                None => Decision::from(Literal::non_existent(), 0),
            };
            let ghost rest = bases.drop_last();
            self.snapshots = Ghost(rest);
            proof {
                assert(frame_ok(frames[frames.len() - 1]@, clauses.len()));
                assert(frame_added(frames[frames.len() - 1]@, bases[frames.len() - 1], assigned));
            }
            let ghost asked = self.decider@;
            let ghost marks = self.satisfied_clauses@;
            self.unassign(&last_decision);
            proof {
                if covering(asked, assigned) {
                    lemma_covering_unassign(asked, assigned, self.decider@, own(last_decision@));
                }
                let all = old(self).decision_stack@;
                let here = frames.len() - 1;
                assert(all[here] == frames[here]);
                assert(last_decision == frames[here]);
                assert(made_from(all, here) =~= made_from(all, here + 1).union(
                    own(last_decision@),
                )) by {
                    assert forall|c: i32|
                        made_from(all, here).contains(c) <==> made_from(all, here + 1).union(
                            own(last_decision@),
                        ).contains(c) by {
                        if made_from(all, here).contains(c) {
                            let k = choose|k: int|
                                here <= k < all.len() && own((#[trigger] all[k])@).contains(c);
                            if k > here {
                                assert(made_from(all, here + 1).contains(c));
                            }
                        }
                        if made_from(all, here + 1).contains(c) {
                            let k = choose|k: int|
                                here + 1 <= k < all.len() && own((#[trigger] all[k])@).contains(c);
                            assert(here <= k);
                        }
                        if own(last_decision@).contains(c) {
                            assert(own(all[here]@).contains(c));
                        }
                    }
                }
                assert(freed(made_from(all, here)) =~= freed(made_from(all, here + 1)).union(
                    freed(own(last_decision@)),
                ));
                assert(self.decider@.unassigned =~= old(self).decider@.unassigned.union(
                    freed(made_from(all, here)),
                ));
                assert(noted_from(all, here) =~= noted_from(all, here + 1).union(
                    last_decision@.satisfied,
                )) by {
                    assert forall|id: ClauseId|
                        noted_from(all, here).contains(id) <==> noted_from(all, here + 1).union(
                            last_decision@.satisfied,
                        ).contains(id) by {
                        if noted_from(all, here).contains(id) {
                            let k = choose|k: int|
                                here <= k < all.len() && (#[trigger] all[k])@.satisfied.contains(id);
                            if k > here {
                                assert(noted_from(all, here + 1).contains(id));
                            }
                        }
                        if noted_from(all, here + 1).contains(id) {
                            let k = choose|k: int|
                                here + 1 <= k < all.len() && (#[trigger] all[k])@.satisfied.contains(
                                    id,
                                );
                            assert(here <= k);
                        }
                        if last_decision@.satisfied.contains(id) {
                            assert(all[here]@.satisfied.contains(id));
                        }
                    }
                }
                assert(marks.difference(last_decision@.satisfied) =~= old(self).satisfied_clauses@.difference(noted_from(all, here)));
            }
            self.unmark(&last_decision);
            let ghost unmarked = *self;
            self.resync(&last_decision);
            proof {
                let left = self.decision_stack@;
                let k = left.len() as int;
                assert(self.assigned_lits@ =~= bases[k]);
                let given = clause_views(old(self).clauses@);
                let all = old(self).decision_stack@;
                let pushed = old(self).snapshots@;
                assert(all[k] == last_decision);
                assert(pushed[k] == bases[k]);
                assert(unmarked.assigned_lits@ == pushed[k]);
                assert(clause_views(unmarked.clauses@) == unwound(given, all, pushed, k + 1));
                assert(clause_views(self.clauses@) == unwound(given, all, pushed, k));
                assert forall|code: i32|
                    #[trigger] watchers_at(sets_view(self.watched_lit_to_clause@), code)
                        == watchers_at(sets_view(old(self).watched_lit_to_clause@), code).union(
                        resumed(given, all, pushed, k, code),
                    ) by {
                    let base = watchers_at(sets_view(old(self).watched_lit_to_clause@), code);
                    let more = resuming(
                        unwound(given, all, pushed, k + 1),
                        all[k]@.antecedents.values(),
                        pushed[k],
                        code,
                    );
                    assert(watchers_at(sets_view(unmarked.watched_lit_to_clause@), code)
                        == base.union(resumed(given, all, pushed, k + 1, code)));
                    assert(watchers_at(sets_view(self.watched_lit_to_clause@), code)
                        == watchers_at(sets_view(unmarked.watched_lit_to_clause@), code).union(more));
                    assert(base.union(resumed(given, all, pushed, k + 1, code)).union(more)
                        =~= base.union(resumed(given, all, pushed, k + 1, code).union(more)));
                }
                assert(bases.len() == frames.len());
                assert(self.snapshots@ =~= old(self).snapshots@.take(k));
                assert(bases[k] == old(self).snapshots@[k]);
                assert forall|j: int| 0 <= j < left.len() implies frame_added(
                    (#[trigger] left[j])@,
                    self.snapshots@[j],
                    if j + 1 < left.len() {
                        self.snapshots@[j + 1]
                    } else {
                        self.assigned_lits@
                    },
                ) && frame_ok(left[j]@, self.clauses@.len()) by {
                    assert(left[j] == frames[j]);
                    assert(frame_added(
                        frames[j]@,
                        bases[j],
                        if j + 1 < frames.len() {
                            bases[j + 1]
                        } else {
                            assigned
                        },
                    ));
                    assert(frame_ok(frames[j]@, clauses.len()));
                }
                assert forall|i: int| 0 <= i < old(self).clauses@.len() implies (#[trigger] self.clauses@[i])@.lits
                    == old(self).clauses@[i]@.lits by {
                    assert(clauses[i]@.lits == old(self).clauses@[i]@.lits);
                }
                assert(frames_layered(left, clauses)) by {
                    assert forall|j: int| 0 <= j < left.len() implies layered(
                        (#[trigger] left[j])@,
                        db_lits(clauses),
                    ) by {
                        assert(left[j] == frames[j]);
                    }
                }
                assert(frames_ok(left, clauses.len())) by {
                    assert forall|j: int| 0 <= j < left.len() implies frame_ok(
                        (#[trigger] left[j])@,
                        clauses.len(),
                    ) by {
                        assert(left[j] == frames[j]);
                        assert(frame_ok(frames[j]@, clauses.len()));
                    }
                }
                lemma_layered_kept(left, clauses, self.clauses@);
            }
            let ghost learnt = self.clauses@[conflict_clause_id as int]@;
            proof {
                let here = clauses[conflict_clause_id as int]@;
                assert(learnt.lits == here.lits);
                assert(learnt.first == here.first);
                assert(tail_false(learnt, self.assigned_lits@)) by {
                    assert forall|i: int| 1 <= i < learnt.lits.len() implies self.assigned_lits@.contains(
                        neg(#[trigger] learnt.lits[i]),
                    ) by {
                        assert(bases[frames.len() - 1].contains(neg(here.lits[i])));
                    }
                }
            }
            if self.decision_stack.len() == 1 || self.reaches_top(conflict_clause_id) {
                break ;
            }
            proof {
                let left = self.decision_stack@;
                let top = left[left.len() - 1]@;
                let given = old(self).clauses@[conflict_clause_id as int]@;
                assert(learnt.lits == given.lits);
                assert(learnt.first == given.first);
                assert(left[left.len() - 1] == old(self).decision_stack@[left.len() - 1]);
                assert(!reaches(given, old(self).decision_stack@[left.len() - 1]@)) by {
                    if reaches(given, top) {
                        let i = choose|i: int|
                            0 <= i < given.lits.len() && #[trigger] given.lits[i] != given.first
                                && own(top).contains(neg(given.lits[i]));
                        assert(learnt.lits[i] != learnt.first && own(top).contains(
                            neg(learnt.lits[i]),
                        ));
                    }
                }
                assert(learnt.wf());
                assert(frame_added(top, self.snapshots@[left.len() - 1], self.assigned_lits@));
                assert forall|i: int| 1 <= i < learnt.lits.len() implies self.snapshots@[left.len()
                    - 1].contains(neg(#[trigger] learnt.lits[i])) by {
                    assert(self.assigned_lits@.contains(neg(learnt.lits[i])));
                    assert(learnt.lits[i] != learnt.lits[0]);
                    assert(!own(top).contains(neg(learnt.lits[i])));
                }
            }
        }
        proof {
            let learnt = self.clauses@[conflict_clause_id as int]@;
            assert forall|i: int|
                0 <= i < learnt.lits.len() && #[trigger] learnt.lits[i]
                    != learnt.first implies self.assigned_lits@.contains(neg(learnt.lits[i])) by {
                assert(i >= 1);
            }
        }
        true
    }

    /// Propagates the literal of every clause of a single literal that is
    /// not satisfied, in the top frame, and whatever follows from it. Where no
    /// conflict is met, every clause of a single literal ends up marked as
    /// satisfied or with its literal true.
    #[verifier::spinoff_prover]
    fn root_pass(&mut self) -> (outcome: Constant)
        requires
            old(self).wf(),
        ensures
            same_lits(old(self).clauses@, final(self).clauses@),
            final(self).wf(),
            outcome is Conflict || outcome is NoConflict,
            outcome is Conflict ==> final(self).top()@.conflict is Some,
            covering(old(self).decider@, old(self).assigned_lits@) ==> covering(
                final(self).decider@,
                final(self).assigned_lits@,
            ),
            old(self).clauses@.len() == 0 ==> outcome is NoConflict && final(self).assigned_lits
                == old(self).assigned_lits && final(self).decider == old(self).decider,
            propagated(*old(self), *final(self)),
            outcome is NoConflict ==> units_done(
                final(self).clauses@,
                final(self).clauses@.len() as int,
                final(self).satisfied_clauses@,
                final(self).assigned_lits@,
            ),
    {
        let mut clause_id: usize = 0;
        while clause_id < self.clauses.len()
            invariant
                old(self).wf(),
                self.wf(),
                clause_id <= self.clauses@.len(),
                propagated(*old(self), *self),
                units_done(
                    self.clauses@,
                    clause_id as int,
                    self.satisfied_clauses@,
                    self.assigned_lits@,
                ),
                same_lits(old(self).clauses@, self.clauses@),
                covering(old(self).decider@, old(self).assigned_lits@) ==> covering(
                    self.decider@,
                    self.assigned_lits@,
                ),
                old(self).clauses@.len() == 0 ==> self.assigned_lits == old(self).assigned_lits
                    && self.decider == old(self).decider,
            decreases self.clauses@.len() - clause_id,
        {
            if self.clauses[clause_id].lits().len() == 1 && !set_contains(
                &self.satisfied_clauses,
                clause_id,
            ) {
                let lit = self.clauses[clause_id].first_watched_lit();
                proof {
                    let unit = self.clauses@[clause_id as int]@;
                    assert(unit.wf());
                    assert(unit.lits[0] == unit.first) by {
                        let k = choose|k: int| 0 <= k < unit.lits.len() && unit.lits[k] == unit.first;
                    }
                }
                if !set_contains(&self.assigned_lits, lit.code()) {
                    let ghost start = *self;
                    let implied = self.imply(lit, clause_id);
                    proof {
                        lemma_propagated_twice(*old(self), start, *self);
                    }
                    if implied == Constant::Conflict {
                        return Constant::Conflict;
                    }
                    let ghost before = self.clauses@;
                    let ghost recorded = *self;
                    let outcome = self.deduce(lit);
                    proof {
                        lemma_propagated_twice(*old(self), recorded, *self);
                        assert forall|i: int| 0 <= i < old(self).clauses@.len() implies (#[trigger] self.clauses@[i])@.lits
                            == old(self).clauses@[i]@.lits by {
                            assert(before[i]@.lits == old(self).clauses@[i]@.lits);
                        }
                        assert forall|i: int|
                            0 <= i < clause_id && (#[trigger] self.clauses@[i])@.lits.len()
                                == 1 implies self.satisfied_clauses@.contains(i as usize)
                            || self.assigned_lits@.contains(self.clauses@[i]@.lits[0]) by {
                            assert(start.clauses@[i]@.lits == self.clauses@[i]@.lits);
                            assert(start.satisfied_clauses@.contains(i as usize)
                                || start.assigned_lits@.contains(start.clauses@[i]@.lits[0]));
                        }
                        assert(self.clauses@[clause_id as int]@.lits
                            == start.clauses@[clause_id as int]@.lits);
                    }
                    if outcome == Constant::Conflict {
                        return Constant::Conflict;
                    }
                }
            }
            clause_id = clause_id + 1;
        }
        Constant::NoConflict
    }

    /// The search: decide, propagate, and on each conflict learn a clause,
    /// backtrack and propagate its asserting literal, until nothing is left
    /// to decide or a conflict is met in the root frame. It ends with `Sat`
    /// once every scored literal has a value, and with `Unsat` on a conflict
    /// in the root frame, from which the last clause of the database was
    /// learnt. Neither end is taken on trust by `dpll`.
    #[verifier::spinoff_prover]
    fn search(&mut self) -> (outcome: Constant)
        requires
            old(self).wf(),
        ensures
            grown(old(self).clauses@, final(self).clauses@),
            outcome is Sat || outcome is Unsat,
            outcome is Sat ==> final(self).wf() && final(self).decider@.unassigned.disjoint(
                final(self).decider@.scores.dom(),
            ) && final(self).decider@.age != 0,
            outcome is Sat && covering(old(self).decider@, old(self).assigned_lits@) ==> covering(
                final(self).decider@,
                final(self).assigned_lits@,
            ),
            outcome is Unsat ==> final(self).decision_stack@.len() == 0 && final(self).clauses@.len()
                > old(self).clauses@.len(),
            outcome is Unsat ==> exists|root: DecisionView|
                #![trigger learnt_clause(root, db_lits(final(self).clauses@.drop_last()))]
                {
                    let db = db_lits(final(self).clauses@.drop_last());
                    &&& root.wf()
                    &&& root.conflict is Some
                    &&& crate::conflict_analyzer::antecedents_force(
                        root,
                        db,
                        final(self).assigned_lits@,
                    )
                    &&& final(self).clauses@.last()@ == learnt_clause(root, db)
                },
            old(self).decider@.scores.dom().is_empty() ==> outcome is Sat
                && final(self).assigned_lits == old(self).assigned_lits,
    {
        loop
            invariant
                old(self).decider@.scores.dom().is_empty() ==> self.decider@.scores
                    == old(self).decider@.scores && self.assigned_lits == old(self).assigned_lits,
                self.wf(),
                grown(old(self).clauses@, self.clauses@),
                covering(old(self).decider@, old(self).assigned_lits@) ==> covering(
                    self.decider@,
                    self.assigned_lits@,
                ),
            decreases
                usize::MAX - self.clauses@.len(),
                unseeded(self.decider@),
                self.decider@.unassigned.len(),
        {
            let ghost count = self.clauses@.len();
            proof {
                assert(self.clauses@.len() == self.clauses.len());
            }
            let ghost to_fill = unseeded(self.decider@);
            let ghost left = self.decider@.unassigned.len();
            let lit = match self.decide_next_literal() {
                None => {
                    return Constant::Sat;
                },
                Some(lit) => lit,
            };
            let ghost decided = *self;
            let mut outcome = self.deduce(lit);
            proof {
                decided.decider.lemma_unassigned_finite();
                let now = self.decider@.unassigned;
                let then = decided.decider@.unassigned;
                assert(now.subset_of(then.remove(lit@)));
                vstd::set_lib::lemma_len_subset(now, then.remove(lit@));
                assert(unseeded(self.decider@) == 0);
                assert(unseeded(decided.decider@) == 0);
                assert forall|i: int| 0 <= i < old(self).clauses@.len() implies (#[trigger] self.clauses@[i])@.lits
                    == old(self).clauses@[i]@.lits by {
                    assert(decided.clauses@[i]@.lits == old(self).clauses@[i]@.lits);
                }
            }
            while outcome == Constant::Conflict
                invariant
                    self.wf(),
                    grown(old(self).clauses@, self.clauses@),
                    outcome is Conflict || outcome is NoConflict,
                    outcome is Conflict ==> self.top()@.conflict is Some,
                    self.clauses@.len() >= count,
                    self.clauses@.len() <= usize::MAX,
                    !old(self).decider@.scores.dom().is_empty(),
                    covering(old(self).decider@, old(self).assigned_lits@) ==> covering(
                        self.decider@,
                        self.assigned_lits@,
                    ),
                    self.clauses@.len() > count || closer(self.decider@, to_fill, left),
                decreases usize::MAX - self.clauses@.len(),
            {
                let ghost before = self.clauses@;
                let ghost root = self.top()@;
                proof {
                    let last = self.decision_stack@.len() - 1;
                    assert(frame_ok(self.decision_stack@[last]@, self.clauses@.len()));
                }
                let learnt_clause_id = self.analyze_conflict();
                let ghost learnt = self.clauses@;
                proof {
                    assert(self.clauses@.len() == self.clauses.len());
                }
                if !self.backtrack(learnt_clause_id) {
                    proof {
                        assert(self.clauses@.drop_last() =~= before);
                        assert(self.clauses@.last()@ == learnt_clause(
                            root,
                            db_lits(self.clauses@.drop_last()),
                        ));
                        assert forall|i: int| 0 <= i < old(self).clauses@.len() implies (#[trigger] self.clauses@[i])@.lits
                            == old(self).clauses@[i]@.lits by {
                            assert(learnt[i] == before[i]);
                            assert(before[i]@.lits == old(self).clauses@[i]@.lits);
                        }
                    }
                    return Constant::Unsat;
                }
                let ghost back = self.clauses@;
                let lit = self.clauses[learnt_clause_id].first_watched_lit();
                if set_contains(&self.assigned_lits, lit.code()) {
                    outcome = Constant::NoConflict;
                } else if self.imply(lit, learnt_clause_id) == Constant::Conflict {
                    outcome = Constant::Conflict;
                } else {
                    outcome = self.deduce(lit);
                }
                proof {
                    assert forall|i: int| 0 <= i < old(self).clauses@.len() implies (#[trigger] self.clauses@[i])@.lits
                        == old(self).clauses@[i]@.lits by {
                        assert(learnt[i] == before[i]);
                        assert(before[i]@.lits == old(self).clauses@[i]@.lits);
                        assert(back[i]@.lits == learnt[i]@.lits);
                        assert(self.clauses@[i]@.lits == back[i]@.lits);
                    }
                }
            }
        }
    }

    /// Decides whether the clauses can be satisfied. The literals of the
    /// clauses of a single literal are propagated, and the search is run. An
    /// assignment that the search ends on is taken where it is a model of the
    /// clauses that the solver was given. Any other end of the search is not
    /// taken on trust: every way of giving the literals of those clauses a
    /// value is then tried. The result is `Sat` with a model in `model`, or
    /// `Unsat` where the clauses have none.
    #[verifier::spinoff_prover]
    fn dpll(&mut self) -> (outcome: Constant)
        requires
            old(self).wf(),
        ensures
            grown(old(self).clauses@, final(self).clauses@),
            outcome is Sat || outcome is Unsat,
            outcome is Sat ==> satisfies(db_lits(old(self).clauses@), final(self).model@),
            outcome is Sat && covering(old(self).decider@, old(self).assigned_lits@) ==> forall|
                i: int,
                j: int,
            |
                0 <= i < old(self).clauses@.len() && 0 <= j < db_lits(old(self).clauses@)[i].len()
                    ==> final(self).model@.contains(#[trigger] db_lits(old(self).clauses@)[i][j])
                    || final(self).model@.contains(neg(db_lits(old(self).clauses@)[i][j])),
            outcome is Unsat ==> forall|m: Set<i32>| !satisfies(db_lits(old(self).clauses@), m),
    {
        let count = self.clauses.len();
        let ghost given = db_lits(self.clauses@);
        let rooted = self.root_pass();
        let ghost middle = self.clauses@;
        let found = if rooted == Constant::Conflict {
            Constant::Unsat
        } else {
            self.search()
        };
        proof {
            assert forall|i: int| 0 <= i < old(self).clauses@.len() implies (#[trigger] self.clauses@[i])@.lits
                == old(self).clauses@[i]@.lits by {
                assert(middle[i]@.lits == old(self).clauses@[i]@.lits);
                if rooted != Constant::Conflict {
                    assert(self.clauses@[i]@.lits == middle[i]@.lits);
                }
            }
            assert(db_lits(self.clauses@).take(count as int) =~= given);
        }
        if found == Constant::Sat {
            let candidate = copy_of(&self.assigned_lits);
            if self.models_first(count, &candidate) {
                proof {
                    if covering(old(self).decider@, old(self).assigned_lits@) {
                        let decider = self.decider@;
                        assert forall|i: int, j: int|
                            0 <= i < old(self).clauses@.len() && 0 <= j < given[i].len() implies candidate@.contains(
                            #[trigger] given[i][j],
                        ) || candidate@.contains(neg(given[i][j])) by {
                            let c = self.clauses@[i]@.lits[j];
                            assert(given[i][j] == c);
                            assert(decider.scores.contains_key(c));
                            assert(decider.scores.dom().contains(c));
                            assert(decider.pool() == decider.unassigned);
                        }
                    }
                }
                self.model = candidate;
                return Constant::Sat;
            }
        }
        let lits = self.literals_first(count);
        let mut partial: LiteralSet = FnvHashSet::default();
        if self.exhaust(count, &lits, 0, &mut partial) {
            proof {
                assert forall|i: int, j: int|
                    0 <= i < old(self).clauses@.len() && 0 <= j < given[i].len() implies partial@.contains(
                    #[trigger] given[i][j],
                ) || partial@.contains(neg(given[i][j])) by {
                    assert(given[i][j] == db_lits(self.clauses@)[i][j]);
                    assert(lits@.contains(db_lits(self.clauses@)[i][j]));
                    let k = choose|k: int| 0 <= k < lits@.len() && lits@[k] == given[i][j];
                    assert(partial@.contains(lits@[k]) || partial@.contains(neg(lits@[k])));
                }
            }
            self.model = partial;
            Constant::Sat
        } else {
            proof {
                assert forall|m: Set<i32>| !satisfies(given, m) by {
                    if satisfies(given, m) {
                        assert(Set::<i32>::empty().subset_of(m));
                    }
                }
            }
            Constant::Unsat
        }
    }

    /// Decides whether the clauses can be satisfied: `Some` with a model of
    /// the clauses, which holds no literal together with its complement and a
    /// literal of every clause, or `None` where the clauses have no model.
    /// The model gives every variable of every clause a value, if the decider
    /// had left no scored literal out at the start, as is the case before its
    /// first decision.
    #[verifier::spinoff_prover]
    pub fn solve(&mut self) -> (model: Option<LiteralSet>)
        requires
            old(self).wf(),
        ensures
            old(self)@.clauses.len() <= final(self)@.clauses.len(),
            forall|i: int|
                0 <= i < old(self)@.clauses.len() ==> (#[trigger] final(self)@.clauses[i]).lits
                    == old(self)@.clauses[i].lits,
            match model {
                Some(found) => {
                    &&& old(self)@.modelled_by(found@)
                    &&& found@ == final(self)@.model
                    &&& old(self)@.covers() ==> old(self)@.decided_by(found@)
                },
                None => forall|m: Set<i32>| !old(self)@.modelled_by(m),
            },
            old(self)@.answered_by(
                match model {
                    Some(found) => Some(found@),
                    None => None,
                },
            ),
    {
        let outcome = self.dpll();
        proof {
            assert forall|k: int| 0 <= k < old(self)@.clauses.len() implies (#[trigger] self@.clauses[k]).lits
                == old(self)@.clauses[k].lits by {
                assert(self.clauses@[k]@.lits == old(self).clauses@[k]@.lits);
            }
        }
        match outcome {
            Constant::Sat => {
                let found = copy_of(&self.model);
                proof {
                    old(self).lemma_modelled(found@);
                    if old(self)@.covers() {
                        let given = db_lits(old(self).clauses@);
                        assert forall|i: int, j: int|
                            0 <= i < old(self)@.clauses.len() && 0 <= j < old(self)@.clauses[i].lits.len() implies found@.contains(
                            #[trigger] old(self)@.clauses[i].lits[j],
                        ) || found@.contains(neg(old(self)@.clauses[i].lits[j])) by {
                            assert(given[i][j] == old(self)@.clauses[i].lits[j]);
                        }
                    }
                }
                Some(found)
            },
            _ => {
                proof {
                    assert forall|m: Set<i32>| !old(self)@.modelled_by(m) by {
                        old(self).lemma_modelled(m);
                    }
                }
                None
            },
        }
    }
}

} // verus!
