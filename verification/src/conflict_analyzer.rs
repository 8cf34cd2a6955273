use vstd::prelude::*;
use std::collections::VecDeque;
use crate::clause::codes;
use crate::clause::Clause;
use crate::clause::ClauseView;
use crate::decision::Decision;
use crate::decision::DecisionView;
use crate::literal::neg;
use crate::literal::Literal;

verus! {

/// The literals of each clause of a database.
pub open spec fn db_lits(clauses: Seq<Clause>) -> Seq<Seq<i32>> {
    clauses.map_values(|c: Clause| c@.lits)
}

/// How late a literal was propagated in a frame: 0 for a literal that the
/// frame has no antecedent for, and one more than its place in the order
/// otherwise.
pub open spec fn depth(frame: DecisionView, code: i32) -> nat {
    if frame.antecedents.contains_key(code) {
        frame.order[code] + 1
    } else {
        0
    }
}

/// Whether the analysis expands a literal: the frame has an antecedent for
/// it, and the database holds that clause.
pub open spec fn expands(frame: DecisionView, db: Seq<Seq<i32>>, code: i32) -> bool {
    frame.antecedents.contains_key(code) && frame.antecedents[code] < db.len()
}

/// A sequence with a value appended, unless it holds the value already.
pub open spec fn with(items: Seq<i32>, code: i32) -> Seq<i32> {
    if items.contains(code) {
        items
    } else {
        items.push(code)
    }
}

/// A sequence with every occurrence of a value taken out.
pub open spec fn without(items: Seq<i32>, code: i32) -> Seq<i32>
    decreases items.len(),
{
    if items.len() == 0 {
        items
    } else if items.last() == code {
        without(items.drop_last(), code)
    } else {
        without(items.drop_last(), code).push(items.last())
    }
}

/// The work queue and the terminals after a literal was expanded through
/// the literals of its antecedent. The complement of each other literal of the
/// clause joins the queue if it was propagated earlier than the expanded
/// literal, or not in this frame. One that was propagated later is not
/// expanded: the clause's literal joins the terminals as it stands.
pub open spec fn expanded(
    frame: DecisionView,
    from: i32,
    lits: Seq<i32>,
    queue: Seq<i32>,
    terminals: Seq<i32>,
) -> (Seq<i32>, Seq<i32>)
    decreases lits.len(),
{
    if lits.len() == 0 {
        (queue, terminals)
    } else if lits[0] == from {
        expanded(frame, from, lits.drop_first(), queue, terminals)
    } else if depth(frame, neg(lits[0])) < depth(frame, from) {
        expanded(frame, from, lits.drop_first(), with(queue, neg(lits[0])), terminals)
    } else {
        expanded(frame, from, lits.drop_first(), queue, with(terminals, lits[0]))
    }
}

/// The queue after a literal was expanded through the literals of its
/// antecedent with no regard to the order of propagation: the complement of
/// each other literal of the clause joins the queue.
pub open spec fn expanded_plainly(from: i32, lits: Seq<i32>, queue: Seq<i32>) -> Seq<i32>
    decreases lits.len(),
{
    if lits.len() == 0 {
        queue
    } else if lits[0] == from {
        expanded_plainly(from, lits.drop_first(), queue)
    } else {
        expanded_plainly(from, lits.drop_first(), with(queue, neg(lits[0])))
    }
}

/// The frame's propagations follow one another: for each propagated literal,
/// the complements of the other literals of its antecedent were propagated
/// earlier in the frame, or not in the frame.
pub open spec fn layered(frame: DecisionView, db: Seq<Seq<i32>>) -> bool {
    forall|code: i32, j: int|
        expands(frame, db, code) && 0 <= j < db[frame.antecedents[code] as int].len()
            && #[trigger] db[frame.antecedents[code] as int][j] != code ==> depth(
            frame,
            neg(db[frame.antecedents[code] as int][j]),
        ) < depth(frame, code)
}

proof fn lemma_expanded_plainly(
    frame: DecisionView,
    from: i32,
    lits: Seq<i32>,
    queue: Seq<i32>,
    terminals: Seq<i32>,
)
    requires
        forall|j: int|
            0 <= j < lits.len() && #[trigger] lits[j] != from ==> depth(frame, neg(lits[j])) < depth(
                frame,
                from,
            ),
    ensures
        expanded(frame, from, lits, queue, terminals) == (
            expanded_plainly(from, lits, queue),
            terminals,
        ),
    decreases lits.len(),
{
    if lits.len() > 0 {
        let rest = lits.drop_first();
        assert forall|j: int| 0 <= j < rest.len() && #[trigger] rest[j] != from implies depth(
            frame,
            neg(rest[j]),
        ) < depth(frame, from) by {
            assert(rest[j] == lits[j + 1]);
        }
        if lits[0] == from {
            lemma_expanded_plainly(frame, from, rest, queue, terminals);
        } else {
            lemma_expanded_plainly(frame, from, rest, with(queue, neg(lits[0])), terminals);
        }
    }
}

/// In a frame whose propagations follow one another, a literal is expanded
/// through its antecedent with no regard to the order of propagation, and no
/// literal of an antecedent becomes a terminal as it stands.
pub proof fn law_layered_frame_expands_plainly(
    frame: DecisionView,
    db: Seq<Seq<i32>>,
    from: i32,
    queue: Seq<i32>,
    terminals: Seq<i32>,
)
    requires
        layered(frame, db),
        expands(frame, db, from),
    ensures
        expanded(frame, from, db[frame.antecedents[from] as int], queue, terminals) == (
            expanded_plainly(from, db[frame.antecedents[from] as int], queue),
            terminals,
        ),
{
    lemma_expanded_plainly(frame, from, db[frame.antecedents[from] as int], queue, terminals);
}

/// A bound on the steps that a literal in the queue can still cause.
pub open spec fn lit_weight(frame: DecisionView, db: Seq<Seq<i32>>, code: i32) -> nat
    decreases depth(frame, code), 1nat, 0nat,
{
    if expands(frame, db, code) {
        1 + edges_weight(frame, db, code, db[frame.antecedents[code] as int])
    } else {
        1
    }
}

/// The weights of the literals that expanding a literal through a clause can
/// add to the queue.
pub open spec fn edges_weight(frame: DecisionView, db: Seq<Seq<i32>>, from: i32, lits: Seq<i32>) -> nat
    decreases depth(frame, from), 0nat, lits.len(),
{
    if lits.len() == 0 {
        0
    } else if lits[0] != from && depth(frame, neg(lits[0])) < depth(frame, from) {
        lit_weight(frame, db, neg(lits[0])) + edges_weight(frame, db, from, lits.drop_first())
    } else {
        edges_weight(frame, db, from, lits.drop_first())
    }
}

/// The weights of the literals in the queue, added up.
pub open spec fn queue_weight(frame: DecisionView, db: Seq<Seq<i32>>, queue: Seq<i32>) -> nat
    decreases queue.len(),
{
    if queue.len() == 0 {
        0
    } else {
        queue_weight(frame, db, queue.drop_last()) + lit_weight(frame, db, queue.last())
    }
}

proof fn lemma_weight_with(frame: DecisionView, db: Seq<Seq<i32>>, queue: Seq<i32>, code: i32)
    ensures
        queue_weight(frame, db, with(queue, code)) <= queue_weight(frame, db, queue) + lit_weight(
            frame,
            db,
            code,
        ),
{
    if !queue.contains(code) {
        assert(queue.push(code).drop_last() =~= queue);
    }
}

proof fn lemma_weight_front(frame: DecisionView, db: Seq<Seq<i32>>, queue: Seq<i32>)
    requires
        queue.len() > 0,
    ensures
        queue_weight(frame, db, queue) == lit_weight(frame, db, queue[0]) + queue_weight(
            frame,
            db,
            queue.drop_first(),
        ),
    decreases queue.len(),
{
    if queue.len() == 1 {
        assert(queue.drop_last() =~= Seq::<i32>::empty());
        assert(queue.drop_first() =~= Seq::<i32>::empty());
    } else {
        lemma_weight_front(frame, db, queue.drop_last());
        assert(queue.drop_first().drop_last() =~= queue.drop_last().drop_first());
        assert(queue.drop_first().last() == queue.last());
        assert(queue.drop_last()[0] == queue[0]);
    }
}

proof fn lemma_expanded_weight(
    frame: DecisionView,
    db: Seq<Seq<i32>>,
    from: i32,
    lits: Seq<i32>,
    queue: Seq<i32>,
    terminals: Seq<i32>,
)
    ensures
        queue_weight(frame, db, expanded(frame, from, lits, queue, terminals).0) <= queue_weight(
            frame,
            db,
            queue,
        ) + edges_weight(frame, db, from, lits),
    decreases lits.len(),
{
    if lits.len() > 0 {
        let rest = lits.drop_first();
        if lits[0] == from {
            lemma_expanded_weight(frame, db, from, rest, queue, terminals);
        } else if depth(frame, neg(lits[0])) < depth(frame, from) {
            lemma_weight_with(frame, db, queue, neg(lits[0]));
            lemma_expanded_weight(frame, db, from, rest, with(queue, neg(lits[0])), terminals);
        } else {
            lemma_expanded_weight(frame, db, from, rest, queue, with(terminals, lits[0]));
        }
    }
}

/// The queue and the terminals when the analysis ends: the steps below are
/// taken until one literal is left in the queue. The first literal leaves the
/// queue. Where the frame has an antecedent for it, it is expanded through
/// that clause; otherwise its complement joins the terminals.
pub open spec fn analysed(
    frame: DecisionView,
    db: Seq<Seq<i32>>,
    queue: Seq<i32>,
    terminals: Seq<i32>,
) -> (Seq<i32>, Seq<i32>)
    decreases queue_weight(frame, db, queue),
    via analysed_ends
{
    if queue.len() <= 1 {
        (queue, terminals)
    } else if expands(frame, db, queue[0]) {
        let step = expanded(
            frame,
            queue[0],
            db[frame.antecedents[queue[0]] as int],
            queue.drop_first(),
            terminals,
        );
        analysed(frame, db, step.0, step.1)
    } else {
        analysed(frame, db, queue.drop_first(), with(terminals, neg(queue[0])))
    }
}

#[via_fn]
proof fn analysed_ends(frame: DecisionView, db: Seq<Seq<i32>>, queue: Seq<i32>, terminals: Seq<i32>) {
    if queue.len() > 1 {
        lemma_weight_front(frame, db, queue);
        if expands(frame, db, queue[0]) {
            lemma_expanded_weight(
                frame,
                db,
                queue[0],
                db[frame.antecedents[queue[0]] as int],
                queue.drop_first(),
                terminals,
            );
        }
    }
}

/// The queue and the terminals at the end of the analysis of a frame's
/// conflict, which starts from the conflict literal and its complement.
pub open spec fn conflict_cut(frame: DecisionView, db: Seq<Seq<i32>>) -> (Seq<i32>, Seq<i32>)
    recommends
        frame.conflict is Some,
{
    analysed(frame, db, seq![neg(frame.conflict->0), frame.conflict->0], Seq::empty())
}

/// The asserting literal of a frame's conflict: the complement of the
/// decision literal where that is a terminal, and otherwise the complement of
/// the literal that the analysis leaves in the queue.
pub open spec fn asserting_lit(frame: DecisionView, db: Seq<Seq<i32>>) -> i32
    recommends
        frame.conflict is Some,
{
    let cut = conflict_cut(frame, db);
    if cut.1.contains(neg(frame.lit)) {
        neg(frame.lit)
    } else {
        neg(cut.0[0])
    }
}

/// The clause learnt from a frame's conflict: the asserting literal, then the
/// other terminals in the order in which the analysis met them. Only the
/// asserting literal is watched.
pub open spec fn learnt_clause(frame: DecisionView, db: Seq<Seq<i32>>) -> ClauseView
    recommends
        frame.conflict is Some,
{
    let asserting = asserting_lit(frame, db);
    ClauseView {
        lits: seq![asserting] + without(conflict_cut(frame, db).1, asserting),
        first: asserting,
        second: None,
    }
}

/// Some clause of the database holds the literal.
pub open spec fn occurs(db: Seq<Seq<i32>>, code: i32) -> bool {
    exists|i: int, j: int| 0 <= i < db.len() && 0 <= j < db[i].len() && #[trigger] db[i][j] == code
}

/// The literal is not new to the solver: a clause of the database holds it,
/// or it is propagated in the frame.
pub open spec fn known(frame: DecisionView, db: Seq<Seq<i32>>, code: i32) -> bool {
    frame.antecedents.contains_key(code) || occurs(db, code)
}

spec fn all_known(frame: DecisionView, db: Seq<Seq<i32>>, items: Seq<i32>) -> bool {
    forall|i: int| 0 <= i < items.len() ==> known(frame, db, #[trigger] items[i])
}

spec fn complements_known(frame: DecisionView, db: Seq<Seq<i32>>, items: Seq<i32>) -> bool {
    forall|i: int| 0 <= i < items.len() ==> known(frame, db, neg(#[trigger] items[i]))
}

proof fn lemma_expanded_known(
    frame: DecisionView,
    db: Seq<Seq<i32>>,
    from: i32,
    lits: Seq<i32>,
    queue: Seq<i32>,
    terminals: Seq<i32>,
)
    requires
        complements_known(frame, db, queue),
        all_known(frame, db, terminals),
        forall|j: int| 0 <= j < lits.len() ==> occurs(db, #[trigger] lits[j]),
    ensures
        complements_known(frame, db, expanded(frame, from, lits, queue, terminals).0),
        all_known(frame, db, expanded(frame, from, lits, queue, terminals).1),
        expanded(frame, from, lits, queue, terminals).0.len() >= queue.len(),
    decreases lits.len(),
{
    if lits.len() > 0 {
        let rest = lits.drop_first();
        assert forall|j: int| 0 <= j < rest.len() implies occurs(db, #[trigger] rest[j]) by {
            assert(rest[j] == lits[j + 1]);
        }
        assert(occurs(db, lits[0]));
        if lits[0] == from {
            lemma_expanded_known(frame, db, from, rest, queue, terminals);
        } else if depth(frame, neg(lits[0])) < depth(frame, from) {
            assert(neg(neg(lits[0])) == lits[0]);
            lemma_expanded_known(frame, db, from, rest, with(queue, neg(lits[0])), terminals);
        } else {
            lemma_expanded_known(frame, db, from, rest, queue, with(terminals, lits[0]));
        }
    }
}

proof fn lemma_analysed_known(
    frame: DecisionView,
    db: Seq<Seq<i32>>,
    queue: Seq<i32>,
    terminals: Seq<i32>,
)
    requires
        complements_known(frame, db, queue),
        all_known(frame, db, terminals),
        queue.len() >= 1,
    ensures
        complements_known(frame, db, analysed(frame, db, queue, terminals).0),
        all_known(frame, db, analysed(frame, db, queue, terminals).1),
        analysed(frame, db, queue, terminals).0.len() == 1,
    decreases queue_weight(frame, db, queue),
{
    if queue.len() > 1 {
        lemma_weight_front(frame, db, queue);
        let rest = queue.drop_first();
        assert forall|i: int| 0 <= i < rest.len() implies known(frame, db, neg(#[trigger] rest[i])) by {
            assert(rest[i] == queue[i + 1]);
        }
        if expands(frame, db, queue[0]) {
            let lits = db[frame.antecedents[queue[0]] as int];
            lemma_expanded_weight(frame, db, queue[0], lits, rest, terminals);
            lemma_expanded_known(frame, db, queue[0], lits, rest, terminals);
            let step = expanded(frame, queue[0], lits, rest, terminals);
            lemma_analysed_known(frame, db, step.0, step.1);
        } else {
            assert(known(frame, db, neg(queue[0])));
            lemma_analysed_known(frame, db, rest, with(terminals, neg(queue[0])));
        }
    }
}

/// A learnt clause holds no literal that is new: a clause of the database
/// holds each of its literals, or the literal is propagated in the frame.
pub proof fn law_learnt_literals_are_known(frame: DecisionView, db: Seq<Seq<i32>>)
    requires
        frame.wf(),
        frame.conflict is Some,
    ensures
        forall|i: int|
            0 <= i < learnt_clause(frame, db).lits.len() ==> known(
                frame,
                db,
                #[trigger] learnt_clause(frame, db).lits[i],
            ),
{
    let k = frame.conflict->0;
    let start = seq![neg(k), k];
    assert(neg(neg(k)) == k);
    lemma_analysed_known(frame, db, start, Seq::empty());
    let cut = conflict_cut(frame, db);
    let asserting = asserting_lit(frame, db);
    lemma_without_keeps(cut.1, asserting);
    let lits = learnt_clause(frame, db).lits;
    assert(known(frame, db, asserting)) by {
        if cut.1.contains(neg(frame.lit)) {
            let i = choose|i: int| 0 <= i < cut.1.len() && cut.1[i] == neg(frame.lit);
            assert(known(frame, db, cut.1[i]));
        } else {
            assert(known(frame, db, neg(cut.0[0])));
        }
    }
    assert forall|i: int| 0 <= i < lits.len() implies known(frame, db, #[trigger] lits[i]) by {
        if i > 0 {
            let rest = without(cut.1, asserting);
            assert(lits[i] == rest[i - 1]);
            assert(rest.contains(rest[i - 1]));
            assert(cut.1.contains(lits[i]));
            let j = choose|j: int| 0 <= j < cut.1.len() && cut.1[j] == lits[i];
            assert(known(frame, db, cut.1[j]));
        }
    }
}

/// Every antecedent of the frame is a clause of the database and forces its
/// literal under the assignment: every other literal of it is false.
pub open spec fn antecedents_force(frame: DecisionView, db: Seq<Seq<i32>>, assigned: Set<i32>) -> bool {
    forall|code: i32| #[trigger]
        frame.antecedents.contains_key(code) ==> frame.antecedents[code] < db.len()
            && crate::clause::forced(db[frame.antecedents[code] as int], code, assigned)
}

spec fn all_false(assigned: Set<i32>, items: Seq<i32>) -> bool {
    forall|i: int| 0 <= i < items.len() ==> assigned.contains(neg(#[trigger] items[i]))
}

spec fn true_or_propagated(frame: DecisionView, assigned: Set<i32>, items: Seq<i32>) -> bool {
    forall|i: int|
        0 <= i < items.len() ==> assigned.contains(#[trigger] items[i])
            || frame.antecedents.contains_key(items[i])
}

proof fn lemma_expanded_false(
    frame: DecisionView,
    assigned: Set<i32>,
    from: i32,
    lits: Seq<i32>,
    queue: Seq<i32>,
    terminals: Seq<i32>,
)
    requires
        true_or_propagated(frame, assigned, queue),
        all_false(assigned, terminals),
        crate::clause::forced(lits, from, assigned),
    ensures
        true_or_propagated(frame, assigned, expanded(frame, from, lits, queue, terminals).0),
        all_false(assigned, expanded(frame, from, lits, queue, terminals).1),
        expanded(frame, from, lits, queue, terminals).0.len() >= queue.len(),
    decreases lits.len(),
{
    if lits.len() > 0 {
        let rest = lits.drop_first();
        assert forall|j: int| 0 <= j < rest.len() && #[trigger] rest[j] != from implies assigned.contains(
            neg(rest[j]),
        ) by {
            assert(rest[j] == lits[j + 1]);
        }
        if lits[0] == from {
            lemma_expanded_false(frame, assigned, from, rest, queue, terminals);
        } else if depth(frame, neg(lits[0])) < depth(frame, from) {
            lemma_expanded_false(frame, assigned, from, rest, with(queue, neg(lits[0])), terminals);
        } else {
            lemma_expanded_false(frame, assigned, from, rest, queue, with(terminals, lits[0]));
        }
    }
}

proof fn lemma_analysed_false(
    frame: DecisionView,
    db: Seq<Seq<i32>>,
    assigned: Set<i32>,
    queue: Seq<i32>,
    terminals: Seq<i32>,
)
    requires
        antecedents_force(frame, db, assigned),
        true_or_propagated(frame, assigned, queue),
        all_false(assigned, terminals),
    ensures
        all_false(assigned, analysed(frame, db, queue, terminals).1),
        true_or_propagated(frame, assigned, analysed(frame, db, queue, terminals).0),
        queue.len() >= 1 ==> analysed(frame, db, queue, terminals).0.len() >= 1,
    decreases queue_weight(frame, db, queue),
{
    if queue.len() > 1 {
        lemma_weight_front(frame, db, queue);
        let rest = queue.drop_first();
        assert forall|i: int| 0 <= i < rest.len() implies assigned.contains(#[trigger] rest[i])
            || frame.antecedents.contains_key(rest[i]) by {
            assert(rest[i] == queue[i + 1]);
        }
        if expands(frame, db, queue[0]) {
            let lits = db[frame.antecedents[queue[0]] as int];
            lemma_expanded_weight(frame, db, queue[0], lits, rest, terminals);
            lemma_expanded_false(frame, assigned, queue[0], lits, rest, terminals);
            let step = expanded(frame, queue[0], lits, rest, terminals);
            lemma_analysed_false(frame, db, assigned, step.0, step.1);
        } else {
            assert(assigned.contains(queue[0]));
            assert(neg(neg(queue[0])) == queue[0] || queue[0] == i32::MIN);
            assert(neg(neg(queue[0])) == queue[0]);
            lemma_analysed_false(frame, db, assigned, rest, with(terminals, neg(queue[0])));
        }
    }
}

/// Where every antecedent of the frame forces its literal under the
/// assignment, the asserting literal of the learnt clause is false or about
/// to be: its complement is the decision literal, or is propagated in the
/// frame, or is true under the assignment.
pub proof fn law_asserting_literal_is_false(
    frame: DecisionView,
    db: Seq<Seq<i32>>,
    assigned: Set<i32>,
)
    requires
        frame.wf(),
        frame.conflict is Some,
        antecedents_force(frame, db, assigned),
    ensures
        neg(asserting_lit(frame, db)) == frame.lit || frame.antecedents.contains_key(
            neg(asserting_lit(frame, db)),
        ) || assigned.contains(neg(asserting_lit(frame, db))),
{
    let k = frame.conflict->0;
    lemma_analysed_false(frame, db, assigned, seq![neg(k), k], Seq::empty());
    let cut = conflict_cut(frame, db);
    assert(neg(neg(frame.lit)) == frame.lit);
    assert(neg(neg(cut.0[0])) == cut.0[0]);
}

/// Where every antecedent of the frame forces its literal under the
/// assignment, every literal of the learnt clause but the asserting one is
/// false under it.
pub proof fn law_learnt_tail_is_false(frame: DecisionView, db: Seq<Seq<i32>>, assigned: Set<i32>)
    requires
        frame.wf(),
        frame.conflict is Some,
        antecedents_force(frame, db, assigned),
    ensures
        forall|i: int|
            1 <= i < learnt_clause(frame, db).lits.len() ==> assigned.contains(
                neg(#[trigger] learnt_clause(frame, db).lits[i]),
            ),
{
    let k = frame.conflict->0;
    lemma_analysed_false(frame, db, assigned, seq![neg(k), k], Seq::empty());
    let cut = conflict_cut(frame, db);
    let asserting = asserting_lit(frame, db);
    lemma_without_keeps(cut.1, asserting);
    let lits = learnt_clause(frame, db).lits;
    assert forall|i: int| 1 <= i < lits.len() implies assigned.contains(neg(#[trigger] lits[i])) by {
        let rest = without(cut.1, asserting);
        assert(lits[i] == rest[i - 1]);
        assert(rest.contains(rest[i - 1]));
        assert(cut.1.contains(lits[i]));
        let j = choose|j: int| 0 <= j < cut.1.len() && cut.1[j] == lits[i];
        assert(assigned.contains(neg(cut.1[j])));
    }
}

spec fn before_or_decision(frame: DecisionView, before: Set<i32>, items: Seq<i32>) -> bool {
    forall|i: int|
        0 <= i < items.len() ==> before.contains(neg(#[trigger] items[i])) || items[i] == neg(
            frame.lit,
        )
}

proof fn lemma_analysed_before(
    frame: DecisionView,
    db: Seq<Seq<i32>>,
    before: Set<i32>,
    after: Set<i32>,
    queue: Seq<i32>,
    terminals: Seq<i32>,
)
    requires
        layered(frame, db),
        antecedents_force(frame, db, after),
        after.subset_of(before.union(frame.antecedents.dom().insert(frame.lit))),
        true_or_propagated(frame, after, queue),
        before_or_decision(frame, before, terminals),
    ensures
        before_or_decision(frame, before, analysed(frame, db, queue, terminals).1),
    decreases queue_weight(frame, db, queue),
{
    if queue.len() > 1 {
        lemma_weight_front(frame, db, queue);
        let rest = queue.drop_first();
        assert forall|i: int| 0 <= i < rest.len() implies after.contains(#[trigger] rest[i])
            || frame.antecedents.contains_key(rest[i]) by {
            assert(rest[i] == queue[i + 1]);
        }
        if expands(frame, db, queue[0]) {
            let lits = db[frame.antecedents[queue[0]] as int];
            lemma_expanded_weight(frame, db, queue[0], lits, rest, terminals);
            lemma_expanded_false(frame, after, queue[0], lits, rest, Seq::empty());
            lemma_expanded_plainly(frame, queue[0], lits, rest, Seq::empty());
            lemma_expanded_plainly(frame, queue[0], lits, rest, terminals);
            let step = expanded(frame, queue[0], lits, rest, terminals);
            lemma_analysed_before(frame, db, before, after, step.0, step.1);
        } else {
            assert(after.contains(queue[0]));
            assert(neg(neg(queue[0])) == queue[0]);
            assert(before.contains(queue[0]) || queue[0] == frame.lit);
            lemma_analysed_before(
                frame,
                db,
                before,
                after,
                rest,
                with(terminals, neg(queue[0])),
            );
        }
    }
}

/// In a frame whose propagations follow one another and are forced, every
/// literal of the learnt clause but the asserting one was false already
/// when the frame was pushed.
pub proof fn law_learnt_tail_precedes_the_frame(
    frame: DecisionView,
    db: Seq<Seq<i32>>,
    before: Set<i32>,
    after: Set<i32>,
)
    requires
        frame.wf(),
        frame.conflict is Some,
        layered(frame, db),
        antecedents_force(frame, db, after),
        after.subset_of(before.union(frame.antecedents.dom().insert(frame.lit))),
    ensures
        forall|i: int|
            1 <= i < learnt_clause(frame, db).lits.len() ==> before.contains(
                neg(#[trigger] learnt_clause(frame, db).lits[i]),
            ),
{
    let k = frame.conflict->0;
    lemma_analysed_before(frame, db, before, after, seq![neg(k), k], Seq::empty());
    let cut = conflict_cut(frame, db);
    let asserting = asserting_lit(frame, db);
    lemma_without_keeps(cut.1, asserting);
    lemma_without_drops(cut.1, asserting);
    let lits = learnt_clause(frame, db).lits;
    assert forall|i: int| 1 <= i < lits.len() implies before.contains(neg(#[trigger] lits[i])) by {
        let rest = without(cut.1, asserting);
        assert(lits[i] == rest[i - 1]);
        assert(rest.contains(rest[i - 1]));
        assert(cut.1.contains(lits[i]));
        assert(lits[i] != asserting);
        let j = choose|j: int| 0 <= j < cut.1.len() && cut.1[j] == lits[i];
        assert(before.contains(neg(cut.1[j])) || cut.1[j] == neg(frame.lit));
        if cut.1[j] == neg(frame.lit) {
            assert(cut.1.contains(neg(frame.lit)));
        }
    }
}

proof fn lemma_without_drops(items: Seq<i32>, code: i32)
    ensures
        !without(items, code).contains(code),
    decreases items.len(),
{
    if items.len() > 0 {
        let front = items.drop_last();
        lemma_without_drops(front, code);
        let inner = without(front, code);
        let out = without(items, code);
        if out.contains(code) {
            let k = choose|k: int| 0 <= k < out.len() && out[k] == code;
            if k < inner.len() {
                assert(inner[k] == code);
                assert(inner.contains(code));
            }
        }
    }
}

proof fn lemma_without_keeps(items: Seq<i32>, code: i32)
    ensures
        forall|c: i32| #[trigger] without(items, code).contains(c) ==> items.contains(c),
    decreases items.len(),
{
    if items.len() > 0 {
        let front = items.drop_last();
        lemma_without_keeps(front, code);
        let inner = without(front, code);
        let out = without(items, code);
        assert forall|c: i32| #[trigger] out.contains(c) implies items.contains(c) by {
            let k = choose|k: int| 0 <= k < out.len() && out[k] == c;
            if k < inner.len() {
                assert(inner[k] == c);
                assert(inner.contains(c));
                assert(front.contains(c));
                let i = choose|i: int| 0 <= i < front.len() && front[i] == c;
                assert(items[i] == c);
            } else {
                assert(items[items.len() - 1] == c);
            }
        }
    }
}

proof fn lemma_without(items: Seq<i32>, code: i32)
    requires
        items.no_duplicates(),
    ensures
        without(items, code).no_duplicates(),
        !without(items, code).contains(code),
        forall|c: i32| #[trigger] items.contains(c) && c != code ==> without(items, code).contains(c),
        forall|c: i32| #[trigger] without(items, code).contains(c) ==> items.contains(c),
    decreases items.len(),
{
    if items.len() > 0 {
        let front = items.drop_last();
        let last = items.last();
        lemma_without(front, code);
        let inner = without(front, code);
        let out = without(items, code);
        assert forall|c: i32| items.contains(c) && c != code implies out.contains(c) by {
            let i = choose|i: int| 0 <= i < items.len() && items[i] == c;
            if i < front.len() {
                assert(front[i] == c);
                assert(front.contains(c));
                assert(inner.contains(c));
                let k = choose|k: int| 0 <= k < inner.len() && inner[k] == c;
                assert(out[k] == c);
            } else {
                assert(out[out.len() - 1] == c);
            }
        }
        assert forall|c: i32| out.contains(c) implies items.contains(c) by {
            let k = choose|k: int| 0 <= k < out.len() && out[k] == c;
            if k < inner.len() {
                assert(inner[k] == c);
                assert(inner.contains(c));
                assert(front.contains(c));
                let i = choose|i: int| 0 <= i < front.len() && front[i] == c;
                assert(items[i] == c);
            } else {
                assert(items[items.len() - 1] == c);
            }
        }
        if last != code {
            assert(!inner.contains(last)) by {
                if inner.contains(last) {
                    assert(front.contains(last));
                    let i = choose|i: int| 0 <= i < front.len() && front[i] == last;
                    assert(items[i] == items[items.len() - 1]);
                }
            }
            assert(!out.contains(code)) by {
                if out.contains(code) {
                    let k = choose|k: int| 0 <= k < out.len() && out[k] == code;
                    assert(inner[k] == code);
                }
            }
        }
    }
}

fn deque_holds(queue: &VecDeque<Literal>, lit: Literal) -> (found: bool)
    ensures
        found == codes(queue@).contains(lit@),
{
    let mut i: usize = 0;
    while i < queue.len()
        invariant
            i <= queue@.len(),
            forall|k: int| 0 <= k < i ==> codes(queue@)[k] != lit@,
        decreases queue@.len() - i,
    {
        if queue[i].code() == lit.code() {
            assert(codes(queue@)[i as int] == lit@);
            return true;
        }
        i = i + 1;
    }
    false
}

fn vec_holds(items: &Vec<Literal>, lit: Literal) -> (found: bool)
    ensures
        found == codes(items@).contains(lit@),
{
    let mut i: usize = 0;
    while i < items.len()
        invariant
            i <= items@.len(),
            forall|k: int| 0 <= k < i ==> codes(items@)[k] != lit@,
        decreases items@.len() - i,
    {
        if items[i].code() == lit.code() {
            assert(codes(items@)[i as int] == lit@);
            return true;
        }
        i = i + 1;
    }
    false
}

/// Appends a literal to the terminals unless they hold it already.
fn add_terminal(terminals: &mut Vec<Literal>, lit: Literal)
    requires
        codes(old(terminals)@).no_duplicates(),
    ensures
        codes(final(terminals)@) == with(codes(old(terminals)@), lit@),
        codes(final(terminals)@).no_duplicates(),
{
    if !vec_holds(terminals, lit) {
        terminals.push(lit);
        proof {
            assert(codes(terminals@) =~= codes(old(terminals)@).push(lit@));
        }
    }
}

/// Whether the analysis follows an antecedent's literal from the literal
/// being expanded: its complement was propagated earlier in the frame, or not
/// in the frame at all.
fn leads_down(decision: &Decision, from: Literal, to: Literal) -> (down: bool)
    requires
        decision@.wf(),
        decision@.antecedents.contains_key(from@),
    ensures
        down == (depth(decision@, to@) < depth(decision@, from@)),
{
    match decision.order_of(to) {
        None => true,
        Some(there) => match decision.order_of(from) {
            Some(here) => there < here,
            None => false,
        },
    }
}

/// Turns the conflict of a frame into an asserting clause, by walking the
/// antecedents of the frame back from the conflict literal and its
/// complement.
///
/// The literals at which the walk ends are gathered in a vector, each once
/// and in the order in which the walk meets them. A hash set would hand them
/// out in an order of its own, and the order of the literals of the learnt
/// clause, which decides where its watches move later, would then be no
/// function of the frame and the clauses.
pub fn learn_from_conflict(decision: &Decision, clause_db: &Vec<Clause>) -> (clause: Clause)
    requires
        decision@.wf(),
        decision@.conflict is Some,
        forall|code: i32| #[trigger]
            decision@.antecedents.contains_key(code) ==> decision@.antecedents[code]
                < clause_db@.len(),
    ensures
        clause@ == learnt_clause(decision@, db_lits(clause_db@)),
        clause@.wf(),
{
    let ghost frame = decision@;
    let ghost db = db_lits(clause_db@);
    let mut terminal_lits: Vec<Literal> = Vec::new();
    let mut to_explore: VecDeque<Literal> = VecDeque::new();
    let conflict_lit = match decision.get_conflict_lit() {
        Some(lit) => lit,
        None => Literal::non_existent(),
    };
    to_explore.push_back(conflict_lit.complementary());
    to_explore.push_back(conflict_lit);
    proof {
        assert(codes(to_explore@) =~= seq![neg(frame.conflict->0), frame.conflict->0]);
        assert(codes(terminal_lits@) =~= Seq::<i32>::empty());
    }
    while to_explore.len() > 1
        invariant
            frame == decision@,
            db == db_lits(clause_db@),
            frame.wf(),
            frame.conflict is Some,
            forall|code: i32| #[trigger]
                frame.antecedents.contains_key(code) ==> frame.antecedents[code] < clause_db@.len(),
            to_explore@.len() >= 1,
            codes(terminal_lits@).no_duplicates(),
            analysed(frame, db, codes(to_explore@), codes(terminal_lits@)) == conflict_cut(
                frame,
                db,
            ),
        decreases queue_weight(frame, db, codes(to_explore@)),
    {
        let ghost queue = codes(to_explore@);
        let ghost terminals = codes(terminal_lits@);
        let lit = match to_explore.pop_front() {
            Some(lit) => lit,
            None => Literal::non_existent(),
        };
        proof {
            assert(lit@ == queue[0]);
            assert(codes(to_explore@) =~= queue.drop_first());
            lemma_weight_front(frame, db, queue);
        }
        match decision.implying_clause_of(lit) {
            Some(implying_clause_id) => {
                let lits = clause_db[implying_clause_id].lits();
                let ghost all = db[implying_clause_id as int];
                proof {
                    assert(codes(lits@) == all);
                    assert(all.skip(0) =~= all);
                    lemma_expanded_weight(frame, db, lit@, all, queue.drop_first(), terminals);
                }
                let mut i: usize = 0;
                while i < lits.len()
                    invariant
                        i <= lits@.len(),
                        frame == decision@,
                        frame.wf(),
                        frame.antecedents.contains_key(lit@),
                        all == codes(lits@),
                        codes(terminal_lits@).no_duplicates(),
                        to_explore@.len() >= 1,
                        expanded(
                            frame,
                            lit@,
                            all.skip(i as int),
                            codes(to_explore@),
                            codes(terminal_lits@),
                        ) == expanded(frame, lit@, all, queue.drop_first(), terminals),
                    decreases lits@.len() - i,
                {
                    let clause_lit = lits[i];
                    proof {
                        assert(all.skip(i as int)[0] == clause_lit@);
                        assert(all.skip(i as int).drop_first() =~= all.skip(i + 1));
                    }
                    if clause_lit.code() != lit.code() {
                        let implying_lit = clause_lit.complementary();
                        if leads_down(decision, lit, implying_lit) {
                            if !deque_holds(&to_explore, implying_lit) {
                                let ghost before = codes(to_explore@);
                                to_explore.push_back(implying_lit);
                                proof {
                                    assert(codes(to_explore@) =~= before.push(implying_lit@));
                                }
                            }
                        } else {
                            add_terminal(&mut terminal_lits, clause_lit);
                        }
                    }
                    i = i + 1;
                }
                proof {
                    assert(all.skip(i as int) =~= Seq::<i32>::empty());
                }
            },
            None => {
                add_terminal(&mut terminal_lits, lit.complementary());
            },
        }
    }
    let decision_lit = decision.lit().complementary();
    let last_lit = if vec_holds(&terminal_lits, decision_lit) {
        decision_lit
    } else {
        let left = match to_explore.pop_front() {
            Some(lit) => lit,
            None => Literal::non_existent(),
        };
        left.complementary()
    };
    let ghost cut = conflict_cut(frame, db);
    proof {
        assert(cut.1 == codes(terminal_lits@));
        assert(last_lit@ == asserting_lit(frame, db));
    }
    let mut others: Vec<Literal> = Vec::new();
    let mut i: usize = 0;
    while i < terminal_lits.len()
        invariant
            i <= terminal_lits@.len(),
            codes(others@) == without(codes(terminal_lits@).take(i as int), last_lit@),
        decreases terminal_lits@.len() - i,
    {
        let lit = terminal_lits[i];
        proof {
            let done = codes(terminal_lits@).take(i + 1);
            assert(done.drop_last() =~= codes(terminal_lits@).take(i as int));
            assert(done.last() == lit@);
        }
        if lit.code() != last_lit.code() {
            let ghost before = codes(others@);
            others.push(lit);
            proof {
                assert(codes(others@) =~= before.push(lit@));
            }
        }
        i = i + 1;
    }
    proof {
        assert(codes(terminal_lits@).take(i as int) =~= codes(terminal_lits@));
        lemma_without(codes(terminal_lits@), last_lit@);
    }
    Clause::new_asserting_clause(last_lit, others)
}

} // verus!
