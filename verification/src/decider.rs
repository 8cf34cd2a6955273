use vstd::prelude::*;
use fnv::FnvHashMap;
use fnv::FnvHashSet;
use std::collections::BTreeMap;
use crate::clause::Clause;
use crate::hashing::map_get;
use crate::hashing::map_insert;
use crate::hashing::map_keys;
use crate::hashing::set_contains;
use crate::hashing::set_insert;
use crate::hashing::set_members;
use crate::hashing::set_remove;
use crate::hashing::LiteralSet;
use crate::literal::neg;
use crate::literal::Literal;

verus! {

/// The greatest score a literal can have; a score that reaches it stays.
pub const SCORE_CAP: u64 = 0xffff_ffff_ffff_ffff;

/// What the decider knows.
pub struct DeciderView {
    /// The activity of each literal that some observed clause holds.
    pub scores: Map<i32, u64>,
    /// The literals that are free to be decided on.
    pub unassigned: Set<i32>,
    /// The number of decisions asked for so far.
    pub age: u64,
}

/// The amount by which one occurrence in an observed clause raises a score:
/// one, and one more for every eight decisions asked for so far.
pub open spec fn increment(age: u64) -> u64 {
    (1 + (age >> 3)) as u64
}

/// The age after one more decision was asked for. The count stops at the
/// greatest `u64`.
pub open spec fn aged(age: u64) -> u64 {
    if age == u64::MAX {
        age
    } else {
        (age + 1) as u64
    }
}

/// A score raised by an amount, up to the cap.
pub open spec fn raised(score: u64, by: u64) -> u64 {
    if score + by > SCORE_CAP {
        SCORE_CAP
    } else {
        (score + by) as u64
    }
}

/// The scores after one occurrence of a literal was observed.
pub open spec fn bump(scores: Map<i32, u64>, code: i32, by: u64) -> Map<i32, u64> {
    if scores.contains_key(code) {
        scores.insert(code, raised(scores[code], by))
    } else {
        scores.insert(code, by)
    }
}

/// The scores after each literal of a sequence was observed, one after the
/// other.
pub open spec fn bumped(scores: Map<i32, u64>, lits: Seq<i32>, by: u64) -> Map<i32, u64>
    decreases lits.len(),
{
    if lits.len() == 0 {
        scores
    } else {
        bump(bumped(scores, lits.drop_last(), by), lits.last(), by)
    }
}

impl DeciderView {
    /// The literals that the next decision is taken from: the unassigned
    /// ones, or, on the first request where none is recorded, every literal
    /// that has a score.
    pub open spec fn pool(self) -> Set<i32> {
        if self.unassigned.is_empty() && self.age == 0 {
            self.scores.dom()
        } else {
            self.unassigned
        }
    }

    /// No decision is left to take: a request has been made before, and no
    /// literal is unassigned.
    pub open spec fn exhausted(self) -> bool {
        self.unassigned.is_empty() && self.age != 0
    }

    /// The literal has a score, is in the pool, and no literal of the pool
    /// has a greater score.
    pub open spec fn is_best(self, code: i32) -> bool {
        &&& self.pool().contains(code)
        &&& self.scores.contains_key(code)
        &&& forall|other: i32|
            self.pool().contains(other) && #[trigger] self.scores.contains_key(other)
                ==> self.scores[other] <= self.scores[code]
    }

    /// No literal of the pool has a score.
    pub open spec fn none_scored(self) -> bool {
        forall|other: i32| self.pool().contains(other) ==> !#[trigger] self.scores.contains_key(other)
    }
}

/// Picks decision literals by activity: literals of clauses observed lately
/// count more.
pub struct VSIDSDecider {
    lit_count: FnvHashMap<i32, u64>,
    count_lit: BTreeMap<u64, LiteralSet>,
    unassigned_lits: LiteralSet,
    age: u64,
}

impl View for VSIDSDecider {
    type V = DeciderView;

    closed spec fn view(&self) -> DeciderView {
        DeciderView { scores: self.lit_count@, unassigned: self.unassigned_lits@, age: self.age }
    }
}

/// The buckets hold each scored literal under its score and nothing else, and
/// no bucket is empty.
spec fn buckets_match(scores: Map<i32, u64>, buckets: Map<u64, LiteralSet>) -> bool {
    &&& forall|code: i32| #[trigger]
        scores.contains_key(code) ==> buckets.contains_key(scores[code])
            && buckets[scores[code]]@.contains(code)
    &&& forall|score: u64, code: i32|
        buckets.contains_key(score) && #[trigger] buckets[score]@.contains(code)
            ==> scores.contains_key(code) && scores[code] == score
    &&& forall|score: u64| #[trigger]
        buckets.contains_key(score) ==> !buckets[score]@.is_empty()
    &&& !scores.contains_key(i32::MIN)
}

fn bucket_take(buckets: &mut BTreeMap<u64, LiteralSet>, score: u64) -> (bucket: Option<LiteralSet>)
    ensures
        final(buckets)@ == old(buckets)@.remove(score),
        bucket == (if old(buckets)@.contains_key(score) {
            Some(old(buckets)@[score])
        } else {
            None
        }),
{
    broadcast use vstd::laws_cmp::group_laws_cmp;

    buckets.remove(&score)
}

fn bucket_put(buckets: &mut BTreeMap<u64, LiteralSet>, score: u64, bucket: LiteralSet)
    ensures
        final(buckets)@ == old(buckets)@.insert(score, bucket),
{
    broadcast use vstd::laws_cmp::group_laws_cmp;

    buckets.insert(score, bucket);
}

fn bucket_at(buckets: &BTreeMap<u64, LiteralSet>, score: u64) -> (bucket: Option<&LiteralSet>)
    ensures
        bucket == (if buckets@.contains_key(score) {
            Some(&buckets@[score])
        } else {
            None
        }),
{
    broadcast use vstd::laws_cmp::group_laws_cmp;

    buckets.get(&score)
}

fn bucket_scores(buckets: &BTreeMap<u64, LiteralSet>) -> (scores: Vec<u64>)
    ensures
        scores@.to_set() == buckets@.dom(),
{
    broadcast use vstd::laws_cmp::group_laws_cmp;

    let mut scores: Vec<u64> = Vec::new();
    for score in it: buckets.keys()
        invariant
            it.seq().unref().to_set() == buckets@.dom(),
            scores@.len() == it.index(),
            forall|j: int| 0 <= j < scores@.len() ==> scores@[j] == it.seq().unref()[j],
    {
        scores.push(*score);
    }
    proof {
        assert(forall|s: Seq<u64>, t: Seq<u64>|
            s.len() == t.len() && (forall|j: int| 0 <= j < s.len() ==> s[j] == t[j]) ==> s =~= t);
    }
    scores
}

impl VSIDSDecider {
    /// The buckets by score agree with the scores, and finitely many
    /// literals are unassigned.
    pub closed spec fn wf(&self) -> bool {
        &&& buckets_match(self.lit_count@, self.count_lit@)
        &&& self.unassigned_lits@.finite()
    }

    /// A well-formed decider has finitely many unassigned literals.
    pub proof fn lemma_unassigned_finite(&self)
        requires
            self.wf(),
        ensures
            self@.unassigned.finite(),
    {
    }

    /// A decider that has seen no clause.
    pub fn new() -> (decider: VSIDSDecider)
        ensures
            decider@ == (DeciderView { scores: Map::empty(), unassigned: Set::empty(), age: 0 }),
            decider.wf(),
    {
        VSIDSDecider {
            lit_count: FnvHashMap::default(),
            count_lit: BTreeMap::new(),
            unassigned_lits: FnvHashSet::default(),
            age: 0,
        }
    }

    /// Observes a clause: each occurrence of a literal in it raises that
    /// literal's score by the increment of the present age.
    pub fn add_clause(&mut self, clause: &Clause)
        requires
            old(self).wf(),
        ensures
            final(self)@ == (DeciderView {
                scores: bumped(old(self)@.scores, clause@.lits, increment(old(self)@.age)),
                ..old(self)@
            }),
            final(self).wf(),
    {
        let by = 1 + self.age_factor();
        let lits = clause.lits();
        let mut i: usize = 0;
        while i < lits.len()
            invariant
                i <= lits@.len(),
                by == increment(old(self)@.age),
                by >= 1,
                self.wf(),
                self@ == (DeciderView {
                    scores: bumped(
                        old(self)@.scores,
                        crate::clause::codes(lits@).take(i as int),
                        by,
                    ),
                    ..old(self)@
                }),
            decreases lits@.len() - i,
        {
            let code = lits[i].code();
            self.raise(code, by);
            i = i + 1;
            proof {
                let all = crate::clause::codes(lits@);
                assert(all.take(i as int).drop_last() =~= all.take(i - 1));
                assert(all.take(i as int).last() == code);
            }
        }
        proof {
            let all = crate::clause::codes(lits@);
            assert(all.take(i as int) =~= all);
        }
    }

    fn raise(&mut self, code: i32, by: u64)
        requires
            old(self).wf(),
            code != i32::MIN,
            by >= 1,
        ensures
            final(self)@ == (DeciderView { scores: bump(old(self)@.scores, code, by), ..old(self)@ }),
            final(self).wf(),
    {
        let ghost scores = self.lit_count@;
        let ghost buckets = self.count_lit@;
        let previous: Option<u64> = match map_get(&self.lit_count, code) {
            Some(count) => Some(*count),
            None => None,
        };
        let current: u64 = match previous {
            Some(count) => if count > SCORE_CAP - by {
                SCORE_CAP
            } else {
                count + by
            },
            None => by,
        };
        map_insert(&mut self.lit_count, code, current);
        if let Some(count) = previous {
            match bucket_take(&mut self.count_lit, count) {
                Some(bucket) => {
                    let mut rest = bucket;
                    set_remove(&mut rest, code);
                    if !rest.is_empty() {
                        bucket_put(&mut self.count_lit, count, rest);
                    }
                },
                None => {},
            }
        }
        let ghost between = self.count_lit@;
        proof {
            assert forall|score: u64, other: i32|
                between.contains_key(score) && #[trigger] between[score]@.contains(
                    other,
                ) implies other != code && buckets.contains_key(score) && buckets[score]@.contains(
                other,
            ) by {
                if other == code {
                    assert(buckets[score]@.contains(code));
                }
            }
            assert forall|other: i32| other != code && #[trigger] scores.contains_key(
                other,
            ) implies between.contains_key(scores[other]) && between[scores[other]]@.contains(
                other,
            ) by {
                assert(buckets[scores[other]]@.contains(other));
            }
            assert forall|score: u64| #[trigger] between.contains_key(score) implies !between[score]@.is_empty() by {
                assert(buckets.contains_key(score) || score == previous->0);
            }
        }
        let mut target = match bucket_take(&mut self.count_lit, current) {
            Some(bucket) => bucket,
            None => FnvHashSet::default(),
        };
        set_insert(&mut target, code);
        bucket_put(&mut self.count_lit, current, target);
        proof {
            let after = self.count_lit@;
            let now = self.lit_count@;
            assert(now =~= bump(scores, code, by));
            assert(after[current]@.contains(code));
            assert forall|c: i32| #[trigger] now.contains_key(c) implies after.contains_key(now[c])
                && after[now[c]]@.contains(c) by {
                if c != code {
                    assert(scores.contains_key(c));
                    assert(between[scores[c]]@.contains(c));
                }
            }
            assert forall|score: u64, c: i32|
                after.contains_key(score) && #[trigger] after[score]@.contains(
                    c,
                ) implies now.contains_key(c) && now[c] == score by {
                if c != code {
                    assert(between.contains_key(score) && between[score]@.contains(c));
                } else if score != current {
                    assert(between[score]@.contains(code));
                }
            }
            assert forall|score: u64| #[trigger] after.contains_key(score) implies !after[score]@.is_empty() by {
                if score == current {
                    assert(after[score]@.contains(code));
                } else {
                    assert(between.contains_key(score));
                }
            }
        }
    }

    /// The next decision literal: a literal of the greatest score among
    /// those of the pool that have one. `None` where no decision is left to
    /// take, or where no literal of the pool has a score.
    pub fn next_literal(&mut self) -> (next: Option<Literal>)
        requires
            old(self).wf(),
        ensures
            final(self).wf(),
            old(self)@.exhausted() ==> next is None && final(self)@ == old(self)@,
            !old(self)@.exhausted() ==> final(self)@ == (DeciderView {
                unassigned: old(self)@.pool(),
                age: aged(old(self)@.age),
                ..old(self)@
            }) && match next {
                Some(lit) => old(self)@.is_best(lit@),
                None => old(self)@.none_scored(),
            },
    {
        if self.unassigned_lits.is_empty() {
            if self.age != 0 {
                return None;
            }
            let keys = map_keys(&self.lit_count);
            let mut k: usize = 0;
            while k < keys.len()
                invariant
                    k <= keys@.len(),
                    self.wf(),
                    self.lit_count == old(self).lit_count,
                    self.age == old(self).age,
                    self.unassigned_lits@ == keys@.take(k as int).to_set(),
                decreases keys@.len() - k,
            {
                set_insert(&mut self.unassigned_lits, keys[k]);
                k = k + 1;
                proof {
                    let done = keys@.take(k as int);
                    let earlier = keys@.take(k - 1);
                    assert(done =~= earlier.push(keys@[k - 1]));
                    earlier.lemma_push_to_set_commute(keys@[k - 1]);
                }
            }
            proof {
                assert(keys@.take(k as int) =~= keys@);
            }
        }
        if self.age < u64::MAX {
            self.age = self.age + 1;
        }
        let ghost pool = old(self)@.pool();
        proof {
            assert(self.unassigned_lits@ =~= pool);
        }
        let scores = bucket_scores(&self.count_lit);
        let mut best: Option<Literal> = None;
        let mut best_score: u64 = 0;
        let mut i: usize = 0;
        while i < scores.len()
            invariant
                i <= scores@.len(),
                self.wf(),
                self.unassigned_lits@ == pool,
                scores@.to_set() == self.count_lit@.dom(),
                best is Some ==> self.count_lit@.contains_key(best_score)
                    && self.count_lit@[best_score]@.contains(best->0@) && pool.contains(best->0@),
                forall|j: int, c: i32|
                    0 <= j < i && #[trigger] self.count_lit@[scores@[j]]@.contains(c) && pool.contains(c)
                        ==> best is Some && scores@[j] <= best_score,
            decreases scores@.len() - i,
        {
            let score = scores[i];
            assert(scores@.to_set().contains(scores@[i as int]));
            if best.is_none() || score > best_score {
                match bucket_at(&self.count_lit, score) {
                    Some(bucket) => {
                        let found = self.last_unassigned(bucket);
                        if found.is_some() {
                            best = found;
                            best_score = score;
                        }
                    },
                    None => {},
                }
            }
            i = i + 1;
        }
        proof {
            let view = old(self)@;
            let table = self.lit_count@;
            let buckets = self.count_lit@;
            match best {
                Some(lit) => {
                    assert forall|other: i32|
                        view.pool().contains(other) && #[trigger] view.scores.contains_key(
                            other,
                        ) implies view.scores[other] <= view.scores[lit@] by {
                        let s = table[other];
                        assert(buckets.contains_key(s) && buckets[s]@.contains(other));
                        assert(scores@.to_set().contains(s));
                        let j = choose|j: int| 0 <= j < scores@.len() && scores@[j] == s;
                        assert(buckets[scores@[j]]@.contains(other));
                    }
                },
                None => {
                    assert forall|other: i32| view.pool().contains(other) implies !#[trigger] view.scores.contains_key(other) by {
                        if table.contains_key(other) {
                            let s = table[other];
                            assert(buckets.contains_key(s) && buckets[s]@.contains(other));
                            assert(scores@.to_set().contains(s));
                            let j = choose|j: int| 0 <= j < scores@.len() && scores@[j] == s;
                            assert(buckets[scores@[j]]@.contains(other));
                        }
                    }
                },
            }
        }
        best
    }

    /// The last literal of a bucket, as the bucket is walked, that is
    /// unassigned.
    fn last_unassigned(&self, bucket: &LiteralSet) -> (found: Option<Literal>)
        ensures
            match found {
                Some(lit) => bucket@.contains(lit@) && self.unassigned_lits@.contains(lit@),
                None => forall|c: i32|
                    bucket@.contains(c) && c != i32::MIN ==> !self.unassigned_lits@.contains(c),
            },
    {
        let members = set_members(bucket);
        let mut found: Option<Literal> = None;
        let mut j: usize = 0;
        while j < members.len()
            invariant
                j <= members@.len(),
                members@.to_set() == bucket@,
                match found {
                    Some(lit) => bucket@.contains(lit@) && self.unassigned_lits@.contains(lit@),
                    None => forall|k: int|
                        0 <= k < j && members@[k] != i32::MIN ==> !self.unassigned_lits@.contains(
                            #[trigger] members@[k],
                        ),
                },
            decreases members@.len() - j,
        {
            let code = members[j];
            assert(members@.to_set().contains(members@[j as int]));
            if set_contains(&self.unassigned_lits, code) {
                match Literal::from_code(code) {
                    Some(lit) => {
                        found = Some(lit);
                    },
                    None => {},
                }
            }
            j = j + 1;
        }
        proof {
            if found is None {
                assert forall|c: i32| bucket@.contains(c) && c != i32::MIN implies !self.unassigned_lits@.contains(c) by {
                    assert(members@.to_set().contains(c));
                    let k = choose|k: int| 0 <= k < members@.len() && members@[k] == c;
                    assert(!self.unassigned_lits@.contains(members@[k]));
                }
            }
        }
        found
    }

    /// Records that a literal was assigned: neither it nor its complement is
    /// free any more.
    pub fn assign_lit(&mut self, lit: Literal)
        ensures
            final(self)@ == (DeciderView {
                unassigned: old(self)@.unassigned.remove(lit@).remove(neg(lit@)),
                ..old(self)@
            }),
            old(self).wf() ==> final(self).wf(),
    {
        set_remove(&mut self.unassigned_lits, lit.code());
        set_remove(&mut self.unassigned_lits, lit.complementary().code());
    }

    /// Records that a literal's assignment was undone: it and its complement
    /// are free again.
    pub fn un_assign_lit(&mut self, lit: Literal)
        ensures
            final(self)@ == (DeciderView {
                unassigned: old(self)@.unassigned.insert(lit@).insert(neg(lit@)),
                ..old(self)@
            }),
            old(self).wf() ==> final(self).wf(),
    {
        set_insert(&mut self.unassigned_lits, lit.code());
        set_insert(&mut self.unassigned_lits, lit.complementary().code());
    }

    /// The score of a literal, if it has one.
    pub fn score_of(&self, lit: Literal) -> (score: Option<u64>)
        ensures
            score == (if self@.scores.contains_key(lit@) {
                Some(self@.scores[lit@])
            } else {
                None
            }),
    {
        match map_get(&self.lit_count, lit.code()) {
            Some(count) => Some(*count),
            None => None,
        }
    }

    /// Whether a literal is free to be decided on.
    pub fn is_unassigned(&self, lit: Literal) -> (free: bool)
        ensures
            free == self@.unassigned.contains(lit@),
    {
        set_contains(&self.unassigned_lits, lit.code())
    }

    /// The number of decisions asked for so far.
    pub fn age(&self) -> (age: u64)
        ensures
            age == self@.age,
    {
        self.age
    }

    fn age_factor(&self) -> (factor: u64)
        ensures
            factor == self.age >> 3,
            factor <= 0x1fff_ffff_ffff_ffff,
    {
        let age = self.age;
        assert(age >> 3 <= 0x1fff_ffff_ffff_ffff) by (bit_vector);
        age >> 3
    }
}

/// Once a decision has been asked for, the decider offers no literal that
/// was reported to it as assigned, nor the complement of one, until the
/// assignment is reported as undone.
pub proof fn law_assigned_is_not_offered(decider: DeciderView, assigned: i32, offered: i32)
    requires
        decider.age != 0,
        !decider.unassigned.contains(assigned),
        !decider.unassigned.contains(neg(assigned)),
        decider.is_best(offered),
    ensures
        offered != assigned,
        offered != neg(assigned),
        decider.unassigned.contains(offered),
{
}

/// The increment is one more than an eighth of the age, rounded down.
pub proof fn law_increment_is_an_eighth(age: u64)
    ensures
        increment(age) == 1 + age / 8,
{
    assert(age >> 3 == age / 8) by (bit_vector);
}

/// Observing a clause gives a score to the literals of the clause, and to no
/// other literal that had none.
pub proof fn law_observe_scores_the_clause(scores: Map<i32, u64>, lits: Seq<i32>, by: u64)
    ensures
        forall|c: i32| #[trigger]
            bumped(scores, lits, by).contains_key(c) <==> scores.contains_key(c) || lits.contains(c),
    decreases lits.len(),
{
    let after = bumped(scores, lits, by);
    if lits.len() > 0 {
        let front = lits.drop_last();
        law_observe_scores_the_clause(scores, front, by);
        let middle = bumped(scores, front, by);
        assert forall|c: i32| #[trigger]
            after.contains_key(c) <==> scores.contains_key(c) || lits.contains(c) by {
            assert(middle.contains_key(c) <==> scores.contains_key(c) || front.contains(c));
            if front.contains(c) {
                let i = choose|i: int| 0 <= i < front.len() && front[i] == c;
                assert(lits[i] == c);
            }
            if lits.contains(c) && c != lits.last() {
                let i = choose|i: int| 0 <= i < lits.len() && lits[i] == c;
                assert(front[i] == c);
            }
            if c == lits.last() {
                assert(lits[lits.len() - 1] == c);
            }
        }
    } else {
        assert forall|c: i32| #[trigger]
            after.contains_key(c) <==> scores.contains_key(c) || lits.contains(c) by {
            if lits.contains(c) {
                let i = choose|i: int| 0 <= i < lits.len() && lits[i] == c;
            }
        }
    }
}

/// Observing a clause lowers no score, and gives every literal of the clause
/// a score of at least the increment.
pub proof fn law_observe_raises(scores: Map<i32, u64>, lits: Seq<i32>, by: u64)
    ensures
        forall|c: i32| #[trigger]
            scores.contains_key(c) ==> bumped(scores, lits, by).contains_key(c) && scores[c]
                <= bumped(scores, lits, by)[c],
        forall|i: int|
            0 <= i < lits.len() ==> bumped(scores, lits, by).contains_key(#[trigger] lits[i]) && by
                <= bumped(scores, lits, by)[lits[i]],
        forall|i: int|
            0 <= i < lits.len() && scores.contains_key(#[trigger] lits[i]) ==> raised(
                scores[lits[i]],
                by,
            ) <= bumped(scores, lits, by)[lits[i]],
    decreases lits.len(),
{
    if lits.len() > 0 {
        let front = lits.drop_last();
        law_observe_raises(scores, front, by);
        let before = bumped(scores, front, by);
        assert forall|i: int| 0 <= i < lits.len() implies bumped(scores, lits, by).contains_key(
            #[trigger] lits[i],
        ) && by <= bumped(scores, lits, by)[lits[i]] by {
            if i < front.len() {
                assert(front[i] == lits[i]);
            }
        }
        assert forall|i: int|
            0 <= i < lits.len() && scores.contains_key(#[trigger] lits[i]) implies raised(
            scores[lits[i]],
            by,
        ) <= bumped(scores, lits, by)[lits[i]] by {
            if i < front.len() {
                assert(front[i] == lits[i]);
            }
        }
    }
}

} // verus!
