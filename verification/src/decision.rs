use vstd::prelude::*;
use fnv::FnvHashMap;
use fnv::FnvHashSet;
use crate::clause::codes;
use crate::clause::ClauseId;
use crate::hashing::map_get;
use crate::hashing::map_insert;
use crate::hashing::map_keys;
use crate::hashing::map_len;
use crate::hashing::set_insert;
use crate::literal::neg;
use crate::literal::Literal;
use crate::solver::Constant;

verus! {

/// What a decision frame holds.
pub struct DecisionView {
    /// The decision literal; 0 in the root frame.
    pub lit: i32,
    pub level: u32,
    /// The clauses that became satisfied under this decision.
    pub satisfied: Set<ClauseId>,
    /// The clause that forced each literal propagated under this decision.
    pub antecedents: Map<i32, ClauseId>,
    /// For each propagated literal, how many had been recorded before it.
    pub order: Map<i32, nat>,
    /// The literal that was recorded while its complement already was.
    pub conflict: Option<i32>,
}

impl DecisionView {
    /// The frame after `add_propagated_lit`. A literal that is already
    /// recorded keeps its antecedent and its place in the order.
    pub open spec fn recorded(self, lit: i32, clause_id: ClauseId) -> DecisionView {
        let fresh = !self.antecedents.contains_key(lit);
        let antecedents = if fresh {
            self.antecedents.insert(lit, clause_id)
        } else {
            self.antecedents
        };
        DecisionView {
            antecedents,
            order: if fresh {
                self.order.insert(lit, self.antecedents.dom().len())
            } else {
                self.order
            },
            conflict: if antecedents.contains_key(neg(lit)) {
                Some(lit)
            } else {
                self.conflict
            },
            ..self
        }
    }

    /// Finitely many literals are propagated, each has a place in the order
    /// among them, each key is the code of a literal, and a conflict literal
    /// is propagated in the frame together with its complement.
    pub open spec fn wf(self) -> bool {
        &&& self.order.dom() == self.antecedents.dom()
        &&& self.antecedents.dom().finite()
        &&& forall|code: i32| #[trigger]
            self.order.contains_key(code) ==> self.order[code] < self.antecedents.dom().len()
        &&& !self.antecedents.contains_key(i32::MIN)
        &&& match self.conflict {
            Some(lit) => self.antecedents.contains_key(lit) && self.antecedents.contains_key(
                neg(lit),
            ),
            None => true,
        }
    }
}

/// One entry of the trail: a decision, what was propagated under it, and which
/// clauses it satisfied.
#[derive(Debug)]
pub struct Decision {
    literal: Literal,
    level: u32,
    satisfied_clauses: FnvHashSet<ClauseId>,
    propagated_lits: FnvHashMap<i32, (ClauseId, usize)>,
    conflict_lit: Option<Literal>,
}

impl View for Decision {
    type V = DecisionView;

    closed spec fn view(&self) -> DecisionView {
        DecisionView {
            lit: self.literal@,
            level: self.level,
            satisfied: self.satisfied_clauses@,
            antecedents: self.propagated_lits@.map_values(|e: (ClauseId, usize)| e.0),
            order: self.propagated_lits@.map_values(|e: (ClauseId, usize)| e.1 as nat),
            conflict: match self.conflict_lit {
                Some(l) => Some(l@),
                None => None,
            },
        }
    }
}

impl Decision {
    /// A frame for a decision literal at a level, with nothing recorded yet.
    pub fn from(literal: Literal, level: u32) -> (decision: Decision)
        ensures
            decision@ == (DecisionView {
                lit: literal@,
                level,
                satisfied: Set::empty(),
                antecedents: Map::empty(),
                order: Map::empty(),
                conflict: None,
            }),
    {
        let decision = Decision {
            literal,
            level,
            satisfied_clauses: FnvHashSet::default(),
            propagated_lits: FnvHashMap::default(),
            conflict_lit: None,
        };
        proof {
            assert(decision@.antecedents =~= Map::empty());
            assert(decision@.order =~= Map::empty());
        }
        decision
    }

    /// The decision literal.
    pub fn lit(&self) -> (lit: Literal)
        ensures
            lit@ == self@.lit,
    {
        self.literal
    }

    /// The decision level.
    pub fn lvl(&self) -> (level: u32)
        ensures
            level == self@.level,
    {
        self.level
    }

    /// Records a clause as satisfied under this decision.
    pub fn add_satisfied_clause(&mut self, clause_id: ClauseId)
        ensures
            final(self)@ == (DecisionView {
                satisfied: old(self)@.satisfied.insert(clause_id),
                ..old(self)@
            }),
    {
        set_insert(&mut self.satisfied_clauses, clause_id);
    }

    /// The clauses recorded as satisfied under this decision.
    pub fn satisfied_clauses(&self) -> (clauses: &FnvHashSet<ClauseId>)
        ensures
            clauses@ == self@.satisfied,
    {
        &self.satisfied_clauses
    }

    /// Records a literal as propagated by a clause. The result is `Conflict`
    /// where the literal's complement is recorded in this frame too; the
    /// literal is then kept as the conflict literal.
    pub fn add_propagated_lit(&mut self, lit: Literal, clause_id: ClauseId) -> (outcome: Constant)
        ensures
            final(self)@ == old(self)@.recorded(lit@, clause_id),
            outcome == (if final(self)@.antecedents.contains_key(neg(lit@)) {
                Constant::Conflict
            } else {
                Constant::NoConflict
            }),
            old(self)@.wf() ==> final(self)@.wf(),
    {
        let ghost before = self@;
        proof {
            assert(before.antecedents.dom() =~= self.propagated_lits@.dom());
        }
        let code = lit.code();
        if map_get(&self.propagated_lits, code).is_none() {
            let place = map_len(&self.propagated_lits);
            map_insert(&mut self.propagated_lits, code, (clause_id, place));
        }
        let other = lit.complementary();
        let conflict = map_get(&self.propagated_lits, other.code()).is_some();
        if conflict {
            self.conflict_lit = Some(lit);
        }
        proof {
            let after = before.recorded(lit@, clause_id);
            assert(self@.antecedents =~= after.antecedents);
            assert(self@.order =~= after.order);
            assert(before.wf() ==> self@.order.dom() =~= self@.antecedents.dom());
        }
        if conflict {
            Constant::Conflict
        } else {
            Constant::NoConflict
        }
    }

    /// The clause that forced a literal under this decision, if one did.
    pub fn implying_clause_of(&self, lit: Literal) -> (clause_id: Option<ClauseId>)
        ensures
            clause_id == (if self@.antecedents.contains_key(lit@) {
                Some(self@.antecedents[lit@])
            } else {
                None
            }),
    {
        match map_get(&self.propagated_lits, lit.code()) {
            Some(entry) => Some(entry.0),
            None => None,
        }
    }

    /// How many literals had been recorded before a literal was, if it is
    /// recorded.
    pub fn order_of(&self, lit: Literal) -> (place: Option<usize>)
        ensures
            place is Some <==> self@.antecedents.contains_key(lit@),
            place is Some && self@.wf() ==> place->0 == self@.order[lit@],
    {
        match map_get(&self.propagated_lits, lit.code()) {
            Some(entry) => Some(entry.1),
            None => None,
        }
    }

    /// The antecedents of the propagated literals: the antecedent of each
    /// literal once, the literals taken in an order that is not stated.
    pub fn implying_clauses_iter(&self) -> (clauses: Vec<ClauseId>)
        ensures
            exists|lits: Seq<i32>|
                lits.no_duplicates() && lits.to_set() == self@.antecedents.dom() && clauses@
                    == lits.map_values(|c: i32| self@.antecedents[c]),
            clauses@.len() == self@.antecedents.dom().len(),
            forall|c: ClauseId| clauses@.contains(c) <==> self@.antecedents.values().contains(c),
    {
        let keys = map_keys(&self.propagated_lits);
        let mut clauses: Vec<ClauseId> = Vec::new();
        let mut i: usize = 0;
        while i < keys.len()
            invariant
                i <= keys@.len(),
                keys@.to_set() == self.propagated_lits@.dom(),
                clauses@.len() == i,
                forall|k: int|
                    0 <= k < i ==> #[trigger] clauses@[k] == self@.antecedents[keys@[k]],
            decreases keys@.len() - i,
        {
            assert(keys@.to_set().contains(keys@[i as int]));
            match map_get(&self.propagated_lits, keys[i]) {
                Some(entry) => {
                    clauses.push(entry.0);
                },
                None => {
                    assert(false);
                },
            }
            i = i + 1;
        }
        proof {
            keys@.unique_seq_to_set();
            assert(self@.antecedents.dom() =~= self.propagated_lits@.dom());
            assert(clauses@ =~= keys@.map_values(|c: i32| self@.antecedents[c]));
            assert forall|c: ClauseId| clauses@.contains(c) <==> self@.antecedents.values().contains(
                c,
            ) by {
                if clauses@.contains(c) {
                    let k = choose|k: int| 0 <= k < clauses@.len() && clauses@[k] == c;
                    assert(keys@.to_set().contains(keys@[k]));
                    assert(self@.antecedents.contains_key(keys@[k]));
                }
                if self@.antecedents.values().contains(c) {
                    let key = choose|key: i32|
                        self@.antecedents.contains_key(key) && self@.antecedents[key] == c;
                    assert(keys@.to_set().contains(key));
                    let k = choose|k: int| 0 <= k < keys@.len() && keys@[k] == key;
                    assert(clauses@[k] == c);
                }
            }
        }
        clauses
    }

    /// The conflict literal, once a conflict was recorded.
    pub fn get_conflict_lit(&self) -> (lit: Option<Literal>)
        ensures
            lit is Some <==> self@.conflict is Some,
            lit is Some ==> lit->0@ == self@.conflict->0,
    {
        self.conflict_lit
    }

    /// The literals propagated under this decision: each one once, in an
    /// order that is not stated.
    pub fn propagated_lits_iter(&self) -> (lits: Vec<Literal>)
        requires
            self@.wf(),
        ensures
            codes(lits@).no_duplicates(),
            codes(lits@).to_set() == self@.antecedents.dom(),
    {
        let keys = map_keys(&self.propagated_lits);
        let mut lits: Vec<Literal> = Vec::new();
        let mut i: usize = 0;
        while i < keys.len()
            invariant
                i <= keys@.len(),
                keys@.to_set() == self.propagated_lits@.dom(),
                !self.propagated_lits@.contains_key(i32::MIN),
                lits@.len() == i,
                forall|k: int| 0 <= k < i ==> (#[trigger] lits@[k])@ == keys@[k],
            decreases keys@.len() - i,
        {
            assert(keys@.to_set().contains(keys@[i as int]));
            match Literal::from_code(keys[i]) {
                Some(lit) => {
                    lits.push(lit);
                },
                None => {
                    assert(false);
                },
            }
            i = i + 1;
        }
        proof {
            assert(codes(lits@) =~= keys@);
            assert(self@.antecedents.dom() =~= self.propagated_lits@.dom());
        }
        lits
    }

    /// The number of literals propagated under this decision.
    pub fn propagated_lits_len(&self) -> (n: usize)
        ensures
            n == self@.antecedents.dom().len(),
    {
        proof {
            assert(self@.antecedents.dom() =~= self.propagated_lits@.dom());
        }
        map_len(&self.propagated_lits)
    }
}

} // verus!
