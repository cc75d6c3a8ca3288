//! The in-memory knowledge base and the fact store, with their well-formedness.
use vstd::prelude::*;

verus! {

/// A named fact variable with its ordered list of legal choices. An atom with a
/// prompt is askable: its value comes from a human answer.
pub struct Atom {
    pub name: String,
    pub choices: Vec<String>,
    pub prompt: Option<String>,
}

/// One condition of a rule: the atom at index `atom` has the choice at index
/// `choice` of that atom.
#[derive(Clone, Copy, Debug, PartialEq, Eq, Structural)]
pub struct Condition {
    pub atom: usize,
    pub choice: usize,
}

/// What a rule asserts once all its conditions hold.
#[derive(Clone, Copy, Debug, PartialEq, Eq, Structural)]
pub enum Conclusion {
    Fact { atom: usize, choice: usize },
    Goal { goal: usize },
}

/// A conjunction of conditions with its conclusion.
pub struct Rule {
    pub conditions: Vec<Condition>,
    pub conclusion: Conclusion,
}

/// The closed set of atoms, rules and goals. Goals are the root goals, tried in
/// this order. `ranks` orders the atoms so that every condition of a rule that
/// concludes an atom has a smaller rank than that atom: it witnesses that no atom
/// depends on itself.
pub struct KnowledgeBase {
    pub atoms: Vec<Atom>,
    pub rules: Vec<Rule>,
    pub goals: Vec<String>,
    pub ranks: Vec<usize>,
}

impl KnowledgeBase {
    pub open spec fn num_atoms(&self) -> int {
        self.atoms@.len() as int
    }

    pub open spec fn num_choices(&self, a: int) -> int {
        self.atoms@[a].choices@.len() as int
    }

    pub open spec fn askable(&self, a: int) -> bool {
        self.atoms@[a].prompt is Some
    }

    pub open spec fn rule(&self, r: int) -> &Rule {
        &self.rules@[r]
    }

    pub open spec fn cond(&self, r: int, j: int) -> Condition {
        self.rules@[r].conditions@[j]
    }

    pub open spec fn num_conds(&self, r: int) -> int {
        self.rules@[r].conditions@.len() as int
    }

    pub open spec fn valid_pair(&self, a: int, c: int) -> bool {
        0 <= a < self.num_atoms() && 0 <= c < self.num_choices(a)
    }

    pub open spec fn valid_conclusion(&self, k: Conclusion) -> bool {
        match k {
            Conclusion::Fact { atom, choice } => self.valid_pair(atom as int, choice as int),
            Conclusion::Goal { goal } => goal < self.goals@.len(),
        }
    }

    /// The level of a conclusion in the dependency order: an atom's rank, or, for
    /// a goal, one above every rank.
    pub open spec fn level(&self, k: Conclusion) -> int {
        match k {
            Conclusion::Fact { atom, choice } => self.ranks@[atom as int] as int,
            Conclusion::Goal { goal } => self.num_atoms(),
        }
    }

    pub open spec fn rule_wf(&self, r: int) -> bool {
        &&& self.valid_conclusion(self.rule(r).conclusion)
        &&& (self.rule(r).conclusion matches Conclusion::Fact { atom, choice } ==> !self.askable(atom as int))
        &&& forall|j: int|
            0 <= j < self.num_conds(r) ==> {
                let c = #[trigger] self.cond(r, j);
                &&& self.valid_pair(c.atom as int, c.choice as int)
                &&& self.ranks@[c.atom as int] < self.level(self.rule(r).conclusion)
            }
    }

    pub open spec fn names_unique(&self) -> bool {
        forall|a: int, b: int|
            0 <= a < self.num_atoms() && 0 <= b < self.num_atoms() && a != b
                ==> #[trigger] self.atoms@[a].name@ != #[trigger] self.atoms@[b].name@
    }

    /// Every reference is declared, atom names are unique, no rule concludes an
    /// askable atom, and the ranks witness that the conclusion dependencies have
    /// no cycle.
    pub open spec fn wf(&self) -> bool {
        &&& self.ranks@.len() == self.num_atoms()
        &&& forall|a: int| 0 <= a < self.num_atoms() ==> #[trigger] self.ranks@[a] < self.num_atoms()
        &&& forall|r: int| 0 <= r < self.rules@.len() ==> #[trigger] self.rule_wf(r)
        &&& self.names_unique()
    }

    /// A fact store for this base: one optional choice index per atom.
    pub open spec fn valid_facts(&self, facts: Seq<Option<usize>>) -> bool {
        &&& facts.len() == self.num_atoms()
        &&& forall|a: int|
            0 <= a < facts.len() && (#[trigger] facts[a]) is Some
                ==> facts[a]->0 < self.num_choices(a)
    }
}

} // verus!
