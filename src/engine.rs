//! The engine: a knowledge base with the facts answered so far, and the
//! question and answer values handed to callers.
use vstd::prelude::*;
use crate::inference::{next_question, next_question_atom, reached, reached_goal};
use crate::document::load;
use crate::loader::{find_atom, find_choice, LoadError};
use crate::model::KnowledgeBase;

verus! {

/// A question for an askable atom: its name, its prompt and its choices in order.
#[derive(Debug)]
pub struct Question {
    pub atom_name: String,
    pub prompt_text: String,
    pub choices: Vec<String>,
}

/// The text of a goal that was reached.
#[derive(Debug)]
pub struct Answer {
    pub text: String,
}

/// Why a fact was refused.
#[derive(Debug)]
pub enum FactError {
    /// No atom has this name.
    UnknownAtom { name: String },
    /// The atom does not declare this choice.
    UnknownChoice { atom: String, choice: String },
}

/// A knowledge base with the facts answered so far, one optional choice per atom.
pub struct Engine {
    pub kb: KnowledgeBase,
    pub facts: Vec<Option<usize>>,
}

/// `q` presents atom `a` of `kb`.
pub open spec fn presents(kb: &KnowledgeBase, a: int, q: Question) -> bool {
    &&& q.atom_name@ == kb.atoms@[a].name@
    &&& kb.atoms@[a].prompt matches Some(p) && q.prompt_text@ == p@
    &&& q.choices@.len() == kb.atoms@[a].choices@.len()
    &&& forall|i: int| 0 <= i < q.choices@.len() ==> (#[trigger] q.choices@[i])@ == kb.atoms@[a].choices@[i]@
}

/// The atom named `name`, if one is.
pub open spec fn atom_named(kb: &KnowledgeBase, name: Seq<char>) -> Option<int> {
    if exists|a: int| 0 <= a < kb.num_atoms() && (#[trigger] kb.atoms@[a]).name@ == name {
        Some(choose|a: int| 0 <= a < kb.num_atoms() && (#[trigger] kb.atoms@[a]).name@ == name)
    } else {
        None
    }
}

/// `c` is the first choice of atom `a` with this text.
pub open spec fn first_choice(kb: &KnowledgeBase, a: int, choice: Seq<char>, c: int) -> bool {
    &&& 0 <= c < kb.num_choices(a)
    &&& kb.atoms@[a].choices@[c]@ == choice
    &&& forall|k: int| 0 <= k < c ==> (#[trigger] kb.atoms@[a].choices@[k])@ != choice
}

/// The index of the first choice of atom `a` with this text, if one is.
pub open spec fn choice_named(kb: &KnowledgeBase, a: int, choice: Seq<char>) -> Option<int> {
    if exists|c: int| first_choice(kb, a, choice, c) {
        Some(choose|c: int| first_choice(kb, a, choice, c))
    } else {
        None
    }
}

/// The atom and choice indices that an answer names, if it names a declared
/// atom and one of its choices.
pub open spec fn fact_of(kb: &KnowledgeBase, name: Seq<char>, choice: Seq<char>) -> Option<(int, int)> {
    match atom_named(kb, name) {
        Some(a) => match choice_named(kb, a, choice) {
            Some(c) => Some((a, c)),
            None => None,
        },
        None => None,
    }
}

proof fn lemma_first_choice_unique(kb: &KnowledgeBase, a: int, choice: Seq<char>, c: int)
    requires
        first_choice(kb, a, choice, c),
    ensures
        choice_named(kb, a, choice) == Some(c),
{
    let d = choose|d: int| first_choice(kb, a, choice, d);
    if d < c {
        assert(kb.atoms@[a].choices@[d]@ != choice);
    } else if c < d {
        assert(kb.atoms@[a].choices@[c]@ != choice);
    }
}

impl Engine {
    pub open spec fn wf(&self) -> bool {
        self.kb.wf() && self.kb.valid_facts(self.facts@)
    }

    /// An engine on `kb` with no fact answered yet.
    pub fn new(kb: KnowledgeBase) -> (e: Engine)
        requires
            kb.wf(),
        ensures
            e.wf(),
            e.kb == kb,
            forall|a: int| 0 <= a < e.facts@.len() ==> (#[trigger] e.facts@[a]) is None,
    {
        let mut facts: Vec<Option<usize>> = Vec::new();
        for a in 0..kb.atoms.len()
            invariant
                facts@.len() == a,
                forall|x: int| 0 <= x < a ==> (#[trigger] facts@[x]) is None,
        {
            facts.push(None);
        }
        Engine { kb, facts }
    }

    /// Answer atom `atom_name` with `choice`. The fact replaces any earlier answer
    /// for that atom. An unknown atom or choice is refused and changes nothing.
    pub fn set_fact(&mut self, atom_name: &str, choice: &str) -> (r: Result<(), FactError>)
        requires
            old(self).wf(),
        ensures
            final(self).wf(),
            final(self).kb == old(self).kb,
            r is Ok <==> fact_of(&old(self).kb, atom_name@, choice@) is Some,
            r is Err ==> final(self).facts@ == old(self).facts@,
            r matches Err(FactError::UnknownAtom { .. }) <==> atom_named(&old(self).kb, atom_name@) is None,
            r is Ok ==> {
                let (a, c) = fact_of(&old(self).kb, atom_name@, choice@)->0;
                final(self).facts@ == old(self).facts@.update(a, Some(c as usize))
            },
    {
        let a = match find_atom(&self.kb.atoms, atom_name) {
            Some(a) => a,
            None => {
                proof {
                    assert(atom_named(&self.kb, atom_name@) is None);
                }
                return Err(FactError::UnknownAtom { name: atom_name.to_string() });
            },
        };
        proof {
            assert(self.kb.names_unique());
            assert(atom_named(&self.kb, atom_name@) == Some(a as int));
        }
        match find_choice(&self.kb.atoms[a], choice) {
            None => {
                proof {
                    assert(!exists|c: int| first_choice(&self.kb, a as int, choice@, c));
                }
                Err(FactError::UnknownChoice { atom: atom_name.to_string(), choice: choice.to_string() })
            },
            Some(c) => {
                proof {
                    lemma_first_choice_unique(&self.kb, a as int, choice@, c as int);
                }
                self.facts.set(a, Some(c));
                Ok(())
            },
        }
    }

    /// The next question to ask, found by backward chaining: goals in declaration
    /// order, rules in declaration order, conditions left to right. `None` when no
    /// goal waits on an unanswered askable atom.
    pub fn next_question(&self) -> (r: Option<Question>)
        requires
            self.wf(),
        ensures
            r is None <==> next_question(&self.kb, self.facts@) is None,
            r matches Some(q) ==> presents(&self.kb, next_question(&self.kb, self.facts@)->0 as int, q),
    {
        match next_question_atom(&self.kb, &self.facts) {
            None => None,
            Some(a) => {
                proof {
                    crate::laws::lemma_question_is_open(&self.kb, self.facts@);
                }
                Some(question_of(&self.kb, a))
            },
        }
    }

    /// The first goal, in declaration order, that the facts prove.
    pub fn reached_goal(&self) -> (r: Option<Answer>)
        requires
            self.wf(),
        ensures
            r is None <==> reached(&self.kb, self.facts@) is None,
            r matches Some(ans) ==> ans.text@ == self.kb.goals@[reached(&self.kb, self.facts@)->0 as int]@,
    {
        match reached_goal(&self.kb, &self.facts) {
            None => None,
            Some(g) => {
                proof {
                    crate::inference::lemma_first_goal_in_range(&self.kb, self.facts@, 0);
                }
                Some(Answer { text: self.kb.goals[g].clone() })
            },
        }
    }
}

/// The question for askable atom `a`.
pub fn question_of(kb: &KnowledgeBase, a: usize) -> (q: Question)
    requires
        a < kb.num_atoms(),
        kb.askable(a as int),
    ensures
        presents(kb, a as int, q),
{
    let atom = &kb.atoms[a];
    let mut choices: Vec<String> = Vec::new();
    for i in 0..atom.choices.len()
        invariant
            choices@.len() == i,
            forall|k: int| 0 <= k < i ==> (#[trigger] choices@[k])@ == atom.choices@[k]@,
    {
        choices.push(atom.choices[i].clone());
    }
    let prompt_text = match &atom.prompt {
        Some(p) => p.clone(),
        None => String::new(),
    };
    Question { atom_name: atom.name.clone(), prompt_text, choices }
}

/// Load the knowledge base defined by `definition`, in either notation, and
/// start an engine on it with no fact answered.
pub fn prepare_engine(definition: &str) -> (r: Result<Engine, LoadError>)
    ensures
        r matches Ok(e) ==> e.wf() && forall|a: int| 0 <= a < e.facts@.len() ==> (#[trigger] e.facts@[a]) is None,
{
    match load(definition) {
        Ok(kb) => Ok(Engine::new(kb)),
        Err(e) => Err(e),
    }
}

} // verus!
