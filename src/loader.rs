//! Loading a knowledge base from its line-oriented textual definition.
//!
//! Each line is blank, a comment starting with `#`, or one declaration:
//!
//! ```text
//! atom <name> <choice> <choice> ...
//! ask <name> <prompt text>
//! rule <atom>=<choice> ... -> <atom>=<choice>
//! rule <atom>=<choice> ... -> goal <goal text>
//! ```
//!
//! An atom is declared before any line that names it. A goal is declared by the
//! first rule that concludes it; goals are tried in that order.
use vstd::prelude::*;
use crate::model::{Atom, Conclusion, Condition, KnowledgeBase, Rule};
use crate::ranking::{concl_atom, is_cycle, lemma_cycle_excludes_ranks, rank_atoms, ranks_ok};
use crate::text::{chars_of, is_word, split_lines, str_eq, string_of, sub_chars, trimmed_rest, words};

verus! {

/// Why a definition was refused. Line numbers count from 1.
#[derive(Debug)]
pub enum LoadError {
    /// A line that is no declaration of the notation.
    Syntax { line: usize },
    /// A second atom with a name already declared.
    DuplicateAtom { line: usize, name: String },
    /// A reference to an atom that is not declared.
    UnknownAtom { line: usize, name: String },
    /// A reference to a choice that its atom does not declare.
    UnknownChoice { line: usize, atom: String, choice: String },
    /// Atoms whose conclusions depend on each other in a circle, each on the next
    /// and the last on the first.
    Cycle { atoms: Vec<String> },
    /// A rule that concludes an askable atom, which must be a leaf fact.
    AskedConclusion { atom: String },
}

/// The index of the atom named `name`.
pub fn find_atom(atoms: &Vec<Atom>, name: &str) -> (r: Option<usize>)
    ensures
        r matches Some(i) ==> i < atoms@.len() && atoms@[i as int].name@ == name@,
        r is None ==> forall|i: int| 0 <= i < atoms@.len() ==> (#[trigger] atoms@[i]).name@ != name@,
{
    for i in 0..atoms.len()
        invariant
            forall|k: int| 0 <= k < i ==> (#[trigger] atoms@[k]).name@ != name@,
    {
        if str_eq(atoms[i].name.as_str(), name) {
            return Some(i);
        }
    }
    None
}

/// The index of `choice` among the choices of `atom`.
pub fn find_choice(atom: &Atom, choice: &str) -> (r: Option<usize>)
    ensures
        r matches Some(i) ==> i < atom.choices@.len() && atom.choices@[i as int]@ == choice@ && forall|k: int|
            0 <= k < i ==> (#[trigger] atom.choices@[k])@ != choice@,
        r is None ==> forall|i: int| 0 <= i < atom.choices@.len() ==> (#[trigger] atom.choices@[i])@ != choice@,
{
    for i in 0..atom.choices.len()
        invariant
            forall|k: int| 0 <= k < i ==> (#[trigger] atom.choices@[k])@ != choice@,
    {
        if str_eq(atom.choices[i].as_str(), choice) {
            return Some(i);
        }
    }
    None
}

/// Names are pairwise distinct.
pub open spec fn distinct_names(atoms: Seq<Atom>) -> bool {
    forall|a: int, b: int|
        0 <= a < atoms.len() && 0 <= b < atoms.len() && a != b ==> #[trigger] atoms[a].name@
            != #[trigger] atoms[b].name@
}

/// Every reference of the rules is to a declared atom, choice or goal.
pub open spec fn rules_declared(atoms: Seq<Atom>, rules: Seq<Rule>, num_goals: int) -> bool {
    forall|r: int|
        0 <= r < rules.len() ==> {
            &&& match (#[trigger] rules[r]).conclusion {
                Conclusion::Fact { atom, choice } => atom < atoms.len() && choice
                    < atoms[atom as int].choices@.len(),
                Conclusion::Goal { goal } => goal < num_goals,
            }
            &&& forall|j: int|
                0 <= j < rules[r].conditions@.len() ==> {
                    let c = #[trigger] rules[r].conditions@[j];
                    c.atom < atoms.len() && c.choice < atoms[c.atom as int].choices@.len()
                }
        }
}

/// `e` is the index of the first `=` of `tok`.
pub open spec fn first_eq(tok: Seq<char>, e: int) -> bool {
    0 <= e < tok.len() && tok[e] == '=' && forall|k: int| 0 <= k < e ==> tok[k] != '='
}

/// The index of the atom named `name`, if one is.
pub open spec fn index_named(atoms: Seq<Atom>, name: Seq<char>) -> Option<int> {
    if exists|a: int| 0 <= a < atoms.len() && (#[trigger] atoms[a]).name@ == name {
        Some(choose|a: int| 0 <= a < atoms.len() && (#[trigger] atoms[a]).name@ == name)
    } else {
        None
    }
}

/// `c` is the first choice of `atom` with this text.
pub open spec fn first_choice_of(atom: Atom, choice: Seq<char>, c: int) -> bool {
    &&& 0 <= c < atom.choices@.len()
    &&& atom.choices@[c]@ == choice
    &&& forall|k: int| 0 <= k < c ==> (#[trigger] atom.choices@[k])@ != choice
}

/// The index of the first choice of `atom` with this text, if one is.
pub open spec fn index_choice(atom: Atom, choice: Seq<char>) -> Option<int> {
    if exists|c: int| first_choice_of(atom, choice, c) {
        Some(choose|c: int| first_choice_of(atom, choice, c))
    } else {
        None
    }
}

/// The condition that the word `atom=choice` names: split at its first `=`,
/// with text on both sides, the atom declared and the choice one of its own.
pub open spec fn resolve_pair(atoms: Seq<Atom>, tok: Seq<char>) -> Option<Condition> {
    if exists|e: int| first_eq(tok, e) {
        let e = choose|e: int| first_eq(tok, e);
        if e == 0 || e + 1 >= tok.len() {
            None
        } else {
            match index_named(atoms, tok.subrange(0, e)) {
                Some(a) => match index_choice(atoms[a], tok.subrange(e + 1, tok.len() as int)) {
                    Some(c) => Some(Condition { atom: a as usize, choice: c as usize }),
                    None => None,
                },
                None => None,
            }
        }
    } else {
        None
    }
}

proof fn lemma_first_eq_unique(tok: Seq<char>, e: int)
    requires
        first_eq(tok, e),
    ensures
        (choose|d: int| first_eq(tok, d)) == e,
{
    let d = choose|d: int| first_eq(tok, d);
    if d < e {
        assert(tok[d] != '=');
    } else if e < d {
        assert(tok[e] != '=');
    }
}

proof fn lemma_index_named(atoms: Seq<Atom>, name: Seq<char>, a: int)
    requires
        distinct_names(atoms),
        0 <= a < atoms.len(),
        atoms[a].name@ == name,
    ensures
        index_named(atoms, name) == Some(a),
{
}

proof fn lemma_index_choice(atom: Atom, choice: Seq<char>, c: int)
    requires
        first_choice_of(atom, choice, c),
    ensures
        index_choice(atom, choice) == Some(c),
{
    let d = choose|d: int| first_choice_of(atom, choice, d);
    if d < c {
        assert(atom.choices@[d]@ != choice);
    } else if c < d {
        assert(atom.choices@[c]@ != choice);
    }
}

/// Resolve `atom=choice` against the declared atoms.
fn parse_pair(atoms: &Vec<Atom>, tok: &Vec<char>, line: usize) -> (r: Result<Condition, LoadError>)
    requires
        distinct_names(atoms@),
    ensures
        r is Ok <==> resolve_pair(atoms@, tok@) is Some,
        r matches Ok(c) ==> c == resolve_pair(atoms@, tok@)->0,
        r matches Ok(c) ==> c.atom < atoms@.len() && c.choice < atoms@[c.atom as int].choices@.len(),
{
    let mut eq: usize = tok.len();
    for i in 0..tok.len()
        invariant
            eq == tok@.len() ==> forall|k: int| 0 <= k < i ==> tok@[k] != '=',
            eq < tok@.len() ==> first_eq(tok@, eq as int),
            eq <= tok@.len(),
    {
        if eq == tok.len() && tok[i] == '=' {
            eq = i;
        }
    }
    if eq == tok.len() {
        proof {
            assert(!exists|e: int| first_eq(tok@, e));
        }
        return Err(LoadError::Syntax { line });
    }
    proof {
        lemma_first_eq_unique(tok@, eq as int);
    }
    if eq == 0 || tok.len() - eq < 2 {
        return Err(LoadError::Syntax { line });
    }
    let name_chars = sub_chars(tok, 0, eq);
    let choice_chars = sub_chars(tok, eq + 1, tok.len());
    let name = string_of(name_chars.as_slice());
    let choice = string_of(choice_chars.as_slice());
    match find_atom(atoms, name.as_str()) {
        None => {
            proof {
                assert(index_named(atoms@, tok@.subrange(0, eq as int)) is None);
            }
            Err(LoadError::UnknownAtom { line, name })
        },
        Some(a) => {
            proof {
                lemma_index_named(atoms@, tok@.subrange(0, eq as int), a as int);
            }
            match find_choice(&atoms[a], choice.as_str()) {
                None => {
                    proof {
                        assert(!exists|c: int| first_choice_of(atoms@[a as int], choice@, c));
                    }
                    Err(LoadError::UnknownChoice { line, atom: name, choice })
                },
                Some(c) => {
                    proof {
                        lemma_index_choice(atoms@[a as int], choice@, c as int);
                    }
                    Ok(Condition { atom: a, choice: c })
                },
            }
        },
    }
}

/// The index of the goal with text `text`, declared now if it is new.
fn goal_index(goals: &mut Vec<String>, text: String) -> (g: usize)
    ensures
        g < final(goals)@.len(),
        final(goals)@[g as int]@ == text@,
        final(goals)@.len() >= old(goals)@.len(),
        final(goals)@.subrange(0, old(goals)@.len() as int) == old(goals)@,
{
    for i in 0..goals.len()
        invariant
            goals@ == old(goals)@,
    {
        if str_eq(goals[i].as_str(), text.as_str()) {
            return i;
        }
    }
    goals.push(text);
    proof {
        assert(goals@.subrange(0, old(goals)@.len() as int) =~= old(goals)@);
    }
    goals.len() - 1
}

/// No rule concludes an askable atom.
pub open spec fn leaves_askable(atoms: Seq<Atom>, rules: Seq<Rule>) -> bool {
    forall|r: int|
        0 <= r < rules.len() && (#[trigger] concl_atom(rules[r])) is Some ==> atoms[concl_atom(
            rules[r],
        )->0 as int].prompt is None
}

proof fn lemma_wf(atoms: Seq<Atom>, rules: Seq<Rule>, kb: &KnowledgeBase)
    requires
        kb.atoms@ == atoms,
        kb.rules@ == rules,
        distinct_names(atoms),
        leaves_askable(atoms, rules),
        rules_declared(atoms, rules, kb.goals@.len() as int),
        ranks_ok(rules, atoms.len() as int, kb.ranks@),
    ensures
        kb.wf(),
{
    assert forall|r: int| 0 <= r < kb.rules@.len() implies #[trigger] kb.rule_wf(r) by {
        let rule = rules[r];
        assert forall|j: int| 0 <= j < kb.num_conds(r) implies {
            let c = #[trigger] kb.cond(r, j);
            &&& kb.valid_pair(c.atom as int, c.choice as int)
            &&& kb.ranks@[c.atom as int] < kb.level(kb.rule(r).conclusion)
        } by {
            let c = rules[r].conditions@[j];
            assert(c.atom < atoms.len());
            match rule.conclusion {
                Conclusion::Fact { atom, choice } => {
                    assert(concl_atom(rules[r]) == Some(atom));
                },
                Conclusion::Goal { goal } => {},
            }
        }
        match rule.conclusion {
            Conclusion::Fact { atom, choice } => {
                assert(concl_atom(rules[r]) == Some(atom));
            },
            Conclusion::Goal { goal } => {},
        }
    }
}

/// An askable atom that some rule concludes, if there is one.
fn asked_conclusion(atoms: &Vec<Atom>, rules: &Vec<Rule>) -> (r: Option<usize>)
    requires
        forall|x: int|
            0 <= x < rules@.len() && (#[trigger] concl_atom(rules@[x])) is Some ==> concl_atom(rules@[x])->0
                < atoms@.len(),
    ensures
        r is None <==> leaves_askable(atoms@, rules@),
        r matches Some(a) ==> a < atoms@.len(),
{
    for r in 0..rules.len()
        invariant
            forall|x: int|
                0 <= x < rules@.len() && (#[trigger] concl_atom(rules@[x])) is Some ==> concl_atom(rules@[x])->0
                    < atoms@.len(),
            forall|x: int|
                0 <= x < r && (#[trigger] concl_atom(rules@[x])) is Some ==> atoms@[concl_atom(
                    rules@[x],
                )->0 as int].prompt is None,
    {
        match rules[r].conclusion {
            Conclusion::Fact { atom, choice } => {
                proof {
                    assert(concl_atom(rules@[r as int]) == Some(atom));
                }
                if atoms[atom].prompt.is_some() {
                    return Some(atom);
                }
            },
            Conclusion::Goal { goal } => {
                proof {
                    assert(concl_atom(rules@[r as int]) is None);
                }
            },
        }
    }
    None
}

/// The declarations read so far.
pub struct Builder {
    pub atoms: Vec<Atom>,
    pub rules: Vec<Rule>,
    pub goals: Vec<String>,
}

/// What a rule concludes, as written: an `atom=choice` word, or a goal's text.
pub enum RuleEnd {
    Fact { pair: Vec<char> },
    Goal { text: String },
}

impl Builder {
    /// Names are distinct and every reference of the rules is declared.
    pub open spec fn inv(&self) -> bool {
        distinct_names(self.atoms@) && rules_declared(self.atoms@, self.rules@, self.goals@.len() as int)
    }

    pub fn new() -> (b: Builder)
        ensures
            b.inv(),
    {
        Builder { atoms: Vec::new(), rules: Vec::new(), goals: Vec::new() }
    }

    /// Declare atom `name` with its choices; a name already declared is refused.
    pub fn declare_atom(&mut self, name: String, choices: Vec<String>, line: usize) -> (r: Result<(), LoadError>)
        requires
            old(self).inv(),
        ensures
            final(self).inv(),
            r is Ok <==> forall|i: int| 0 <= i < old(self).atoms@.len() ==> (#[trigger] old(self).atoms@[i]).name@ != name@,
            r is Ok ==> final(self).atoms@ == old(self).atoms@.push((Atom { name, choices, prompt: None })),
            r is Err ==> (r matches Err(LoadError::DuplicateAtom { .. })) && final(self).atoms@ == old(self).atoms@,
            final(self).rules@ == old(self).rules@,
            final(self).goals@ == old(self).goals@,
    {
        if find_atom(&self.atoms, name.as_str()).is_some() {
            return Err(LoadError::DuplicateAtom { line, name });
        }
        let ghost before = self.atoms@;
        self.atoms.push(Atom { name, choices, prompt: None });
        proof {
            let atoms = self.atoms@;
            let rules = self.rules@;
            assert forall|r: int| 0 <= r < rules.len() implies {
                &&& match (#[trigger] rules[r]).conclusion {
                    Conclusion::Fact { atom, choice } => atom < atoms.len() && choice
                        < atoms[atom as int].choices@.len(),
                    Conclusion::Goal { goal } => goal < self.goals@.len(),
                }
                &&& forall|j: int|
                    0 <= j < rules[r].conditions@.len() ==> {
                        let c = #[trigger] rules[r].conditions@[j];
                        c.atom < atoms.len() && c.choice < atoms[c.atom as int].choices@.len()
                    }
            } by {
                assert forall|j: int| 0 <= j < rules[r].conditions@.len() implies {
                    let c = #[trigger] rules[r].conditions@[j];
                    c.atom < atoms.len() && c.choice < atoms[c.atom as int].choices@.len()
                } by {
                    let c = rules[r].conditions@[j];
                    assert(atoms[c.atom as int] == before[c.atom as int]);
                }
                match rules[r].conclusion {
                    Conclusion::Fact { atom, choice } => {
                        assert(atoms[atom as int] == before[atom as int]);
                    },
                    Conclusion::Goal { goal } => {},
                }
            }
        }
        Ok(())
    }

    /// Give the declared atom `name` its prompt, which makes it askable.
    pub fn declare_question(&mut self, name: String, prompt: String, line: usize) -> (r: Result<(), LoadError>)
        requires
            old(self).inv(),
        ensures
            final(self).inv(),
            r is Ok <==> exists|i: int| 0 <= i < old(self).atoms@.len() && (#[trigger] old(self).atoms@[i]).name@ == name@,
            r is Err ==> (r matches Err(LoadError::UnknownAtom { .. })) && final(self).atoms@ == old(self).atoms@,
            final(self).atoms@.len() == old(self).atoms@.len(),
            forall|i: int| 0 <= i < final(self).atoms@.len() ==> {
                &&& (#[trigger] final(self).atoms@[i]).name == old(self).atoms@[i].name
                &&& final(self).atoms@[i].choices == old(self).atoms@[i].choices
                &&& final(self).atoms@[i].prompt == if r is Ok && old(self).atoms@[i].name@ == name@ {
                    Some(prompt)
                } else {
                    old(self).atoms@[i].prompt
                }
            },
            final(self).rules@ == old(self).rules@,
            final(self).goals@ == old(self).goals@,
    {
        let a = match find_atom(&self.atoms, name.as_str()) {
            Some(a) => a,
            None => {
                return Err(LoadError::UnknownAtom { line, name });
            },
        };
        let ghost before = self.atoms@;
        let mut atom = self.atoms.remove(a);
        atom.prompt = Some(prompt);
        self.atoms.insert(a, atom);
        proof {
            assert(forall|x: int|
                0 <= x < self.atoms@.len() ==> (#[trigger] self.atoms@[x]).name@ == before[x].name@
                    && self.atoms@[x].choices@ == before[x].choices@);
            assert forall|x: int| 0 <= x < self.atoms@.len() && x != a implies before[x].name@ != name@ by {
                assert(before[x].name@ != before[a as int].name@);
            }
        }
        Ok(())
    }

    /// Declare a rule whose conditions are the `atom=choice` words of `conds`.
    pub fn declare_rule(&mut self, conds: &Vec<Vec<char>>, end: RuleEnd, line: usize) -> (r: Result<(), LoadError>)
        requires
            old(self).inv(),
        ensures
            final(self).inv(),
            final(self).atoms@ == old(self).atoms@,
            r is Ok <==> {
                &&& conds@.len() > 0
                &&& forall|k: int| 0 <= k < conds@.len() ==> (#[trigger] resolve_pair(old(self).atoms@, conds@[k]@)) is Some
                &&& (end matches RuleEnd::Fact { pair } ==> resolve_pair(old(self).atoms@, pair@) is Some)
            },
            r is Ok ==> {
                let last = final(self).rules@.last();
                &&& final(self).rules@.len() == old(self).rules@.len() + 1
                &&& final(self).rules@.subrange(0, old(self).rules@.len() as int) == old(self).rules@
                &&& last.conditions@.len() == conds@.len()
                &&& forall|k: int| 0 <= k < conds@.len() ==> (#[trigger] last.conditions@[k]) == resolve_pair(old(self).atoms@, conds@[k]@)->0
                &&& match end {
                    RuleEnd::Fact { pair } => {
                        let c = resolve_pair(old(self).atoms@, pair@)->0;
                        last.conclusion == (Conclusion::Fact { atom: c.atom, choice: c.choice })
                    },
                    RuleEnd::Goal { text } => (last.conclusion matches Conclusion::Goal { goal }
                        && goal < final(self).goals@.len() && final(self).goals@[goal as int]@ == text@),
                }
            },
            r is Err ==> final(self).rules@ == old(self).rules@ && final(self).goals@ == old(self).goals@,
            final(self).goals@.subrange(0, old(self).goals@.len() as int) == old(self).goals@,
    {
        if conds.len() == 0 {
            return Err(LoadError::Syntax { line });
        }
        let mut conditions: Vec<Condition> = Vec::new();
        proof {
            assert(self.goals@.subrange(0, self.goals@.len() as int) =~= self.goals@);
        }
        for k in 0..conds.len()
            invariant
                self.inv(),
                *self == *old(self),
                conditions@.len() == k,
                forall|j: int| 0 <= j < conditions@.len() ==> {
                    let c = #[trigger] conditions@[j];
                    c.atom < self.atoms@.len() && c.choice < self.atoms@[c.atom as int].choices@.len()
                },
                forall|j: int| 0 <= j < k ==> ((#[trigger] resolve_pair(self.atoms@, conds@[j]@)) matches Some(c) && conditions@[j] == c),
        {
            match parse_pair(&self.atoms, &conds[k], line) {
                Ok(c) => conditions.push(c),
                Err(e) => {
                    return Err(e);
                },
            }
        }
        let conclusion = match end {
            RuleEnd::Goal { text } => {
                let g = goal_index(&mut self.goals, text);
                Conclusion::Goal { goal: g }
            },
            RuleEnd::Fact { pair } => match parse_pair(&self.atoms, &pair, line) {
                Ok(c) => Conclusion::Fact { atom: c.atom, choice: c.choice },
                Err(e) => {
                    return Err(e);
                },
            },
        };
        let ghost before = self.rules@;
        self.rules.push(Rule { conditions, conclusion });
        proof {
            assert(self.rules@.subrange(0, before.len() as int) =~= before);
        }
        Ok(())
    }

    /// The knowledge base declared, once no atom's conclusion depends on itself;
    /// else the atoms of a circle of dependencies.
    pub fn finish(self) -> (r: Result<KnowledgeBase, LoadError>)
        requires
            self.inv(),
        ensures
            r is Ok <==> leaves_askable(self.atoms@, self.rules@) && exists|ranks: Seq<usize>|
                ranks_ok(self.rules@, self.atoms@.len() as int, ranks),
            r matches Err(LoadError::AskedConclusion { .. }) <==> !leaves_askable(self.atoms@, self.rules@),
            r is Err ==> (r matches Err(LoadError::Cycle { .. })) || (r matches Err(LoadError::AskedConclusion { .. })),
            r matches Err(LoadError::Cycle { atoms }) ==> exists|path: Seq<usize>| {
                &&& is_cycle(self.rules@, path)
                &&& atoms@.len() == path.len()
                &&& forall|i: int| 0 <= i < path.len() ==> #[trigger] path[i] < self.atoms@.len()
                    && atoms@[i]@ == self.atoms@[path[i] as int].name@
            },
            r matches Ok(kb) ==> kb.wf() && kb.atoms@ == self.atoms@ && kb.rules@ == self.rules@ && kb.goals@
                == self.goals@,
    {
        let Builder { atoms, rules, goals } = self;
        proof {
            assert forall|r: int| 0 <= r < rules@.len() && (#[trigger] concl_atom(rules@[r])) is Some
                implies concl_atom(rules@[r])->0 < atoms@.len() by {
                match rules@[r].conclusion {
                    Conclusion::Fact { atom, choice } => {},
                    Conclusion::Goal { goal } => {},
                }
            }
            assert forall|r: int, j: int| 0 <= r < rules@.len() && 0 <= j < rules@[r].conditions@.len()
                implies #[trigger] rules@[r].conditions@[j].atom < atoms@.len() by {
                assert(rules@[r] == rules@[r]);
            }
        }
        match asked_conclusion(&atoms, &rules) {
            Some(a) => {
                return Err(LoadError::AskedConclusion { atom: atoms[a].name.clone() });
            },
            None => {},
        }
        match rank_atoms(&rules, atoms.len()) {
            Err(path) => {
                let mut names: Vec<String> = Vec::new();
                for i in 0..path.len()
                    invariant
                        forall|k: int| 0 <= k < path@.len() ==> #[trigger] path@[k] < atoms@.len(),
                        names@.len() == i,
                        forall|k: int| 0 <= k < i ==> (#[trigger] names@[k])@ == atoms@[path@[k] as int].name@,
                {
                    names.push(atoms[path[i]].name.clone());
                }
                proof {
                    assert(is_cycle(rules@, path@));
                }
                proof {
                    assert forall|ranks: Seq<usize>| !ranks_ok(rules@, atoms@.len() as int, ranks) by {
                        lemma_cycle_excludes_ranks(rules@, atoms@.len() as int, ranks, path@);
                    }
                }
                Err(LoadError::Cycle { atoms: names })
            },
            Ok(ranks) => {
                let kb = KnowledgeBase { atoms, rules, goals, ranks };
                proof {
                    lemma_wf(kb.atoms@, kb.rules@, &kb);
                    assert(ranks_ok(kb.rules@, kb.atoms@.len() as int, kb.ranks@));
                }
                Ok(kb)
            },
        }
    }
}

/// Load a knowledge base from its line-oriented definition. What is returned is
/// well formed: every reference is declared, atom names are unique, and no
/// atom's conclusion depends on itself; a circle of dependencies is refused with
/// the atoms that form it.
pub fn parse_knowledge_base(text: &str) -> (r: Result<KnowledgeBase, LoadError>)
    ensures
        r matches Ok(kb) ==> kb.wf(),
{
    let chars = chars_of(text);
    let lines = split_lines(&chars);
    let mut b = Builder::new();
    let mut li: usize = 0;
    while li < lines.len()
        invariant
            li <= lines@.len(),
            b.inv(),
        decreases lines@.len() - li,
    {
        let line = &lines[li];
        li = li + 1;
        let ln = li;
        let ws = words(line, 0);
        if ws.len() == 0 || ws[0].0[0] == '#' {
            continue;
        }
        if is_word(&ws[0].0, "atom") {
            if ws.len() < 3 {
                return Err(LoadError::Syntax { line: ln });
            }
            let name = string_of(ws[1].0.as_slice());
            let mut choices: Vec<String> = Vec::new();
            for k in 2..ws.len() {
                choices.push(string_of(ws[k].0.as_slice()));
            }
            match b.declare_atom(name, choices, ln) {
                Ok(()) => {},
                Err(e) => {
                    return Err(e);
                },
            }
        } else if is_word(&ws[0].0, "ask") {
            if ws.len() < 3 {
                return Err(LoadError::Syntax { line: ln });
            }
            let name = string_of(ws[1].0.as_slice());
            let prompt = string_of(trimmed_rest(line, ws[2].1).as_slice());
            match b.declare_question(name, prompt, ln) {
                Ok(()) => {},
                Err(e) => {
                    return Err(e);
                },
            }
        } else if is_word(&ws[0].0, "rule") {
            let mut arrow: usize = 0;
            for k in 1..ws.len()
                invariant
                    arrow < ws@.len(),
            {
                if arrow == 0 && is_word(&ws[k].0, "->") {
                    arrow = k;
                }
            }
            if arrow < 2 || ws.len() - arrow < 2 {
                return Err(LoadError::Syntax { line: ln });
            }
            let mut conds: Vec<Vec<char>> = Vec::new();
            for k in 1..arrow
                invariant
                    arrow < ws@.len(),
            {
                conds.push(ws[k].0.clone());
            }
            let end = if is_word(&ws[arrow + 1].0, "goal") {
                if ws.len() - arrow < 3 {
                    return Err(LoadError::Syntax { line: ln });
                }
                RuleEnd::Goal { text: string_of(trimmed_rest(line, ws[arrow + 2].1).as_slice()) }
            } else {
                if ws.len() - arrow != 2 {
                    return Err(LoadError::Syntax { line: ln });
                }
                RuleEnd::Fact { pair: ws[arrow + 1].0.clone() }
            };
            match b.declare_rule(&conds, end, ln) {
                Ok(()) => {},
                Err(e) => {
                    return Err(e);
                },
            }
        } else {
            return Err(LoadError::Syntax { line: ln });
        }
    }
    b.finish()
}

} // verus!
