//! The inference core: forward closure of the facts under the rules, the goal
//! that is reached, and the backward-chaining search for the next question.
use vstd::prelude::*;
use crate::model::{Conclusion, KnowledgeBase};

verus! {

/// The result of trying to establish one atom/choice pair, one rule or one goal.
#[derive(Clone, Copy, Debug, PartialEq, Eq, Structural)]
pub enum Outcome {
    /// It already follows from the facts.
    Proved,
    /// The first unanswered askable atom that it waits on.
    Ask { atom: usize },
    /// Neither proved nor waiting on an askable atom along this branch.
    Blocked,
}

// ---------------------------------------------------------------------------
// Forward closure
// ---------------------------------------------------------------------------

/// The table of known pairs that the fact store gives by itself.
pub open spec fn initial(kb: &KnowledgeBase, facts: Seq<Option<usize>>) -> Seq<Seq<bool>> {
    Seq::new(
        kb.num_atoms() as nat,
        |a: int| Seq::new(kb.num_choices(a) as nat, |c: int| facts[a] == Some(c as usize)),
    )
}

/// Every condition of rule `r` is known in `known`.
pub open spec fn fires(kb: &KnowledgeBase, known: Seq<Seq<bool>>, r: int) -> bool {
    forall|j: int|
        0 <= j < kb.num_conds(r) ==> #[trigger] known[kb.cond(r, j).atom as int][kb.cond(
            r,
            j,
        ).choice as int]
}

pub open spec fn concludes(kb: &KnowledgeBase, r: int, a: int, c: int) -> bool {
    kb.rule(r).conclusion == (Conclusion::Fact { atom: a as usize, choice: c as usize })
}

/// One round of forward chaining: add the conclusion of every rule that fires.
pub open spec fn step(kb: &KnowledgeBase, known: Seq<Seq<bool>>) -> Seq<Seq<bool>> {
    Seq::new(
        kb.num_atoms() as nat,
        |a: int|
            Seq::new(
                kb.num_choices(a) as nat,
                |c: int|
                    known[a][c] || exists|r: int|
                        0 <= r < kb.rules@.len() && #[trigger] concludes(kb, r, a, c) && fires(
                            kb,
                            known,
                            r,
                        ),
            ),
    )
}

pub open spec fn known_after(kb: &KnowledgeBase, facts: Seq<Option<usize>>, k: nat) -> Seq<
    Seq<bool>,
>
    decreases k,
{
    if k == 0 {
        initial(kb, facts)
    } else {
        step(kb, known_after(kb, facts, (k - 1) as nat))
    }
}

/// What the facts establish: forward chaining for one round per rule. A round
/// that adds a pair fires a rule that had not fired before, so no later round
/// would add more.
pub open spec fn known(kb: &KnowledgeBase, facts: Seq<Option<usize>>) -> Seq<Seq<bool>> {
    known_after(kb, facts, kb.rules@.len())
}

pub open spec fn holds(kb: &KnowledgeBase, facts: Seq<Option<usize>>, a: int, c: int) -> bool {
    known(kb, facts)[a][c]
}

/// Some rule that concludes goal `g` fires on what the facts establish.
pub open spec fn goal_proved(kb: &KnowledgeBase, facts: Seq<Option<usize>>, g: int) -> bool {
    exists|r: int|
        0 <= r < kb.rules@.len() && kb.rule(r).conclusion == (Conclusion::Goal { goal: g as usize })
            && #[trigger] fires(kb, known(kb, facts), r)
}

/// The first goal, from index `g` on, that the facts prove.
pub open spec fn first_goal_from(kb: &KnowledgeBase, facts: Seq<Option<usize>>, g: int) -> Option<
    usize,
>
    decreases kb.goals@.len() - g,
{
    if g < 0 || g >= kb.goals@.len() {
        None
    } else if goal_proved(kb, facts, g) {
        Some(g as usize)
    } else {
        first_goal_from(kb, facts, g + 1)
    }
}

pub proof fn lemma_first_goal_in_range(kb: &KnowledgeBase, facts: Seq<Option<usize>>, g: int)
    ensures
        first_goal_from(kb, facts, g) matches Some(x) ==> x < kb.goals@.len(),
    decreases kb.goals@.len() - g,
{
    if 0 <= g < kb.goals@.len() {
        lemma_first_goal_in_range(kb, facts, g + 1);
    }
}

/// The goal reached: the first in declaration order that the facts prove.
pub open spec fn reached(kb: &KnowledgeBase, facts: Seq<Option<usize>>) -> Option<usize> {
    first_goal_from(kb, facts, 0)
}

// ---------------------------------------------------------------------------
// Backward chaining
// ---------------------------------------------------------------------------

/// Try to establish atom `a` with choice `c`: known already; an unanswered
/// askable atom to ask; or else through the rules that conclude it.
pub open spec fn search_atom(kb: &KnowledgeBase, facts: Seq<Option<usize>>, a: int, c: int) -> Outcome
    decreases kb.ranks@[a], 2int, 0int,
{
    if !(0 <= a < kb.ranks@.len()) {
        Outcome::Blocked
    } else if holds(kb, facts, a, c) {
        Outcome::Proved
    } else if kb.askable(a) && facts[a] is None {
        Outcome::Ask { atom: a as usize }
    } else {
        search_rules(kb, facts, Conclusion::Fact { atom: a as usize, choice: c as usize }, 0)
    }
}

/// Try the rules that conclude `k`, from index `i` on, in declaration order: the
/// first that is proved or that asks decides; a blocked rule passes to the next.
pub open spec fn search_rules(kb: &KnowledgeBase, facts: Seq<Option<usize>>, k: Conclusion, i: int) -> Outcome
    decreases kb.level(k), 1int, kb.rules@.len() - i,
{
    if i < 0 || i >= kb.rules@.len() {
        Outcome::Blocked
    } else if kb.rule(i).conclusion != k {
        search_rules(kb, facts, k, i + 1)
    } else {
        match search_conds(kb, facts, i, 0) {
            Outcome::Blocked => search_rules(kb, facts, k, i + 1),
            o => o,
        }
    }
}

/// Try the conditions of rule `r`, from index `j` on, left to right.
pub open spec fn search_conds(kb: &KnowledgeBase, facts: Seq<Option<usize>>, r: int, j: int) -> Outcome
    decreases kb.level(kb.rule(r).conclusion), 0int, kb.num_conds(r) - j,
{
    if j < 0 || j >= kb.num_conds(r) {
        Outcome::Proved
    } else {
        let b = kb.cond(r, j);
        if 0 <= b.atom < kb.ranks@.len() && kb.ranks@[b.atom as int] < kb.level(kb.rule(r).conclusion) {
            match search_atom(kb, facts, b.atom as int, b.choice as int) {
                Outcome::Proved => search_conds(kb, facts, r, j + 1),
                o => o,
            }
        } else {
            Outcome::Blocked
        }
    }
}

/// The first question that a goal from index `g` on waits for.
pub open spec fn question_from(kb: &KnowledgeBase, facts: Seq<Option<usize>>, g: int) -> Option<usize>
    decreases kb.goals@.len() - g,
{
    if g < 0 || g >= kb.goals@.len() {
        None
    } else {
        match search_rules(kb, facts, Conclusion::Goal { goal: g as usize }, 0) {
            Outcome::Ask { atom } => Some(atom),
            _ => question_from(kb, facts, g + 1),
        }
    }
}

/// The atom to ask about next: goals in declaration order, rules in declaration
/// order, conditions left to right.
pub open spec fn next_question(kb: &KnowledgeBase, facts: Seq<Option<usize>>) -> Option<usize> {
    question_from(kb, facts, 0)
}

// ---------------------------------------------------------------------------
// Executable closure
// ---------------------------------------------------------------------------

/// The table `t` holds exactly the rows of `s`.
pub open spec fn table_is(t: &Vec<Vec<bool>>, s: Seq<Seq<bool>>) -> bool {
    &&& t@.len() == s.len()
    &&& forall|a: int| 0 <= a < s.len() ==> (#[trigger] t@[a])@ == s[a]
}

/// The table is shaped as the atoms and their choices.
pub open spec fn shaped(kb: &KnowledgeBase, s: Seq<Seq<bool>>) -> bool {
    &&& s.len() == kb.num_atoms()
    &&& forall|a: int| 0 <= a < s.len() ==> (#[trigger] s[a]).len() == kb.num_choices(a)
}

pub proof fn lemma_known_after_shaped(kb: &KnowledgeBase, facts: Seq<Option<usize>>, k: nat)
    ensures
        shaped(kb, known_after(kb, facts, k)),
    decreases k,
{
    if k > 0 {
        lemma_known_after_shaped(kb, facts, (k - 1) as nat);
    }
}

fn initial_table(kb: &KnowledgeBase, facts: &Vec<Option<usize>>) -> (t: Vec<Vec<bool>>)
    requires
        kb.valid_facts(facts@),
    ensures
        table_is(&t, initial(kb, facts@)),
{
    let mut t: Vec<Vec<bool>> = Vec::new();
    let n = kb.atoms.len();
    for a in 0..n
        invariant
            n == kb.num_atoms(),
            kb.valid_facts(facts@),
            t@.len() == a,
            forall|x: int| 0 <= x < a ==> (#[trigger] t@[x])@ == initial(kb, facts@)[x],
    {
        let m = kb.atoms[a].choices.len();
        let mut row: Vec<bool> = Vec::new();
        for c in 0..m
            invariant
                m == kb.num_choices(a as int),
                a < facts@.len(),
                row@.len() == c,
                forall|y: int| 0 <= y < c ==> row@[y] == (facts@[a as int] == Some(y as usize)),
        {
            let v = match facts[a] {
                Some(x) => x == c,
                None => false,
            };
            row.push(v);
        }
        proof {
            assert(row@ =~= initial(kb, facts@)[a as int]);
        }
        t.push(row);
    }
    t
}

/// For each rule, whether it fires on the table.
fn fired_rules(kb: &KnowledgeBase, t: &Vec<Vec<bool>>) -> (f: Vec<bool>)
    requires
        kb.wf(),
        shaped(kb, t@.map_values(|v: Vec<bool>| v@)),
    ensures
        f@.len() == kb.rules@.len(),
        forall|r: int| 0 <= r < f@.len() ==> f@[r] == fires(kb, t@.map_values(|v: Vec<bool>| v@), r),
{
    let ghost s = t@.map_values(|v: Vec<bool>| v@);
    let mut f: Vec<bool> = Vec::new();
    for r in 0..kb.rules.len()
        invariant
            kb.wf(),
            s == t@.map_values(|v: Vec<bool>| v@),
            shaped(kb, s),
            f@.len() == r,
            forall|x: int| 0 <= x < r ==> f@[x] == fires(kb, s, x),
    {
        let rule = &kb.rules[r];
        proof {
            assert(kb.rule_wf(r as int));
        }
        let mut all = true;
        for j in 0..rule.conditions.len()
            invariant
                kb.wf(),
                s == t@.map_values(|v: Vec<bool>| v@),
                shaped(kb, s),
                *rule == kb.rules@[r as int],
                kb.rule_wf(r as int),
                all == forall|y: int| 0 <= y < j ==> #[trigger] s[kb.cond(r as int, y).atom as int][kb.cond(r as int, y).choice as int],
        {
            let cd = rule.conditions[j];
            proof {
                assert(kb.cond(r as int, j as int) == cd);
                assert(s[cd.atom as int] == t@[cd.atom as int]@);
            }
            if !t[cd.atom][cd.choice] {
                all = false;
            }
        }
        f.push(all);
    }
    f
}

/// One round of forward chaining on the table.
fn step_table(kb: &KnowledgeBase, t: &Vec<Vec<bool>>) -> (u: Vec<Vec<bool>>)
    requires
        kb.wf(),
        shaped(kb, t@.map_values(|v: Vec<bool>| v@)),
    ensures
        table_is(&u, step(kb, t@.map_values(|v: Vec<bool>| v@))),
{
    let ghost s = t@.map_values(|v: Vec<bool>| v@);
    let f = fired_rules(kb, t);
    let mut u: Vec<Vec<bool>> = Vec::new();
    let n = kb.atoms.len();
    for a in 0..n
        invariant
            n == kb.num_atoms(),
            s == t@.map_values(|v: Vec<bool>| v@),
            shaped(kb, s),
            f@.len() == kb.rules@.len(),
            forall|r: int| 0 <= r < f@.len() ==> f@[r] == fires(kb, s, r),
            u@.len() == a,
            forall|x: int| 0 <= x < a ==> (#[trigger] u@[x])@ == step(kb, s)[x],
    {
        let m = kb.atoms[a].choices.len();
        let mut row: Vec<bool> = Vec::new();
        for c in 0..m
            invariant
                m == kb.num_choices(a as int),
                a < n,
                n == kb.num_atoms(),
                s == t@.map_values(|v: Vec<bool>| v@),
                shaped(kb, s),
                f@.len() == kb.rules@.len(),
                forall|r: int| 0 <= r < f@.len() ==> f@[r] == fires(kb, s, r),
                row@.len() == c,
                forall|y: int| 0 <= y < c ==> row@[y] == step(kb, s)[a as int][y],
        {
            proof {
                assert(s[a as int] == t@[a as int]@);
            }
            let mut v = t[a][c];
            let mut i: usize = 0;
            while i < kb.rules.len()
                invariant
                    i <= kb.rules@.len(),
                    f@.len() == kb.rules@.len(),
                    forall|r: int| 0 <= r < f@.len() ==> f@[r] == fires(kb, s, r),
                    v == (s[a as int][c as int] || exists|r: int|
                        0 <= r < i && #[trigger] concludes(kb, r, a as int, c as int) && fires(kb, s, r)),
                decreases kb.rules@.len() - i,
            {
                if f[i] && kb.rules[i].conclusion == (Conclusion::Fact { atom: a, choice: c }) {
                    proof {
                        assert(concludes(kb, i as int, a as int, c as int));
                    }
                    v = true;
                }
                i = i + 1;
            }
            row.push(v);
        }
        proof {
            assert(row@ =~= step(kb, s)[a as int]);
        }
        u.push(row);
    }
    u
}

/// The table of everything that the facts establish.
pub fn known_table(kb: &KnowledgeBase, facts: &Vec<Option<usize>>) -> (t: Vec<Vec<bool>>)
    requires
        kb.wf(),
        kb.valid_facts(facts@),
    ensures
        table_is(&t, known(kb, facts@)),
{
    let mut t = initial_table(kb, facts);
    let mut k: usize = 0;
    while k < kb.rules.len()
        invariant
            kb.wf(),
            k <= kb.rules@.len(),
            table_is(&t, known_after(kb, facts@, k as nat)),
        decreases kb.rules@.len() - k,
    {
        proof {
            lemma_known_after_shaped(kb, facts@, k as nat);
            assert(t@.map_values(|v: Vec<bool>| v@) =~= known_after(kb, facts@, k as nat));
        }
        t = step_table(kb, &t);
        k = k + 1;
    }
    t
}

// ---------------------------------------------------------------------------
// Executable queries
// ---------------------------------------------------------------------------

/// The goal that the facts reach: the first goal, in declaration order, that some
/// rule proves from what the facts establish.
pub fn reached_goal(kb: &KnowledgeBase, facts: &Vec<Option<usize>>) -> (r: Option<usize>)
    requires
        kb.wf(),
        kb.valid_facts(facts@),
    ensures
        r == reached(kb, facts@),
{
    let t = known_table(kb, facts);
    proof {
        lemma_known_after_shaped(kb, facts@, kb.rules@.len() as nat);
        assert(t@.map_values(|v: Vec<bool>| v@) =~= known(kb, facts@));
    }
    let f = fired_rules(kb, &t);
    let mut g: usize = 0;
    while g < kb.goals.len()
        invariant
            g <= kb.goals@.len(),
            f@.len() == kb.rules@.len(),
            forall|r: int| 0 <= r < f@.len() ==> f@[r] == fires(kb, known(kb, facts@), r),
            reached(kb, facts@) == first_goal_from(kb, facts@, g as int),
        decreases kb.goals@.len() - g,
    {
        let mut found = false;
        let mut i: usize = 0;
        while i < kb.rules.len()
            invariant
                i <= kb.rules@.len(),
                g < kb.goals@.len(),
                f@.len() == kb.rules@.len(),
                forall|r: int| 0 <= r < f@.len() ==> f@[r] == fires(kb, known(kb, facts@), r),
                found == exists|r: int|
                    0 <= r < i && kb.rule(r).conclusion == (Conclusion::Goal { goal: g })
                        && #[trigger] fires(kb, known(kb, facts@), r),
            decreases kb.rules@.len() - i,
        {
            if f[i] && kb.rules[i].conclusion == (Conclusion::Goal { goal: g }) {
                found = true;
            }
            i = i + 1;
        }
        if found {
            return Some(g);
        }
        g = g + 1;
    }
    None
}

fn search_atom_exec(
    kb: &KnowledgeBase,
    facts: &Vec<Option<usize>>,
    t: &Vec<Vec<bool>>,
    a: usize,
    c: usize,
) -> (o: Outcome)
    requires
        kb.wf(),
        kb.valid_facts(facts@),
        table_is(t, known(kb, facts@)),
        kb.valid_pair(a as int, c as int),
    ensures
        o == search_atom(kb, facts@, a as int, c as int),
    decreases kb.ranks@[a as int], 2int, 0int,
{
    proof {
        lemma_known_after_shaped(kb, facts@, kb.rules@.len() as nat);
        assert(t@[a as int]@ == known(kb, facts@)[a as int]);
    }
    if t[a][c] {
        Outcome::Proved
    } else if kb.atoms[a].prompt.is_some() && facts[a].is_none() {
        Outcome::Ask { atom: a }
    } else {
        search_rules_exec(kb, facts, t, Conclusion::Fact { atom: a, choice: c }, 0)
    }
}

fn search_rules_exec(
    kb: &KnowledgeBase,
    facts: &Vec<Option<usize>>,
    t: &Vec<Vec<bool>>,
    k: Conclusion,
    i: usize,
) -> (o: Outcome)
    requires
        kb.wf(),
        kb.valid_facts(facts@),
        table_is(t, known(kb, facts@)),
        kb.valid_conclusion(k),
        i <= kb.rules@.len(),
    ensures
        o == search_rules(kb, facts@, k, i as int),
    decreases kb.level(k), 1int, kb.rules@.len() - i,
{
    if i >= kb.rules.len() {
        Outcome::Blocked
    } else if kb.rules[i].conclusion != k {
        search_rules_exec(kb, facts, t, k, i + 1)
    } else {
        match search_conds_exec(kb, facts, t, i, 0) {
            Outcome::Blocked => search_rules_exec(kb, facts, t, k, i + 1),
            o => o,
        }
    }
}

fn search_conds_exec(
    kb: &KnowledgeBase,
    facts: &Vec<Option<usize>>,
    t: &Vec<Vec<bool>>,
    r: usize,
    j: usize,
) -> (o: Outcome)
    requires
        kb.wf(),
        kb.valid_facts(facts@),
        table_is(t, known(kb, facts@)),
        r < kb.rules@.len(),
        j <= kb.num_conds(r as int),
    ensures
        o == search_conds(kb, facts@, r as int, j as int),
    decreases kb.level(kb.rule(r as int).conclusion), 0int, kb.num_conds(r as int) - j,
{
    if j >= kb.rules[r].conditions.len() {
        Outcome::Proved
    } else {
        let b = kb.rules[r].conditions[j];
        proof {
            assert(kb.rule_wf(r as int));
            assert(kb.cond(r as int, j as int) == b);
        }
        match search_atom_exec(kb, facts, t, b.atom, b.choice) {
            Outcome::Proved => search_conds_exec(kb, facts, t, r, j + 1),
            o => o,
        }
    }
}

/// The atom to ask about next, found by backward chaining from the goals in
/// declaration order, trying rules in declaration order and conditions left to
/// right; `None` when no goal waits on an unanswered askable atom.
pub fn next_question_atom(kb: &KnowledgeBase, facts: &Vec<Option<usize>>) -> (r: Option<usize>)
    requires
        kb.wf(),
        kb.valid_facts(facts@),
    ensures
        r == next_question(kb, facts@),
{
    let t = known_table(kb, facts);
    let mut g: usize = 0;
    while g < kb.goals.len()
        invariant
            kb.wf(),
            kb.valid_facts(facts@),
            table_is(&t, known(kb, facts@)),
            g <= kb.goals@.len(),
            next_question(kb, facts@) == question_from(kb, facts@, g as int),
        decreases kb.goals@.len() - g,
    {
        match search_rules_exec(kb, facts, &t, Conclusion::Goal { goal: g }, 0) {
            Outcome::Ask { atom } => {
                return Some(atom);
            },
            _ => {},
        }
        g = g + 1;
    }
    None
}

} // verus!
