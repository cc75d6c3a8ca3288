//! Laws of the inference core, proved over its spec functions.
use vstd::prelude::*;
use crate::model::{Conclusion, KnowledgeBase};
use crate::inference::{lemma_known_after_shaped, Outcome, search_atom, search_rules, search_conds, question_from, next_question, concludes, fires, first_goal_from, goal_proved, known, known_after, reached};

verus! {

/// `more` answers every atom that `fewer` answers, with the same choice.
pub open spec fn extends(fewer: Seq<Option<usize>>, more: Seq<Option<usize>>) -> bool {
    &&& fewer.len() == more.len()
    &&& forall|a: int| 0 <= a < fewer.len() && (#[trigger] fewer[a]) is Some ==> more[a] == fewer[a]
}

proof fn lemma_known_after_monotonic(
    kb: &KnowledgeBase,
    fewer: Seq<Option<usize>>,
    more: Seq<Option<usize>>,
    k: nat,
)
    requires
        kb.wf(),
        kb.valid_facts(fewer),
        kb.valid_facts(more),
        extends(fewer, more),
    ensures
        forall|a: int, c: int|
            kb.valid_pair(a, c) && #[trigger] known_after(kb, fewer, k)[a][c] ==> known_after(
                kb,
                more,
                k,
            )[a][c],
    decreases k,
{
    if k > 0 {
        let k1 = (k - 1) as nat;
        lemma_known_after_monotonic(kb, fewer, more, k1);
        let s1 = known_after(kb, fewer, k1);
        let s2 = known_after(kb, more, k1);
        assert forall|r: int| 0 <= r < kb.rules@.len() && fires(kb, s1, r) implies fires(
            kb,
            s2,
            r,
        ) by {
            assert(kb.rule_wf(r));
            assert forall|j: int| 0 <= j < kb.num_conds(r) implies #[trigger] s2[kb.cond(
                r,
                j,
            ).atom as int][kb.cond(r, j).choice as int] by {
                assert(s1[kb.cond(r, j).atom as int][kb.cond(r, j).choice as int]);
            }
        }
        assert forall|a: int, c: int|
            kb.valid_pair(a, c) && #[trigger] known_after(kb, fewer, k)[a][c] implies known_after(
            kb,
            more,
            k,
        )[a][c] by {
            if !s1[a][c] {
                let r = choose|r: int|
                    0 <= r < kb.rules@.len() && #[trigger] concludes(kb, r, a, c) && fires(kb, s1, r);
                assert(fires(kb, s2, r));
            }
        }
    }
}

/// Facts are never retracted: adding answers keeps every goal that was proved
/// proved, and a session that had reached a goal still reaches one.
pub proof fn lemma_monotonic(
    kb: &KnowledgeBase,
    fewer: Seq<Option<usize>>,
    more: Seq<Option<usize>>,
    g: int,
)
    requires
        kb.wf(),
        kb.valid_facts(fewer),
        kb.valid_facts(more),
        extends(fewer, more),
        0 <= g < kb.goals@.len(),
        goal_proved(kb, fewer, g),
    ensures
        goal_proved(kb, more, g),
        reached(kb, more) is Some,
{
    let n = kb.rules@.len() as nat;
    lemma_known_after_monotonic(kb, fewer, more, n);
    let s1 = known(kb, fewer);
    let s2 = known(kb, more);
    let r = choose|r: int|
        0 <= r < kb.rules@.len() && kb.rule(r).conclusion == (Conclusion::Goal { goal: g as usize })
            && #[trigger] fires(kb, s1, r);
    assert(kb.rule_wf(r));
    assert forall|j: int| 0 <= j < kb.num_conds(r) implies #[trigger] s2[kb.cond(
        r,
        j,
    ).atom as int][kb.cond(r, j).choice as int] by {
        assert(s1[kb.cond(r, j).atom as int][kb.cond(r, j).choice as int]);
    }
    assert(fires(kb, s2, r));
    lemma_first_goal_found(kb, more, 0, g);
}

proof fn lemma_first_goal_found(kb: &KnowledgeBase, facts: Seq<Option<usize>>, from: int, g: int)
    requires
        0 <= from <= g < kb.goals@.len(),
        goal_proved(kb, facts, g),
    ensures
        first_goal_from(kb, facts, from) is Some,
        first_goal_from(kb, facts, from)->0 <= g,
    decreases g - from,
{
    if from < g && !goal_proved(kb, facts, from) {
        lemma_first_goal_found(kb, facts, from + 1, g);
    }
}

/// An atom that is waiting to be asked: askable and not answered yet.
pub open spec fn open_question(kb: &KnowledgeBase, facts: Seq<Option<usize>>, a: int) -> bool {
    0 <= a < kb.num_atoms() && kb.askable(a) && facts[a] is None
}

pub open spec fn asks_open(kb: &KnowledgeBase, facts: Seq<Option<usize>>, o: Outcome) -> bool {
    o matches Outcome::Ask { atom } ==> open_question(kb, facts, atom as int)
}

proof fn lemma_atom_asks_open(kb: &KnowledgeBase, facts: Seq<Option<usize>>, a: int, c: int)
    requires
        kb.wf(),
        kb.valid_facts(facts),
    ensures
        asks_open(kb, facts, search_atom(kb, facts, a, c)),
    decreases kb.ranks@[a], 2int, 0int,
{
    if 0 <= a < kb.ranks@.len() {
        let k = Conclusion::Fact { atom: a as usize, choice: c as usize };
        assert(kb.ranks@.len() == kb.ranks.len());
        assert(kb.level(k) == kb.ranks@[a]);
        lemma_rules_ask_open(kb, facts, k, 0);
    }
}

proof fn lemma_rules_ask_open(kb: &KnowledgeBase, facts: Seq<Option<usize>>, k: Conclusion, i: int)
    requires
        kb.wf(),
        kb.valid_facts(facts),
    ensures
        asks_open(kb, facts, search_rules(kb, facts, k, i)),
    decreases kb.level(k), 1int, kb.rules@.len() - i,
{
    if 0 <= i < kb.rules@.len() {
        lemma_rules_ask_open(kb, facts, k, i + 1);
        if kb.rule(i).conclusion == k {
            lemma_conds_ask_open(kb, facts, i, 0);
        }
    }
}

proof fn lemma_conds_ask_open(kb: &KnowledgeBase, facts: Seq<Option<usize>>, r: int, j: int)
    requires
        kb.wf(),
        kb.valid_facts(facts),
    ensures
        asks_open(kb, facts, search_conds(kb, facts, r, j)),
    decreases kb.level(kb.rule(r).conclusion), 0int, kb.num_conds(r) - j,
{
    if 0 <= j < kb.num_conds(r) {
        let b = kb.cond(r, j);
        if 0 <= b.atom < kb.ranks@.len() && kb.ranks@[b.atom as int] < kb.level(kb.rule(r).conclusion) {
            lemma_atom_asks_open(kb, facts, b.atom as int, b.choice as int);
            lemma_conds_ask_open(kb, facts, r, j + 1);
        }
    }
}

proof fn lemma_question_from_open(kb: &KnowledgeBase, facts: Seq<Option<usize>>, g: int)
    requires
        kb.wf(),
        kb.valid_facts(facts),
    ensures
        question_from(kb, facts, g) matches Some(a) ==> open_question(kb, facts, a as int),
    decreases kb.goals@.len() - g,
{
    if 0 <= g < kb.goals@.len() {
        lemma_rules_ask_open(kb, facts, Conclusion::Goal { goal: g as usize }, 0);
        lemma_question_from_open(kb, facts, g + 1);
    }
}

/// Every question asked is of an askable atom that has no answer yet, so each
/// answer to a question shrinks the set of open atoms: a session that answers the
/// questions it is given ends, after at most one question per atom, in a state
/// where no question is left and the reached goal, if any, is final.
pub proof fn lemma_question_is_open(kb: &KnowledgeBase, facts: Seq<Option<usize>>)
    requires
        kb.wf(),
        kb.valid_facts(facts),
    ensures
        next_question(kb, facts) matches Some(a) ==> open_question(kb, facts, a as int),
{
    lemma_question_from_open(kb, facts, 0);
}

proof fn lemma_known_after_grows(kb: &KnowledgeBase, facts: Seq<Option<usize>>, k: nat, a: int, c: int)
    requires
        kb.valid_pair(a, c),
        facts[a] == Some(c as usize),
    ensures
        known_after(kb, facts, k)[a][c],
    decreases k,
{
    if k > 0 {
        lemma_known_after_grows(kb, facts, (k - 1) as nat, a, c);
    }
}

/// Answering every condition of a rule that concludes goal `g` proves `g`; when
/// no goal declared before `g` is proved, `g` is exactly the goal reached.
pub proof fn lemma_round_trip(kb: &KnowledgeBase, facts: Seq<Option<usize>>, r: int)
    requires
        kb.wf(),
        kb.valid_facts(facts),
        0 <= r < kb.rules@.len(),
        kb.rule(r).conclusion is Goal,
        forall|j: int|
            0 <= j < kb.num_conds(r) ==> facts[(#[trigger] kb.cond(r, j)).atom as int] == Some(
                kb.cond(r, j).choice,
            ),
        forall|h: int|
            0 <= h < kb.rule(r).conclusion->goal ==> !(#[trigger] goal_proved(kb, facts, h)),
    ensures
        goal_proved(kb, facts, kb.rule(r).conclusion->goal as int),
        reached(kb, facts) == Some(kb.rule(r).conclusion->goal),
{
    let g = kb.rule(r).conclusion->goal as int;
    assert(kb.rule_wf(r));
    assert forall|j: int| 0 <= j < kb.num_conds(r) implies #[trigger] known(kb, facts)[kb.cond(
        r,
        j,
    ).atom as int][kb.cond(r, j).choice as int] by {
        let b = kb.cond(r, j);
        lemma_known_after_grows(kb, facts, kb.rules@.len() as nat, b.atom as int, b.choice as int);
    }
    assert(fires(kb, known(kb, facts), r));
    lemma_first_goal_exact(kb, facts, 0, g);
}

proof fn lemma_first_goal_exact(kb: &KnowledgeBase, facts: Seq<Option<usize>>, from: int, g: int)
    requires
        0 <= from <= g < kb.goals@.len(),
        goal_proved(kb, facts, g),
        forall|h: int| 0 <= h < g ==> !(#[trigger] goal_proved(kb, facts, h)),
    ensures
        first_goal_from(kb, facts, from) == Some(g as usize),
    decreases g - from,
{
    if from < g {
        lemma_first_goal_exact(kb, facts, from + 1, g);
    }
}

/// The queries are functions of the knowledge base and the facts alone: equal
/// fact stores give the same question and the same goal.
pub proof fn lemma_deterministic(kb: &KnowledgeBase, facts1: Seq<Option<usize>>, facts2: Seq<Option<usize>>)
    requires
        facts1 == facts2,
    ensures
        next_question(kb, facts1) == next_question(kb, facts2),
        reached(kb, facts1) == reached(kb, facts2),
{
}

proof fn lemma_askable_known_only_by_answer(
    kb: &KnowledgeBase,
    facts: Seq<Option<usize>>,
    k: nat,
    a: int,
    c: int,
)
    requires
        kb.wf(),
        kb.valid_pair(a, c),
        kb.askable(a),
    ensures
        known_after(kb, facts, k)[a][c] == (facts[a] == Some(c as usize)),
    decreases k,
{
    if k > 0 {
        lemma_known_after_shaped(kb, facts, (k - 1) as nat);
        lemma_askable_known_only_by_answer(kb, facts, (k - 1) as nat, a, c);
        assert(kb.atoms@.len() == kb.atoms.len());
        assert(kb.atoms@[a].choices@.len() == kb.atoms@[a].choices.len());
        assert forall|r: int| 0 <= r < kb.rules@.len() implies !#[trigger] concludes(kb, r, a, c) by {
            assert(kb.rule_wf(r));
            if concludes(kb, r, a, c) {
                assert((a as usize) as int == a);
            }
        }
    }
}

proof fn lemma_rules_skip(kb: &KnowledgeBase, facts: Seq<Option<usize>>, k: Conclusion, i: int, first: int)
    requires
        0 <= i <= first < kb.rules@.len(),
        forall|r: int| 0 <= r < first ==> kb.rule(r).conclusion != k,
    ensures
        search_rules(kb, facts, k, i) == search_rules(kb, facts, k, first),
    decreases first - i,
{
    if i < first {
        lemma_rules_skip(kb, facts, k, i + 1, first);
    }
}

/// When the first rule for the first goal starts with a condition on an askable
/// atom that has no answer yet, that atom is the next question, whatever the
/// rules declared after it offer.
pub proof fn lemma_first_path_asked(kb: &KnowledgeBase, facts: Seq<Option<usize>>, first: int)
    requires
        kb.wf(),
        kb.valid_facts(facts),
        kb.goals@.len() > 0,
        0 <= first < kb.rules@.len(),
        kb.rule(first).conclusion == (Conclusion::Goal { goal: 0 }),
        forall|r: int| 0 <= r < first ==> kb.rule(r).conclusion != (Conclusion::Goal { goal: 0 }),
        kb.num_conds(first) > 0,
        kb.askable(kb.cond(first, 0).atom as int),
        facts[kb.cond(first, 0).atom as int] is None,
    ensures
        next_question(kb, facts) == Some(kb.cond(first, 0).atom),
{
    let b = kb.cond(first, 0);
    assert(kb.rule_wf(first));
    lemma_askable_known_only_by_answer(kb, facts, kb.rules@.len() as nat, b.atom as int, b.choice as int);
    assert(search_atom(kb, facts, b.atom as int, b.choice as int) == (Outcome::Ask { atom: b.atom }));
    assert(search_conds(kb, facts, first, 0) == (Outcome::Ask { atom: b.atom }));
    lemma_rules_skip(kb, facts, Conclusion::Goal { goal: 0 }, 0, first);
    assert(search_rules(kb, facts, Conclusion::Goal { goal: 0 }, first) == (Outcome::Ask { atom: b.atom }));
}

} // verus!
