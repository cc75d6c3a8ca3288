//! The answers carried by a caller from one turn to the next, written as
//! `atom:answer,atom:answer,...`, and the engine rebuilt from them.
use vstd::prelude::*;
use crate::engine::{atom_named, fact_of, Engine, FactError};
use crate::model::KnowledgeBase;
use crate::text::{chars_of, nonempty, nonempty_pieces, split, split_chars, string_of};

verus! {

/// The answered atoms so far; `selected_answers[i]` answers `atoms[i]`.
#[derive(Debug, Default)]
pub struct Context {
    pub atoms: Vec<String>,
    pub selected_answers: Vec<String>,
}

/// The non-empty fields of one `atom:answer` pair.
pub open spec fn pair_fields(piece: Seq<char>) -> Seq<Seq<char>> {
    nonempty(split(piece, ':'))
}

/// Every pair of `s` has an atom and an answer.
pub open spec fn context_ok(s: Seq<char>) -> bool {
    forall|i: int| 0 <= i < split(s, ',').len() ==> (#[trigger] pair_fields(split(s, ',')[i])).len() >= 2
}

impl Context {
    /// Read the answers from `atom:answer` pairs separated by commas. Empty
    /// fields around a colon are skipped; a pair without an atom and an answer
    /// refuses the whole text.
    pub fn from_form_value(item: &str) -> (r: Result<Context, ()>)
        ensures
            r is Ok <==> context_ok(item@),
            r matches Ok(ctx) ==> {
                &&& ctx.atoms@.len() == split(item@, ',').len()
                &&& ctx.selected_answers@.len() == split(item@, ',').len()
                &&& forall|i: int|
                    0 <= i < ctx.atoms@.len() ==> (#[trigger] ctx.atoms@[i])@ == pair_fields(split(item@, ',')[i])[0]
                        && ctx.selected_answers@[i]@ == pair_fields(split(item@, ',')[i])[1]
            },
    {
        let chars = chars_of(item);
        let pairs = split_chars(&chars, ',');
        let ghost ps = split(item@, ',');
        let mut atoms: Vec<String> = Vec::new();
        let mut selected_answers: Vec<String> = Vec::new();
        let mut i: usize = 0;
        while i < pairs.len()
            invariant
                i <= pairs@.len(),
                pairs@.len() == ps.len(),
                ps == split(item@, ','),
                forall|k: int| 0 <= k < pairs@.len() ==> (#[trigger] pairs@[k])@ == ps[k],
                atoms@.len() == i,
                selected_answers@.len() == i,
                forall|k: int| 0 <= k < i ==> (#[trigger] pair_fields(ps[k])).len() >= 2,
                forall|k: int|
                    0 <= k < i ==> (#[trigger] atoms@[k])@ == pair_fields(ps[k])[0]
                        && selected_answers@[k]@ == pair_fields(ps[k])[1],
            decreases pairs@.len() - i,
        {
            let fields = split_chars(&pairs[i], ':');
            let kept = nonempty_pieces(&fields);
            proof {
                assert(pairs@[i as int]@ == ps[i as int]);
                assert(fields@.map_values(|p: Vec<char>| p@) =~= split(ps[i as int], ':'));
                assert(kept@.len() == pair_fields(ps[i as int]).len());
            }
            if kept.len() < 2 {
                proof {
                    assert(!(pair_fields(split(item@, ',')[i as int]).len() >= 2));
                }
                return Err(());
            }
            let a = string_of(kept[0].as_slice());
            let b = string_of(kept[1].as_slice());
            proof {
                assert(a@ == pair_fields(ps[i as int])[0]);
                assert(b@ == pair_fields(ps[i as int])[1]);
            }
            let ghost atoms0 = atoms@;
            let ghost answers0 = selected_answers@;
            atoms.push(a);
            selected_answers.push(b);
            proof {
                assert forall|k: int| 0 <= k < i + 1 implies (#[trigger] atoms@[k])@ == pair_fields(ps[k])[0]
                    && selected_answers@[k]@ == pair_fields(ps[k])[1] by {
                    if k == i {
                        assert(atoms@[k] == a);
                        assert(selected_answers@[k] == b);
                    } else {
                        assert(atoms@[k] == atoms0[k]);
                        assert(selected_answers@[k] == answers0[k]);
                    }
                }
            }
            i = i + 1;
        }
        proof {
            assert(context_ok(item@));
        }
        Ok(Context { atoms, selected_answers })
    }
}

/// The facts after applying the first `n` answers of `atoms` and `answers`, in
/// order, to `facts`: an answer that names a declared atom and one of its
/// choices sets that atom's fact, replacing an earlier one; any other answer
/// changes nothing.
pub open spec fn apply_answers(
    kb: &KnowledgeBase,
    facts: Seq<Option<usize>>,
    atoms: Seq<String>,
    answers: Seq<String>,
    n: int,
) -> Seq<Option<usize>>
    decreases n,
{
    if n <= 0 {
        facts
    } else {
        let prev = apply_answers(kb, facts, atoms, answers, n - 1);
        match fact_of(kb, atoms[n - 1]@, answers[n - 1]@) {
            Some((a, c)) => prev.update(a, Some(c as usize)),
            None => prev,
        }
    }
}

/// The number of answer pairs: the shorter of the two lists.
pub open spec fn num_pairs(ctx: &Context) -> int {
    if ctx.atoms@.len() <= ctx.selected_answers@.len() {
        ctx.atoms@.len() as int
    } else {
        ctx.selected_answers@.len() as int
    }
}

/// The fact store with no atom answered.
pub open spec fn no_facts(kb: &KnowledgeBase) -> Seq<Option<usize>> {
    Seq::new(kb.num_atoms() as nat, |a: int| None)
}

/// An engine on `kb` with the answers of `context` set in order, a later answer
/// for an atom replacing an earlier one, paired with the answers that were
/// refused: the index of each pair that names an unknown atom or choice, with
/// its error. A refused answer changes no fact; the others are still applied.
pub fn create_inference_engine(kb: KnowledgeBase, context: &Option<Context>) -> (r: (Engine, Vec<(usize, FactError)>))
    requires
        kb.wf(),
    ensures
        r.0.wf(),
        r.0.kb == kb,
        context is None ==> r.0.facts@ == no_facts(&kb) && r.1@.len() == 0,
        context matches Some(ctx) ==> {
            &&& r.0.facts@ == apply_answers(&kb, no_facts(&kb), ctx.atoms@, ctx.selected_answers@, num_pairs(ctx))
            &&& forall|k: int| 0 <= k < r.1@.len() ==> {
                let i = (#[trigger] r.1@[k]).0 as int;
                &&& 0 <= i < num_pairs(ctx)
                &&& fact_of(&kb, ctx.atoms@[i]@, ctx.selected_answers@[i]@) is None
                &&& (r.1@[k].1 matches FactError::UnknownAtom { .. }) <==> atom_named(&kb, ctx.atoms@[i]@) is None
            }
            &&& forall|i: int|
                0 <= i < num_pairs(ctx) && fact_of(&kb, ctx.atoms@[i]@, ctx.selected_answers@[i]@) is None
                    ==> exists|k: int| 0 <= k < r.1@.len() && (#[trigger] r.1@[k]).0 == i
        },
{
    let ghost kb0 = kb;
    let mut engine = Engine::new(kb);
    let mut refused: Vec<(usize, FactError)> = Vec::new();
    proof {
        assert(engine.facts@ =~= no_facts(&kb0));
    }
    match context {
        None => (engine, refused),
        Some(ctx) => {
            let n = if ctx.atoms.len() <= ctx.selected_answers.len() {
                ctx.atoms.len()
            } else {
                ctx.selected_answers.len()
            };
            for i in 0..n
                invariant
                    n == num_pairs(ctx),
                    engine.wf(),
                    engine.kb == kb0,
                    kb0 == kb,
                    *context == Some(*ctx),
                    engine.facts@ == apply_answers(&kb0, no_facts(&kb0), ctx.atoms@, ctx.selected_answers@, i as int),
                    forall|k: int| 0 <= k < refused@.len() ==> {
                        let j = (#[trigger] refused@[k]).0 as int;
                        &&& 0 <= j < i
                        &&& fact_of(&kb0, ctx.atoms@[j]@, ctx.selected_answers@[j]@) is None
                        &&& (refused@[k].1 matches FactError::UnknownAtom { .. }) <==> atom_named(&kb0, ctx.atoms@[j]@) is None
                    },
                    forall|j: int|
                        0 <= j < i && fact_of(&kb0, ctx.atoms@[j]@, ctx.selected_answers@[j]@) is None
                            ==> exists|k: int| 0 <= k < refused@.len() && (#[trigger] refused@[k]).0 == j,
            {
                let ghost before = refused@;
                match engine.set_fact(ctx.atoms[i].as_str(), ctx.selected_answers[i].as_str()) {
                    Ok(()) => {},
                    Err(e) => {
                        refused.push((i, e));
                        proof {
                            assert(refused@[before.len() as int].0 == i);
                            assert forall|j: int|
                                0 <= j < i + 1 && fact_of(&kb0, ctx.atoms@[j]@, ctx.selected_answers@[j]@) is None
                                implies exists|k: int| 0 <= k < refused@.len() && (#[trigger] refused@[k]).0 == j by {
                                if j < i {
                                    let k = choose|k: int| 0 <= k < before.len() && (#[trigger] before[k]).0 == j;
                                    assert(refused@[k] == before[k]);
                                } else {
                                    assert(refused@[before.len() as int].0 == j);
                                }
                            }
                            assert forall|k: int| 0 <= k < refused@.len() implies {
                                let j = (#[trigger] refused@[k]).0 as int;
                                &&& 0 <= j < i + 1
                                &&& fact_of(&kb0, ctx.atoms@[j]@, ctx.selected_answers@[j]@) is None
                                &&& (refused@[k].1 matches FactError::UnknownAtom { .. }) <==> atom_named(&kb0, ctx.atoms@[j]@) is None
                            } by {
                                if k < before.len() {
                                    assert(refused@[k] == before[k]);
                                }
                            }
                        }
                    },
                }
            }
            (engine, refused)
        },
    }
}

/// The path that the root of the site sends a visitor on to.
pub fn redirect() -> (r: String)
    ensures
        r@ == "/index"@,
{
    String::from_str("/index")
}

} // verus!
