use expert_system::{prepare_engine, Engine, FactError, LoadError};

const PLUMBER: &str = "atom leak yes no\nask leak Is there a water leak?\nrule leak=yes -> goal Call a plumber\n";

const TWO_PATHS: &str = "\
# two ways to the same goal
atom smoke yes no
atom heat yes no
ask smoke Do you see smoke?
ask heat Is the room hot?
rule smoke=yes -> goal Leave the building
rule heat=yes -> goal Leave the building
";

const CHAIN: &str = "\
atom power on off
atom fuse ok blown
atom outage yes no
atom lights work broken
ask power Is the power on?
ask fuse Is the fuse intact?
ask lights Do the lights work?
rule power=off -> outage=yes
rule fuse=blown -> outage=yes
rule outage=yes -> goal Call the utility
rule lights=broken power=on -> goal Change the bulb
";

fn engine(text: &str) -> Engine {
    match prepare_engine(text) {
        Ok(e) => e,
        Err(e) => panic!("load failed: {:?}", e),
    }
}

#[test]
fn empty_facts_ask_the_leak_question() {
    let e = engine(PLUMBER);
    let q = e.next_question().expect("a question");
    assert_eq!(q.atom_name, "leak");
    assert_eq!(q.prompt_text, "Is there a water leak?");
    assert_eq!(q.choices, vec!["yes".to_string(), "no".to_string()]);
    assert!(e.reached_goal().is_none());
}

#[test]
fn leak_yes_reaches_the_plumber() {
    let mut e = engine(PLUMBER);
    assert!(e.set_fact("leak", "yes").is_ok());
    assert!(e.next_question().is_none());
    assert_eq!(e.reached_goal().expect("a goal").text, "Call a plumber");
}

#[test]
fn leak_no_is_a_dead_end() {
    let mut e = engine(PLUMBER);
    assert!(e.set_fact("leak", "no").is_ok());
    assert!(e.next_question().is_none());
    assert!(e.reached_goal().is_none());
}

#[test]
fn either_path_reaches_the_goal() {
    let mut a = engine(TWO_PATHS);
    a.set_fact("smoke", "yes").unwrap();
    assert_eq!(a.reached_goal().unwrap().text, "Leave the building");
    let mut b = engine(TWO_PATHS);
    b.set_fact("heat", "yes").unwrap();
    assert_eq!(b.reached_goal().unwrap().text, "Leave the building");
}

#[test]
fn neither_path_asks_the_first_declared() {
    let e = engine(TWO_PATHS);
    assert_eq!(e.next_question().unwrap().atom_name, "smoke");
    assert!(e.reached_goal().is_none());
}

#[test]
fn first_path_blocked_moves_to_the_second() {
    let mut e = engine(TWO_PATHS);
    e.set_fact("smoke", "no").unwrap();
    assert_eq!(e.next_question().unwrap().atom_name, "heat");
    e.set_fact("heat", "no").unwrap();
    assert!(e.next_question().is_none());
    assert!(e.reached_goal().is_none());
}

#[test]
fn undeclared_choice_is_refused_and_changes_nothing() {
    let mut e = engine(PLUMBER);
    let before = e.facts.clone();
    match e.set_fact("leak", "maybe") {
        Err(FactError::UnknownChoice { atom, choice }) => {
            assert_eq!(atom, "leak");
            assert_eq!(choice, "maybe");
        }
        other => panic!("unexpected {:?}", other),
    }
    assert_eq!(e.facts, before);
    assert_eq!(e.next_question().unwrap().atom_name, "leak");
}

#[test]
fn undeclared_atom_is_refused() {
    let mut e = engine(PLUMBER);
    assert!(matches!(e.set_fact("flood", "yes"), Err(FactError::UnknownAtom { .. })));
    assert_eq!(e.facts, vec![None]);
}

#[test]
fn self_referential_chain_fails_to_load() {
    let text = "atom a yes no\natom b yes no\natom c yes no\nrule a=yes -> b=yes\nrule b=yes -> c=yes\nrule c=yes -> a=yes\nrule a=yes -> goal Never\n";
    match prepare_engine(text) {
        Err(LoadError::Cycle { atoms }) => {
            assert_eq!(atoms.len(), 3);
            for n in ["a", "b", "c"] {
                assert!(atoms.iter().any(|x| x == n));
            }
        }
        Err(e) => panic!("unexpected error {:?}", e),
        Ok(_) => panic!("a cyclic base was loaded"),
    }
}

#[test]
fn atom_that_concludes_itself_fails_to_load() {
    let text = "atom a yes no\nrule a=yes -> a=no\n";
    match prepare_engine(text) {
        Err(LoadError::Cycle { atoms }) => assert_eq!(atoms, vec!["a".to_string()]),
        _ => panic!("expected a cycle"),
    }
}

#[test]
fn load_errors_name_the_line() {
    assert!(matches!(prepare_engine("atom a yes\natom a no\n"), Err(LoadError::DuplicateAtom { line: 2, .. })));
    assert!(matches!(prepare_engine("atom a yes\nrule b=yes -> goal G\n"), Err(LoadError::UnknownAtom { line: 2, .. })));
    assert!(matches!(prepare_engine("atom a yes\nrule a=no -> goal G\n"), Err(LoadError::UnknownChoice { line: 2, .. })));
    assert!(matches!(prepare_engine("atom a yes\nfrobnicate\n"), Err(LoadError::Syntax { line: 2 })));
    assert!(matches!(prepare_engine("atom a yes\nrule -> goal G\n"), Err(LoadError::Syntax { line: 2 })));
    assert!(matches!(prepare_engine("ask a Why?\n"), Err(LoadError::UnknownAtom { line: 1, .. })));
}

#[test]
fn derived_atoms_are_asked_through_their_rules() {
    let mut e = engine(CHAIN);
    // outage is not askable: its first rule asks for power.
    assert_eq!(e.next_question().unwrap().atom_name, "power");
    e.set_fact("power", "on").unwrap();
    // power=on blocks the first rule for outage; the second asks for the fuse.
    assert_eq!(e.next_question().unwrap().atom_name, "fuse");
    e.set_fact("fuse", "blown").unwrap();
    assert!(e.next_question().is_none() || e.reached_goal().is_some());
    assert_eq!(e.reached_goal().unwrap().text, "Call the utility");
}

#[test]
fn second_goal_is_reached_when_the_first_is_blocked() {
    let mut e = engine(CHAIN);
    e.set_fact("power", "on").unwrap();
    e.set_fact("fuse", "ok").unwrap();
    assert_eq!(e.next_question().unwrap().atom_name, "lights");
    e.set_fact("lights", "broken").unwrap();
    assert!(e.next_question().is_none());
    assert_eq!(e.reached_goal().unwrap().text, "Change the bulb");
}

#[test]
fn repeated_queries_agree() {
    let mut e = engine(CHAIN);
    e.set_fact("power", "on").unwrap();
    let q1 = e.next_question().map(|q| q.atom_name);
    let q2 = e.next_question().map(|q| q.atom_name);
    assert_eq!(q1, q2);
    let g1 = e.reached_goal().map(|a| a.text);
    let g2 = e.reached_goal().map(|a| a.text);
    assert_eq!(g1, g2);
}

#[test]
fn more_facts_keep_a_reached_goal() {
    let mut e = engine(CHAIN);
    e.set_fact("power", "off").unwrap();
    assert_eq!(e.reached_goal().unwrap().text, "Call the utility");
    e.set_fact("lights", "broken").unwrap();
    e.set_fact("fuse", "ok").unwrap();
    assert_eq!(e.reached_goal().unwrap().text, "Call the utility");
}

#[test]
fn questions_are_never_for_answered_atoms() {
    let mut e = engine(CHAIN);
    let mut asked = 0;
    while let Some(q) = e.next_question() {
        let first = q.choices[0].clone();
        assert!(e.facts.iter().all(|f| f.is_some()) == false);
        e.set_fact(&q.atom_name, &first).unwrap();
        asked += 1;
        assert!(asked <= 4);
    }
    // power=on, fuse=ok, lights=work: no conclusion.
    assert_eq!(asked, 3);
    assert!(e.reached_goal().is_none());
}

#[test]
fn round_trip_along_one_path() {
    let mut e = engine(CHAIN);
    while let Some(q) = e.next_question() {
        let pick = if q.atom_name == "fuse" { "blown" } else { q.choices[0].as_str() };
        let pick = pick.to_string();
        e.set_fact(&q.atom_name, &pick).unwrap();
    }
    assert_eq!(e.reached_goal().unwrap().text, "Call the utility");
}

#[test]
fn a_later_answer_replaces_an_earlier_one() {
    let mut e = engine(PLUMBER);
    e.set_fact("leak", "no").unwrap();
    e.set_fact("leak", "yes").unwrap();
    assert_eq!(e.reached_goal().unwrap().text, "Call a plumber");
}

#[test]
fn rule_concluding_an_askable_atom_is_refused() {
    let text = "atom a yes no\natom b yes no\nask a A?\nask b B?\nrule b=yes -> a=yes\nrule a=yes -> goal G\n";
    match prepare_engine(text) {
        Err(LoadError::AskedConclusion { atom }) => assert_eq!(atom, "a"),
        _ => panic!("expected a refusal"),
    }
}

#[test]
fn first_declared_path_is_asked_first() {
    let text = "atom x yes no\natom y yes no\nask x X?\nask y Y?\nrule x=yes -> goal G\nrule y=yes -> goal G\n";
    let e = engine(text);
    assert_eq!(e.next_question().unwrap().atom_name, "x");
}
