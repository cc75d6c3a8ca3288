use expert_system::{parse_document, parse_knowledge_base, Engine, KnowledgeBase, LoadError};

const LINES: &str = "\
atom power on off
atom fuse ok blown
atom outage yes no
ask power Is the power on?
ask fuse Is the fuse intact?
rule power=off -> outage=yes
rule fuse=blown -> outage=yes
rule outage=yes -> goal Call the utility
";

const DOCUMENT: &str = "\
# the same base as a document
- atom: power
  choices: on, off
  question: Is the power on?
- atom: fuse
  choices: ok blown
  question: Is the fuse intact?
- atom: outage
  choices: yes, no

- rule: power=off
  then: outage=yes
- rule: fuse=blown
  then: outage=yes
- rule: outage=yes
  goal: Call the utility
";

fn same_model(a: &KnowledgeBase, b: &KnowledgeBase) {
    assert_eq!(a.atoms.len(), b.atoms.len());
    for (x, y) in a.atoms.iter().zip(b.atoms.iter()) {
        assert_eq!(x.name, y.name);
        assert_eq!(x.choices, y.choices);
        assert_eq!(x.prompt, y.prompt);
    }
    assert_eq!(a.rules.len(), b.rules.len());
    for (x, y) in a.rules.iter().zip(b.rules.iter()) {
        assert_eq!(x.conditions, y.conditions);
        assert_eq!(x.conclusion, y.conclusion);
    }
    assert_eq!(a.goals, b.goals);
}

#[test]
fn both_notations_give_the_same_model() {
    let a = parse_knowledge_base(LINES).unwrap();
    let b = parse_document(DOCUMENT).unwrap();
    same_model(&a, &b);
}

#[test]
fn document_base_drives_the_questionnaire() {
    let mut e = Engine::new(parse_document(DOCUMENT).unwrap());
    assert_eq!(e.next_question().unwrap().atom_name, "power");
    e.set_fact("power", "on").unwrap();
    let q = e.next_question().unwrap();
    assert_eq!(q.atom_name, "fuse");
    assert_eq!(q.prompt_text, "Is the fuse intact?");
    assert_eq!(q.choices, vec!["ok".to_string(), "blown".to_string()]);
    e.set_fact("fuse", "blown").unwrap();
    assert!(e.next_question().is_none());
    assert_eq!(e.reached_goal().unwrap().text, "Call the utility");
}

#[test]
fn document_cycle_is_refused() {
    let text = "- atom: a\n  choices: yes no\n- atom: b\n  choices: yes no\n- rule: a=yes\n  then: b=yes\n- rule: b=yes\n  then: a=yes\n";
    match parse_document(text) {
        Err(LoadError::Cycle { atoms }) => assert_eq!(atoms.len(), 2),
        _ => panic!("expected a cycle"),
    }
}

#[test]
fn document_errors() {
    assert!(matches!(parse_document("  choices: yes\n"), Err(LoadError::Syntax { line: 1 })));
    assert!(matches!(parse_document("- atom: a\n"), Err(LoadError::Syntax { line: 1 })));
    assert!(matches!(parse_document("- atom: a\n  choices yes\n"), Err(LoadError::Syntax { line: 2 })));
    assert!(matches!(parse_document("- atom: a\n  colour: red\n  choices: x\n"), Err(LoadError::Syntax { line: 2 })));
    assert!(matches!(parse_document("- rule: a=yes\n  goal: G\n"), Err(LoadError::UnknownAtom { line: 1, .. })));
    assert!(matches!(
        parse_document("- atom: a\n  choices: x\n- atom: a\n  choices: y\n"),
        Err(LoadError::DuplicateAtom { line: 3, .. })
    ));
    assert!(matches!(parse_document("- atom: a\n  choices: x\n- rule: a=x\n"), Err(LoadError::Syntax { line: 3 })));
}

#[test]
fn empty_base_has_no_question_and_no_goal() {
    let e = Engine::new(parse_document("# nothing\n\n").unwrap());
    assert!(e.next_question().is_none());
    assert!(e.reached_goal().is_none());
    let f = Engine::new(parse_knowledge_base("").unwrap());
    assert!(f.next_question().is_none());
    assert!(f.reached_goal().is_none());
}

#[test]
fn load_reads_either_notation() {
    let a = expert_system::load(LINES).unwrap();
    let b = expert_system::load(DOCUMENT).unwrap();
    same_model(&a, &b);
    assert!(matches!(expert_system::load("- atom: a\n  choices: x\n- rule: b=x\n  goal: G\n"), Err(LoadError::UnknownAtom { line: 3, .. })));
    assert!(matches!(expert_system::load("atom a x\nrule b=x -> goal G\n"), Err(LoadError::UnknownAtom { line: 2, .. })));
}
