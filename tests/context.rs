use expert_system::{create_inference_engine, parse_knowledge_base, redirect, Context, FactError};

const PLUMBER: &str = "atom leak yes no\nask leak Is there a water leak?\nrule leak=yes -> goal Call a plumber\n";

#[test]
fn context_pairs_are_read_in_order() {
    let ctx = Context::from_form_value("leak:yes,smoke:no").unwrap();
    assert_eq!(ctx.atoms, vec!["leak".to_string(), "smoke".to_string()]);
    assert_eq!(ctx.selected_answers, vec!["yes".to_string(), "no".to_string()]);
}

#[test]
fn context_skips_empty_fields() {
    let ctx = Context::from_form_value("::leak::yes:").unwrap();
    assert_eq!(ctx.atoms, vec!["leak".to_string()]);
    assert_eq!(ctx.selected_answers, vec!["yes".to_string()]);
}

#[test]
fn context_without_answer_is_refused() {
    assert!(Context::from_form_value("leak").is_err());
    assert!(Context::from_form_value("leak:yes,").is_err());
    assert!(Context::from_form_value("").is_err());
}

#[test]
fn engine_from_context_holds_its_answers() {
    let kb = parse_knowledge_base(PLUMBER).unwrap();
    let ctx = Context::from_form_value("leak:yes").unwrap();
    let (e, refused) = create_inference_engine(kb, &Some(ctx));
    assert!(refused.is_empty());
    assert!(e.next_question().is_none());
    assert_eq!(e.reached_goal().unwrap().text, "Call a plumber");
}

#[test]
fn engine_without_context_asks_first() {
    let kb = parse_knowledge_base(PLUMBER).unwrap();
    let (e, refused) = create_inference_engine(kb, &None);
    assert!(refused.is_empty());
    assert_eq!(e.next_question().unwrap().atom_name, "leak");
}

#[test]
fn engine_from_context_refuses_unknown_answers() {
    let kb = parse_knowledge_base(PLUMBER).unwrap();
    let ctx = Context::from_form_value("leak:perhaps").unwrap();
    let (e, refused) = create_inference_engine(kb, &Some(ctx));
    assert_eq!(refused.len(), 1);
    assert_eq!(refused[0].0, 0);
    assert!(matches!(refused[0].1, FactError::UnknownChoice { .. }));
    assert_eq!(e.facts, vec![None]);
}

const TWO: &str = "atom leak yes no\natom smoke yes no\nask leak Leak?\nask smoke Smoke?\nrule leak=yes smoke=no -> goal Call a plumber\n";

#[test]
fn refused_answers_leave_the_others_applied() {
    let kb = parse_knowledge_base(TWO).unwrap();
    let ctx = Context::from_form_value("leak:yes,flood:yes,smoke:maybe,smoke:no").unwrap();
    let (e, refused) = create_inference_engine(kb, &Some(ctx));
    assert_eq!(refused.len(), 2);
    assert_eq!(refused[0].0, 1);
    assert!(matches!(refused[0].1, FactError::UnknownAtom { .. }));
    assert_eq!(refused[1].0, 2);
    assert!(matches!(refused[1].1, FactError::UnknownChoice { .. }));
    assert_eq!(e.facts, vec![Some(0), Some(1)]);
    assert_eq!(e.reached_goal().unwrap().text, "Call a plumber");
}

#[test]
fn context_dead_end_and_order_of_pairs() {
    let no = Context::from_form_value("leak:no").unwrap();
    let (e, _) = create_inference_engine(parse_knowledge_base(PLUMBER).unwrap(), &Some(no));
    assert!(e.next_question().is_none());
    assert!(e.reached_goal().is_none());
    let a = Context::from_form_value("leak:yes,smoke:no").unwrap();
    let b = Context::from_form_value("smoke:no,leak:yes").unwrap();
    let (ea, _) = create_inference_engine(parse_knowledge_base(TWO).unwrap(), &Some(a));
    let (eb, _) = create_inference_engine(parse_knowledge_base(TWO).unwrap(), &Some(b));
    assert_eq!(ea.facts, eb.facts);
    assert_eq!(ea.reached_goal().map(|x| x.text), eb.reached_goal().map(|x| x.text));
}

#[test]
fn later_context_answer_wins() {
    let ctx = Context::from_form_value("leak:no,leak:yes").unwrap();
    let (e, _) = create_inference_engine(parse_knowledge_base(PLUMBER).unwrap(), &Some(ctx));
    assert_eq!(e.facts, vec![Some(0)]);
}

#[test]
fn root_redirects_to_index() {
    assert_eq!(redirect(), "/index");
}
