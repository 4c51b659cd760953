use spm::names::layer_name;
use spm::session::{choose_sampling, token_action, Mode, SamplingKind, Session, Token, TurnAction};

#[test]
fn mode_defaults_to_master() {
    assert_eq!(Mode::default(), Mode::Master);
}

#[test]
fn token_text_or_placeholder() {
    let t = Token { id: 42, text: None, is_end_of_stream: false };
    assert_eq!(t.to_text(), "<token 42>");
    let t = Token { id: 0, text: None, is_end_of_stream: false };
    assert_eq!(t.to_text(), "<token 0>");
    let t = Token { id: 7, text: Some("hi".to_string()), is_end_of_stream: false };
    assert_eq!(t.to_text(), "hi");
}

#[test]
fn layer_names() {
    assert_eq!(layer_name(0), "model.layers.0");
    assert_eq!(layer_name(31), "model.layers.31");
}

#[test]
fn prefill_then_decode_steps() {
    let mut s = Session::new(true, Some(128009), 2);
    assert!(s.needs_prefill());
    s.start_prompt(vec![1, 2, 3, 4]);
    let first = s.context(0);
    assert_eq!(first.tokens, vec![1, 2, 3, 4]);
    assert_eq!(first.index_pos, 0);
    assert_eq!(s.penalty_context(), vec![3, 4]);
    let t = s.accept(0, 50, Some("x".to_string()));
    assert_eq!(t.id, 50);
    assert!(!t.is_end_of_stream);
    assert_eq!(s.index_pos, 4);
    assert!(!s.needs_prefill());
    let second = s.context(1);
    assert_eq!(second.tokens, vec![50]);
    assert_eq!(second.index_pos, 4);
    s.accept(1, 51, None);
    assert_eq!(s.index_pos, 5);
    assert_eq!(s.tokens, vec![1, 2, 3, 4, 50, 51]);
    let t = s.accept(2, 128009, None);
    assert!(t.is_end_of_stream);
    assert_eq!(s.generated_tokens(), 3);
    s.reset();
    assert!(s.tokens.is_empty());
    assert_eq!(s.index_pos, 0);
    assert!(s.needs_prefill());
}

#[test]
fn without_cache_every_step_feeds_all_tokens() {
    let mut s = Session::new(false, None, 8);
    s.start_prompt(vec![1, 2]);
    s.accept(0, 3, None);
    let c = s.context(1);
    assert_eq!(c.tokens, vec![1, 2, 3]);
    assert_eq!(c.index_pos, 0);
    let t = s.accept(1, 4, None);
    assert!(!t.is_end_of_stream);
    assert_eq!(s.index_pos, 5);
}

#[test]
fn turn_end_conditions() {
    let eos = Token { id: 2, text: Some("</s>".to_string()), is_end_of_stream: true };
    let other = Token { id: 3, text: None, is_end_of_stream: false };
    assert!(matches!(token_action(&eos, 1, 100), TurnAction::Finish));
    assert!(matches!(token_action(&eos, 100, 100), TurnAction::Finish));
    match token_action(&other, 1, 100) {
        TurnAction::Emit { text } => assert_eq!(text, "<token 3>"),
        _ => panic!("expected emit"),
    }
    match token_action(&other, 100, 100) {
        TurnAction::EmitLast { text } => assert_eq!(text, "<token 3>"),
        _ => panic!("expected last emit"),
    }
}

#[test]
fn sampling_choice() {
    assert_eq!(choose_sampling(false, Some(5), true), SamplingKind::ArgMax);
    assert_eq!(choose_sampling(true, None, false), SamplingKind::All);
    assert_eq!(choose_sampling(true, Some(1), false), SamplingKind::TopK { k: 1 });
    assert_eq!(choose_sampling(true, None, true), SamplingKind::TopP);
    assert_eq!(choose_sampling(true, Some(3), true), SamplingKind::TopKThenTopP { k: 3 });
    // the same settings always give the same strategy
    assert_eq!(choose_sampling(false, None, false), choose_sampling(false, None, false));
}
