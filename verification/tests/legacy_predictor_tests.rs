use text_predictor::corpus::CorpusError;
use text_predictor::predictor::Predictor;

#[test]
fn legacy_predictor_loads_and_predicts() {
    let mut predictor = Predictor::new();
    predictor.load("the cat 2 dog 1 \n").unwrap();
    assert_eq!(predictor.predict(&String::from("the")), "cat dog ");
    assert_eq!(predictor.predict(&String::from("dog")), "");
}

#[test]
fn legacy_predictor_rejects_short_lines() {
    let mut predictor = Predictor::new();
    assert_eq!(predictor.load("the\n"), Err(CorpusError::MalformedLine));
    assert_eq!(predictor.predict(&String::from("the")), "");
}
