use text_predictor::corpus::CorpusError;
use text_predictor::next_word_predictor::directed_graph::DirectedGraph;
use text_predictor::next_word_predictor::predictor::Predictor;
use text_predictor::undirected_graph::UndirectedGraph;

#[test]
fn graph_serializes_counts_and_order() {
    let mut graph = DirectedGraph::new();
    let a = String::from("a");
    let b = String::from("b");
    let c = String::from("c");
    graph.add_edge(&a, &b);
    graph.add_edge(&a, &b);
    graph.add_edge(&b, &c);
    assert_eq!(graph.serialize(), "a b 2 \nb c 1 \n");
}

#[test]
fn graph_keeps_successor_order_and_counts() {
    let mut graph = DirectedGraph::new();
    let the = String::from("the");
    let cat = String::from("cat");
    let dog = String::from("dog");
    graph.add_edge(&the, &cat);
    graph.add_edge(&the, &cat);
    graph.add_edge(&the, &dog);
    assert_eq!(graph.serialize(), "the cat 2 dog 1 \n");
}

#[test]
fn graph_serializes_multi_digit_counts() {
    let mut graph = DirectedGraph::new();
    let a = String::from("a");
    let b = String::from("b");
    for _ in 0..12 {
        graph.add_edge(&a, &b);
    }
    assert_eq!(graph.serialize(), "a b 12 \n");
}

#[test]
fn observe_serialize_load_round_trip() {
    let mut graph = DirectedGraph::new();
    let the = String::from("the");
    let cat = String::from("cat");
    let dog = String::from("dog");
    graph.add_edge(&the, &cat);
    graph.add_edge(&the, &cat);
    graph.add_edge(&the, &dog);
    let corpus = graph.serialize();
    let mut predictor = Predictor::new();
    predictor.load(corpus.as_str()).unwrap();
    assert_eq!(predictor.predict(&the), "cat dog ");
}

#[test]
fn round_trip_many_predecessors() {
    let mut graph = DirectedGraph::new();
    let words = ["sun", "moon", "star"];
    let succs = ["rise", "set", "light"];
    for w in words.iter() {
        for s in succs.iter() {
            graph.add_edge(&w.to_string(), &s.to_string());
        }
    }
    let corpus = graph.serialize();
    let mut predictor = Predictor::new();
    predictor.load(corpus.as_str()).unwrap();
    for w in words.iter() {
        assert_eq!(predictor.predict(&w.to_string()), "rise set light ");
    }
    assert_eq!(predictor.predict(&String::from("rise")), "");
}

#[test]
fn predict_unknown_word_is_empty() {
    let mut predictor = Predictor::new();
    predictor.load("the cat 2 \n").unwrap();
    assert_eq!(predictor.predict(&String::from("nope")), "");
    assert_eq!(predictor.predict(&String::from("cat")), "");
    assert_eq!(predictor.predict(&String::from("")), "");
}

#[test]
fn fresh_predictor_knows_nothing() {
    let predictor = Predictor::new();
    assert_eq!(predictor.predict(&String::from("the")), "");
}

#[test]
fn load_takes_tokens_at_odd_positions() {
    let mut predictor = Predictor::new();
    predictor.load("the cat 2 dog 1 \n").unwrap();
    assert_eq!(predictor.predict(&String::from("the")), "cat dog ");
}

#[test]
fn load_accepts_a_dangling_successor() {
    let mut predictor = Predictor::new();
    predictor.load("w s").unwrap();
    assert_eq!(predictor.predict(&String::from("w")), "s ");
}

#[test]
fn load_rejects_short_lines_and_keeps_old_state() {
    let mut predictor = Predictor::new();
    predictor.load("a b 1 \n").unwrap();
    assert_eq!(predictor.load("the\n"), Err(CorpusError::MalformedLine));
    assert_eq!(predictor.load("a b 1 \n\nc d 1 \n"), Err(CorpusError::MalformedLine));
    assert_eq!(predictor.predict(&String::from("a")), "b ");
}

#[test]
fn reload_overwrites_previous_state() {
    let mut predictor = Predictor::new();
    predictor.load("a b 1 \n").unwrap();
    predictor.load("c d 1 \n").unwrap();
    assert_eq!(predictor.predict(&String::from("a")), "");
    assert_eq!(predictor.predict(&String::from("c")), "d ");
}

#[test]
fn later_line_for_same_predecessor_wins() {
    let mut predictor = Predictor::new();
    predictor.load("a b 1 \na c 1 \n").unwrap();
    assert_eq!(predictor.predict(&String::from("a")), "c ");
}

#[test]
fn undirected_graph_aggregates_like_the_directed_one() {
    let mut graph = UndirectedGraph::new();
    let the = String::from("the");
    let cat = String::from("cat");
    let dog = String::from("dog");
    graph.add(&the, &cat);
    graph.add(&the, &cat);
    graph.add(&the, &dog);
    assert_eq!(graph.serialize(), "the cat 2 dog 1 \n");
}
