use asciibox::{get_arrow, parse_edge, parse_node, ADirect, ASharp};

#[test]
fn test_node_parse() {
    assert_eq!(parse_node("a"), ("a", "a", ASharp::Round, ""));
    assert_eq!(parse_node("a1(bb)"), ("a1", "bb", ASharp::Round, ""));
    assert_eq!(parse_node("a2[bb ]"), ("a2", "bb", ASharp::Square, ""));
    assert_eq!(parse_node("a3[你好]"), ("a3", "你好", ASharp::Square, ""));
    assert_eq!(
        parse_node("a4[你好] cc"),
        ("a4", "你好", ASharp::Square, "cc")
    );
    assert_eq!(
        parse_node("天下[天下神一舞]"),
        ("天下", "天下神一舞", ASharp::Square, "")
    );
}

#[test]
fn test_arrow_parse() {
    assert_eq!(parse_edge("-->").0, ADirect::Right);
    assert_eq!(
        parse_edge("--|aaa|-->bb"),
        (ADirect::Right, String::from("aaa"), String::from("bb"))
    );
    assert_eq!(parse_edge("<--").0, ADirect::Left);
    assert_eq!(parse_edge("<-->").0, ADirect::Double);
    assert_eq!(parse_edge("<-->").0, ADirect::Double);
    assert_eq!(parse_edge("--^").0, ADirect::Up);
    assert_eq!(parse_edge("--v").0, ADirect::Down);
    assert_eq!(parse_edge("-^>").0, ADirect::RightUp);
    assert_eq!(parse_edge("-v>").0, ADirect::RightDown);
    assert_eq!(parse_edge("<^-").0, ADirect::LeftUp);
    assert_eq!(parse_edge("<v-").0, ADirect::LeftDown);
}

#[test]
fn node_curly_and_round_shapes() {
    assert_eq!(parse_node("c1{ x y }-->d"), ("c1", "x y", ASharp::Circle, "-->d"));
    assert_eq!(parse_node("r( lbl )  -->z"), ("r", "lbl", ASharp::Round, "-->z"));
}

#[test]
fn node_bare_token_stops_at_arrow() {
    assert_eq!(parse_node("a-->b"), ("a", "a", ASharp::Round, "-->b"));
    assert_eq!(parse_node("ab <--c"), ("ab ", "ab ", ASharp::Round, "<--c"));
    assert_eq!(parse_node(""), ("", "", ASharp::Round, ""));
    assert_eq!(parse_node("-x"), ("", "", ASharp::Round, "-x"));
}

#[test]
fn node_unclosed_bracket_takes_rest_as_label() {
    assert_eq!(parse_node("k[ open "), ("k", "open", ASharp::Square, ""));
}

#[test]
fn node_round_bracket_wins_over_square() {
    assert_eq!(parse_node("p[q](r)"), ("p[q]", "r", ASharp::Round, ""));
}

#[test]
fn edge_remainder_and_label() {
    assert_eq!(
        parse_edge("<-- x"),
        (ADirect::Left, String::new(), String::from("x"))
    );
    assert_eq!(
        parse_edge("-|hi there|-> next"),
        (ADirect::Right, String::from("hi there"), String::from("next"))
    );
    assert_eq!(parse_edge("abc"), (ADirect::NoArrow, String::new(), String::new()));
    assert_eq!(parse_edge("ab->"), (ADirect::NoArrow, String::new(), String::new()));
    assert_eq!(parse_edge("-x"), (ADirect::NoArrow, String::new(), String::from("x")));
    assert_eq!(parse_edge("<-y"), (ADirect::Left, String::new(), String::from("y")));
}

#[test]
fn arrow_classification() {
    assert_eq!(get_arrow("<-->"), ADirect::Double);
    assert_eq!(get_arrow("<---"), ADirect::Left);
    assert_eq!(get_arrow("---->"), ADirect::Right);
    assert_eq!(get_arrow("---^"), ADirect::Up);
    assert_eq!(get_arrow("--v"), ADirect::Down);
    assert_eq!(get_arrow("<^--"), ADirect::LeftUp);
    assert_eq!(get_arrow("<v--"), ADirect::LeftDown);
    assert_eq!(get_arrow("-^>"), ADirect::RightUp);
    assert_eq!(get_arrow("-v>"), ADirect::RightDown);
    assert_eq!(get_arrow("=="), ADirect::NoArrow);
}
