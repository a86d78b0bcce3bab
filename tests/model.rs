use asciibox::{cn_length, AEdge, ADirect, ANode, ASharp, GBoard, RBox};

#[test]
fn display_width_counts_wide_chars_twice() {
    assert_eq!(cn_length("abc"), 3);
    assert_eq!(cn_length("你好a"), 5);
    assert_eq!(cn_length(""), 0);
    assert_eq!(cn_length("éα"), 2);
    assert_eq!(cn_length("ｱカ한"), 5);
}

#[test]
fn direction_names_and_reversal() {
    assert_eq!(ADirect::LeftDown.to_string(), "leftdown");
    assert_eq!(ADirect::NoArrow.to_string(), "none");
    assert_eq!(ADirect::Left.not(), ADirect::Right);
    assert_eq!(ADirect::LeftUp.not(), ADirect::RightDown);
    assert_eq!(ADirect::LeftDown.not(), ADirect::RightUp);
    assert_eq!(ADirect::Double.not(), ADirect::Double);
    assert_eq!(ADirect::Up.not().not(), ADirect::Up);
}

#[test]
fn rbox_setters_keep_maximum() {
    let mut b = RBox::new();
    b.set_left_w(3);
    b.set_left_w(2);
    b.set_right_w(4);
    b.set_up_h(2);
    b.set_down_h(1);
    assert_eq!((b.w_left, b.w_right, b.h_up, b.h_down), (3, 4, 2, 1));
}

#[test]
fn node_sizes_from_label() {
    let n = ANode::new(" id ".to_string(), "  ab\n你好x ".to_string(), 1, 2, ASharp::Square);
    assert_eq!(n.id, "id");
    assert_eq!(n.name, "ab\n你好x");
    assert_eq!((n.w, n.h, n.x, n.y), (5, 2, 1, 2));
    assert_eq!(n.content_w(), 7);
    assert_eq!(n.content_h(), 4);
    assert_eq!(n.total_h(), 4);
    assert_eq!(n.total_w(), 9);
}

#[test]
fn mixed_width_label_border_length() {
    let n = ANode::new("n".to_string(), "ab\n你好x".to_string(), 0, 0, ASharp::Square);
    let cw = n.content_w();
    assert_eq!(n.render(0, 0, cw, 0, 0, false), "+-------+");
    assert_eq!(n.render(1, 0, cw, 0, 0, false), "|   ab  |");
    assert_eq!(n.render(2, 0, cw, 0, 0, false), "| 你好x |");
    assert_eq!(n.render(3, 0, cw, 0, 0, false), "+-------+");
    assert_eq!(n.render(4, 0, cw, 0, 0, false), "         ");
}

#[test]
fn round_border_and_expand_mode() {
    let n = ANode::new("a".to_string(), "a".to_string(), 0, 0, ASharp::Round);
    assert_eq!(n.render(0, 0, 5, 1, 1, false), "  .---.  ");
    assert_eq!(n.render(2, 0, 5, 1, 1, false), "  '---'  ");
    assert_eq!(n.render(0, 0, 5, 1, 1, true), ". -----. ");
    assert_eq!(n.render(1, 0, 5, 0, 0, true), "|  a  |");
}

#[test]
fn add_arrow_reserves_space() {
    let mut n = ANode::new("a".to_string(), "a".to_string(), 0, 0, ASharp::Round);
    let e = AEdge::new(ADirect::Double, "a".to_string(), "b".to_string(), String::new());
    n.add_arrow(&e, ADirect::Right, true);
    assert_eq!(n.right_w(), 4);
    assert_eq!(n.arrows.len(), 1);
    let l = AEdge::new(ADirect::Left, "a".to_string(), "c".to_string(), String::new());
    n.add_arrow(&l, ADirect::Left, true);
    assert_eq!(n.left_w(), 3);
    assert_eq!(n.render(1, 0, 3, 3, 4, false), "<--| a |<-->");
    let d = AEdge::new(ADirect::LeftDown, "a".to_string(), "d".to_string(), String::new());
    n.add_arrow(&d, ADirect::LeftDown, true);
    assert_eq!((n.left_w(), n.down_h()), (3, 2));
    let u = AEdge::new(ADirect::Up, "a".to_string(), "e".to_string(), String::new());
    n.add_arrow(&u, ADirect::Up, false);
    assert_eq!(n.up_h(), 0);
    assert_eq!(n.arrows_no_render.len(), 1);
}

#[test]
fn vertical_gutters() {
    let mut n = ANode::new("a".to_string(), "a".to_string(), 0, 0, ASharp::Round);
    let u = AEdge::new(ADirect::Up, "a".to_string(), "b".to_string(), String::new());
    n.add_arrow(&u, ADirect::Up, true);
    n.add_arrow(&u, ADirect::Down, true);
    assert_eq!(n.render_up(0, 0, 3, 0, 0), "  ^  ");
    assert_eq!(n.render_up(1, 0, 3, 0, 0), "  |  ");
    assert_eq!(n.render_up(2, 0, 3, 0, 0), "     ");
    assert_eq!(n.render_down(0, 0, 3, 0, 0), "  |  ");
    assert_eq!(n.render_down(1, 0, 3, 0, 0), "  v  ");
}

#[test]
fn duplicate_id_keeps_first_node() {
    let mut b = GBoard::new();
    assert!(b.add_node(ANode::new("a".to_string(), "first".to_string(), 0, 0, ASharp::Round)));
    assert!(!b.add_node(ANode::new("a".to_string(), "second".to_string(), 3, 4, ASharp::Square)));
    assert_eq!(b.nodes.len(), 1);
    let n = b.get_node(&"a".to_string()).unwrap();
    assert_eq!((n.name.as_str(), n.x, n.y, n.idx), ("first", 0, 0, 1));
    assert_eq!((b.h, b.w), (1, 1));
}

#[test]
fn self_edge_changes_nothing() {
    let mut b = GBoard::new();
    b.add_node(ANode::new("a".to_string(), "a".to_string(), 0, 0, ASharp::Round));
    b.add_node(ANode::new("b".to_string(), "b".to_string(), 0, 2, ASharp::Round));
    let e = AEdge::new(ADirect::Right, "a".to_string(), "a".to_string(), String::new());
    assert!(b.apply_arrow(&e));
    assert_eq!((b.nodes[0].x, b.nodes[0].y, b.nodes[1].y), (0, 0, 2));
    assert_eq!(b.nodes[0].right_w(), 0);
    assert!(b.nodes[0].arrows.is_empty());
}

#[test]
fn unknown_source_stops_replay() {
    let mut b = GBoard::new();
    b.add_node(ANode::new("a".to_string(), "a".to_string(), 0, 0, ASharp::Round));
    let e = AEdge::new(ADirect::Right, "zz".to_string(), "a".to_string(), String::new());
    assert!(!b.apply_arrow(&e));
    assert_eq!(b.load_arrows(&vec![e]), None);
}

#[test]
fn left_edge_moves_destination_left() {
    let mut b = GBoard::new();
    b.add_node(ANode::new("a".to_string(), "a".to_string(), 0, 0, ASharp::Round));
    b.add_node(ANode::new("b".to_string(), "b".to_string(), 0, 2, ASharp::Round));
    let e = AEdge::new(ADirect::Left, "a".to_string(), "b".to_string(), String::new());
    assert_eq!(b.load_arrows(&vec![e]), Some(""));
    assert_eq!((b.nodes[0].y, b.nodes[1].y), (1, 0));
    assert_eq!(b.nodes[0].left_w(), 3);
    assert_eq!(b.nodes[1].arrows_no_render.len(), 1);
    assert_eq!(b.board[0][0], 2);
    assert_eq!(b.board[0][1], 1);
}

#[test]
fn nodes_compare_by_id_and_label() {
    let a = ANode::new("a".to_string(), "x".to_string(), 0, 0, ASharp::Round);
    let b = ANode::new("a".to_string(), "x".to_string(), 4, 4, ASharp::Square);
    let c = ANode::new("a".to_string(), "y".to_string(), 0, 0, ASharp::Round);
    assert!(a == b);
    assert!(a != c);
    assert!(a.clone() == a);
}

#[test]
fn right_edge_places_destination_beside_source() {
    let mut b = GBoard::new();
    b.add_node(ANode::new("a".to_string(), "a".to_string(), 0, 0, ASharp::Round));
    b.add_node(ANode::new("b".to_string(), "b".to_string(), 0, 2, ASharp::Round));
    let e = AEdge::new(ADirect::Right, "a".to_string(), "b".to_string(), String::new());
    assert_eq!(b.load_arrows(&vec![e]), Some(""));
    assert_eq!((b.nodes[0].x, b.nodes[0].y, b.nodes[1].x, b.nodes[1].y), (0, 0, 0, 1));
    assert_eq!((b.board[0][0], b.board[0][1]), (1, 2));
    assert_eq!(b.nodes[0].right_w(), 3);
    assert_eq!((b.board.len(), b.board[0].len()), (10, 12));
}

#[test]
fn grid_is_sized_before_relocation() {
    let mut b = GBoard::new();
    b.add_node(ANode::new("b".to_string(), "b".to_string(), 0, 0, ASharp::Round));
    b.add_node(ANode::new("a".to_string(), "a".to_string(), 0, 2, ASharp::Round));
    assert_eq!((b.h, b.w), (1, 3));
    let e = AEdge::new(ADirect::Right, "a".to_string(), "b".to_string(), String::new());
    assert_eq!(b.load_arrows(&vec![e]), Some(""));
    assert_eq!((b.nodes[0].x, b.nodes[0].y), (0, 3));
    assert_eq!(b.w, 4);
    assert_eq!((b.grid_h, b.grid_w), (1, 3));
    assert_eq!(b.board.len(), 10);
    assert!(b.board.iter().all(|row| row.len() == 12));
    assert_eq!((b.board[0][2], b.board[0][3], b.board[0][0]), (2, 1, 0));
}

#[test]
fn unknown_source_of_vertical_edge_stops_replay() {
    let mut b = GBoard::new();
    b.add_node(ANode::new("a".to_string(), "a".to_string(), 0, 0, ASharp::Round));
    let e = AEdge::new(ADirect::Up, "zz".to_string(), "a".to_string(), String::new());
    assert_eq!(b.load_arrows(&vec![e]), None);
}
