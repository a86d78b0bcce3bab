use asciibox::{render_diagram, GSMap};

#[test]
fn two_nodes_one_arrow() {
    let out = render_diagram("a-->b", false);
    let expected = format!(".---.   .---.\n| a |-->| b |\n'---'   '---'\n{}", "\n".repeat(9));
    assert_eq!(out, expected);
}

#[test]
fn shared_destination_relocated_once() {
    let mut m = GSMap::new(false);
    let out = m.load_content("a-->b\nc-->b");
    let expected = format!(
        ".---.\n| a |-->\n'---'\n.---.   .---.\n| c |-->| b |\n'---'   '---'\n{}",
        "\n".repeat(9)
    );
    assert_eq!(out, expected);
    assert_eq!(m.board.nodes.len(), 3);
    let b = m.board.get_node(&"b".to_string()).unwrap();
    assert_eq!((b.x, b.y), (1, 1));
}

#[test]
fn rendering_twice_is_identical() {
    let src = "x[box]<--y\n\nlong(two\\nlines)-->z";
    assert_eq!(render_diagram(src, false), render_diagram(src, false));
    assert_eq!(render_diagram(src, true), render_diagram(src, true));
}

#[test]
fn blank_lines_take_no_row() {
    let a = render_diagram("a-->b", false);
    let b = render_diagram("\n\na-->b\n", false);
    assert_eq!(a, b);
}

#[test]
fn empty_input_draws_empty_grid() {
    assert_eq!(render_diagram("", false), "\n".repeat(9));
}

#[test]
fn left_arrow_puts_destination_first() {
    let out = render_diagram("b<--a", false);
    let expected = format!(".---.   .---.\n| a |<--| b |\n'---'   '---'\n{}", "\n".repeat(9));
    assert_eq!(out, expected);
}

#[test]
fn expand_mode_pushes_padding_outside() {
    let plain = render_diagram("a-->b\nccc", false);
    let wide = render_diagram("a-->b\nccc", true);
    let top = ".---.   .---.\n| a |-->| b |\n'---'   '---'\n";
    assert_eq!(
        plain,
        format!("{} .-----.\n | ccc |\n '-----'\n{}", top, "\n".repeat(9))
    );
    assert_eq!(
        wide,
        format!("{}.------.\n|  ccc |\n'------'\n{}", top, "\n".repeat(9))
    );
}

#[test]
fn node_without_identifier_takes_its_label() {
    let mut m = GSMap::new(false);
    m.load_content("(lbl)-->b");
    assert_eq!(m.board.nodes.len(), 2);
    let n = m.board.get_node(&"lbl".to_string()).unwrap();
    assert_eq!((n.x, n.y), (0, 0));
    assert_eq!(m.arrows[0].src, "lbl");
}

#[test]
fn malformed_line_is_skipped_without_a_row() {
    assert_eq!(render_diagram("-->b\na-->b", false), render_diagram("a-->b", false));
}
