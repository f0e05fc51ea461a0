use graph_layout::{find_node, isqrt, scaled_div, Color, Node};

fn node(id: &str) -> Node {
    Node {
        id: String::from(id),
        name: String::from(id),
        color: Color { r: 1, g: 2, b: 3 },
        x: 0,
        y: 0,
    }
}

#[test]
fn integer_square_roots_round_down() {
    assert_eq!(isqrt(0), 0);
    assert_eq!(isqrt(1), 1);
    assert_eq!(isqrt(2), 1);
    assert_eq!(isqrt(3), 1);
    assert_eq!(isqrt(4), 2);
    assert_eq!(isqrt(99), 9);
    assert_eq!(isqrt(100), 10);
    assert_eq!(isqrt(65536 * 65536), 65536);
    assert_eq!(isqrt(65536 * 65536 + 1), 65536);
    assert_eq!(isqrt(u64::MAX as u128), 4294967295);
}

#[test]
fn scaled_division_truncates_toward_zero() {
    assert_eq!(scaled_div(7, 3, 2), 10); // 21 / 2
    assert_eq!(scaled_div(7, -3, 2), -10);
    assert_eq!(scaled_div(1, 1, 2), 0);
    assert_eq!(scaled_div(1, -1, 2), 0);
    assert_eq!(scaled_div(0, -5, 3), 0);
}

#[test]
fn find_node_returns_the_first_match() {
    let nodes = vec![node("a"), node("b"), node("c")];
    assert_eq!(find_node(&nodes, &String::from("a")), Some(0));
    assert_eq!(find_node(&nodes, &String::from("c")), Some(2));
    assert_eq!(find_node(&nodes, &String::from("missing")), None);
    assert_eq!(find_node(&Vec::new(), &String::from("a")), None);
}
