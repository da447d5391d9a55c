use chinese_checker::{ChineseChecker, Node, Position};

fn pos(x: i16, y: i16) -> Position {
    Position::from((x, y))
}

fn node_at(cc: &ChineseChecker, p: Position) -> Option<Node> {
    cc.nodes.iter().find(|(q, _)| *q == p).map(|(_, n)| *n)
}

#[test]
fn position_add_and_sub() {
    let a = pos(3, -2);
    let b = pos(1, 5);
    assert_eq!(a.add(b), pos(4, 3));
    assert_eq!(a.sub(b), pos(2, -7));
}

#[test]
fn validate_accepts_points_of_the_hexagram_only() {
    assert_eq!(pos(3, 0).validate(1), Some(pos(3, 0)));
    assert_eq!(pos(2, 0).validate(1), None);
    assert_eq!(pos(0, 1).validate(1), Some(pos(0, 1)));
    assert_eq!(pos(3, 5).validate(1), None);
    assert_eq!(pos(12, 8).validate(4), Some(pos(12, 8)));
    assert_eq!(pos(-1, 8).validate(4), None);
}

#[test]
fn in_triangle_classifies_each_tip_and_the_center() {
    let cc = ChineseChecker::new(4);
    for t in 0..6u8 {
        assert_eq!(cc.tips[t as usize].in_triangle(4), Some(t));
    }
    assert_eq!(pos(12, 8).in_triangle(4), None);
}

#[test]
fn board_point_counts() {
    assert_eq!(ChineseChecker::new(1).nodes.len(), 13);
    let cc = ChineseChecker::new(4);
    assert_eq!(cc.nodes.len(), 121);
    for t in 0..6u8 {
        assert_eq!(cc.get_positions_in_triangle(t).len(), 10);
    }
    assert_eq!(cc.get_positions_in_triangle(6).len(), 0);
}

#[test]
fn tips_of_a_board() {
    let cc = ChineseChecker::new(2);
    assert_eq!(
        cc.tips,
        [pos(6, 0), pos(0, 2), pos(0, 6), pos(6, 8), pos(12, 6), pos(12, 2)]
    );
}

#[test]
fn node_neighbors_of_a_tip() {
    let cc = ChineseChecker::new(1);
    let n = node_at(&cc, pos(3, 0)).unwrap();
    assert_eq!(
        n.neighbors,
        [None, None, Some(pos(2, 1)), Some(pos(4, 1)), None, None]
    );
    assert_eq!(n.triangle, Some(0));
    assert_eq!(Node::new(pos(3, 0), 1).neighbors, n.neighbors);
}

#[test]
fn board_is_symmetric_through_its_center() {
    for size in 1..=4i16 {
        let cc = ChineseChecker::new(size);
        for (p, n) in cc.nodes.iter() {
            let q = pos(6 * size - p.x, 4 * size - p.y);
            let m = node_at(&cc, q).expect("antipode is on the board");
            match n.triangle {
                Some(t) => assert_eq!(m.triangle, Some((t + 3) % 6)),
                None => assert_eq!(m.triangle, None),
            }
        }
    }
}

#[test]
fn opposite_slots_point_back() {
    let cc = ChineseChecker::new(3);
    for (p, n) in cc.nodes.iter() {
        for i in 0..6 {
            if let Some(q) = n.neighbors[i] {
                let m = node_at(&cc, q).expect("neighbor is on the board");
                assert_eq!(m.neighbors[(i + 3) % 6], Some(*p));
            }
        }
    }
}

#[test]
fn opposite_continues_in_the_same_direction() {
    let cc = ChineseChecker::new(4);
    assert_eq!(cc.opposite(&pos(14, 8), &pos(12, 8)), Some(pos(16, 8)));
    assert_eq!(cc.opposite(&pos(13, 9), &pos(12, 8)), Some(pos(14, 10)));
    assert_eq!(cc.opposite(&pos(1, 5), &pos(2, 4)), None);
}
