use reversi::board::{Board, Point, Stone};
use reversi::error::Error;

fn all_points() -> Vec<Point> {
    let mut v = Vec::new();
    for x in 0..8 {
        for y in 0..8 {
            v.push(Point(x, y));
        }
    }
    v
}

fn snapshot(b: &Board) -> Vec<Option<Stone>> {
    all_points().iter().map(|p| b.get(p)).collect()
}

#[test]
fn default_board_has_two_of_each_in_the_center() {
    let b = Board::default();
    assert_eq!(b.count_stones(), (2, 2));
    assert_eq!(b.get(&Point(3, 3)), Some(Stone::Black));
    assert_eq!(b.get(&Point(4, 4)), Some(Stone::Black));
    assert_eq!(b.get(&Point(3, 4)), Some(Stone::White));
    assert_eq!(b.get(&Point(4, 3)), Some(Stone::White));
    let stones = all_points().iter().filter(|p| b.get(p).is_some()).count();
    assert_eq!(stones, 4);
}

#[test]
fn get_off_the_board_is_none() {
    let b = Board::default();
    assert_eq!(b.get(&Point(8, 0)), None);
    assert_eq!(b.get(&Point(0, 8)), None);
    assert_eq!(b.get(&Point(usize::MAX, 3)), None);
    assert_eq!(b.get(&Point(0, 0)), None);
}

#[test]
fn chain_of_an_opening_move() {
    let b = Board::default();
    assert_eq!(b.scan_stones_turning(Point(2, 4), Stone::Black, false), vec![Point(3, 4)]);
    assert_eq!(b.scan_stones_turning(Point(5, 3), Stone::Black, true), vec![Point(4, 3)]);
    assert!(b.scan_stones_turning(Point(2, 3), Stone::Black, false).is_empty());
    assert!(b.scan_stones_turning(Point(0, 0), Stone::White, false).is_empty());
}

#[test]
fn chains_hold_no_origin_and_no_point_off_the_board() {
    let mut b = Board::default();
    b.put(Point(2, 4), Stone::Black).unwrap();
    b.put(Point(2, 5), Stone::White).unwrap();
    let mut origins = all_points();
    origins.push(Point(8, 4));
    origins.push(Point(usize::MAX, 4));
    origins.push(Point(3, 8));
    for o in origins {
        for s in [Stone::Black, Stone::White] {
            for stop in [false, true] {
                for p in b.scan_stones_turning(o, s, stop) {
                    assert!(p.0 < 8 && p.1 < 8);
                    assert_ne!(p, o);
                }
            }
        }
    }
}

#[test]
fn chain_collects_several_directions() {
    let mut b = Board::default();
    // Black at (2,4) turns (3,4); White at (2,5) turns it back.
    b.put(Point(2, 4), Stone::Black).unwrap();
    b.put(Point(2, 5), Stone::White).unwrap();
    assert_eq!(b.get(&Point(3, 4)), Some(Stone::White));
    let full = b.scan_stones_turning(Point(2, 6), Stone::Black, false);
    let first = b.scan_stones_turning(Point(2, 6), Stone::Black, true);
    assert!(first.len() <= full.len());
    assert_eq!(first.is_empty(), full.is_empty());
}

#[test]
fn put_turns_the_chain() {
    let mut b = Board::default();
    assert!(b.put(Point(2, 4), Stone::Black).is_ok());
    assert_eq!(b.get(&Point(2, 4)), Some(Stone::Black));
    assert_eq!(b.get(&Point(3, 4)), Some(Stone::Black));
    assert_eq!(b.count_stones(), (4, 1));
}

#[test]
fn put_off_the_board_fails_and_changes_nothing() {
    let mut b = Board::default();
    let before = snapshot(&b);
    assert!(matches!(b.put(Point(8, 3), Stone::Black), Err(Error::OutOfBoard)));
    assert_eq!(snapshot(&b), before);
}

#[test]
fn put_on_a_stone_fails_and_changes_nothing() {
    let mut b = Board::default();
    let before = snapshot(&b);
    assert_eq!(b.put(Point(3, 3), Stone::White), Err(Error::StoneAlreadyExists));
    assert_eq!(snapshot(&b), before);
}

#[test]
fn put_without_chain_fails_and_changes_nothing() {
    let mut b = Board::default();
    let before = snapshot(&b);
    assert_eq!(b.put(Point(2, 3), Stone::Black), Err(Error::NoChainOccurred));
    assert_eq!(b.put(Point(0, 0), Stone::White), Err(Error::NoChainOccurred));
    assert_eq!(snapshot(&b), before);
}

#[test]
fn legal_moves_at_the_start() {
    let b = Board::default();
    assert_eq!(
        b.scan_cells_placeable(Stone::Black),
        vec![Point(2, 4), Point(3, 5), Point(4, 2), Point(5, 3)]
    );
    assert_eq!(
        b.scan_cells_placeable(Stone::White),
        vec![Point(2, 3), Point(3, 2), Point(4, 5), Point(5, 4)]
    );
}

#[test]
fn legal_moves_agree_with_the_stopping_scan() {
    let mut b = Board::default();
    b.put(Point(2, 4), Stone::Black).unwrap();
    for s in [Stone::Black, Stone::White] {
        let moves = b.scan_cells_placeable(s);
        for p in all_points() {
            let legal = b.get(&p).is_none() && !b.scan_stones_turning(p, s, true).is_empty();
            assert_eq!(moves.contains(&p), legal);
        }
    }
}

#[test]
fn format_plain_board() {
    let b = Board::default();
    let g = b.format('.', 'B', 'W', '*', None, None, None);
    assert_eq!(g.len(), 8);
    assert_eq!(g[3].iter().collect::<String>(), "...BW...");
    assert_eq!(g[4].iter().collect::<String>(), "...WB...");
    assert_eq!(g[0].iter().collect::<String>(), "........");
}

#[test]
fn format_with_hints_and_indices() {
    let b = Board::default();
    let idx = ['a', 'b', 'c', 'd', 'e', 'f', 'g', 'h'];
    let g = b.format('.', 'B', 'W', '*', Some(Stone::Black), Some(idx), Some(idx));
    assert_eq!(g.len(), 9);
    assert_eq!(g[0].iter().collect::<String>(), " abcdefgh");
    assert_eq!(g[3].iter().collect::<String>(), "c....*...");
    assert_eq!(g[4].iter().collect::<String>(), "d...BW*..");
    assert_eq!(g[5].iter().collect::<String>(), "e..*WB...");
    assert_eq!(g[6].iter().collect::<String>(), "f...*....");
}

#[test]
fn format_with_column_glyphs_only() {
    let b = Board::default();
    let idx = ['0', '1', '2', '3', '4', '5', '6', '7'];
    let g = b.format('+', 'B', 'W', '@', None, Some(idx), None);
    assert_eq!(g.len(), 9);
    assert_eq!(g[0].iter().collect::<String>(), "01234567");
    assert_eq!(g[1].len(), 8);
}

#[test]
fn color_from_round_alternates() {
    assert_eq!(Stone::from_round(0), Stone::Black);
    assert_eq!(Stone::from_round(1), Stone::White);
    assert_eq!(Stone::from_round(2), Stone::Black);
    assert_eq!(Stone::from_round(61), Stone::White);
    assert_eq!(Stone::Black.opponent(), Stone::White);
    assert_eq!(Stone::White.opponent(), Stone::Black);
}
