use cpd::{Board, BoardItem, CardId, CharacterId, GridLocation};

#[test]
fn board_queries() {
    let mut board = Board::new(3, 3);
    let a = BoardItem::Character(CharacterId::new(0));
    let b = BoardItem::Character(CharacterId::new(1));
    let c = BoardItem::Character(CharacterId::new(2));
    board.grid.set(0, 0, a);
    board.grid.set(2, 2, b);
    board.grid.set(1, 0, BoardItem::Card(CardId::new(0)));
    assert_eq!(board.find(&a), Some((0, 0)));
    assert_eq!(board.find(&c), None);
    assert_eq!(board.distance(a, b), Some(4));
    assert_eq!(board.distance(a, c), None);
    assert_eq!(board.require_distance(b, a), 4);
    let path = board.shortest_path(a, b).unwrap();
    assert_eq!(path.len(), 5);
    assert_eq!(path[0], GridLocation { x: 0, y: 0 });
    assert_eq!(path[4], GridLocation { x: 2, y: 2 });
    assert_eq!(board.shortest_path(a, c), None);
    assert_eq!(board.find_chars_in_range(GridLocation { x: 0, y: 0 }, 1), vec![CharacterId::new(0)]);
    assert_eq!(
        board.find_chars_in_range(GridLocation { x: 1, y: 1 }, 2),
        vec![CharacterId::new(0), CharacterId::new(1)]
    );
}

#[test]
fn path_steps_around_other_characters() {
    let mut board = Board::new(3, 2);
    let a = BoardItem::Character(CharacterId::new(0));
    let b = BoardItem::Character(CharacterId::new(1));
    board.grid.set(0, 0, a);
    board.grid.set(1, 0, BoardItem::Character(CharacterId::new(2)));
    board.grid.set(2, 0, b);
    let path = board.shortest_path(a, b).unwrap();
    assert_eq!(
        path,
        vec![
            GridLocation { x: 0, y: 0 },
            GridLocation { x: 0, y: 1 },
            GridLocation { x: 1, y: 1 },
            GridLocation { x: 2, y: 1 },
            GridLocation { x: 2, y: 0 }
        ]
    );
}
