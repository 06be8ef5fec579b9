use cpd::{Grid, GridLocation};

#[test]
pub fn test_grid() {
    let mut grid = Grid::new(2, 3);
    assert_eq!(grid.width(), 2);
    assert_eq!(grid.height(), 3);
    assert_eq!(grid.get(0, 0), None);
    assert_eq!(grid.get(100, 100), None);
    assert_eq!(grid.set(1, 1, 'a'), None);
    assert_eq!(grid.set(1, 1, 'b'), Some('a'));
    assert_eq!(grid.get(1, 1), Some(&'b'));
    assert!(!grid.is_set(0, 0));
    assert!(grid.is_set(1, 1));

    assert!(grid.is_valid(1, 1));
    assert!(!grid.is_valid(100, 100));
    grid.set(100, 100, 'z');
    assert_eq!(grid.get(100, 100), None);

    assert_eq!(grid.clear(1, 1), Some('b'));
    assert_eq!(grid.get(1, 1), None);
    assert_eq!(grid.clear(1, 1), None);
}

#[test]
pub fn test_find() {
    let mut grid = Grid::new(3, 3);

    assert_eq!(
        grid.find(|_value| true),
        None,
        "Try to find anything in an empty grid",
    );

    for x in 0..3 {
        for y in 0..3 {
            grid.set(x, y, format!("{}{}", x, y));
        }
    }
    assert_eq!(grid.find(|value| value == "12"), Some((1, 2)));
    grid.clear(1, 2);
    assert_eq!(
        grid.find(|value| value == "12"),
        None,
        "This value was cleared and should no longer match"
    );
    assert_eq!(
        grid.find(|_value| false),
        None,
        "Nothing is ever good enough"
    );
}

#[test]
pub fn test_find_in_range() {
    let mut grid = Grid::new(3, 3);
    for x in 0..3 {
        for y in 0..3 {
            grid.set(x, y, format!("{}{}", x, y));
        }
    }
    assert_eq!(
        grid.find_in_range(GridLocation { x: 1, y: 1 }, 0, |_value| true),
        vec![GridLocation { x: 1, y: 1 }],
        "Range of 0 should only match itself"
    );

    assert_eq!(
        grid.find_in_range(GridLocation { x: 1, y: 1 }, 1, |_value| true),
        vec![
            GridLocation { x: 0, y: 1 },
            GridLocation { x: 1, y: 0 },
            GridLocation { x: 1, y: 1 },
            GridLocation { x: 1, y: 2 },
            GridLocation { x: 2, y: 1 }
        ],
        "Range of 1 should only include directly above and to the side"
    );
}

#[test]
pub fn test_shortest_path() {
    let mut grid = Grid::new(3, 3);
    assert_eq!(
        grid.shortest_path(
            GridLocation { x: 0, y: 0 },
            GridLocation { x: 2, y: 2 },
            |entry| *entry == 0,
        ),
        Some(vec![
            GridLocation { x: 0, y: 0 },
            GridLocation { x: 0, y: 1 },
            GridLocation { x: 0, y: 2 },
            GridLocation { x: 1, y: 2 },
            GridLocation { x: 2, y: 2 }
        ]),
    );

    grid.set(0, 1, 1);
    grid.set(1, 1, 1);
    grid.set(2, 1, 0);
    assert_eq!(
        grid.shortest_path(
            GridLocation { x: 0, y: 0 },
            GridLocation { x: 0, y: 2 },
            |entry| *entry == 0,
        ),
        Some(vec![
            GridLocation { x: 0, y: 0 },
            GridLocation { x: 1, y: 0 },
            GridLocation { x: 2, y: 0 },
            GridLocation { x: 2, y: 1 },
            GridLocation { x: 2, y: 2 },
            GridLocation { x: 1, y: 2 },
            GridLocation { x: 0, y: 2 },
        ]),
        "Path around a blockade"
    );

    grid.set(2, 1, 1);
    assert_eq!(
        grid.shortest_path(
            GridLocation { x: 0, y: 0 },
            GridLocation { x: 0, y: 2 },
            |entry| *entry == 0,
        ),
        None,
        "Fully blocked"
    );
}

#[test]
fn unobstructed_path_length_is_manhattan_distance() {
    let grid: Grid<u8> = Grid::new(3, 3);
    let from = GridLocation { x: 0, y: 0 };
    let to = GridLocation { x: 2, y: 2 };
    let path = grid.shortest_path(from, to, |_| false).unwrap();
    assert_eq!(path.len(), 5);
    assert_eq!(path.len() - 1, from.distance(&to));
    for pair in path.windows(2) {
        assert!(pair[0].is_adjacent(&pair[1]));
    }

    let wide: Grid<u8> = Grid::new(6, 4);
    let from = GridLocation { x: 5, y: 0 };
    let to = GridLocation { x: 1, y: 3 };
    let path = wide.shortest_path(from, to, |_| false).unwrap();
    assert_eq!(path.len() - 1, 7);
}

#[test]
fn path_to_self_is_one_cell() {
    let grid: Grid<u8> = Grid::new(2, 2);
    let here = GridLocation { x: 1, y: 1 };
    assert_eq!(grid.shortest_path(here, here, |_| false), Some(vec![here]));
}

#[test]
fn path_may_end_on_an_open_occupant() {
    let mut grid = Grid::new(3, 1);
    grid.set(2, 0, 7u8);
    let path = grid.shortest_path(GridLocation { x: 0, y: 0 }, GridLocation { x: 2, y: 0 }, |v| *v == 7);
    assert_eq!(path.map(|p| p.len()), Some(3));
    let blocked = grid.shortest_path(GridLocation { x: 0, y: 0 }, GridLocation { x: 2, y: 0 }, |_| false);
    assert_eq!(blocked, None);
}

#[test]
fn location_distance_and_neighbours() {
    let a = GridLocation { x: 1, y: 4 };
    let b = GridLocation { x: 3, y: 1 };
    assert_eq!(a.distance(&b), 5);
    assert!(!a.is_adjacent(&b));
    assert!(a.is_adjacent(&GridLocation { x: 1, y: 5 }));
    assert_eq!(
        GridLocation { x: 0, y: 0 }.get_surrounding(2, 2),
        vec![GridLocation { x: 1, y: 0 }, GridLocation { x: 0, y: 1 }]
    );
    assert_eq!(
        GridLocation { x: 1, y: 1 }.get_surrounding(3, 3),
        vec![
            GridLocation { x: 0, y: 1 },
            GridLocation { x: 1, y: 0 },
            GridLocation { x: 2, y: 1 },
            GridLocation { x: 1, y: 2 }
        ]
    );
}

#[test]
fn find_in_range_near_the_edge_and_with_a_filter() {
    let mut grid = Grid::new(3, 3);
    grid.set(0, 0, 1u8);
    grid.set(2, 2, 2u8);
    grid.set(0, 2, 3u8);
    assert_eq!(
        grid.find_in_range(GridLocation { x: 0, y: 0 }, 1000, |_| true),
        vec![
            GridLocation { x: 0, y: 0 },
            GridLocation { x: 0, y: 2 },
            GridLocation { x: 2, y: 2 }
        ]
    );
    assert_eq!(
        grid.find_in_range(GridLocation { x: 0, y: 0 }, 2, |v| *v != 1),
        vec![GridLocation { x: 0, y: 2 }]
    );
}
