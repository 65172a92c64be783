use sudoku::{Field, Number, Pos};

#[test]
fn test_visible_positions() {
    assert_eq!(
        Pos::new(2, 5).get_visible_positions(),
        vec![
            Pos::new(0, 3),
            Pos::new(0, 4),
            Pos::new(0, 5),
            Pos::new(1, 3),
            Pos::new(1, 4),
            Pos::new(1, 5),
            Pos::new(2, 3),
            Pos::new(2, 4),
            Pos::new(3, 5),
            Pos::new(4, 5),
            Pos::new(5, 5),
            Pos::new(6, 5),
            Pos::new(7, 5),
            Pos::new(8, 5),
            Pos::new(2, 0),
            Pos::new(2, 1),
            Pos::new(2, 2),
            Pos::new(2, 6),
            Pos::new(2, 7),
            Pos::new(2, 8),
        ]
    );
}

#[test]
fn pinned_cell_has_that_solution() {
    for d in 1..=9u8 {
        let cell = Field::new(d);
        let sol = cell.solution().expect("a pinned cell is solved");
        assert_eq!(sol.as_u8(), d);
        assert_eq!(cell.len(), 1);
    }
    let full = Field::full();
    assert_eq!(full.len(), 9);
    assert!(full.solution().is_none());
    assert!(!full.is_empty());
}

#[test]
fn adjacency_is_twenty_distinct_others() {
    for x in 0..9u8 {
        for y in 0..9u8 {
            let p = Pos::new(x, y);
            let vis = p.get_visible_positions();
            assert_eq!(vis.len(), 20);
            for (i, a) in vis.iter().enumerate() {
                assert!(*a != p);
                for b in vis[i + 1..].iter() {
                    assert!(a != b);
                }
            }
        }
    }
}

#[test]
fn candidate_set_remove_and_overwrite() {
    let mut cell = Field::full();
    cell.remove(Number::new(1));
    cell.remove(Number::new(4));

    assert!(cell.contains(Number::new(2)));
    assert!(cell.solution().is_none());
    assert_eq!(cell.len(), 7);

    cell.set(Number::new(5));

    assert_eq!(cell.solution().map(|n| n.as_u8()), Some(5));
}

#[test]
fn possibilities_come_in_ascending_order() {
    let digits: Vec<u8> = Field::full().possibilities().iter().map(|n| n.as_u8()).collect();
    assert_eq!(digits, vec![1, 2, 3, 4, 5, 6, 7, 8, 9]);

    let mut cell = Field::full();
    cell.remove(Number::new(3));
    cell.remove(Number::new(9));
    let digits: Vec<u8> = cell.possibilities().iter().map(|n| n.as_u8()).collect();
    assert_eq!(digits, vec![1, 2, 4, 5, 6, 7, 8]);

    let pinned = Field::new(6);
    let digits: Vec<u8> = pinned.possibilities().iter().map(|n| n.as_u8()).collect();
    assert_eq!(digits, vec![6]);
}

#[test]
fn emptied_cell_reports_empty() {
    let mut cell = Field::new(7);
    cell.remove(Number::new(7));
    assert!(cell.is_empty());
    assert_eq!(cell.len(), 0);
    assert!(cell.solution().is_none());
    assert!(cell.possibilities().is_empty());
}

#[test]
fn number_conversions() {
    for d in 1..=9u8 {
        let n = Number::new(d);
        assert_eq!(n.as_u8(), d);
    }
    assert_eq!(Number::new(4).as_str(), "4");
    assert_eq!(Number::new(9).as_str(), "9");
    assert_eq!(Number::new(1).as_str_small(), "\u{00b9}");
    assert_eq!(Number::new(4).as_str_small(), "\u{2074}");
}

#[test]
fn iterator_walks_columns_first() {
    let all = Pos::iterator();
    assert_eq!(all.len(), 81);
    assert_eq!(all[0], Pos::new(0, 0));
    assert_eq!(all[1], Pos::new(0, 1));
    assert_eq!(all[8], Pos::new(0, 8));
    assert_eq!(all[9], Pos::new(1, 0));
    assert_eq!(all[80], Pos::new(8, 8));
    for (k, p) in all.iter().enumerate() {
        assert_eq!(p.x() as usize, k / 9);
        assert_eq!(p.y() as usize, k % 9);
    }
}
