use mini_lsm::grid::{lcs, Grid};

#[test]
fn test_grid() {
    let n_rows = 4;
    let n_cols = 3;
    let mut grid = Grid::new(n_rows, n_cols);

    for r in 0..n_rows {
        for c in 0..n_cols {
            assert!(
                grid.set(r, c, r * n_cols + c).is_ok(),
                "Grid::set returned Err even though the provided bounds are valid!"
            );
        }
    }

    println!("Grid contents:");
    for r in 0..n_rows {
        let mut line = String::new();
        for c in 0..n_cols {
            line.push_str(&format!("{}, ", grid.get(r, c).unwrap()));
        }
        println!("{line}");
    }

    for r in 0..n_rows {
        for c in 0..n_cols {
            assert!(
                grid.get(r, c).is_some(),
                "Grid::get returned Err even thought the provided bounds are valid!"
            );
            assert_eq!(grid.get(r, c).unwrap(), r * n_cols + c);
        }
    }
}

#[test]
fn test_lcs() {
    let mut expected = Grid::new(5, 4);
    expected.set(1, 1, 1).unwrap();
    expected.set(1, 2, 1).unwrap();
    expected.set(1, 3, 1).unwrap();
    expected.set(2, 1, 1).unwrap();
    expected.set(2, 2, 1).unwrap();
    expected.set(2, 3, 2).unwrap();
    expected.set(3, 1, 1).unwrap();
    expected.set(3, 2, 1).unwrap();
    expected.set(3, 3, 2).unwrap();
    expected.set(4, 1, 1).unwrap();
    expected.set(4, 2, 2).unwrap();
    expected.set(4, 3, 2).unwrap();

    let result = lcs(
        &"abcd".chars().map(|c| c.to_string()).collect(),
        &"adb".chars().map(|c| c.to_string()).collect(),
    );
    assert_eq!(result.size(), expected.size());
    for row in 0..expected.size().0 {
        for col in 0..expected.size().1 {
            assert_eq!(result.get(row, col), expected.get(row, col));
        }
    }
}
