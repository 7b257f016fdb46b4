use deet::lcs::{lcs, Grid};

fn display(grid: &Grid) {
    let (rows, cols) = grid.size();
    for row in 0..rows {
        let cells: Vec<String> = (0..cols)
            .map(|col| grid.get(row, col).unwrap().to_string())
            .collect();
        println!("{}", cells.join(" "));
    }
}

#[test]
fn test_lcs() {
    let mut expected = Grid::new(5, 4);
    expected.set(1, 1, 1).unwrap();
    expected.set(1, 2, 1).unwrap();
    expected.set(1, 3, 1).unwrap();
    expected.set(2, 1, 1).unwrap();
    expected.set(2, 2, 1).unwrap();
    expected.set(2, 3, 2).unwrap();
    expected.set(3, 1, 1).unwrap();
    expected.set(3, 2, 1).unwrap();
    expected.set(3, 3, 2).unwrap();
    expected.set(4, 1, 1).unwrap();
    expected.set(4, 2, 2).unwrap();
    expected.set(4, 3, 2).unwrap();

    println!("Expected:");
    display(&expected);
    let result = lcs(
        &"abcd".chars().map(|c| c.to_string()).collect(),
        &"adb".chars().map(|c| c.to_string()).collect(),
    );
    println!("Got:");
    display(&result);
    assert_eq!(result.size(), expected.size());
    for row in 0..expected.size().0 {
        for col in 0..expected.size().1 {
            assert_eq!(result.get(row, col), expected.get(row, col));
        }
    }
}

#[test]
fn lcs_of_empty_sequences_is_one_zero_cell() {
    let result = lcs(&Vec::new(), &Vec::new());
    assert_eq!(result.size(), (1, 1));
    assert_eq!(result.get(0, 0), Some(0));
}

#[test]
fn lcs_of_identical_lines_counts_every_line() {
    let lines: Vec<String> = vec!["x".to_string(), "y".to_string(), "z".to_string()];
    let result = lcs(&lines, &lines);
    assert_eq!(result.get(3, 3), Some(3));
    assert_eq!(result.get(2, 3), Some(2));
}

#[test]
fn grid_rejects_cells_outside() {
    let mut grid = Grid::new(2, 3);
    assert!(grid.set(2, 0, 1).is_err());
    assert!(grid.set(0, 3, 1).is_err());
    assert_eq!(grid.get(2, 0), None);
    grid.set(1, 2, 9).unwrap();
    assert_eq!(grid.get(1, 2), Some(9));
    assert_eq!(grid.get(0, 2), Some(0));
}
