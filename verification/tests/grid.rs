use sudoku::Dynamic;
use sudoku::Group;
use sudoku::Position;
use sudoku::Sudoku;
use sudoku::SudokuError;

fn pos(row: usize, col: usize) -> Position {
    Position { row, col }
}

fn solved_4x4() -> Dynamic {
    let rows = vec![
        vec!['1', '2', '3', '4'],
        vec!['3', '4', '1', '2'],
        vec!['2', '1', '4', '3'],
        vec!['4', '3', '2', '1'],
    ];
    Dynamic::from_rows(&rows).unwrap()
}

fn collect<'a, T>(mut it: sudoku::GroupIter<'a, T>) -> Vec<&'a T> {
    let mut out = Vec::new();
    while let Some(x) = it.next() {
        out.push(x);
    }
    out
}

#[test]
fn contains() {
    let g = Group::from(&vec!['1', '4', '6', '8', '9'][..]);
    assert_eq!(g.contains('1'), true);
    assert_eq!(g.contains('2'), false);
}

#[test]
fn from_rows() {
    let rows = vec![
        vec!['1', '2', '3', '4'],
        vec!['3', '4', '1', '2'],
        vec!['2', '1', '4', '3'],
        vec!['4', '3', '2', '1'],
    ];
    assert!(Dynamic::from_rows(&rows).is_ok());
}

#[test]
fn contains_on_empty_group() {
    let g: Group<char> = Group::from(&[][..]);
    assert!(!g.contains('1'));
    assert_eq!(g.len(), 0);
}

#[test]
fn contains_positions() {
    let g = Group::from(&[pos(0, 1), pos(1, 0)][..]);
    assert!(g.contains(pos(0, 1)));
    assert!(!g.contains(pos(1, 1)));
}

#[test]
fn iter_yields_in_order() {
    let g = Group::from(&['a', 'b', 'c'][..]);
    let elems: Vec<char> = collect(g.iter()).into_iter().copied().collect();
    assert_eq!(elems, vec!['a', 'b', 'c']);
}

#[test]
fn iter_is_restartable() {
    let g = Group::from(&['x', 'y', 'z'][..]);
    let first: Vec<char> = collect(g.iter()).into_iter().copied().collect();
    let second: Vec<char> = collect(g.iter()).into_iter().copied().collect();
    assert_eq!(first, second);
}

#[test]
fn iter_on_empty_group() {
    let g: Group<char> = Group::from(&[][..]);
    let mut it = g.iter();
    assert!(it.next().is_none());
}

#[test]
fn from_rows_unsupported_size() {
    let rows = vec![vec!['.'; 5]; 5];
    assert_eq!(Dynamic::from_rows(&rows).err(), Some(SudokuError::UnsupportedSize));
}

#[test]
fn from_rows_ragged_rows() {
    let rows = vec![vec!['1', '2'], vec!['1']];
    assert_eq!(Dynamic::from_rows(&rows).err(), Some(SudokuError::Shape));
}

#[test]
fn from_rows_not_square() {
    let rows = vec![vec!['.'; 4]; 2];
    assert_eq!(Dynamic::from_rows(&rows).err(), Some(SudokuError::Shape));
}

#[test]
fn from_rows_empty() {
    let rows: Vec<Vec<char>> = Vec::new();
    assert_eq!(Dynamic::from_rows(&rows).err(), Some(SudokuError::UnsupportedSize));
}

#[test]
fn symbol_at_reads_the_matrix() {
    let grid = solved_4x4();
    assert_eq!(grid.symbol_at(pos(0, 0)), '1');
    assert_eq!(grid.symbol_at(pos(1, 2)), '1');
    assert_eq!(grid.symbol_at(pos(3, 0)), '4');
}

#[test]
fn set_symbol_replaces_one_cell() {
    let mut grid = solved_4x4();
    grid.set_symbol(pos(2, 3), '.');
    assert_eq!(grid.symbol_at(pos(2, 3)), '.');
    assert_eq!(grid.symbol_at(pos(2, 2)), '4');
    assert_eq!(grid.symbol_at(pos(3, 3)), '1');
    grid.set_symbol(pos(2, 3), '3');
    assert_eq!(grid.symbol_at(pos(2, 3)), '3');
}

#[test]
fn allowed_characters_by_size() {
    let grid = solved_4x4();
    assert_eq!(grid.allowed_characters(), Ok(vec!['1', '2', '3', '4']));
    let nine = Dynamic::from_rows(&vec![vec!['.'; 9]; 9]).unwrap();
    assert_eq!(
        nine.allowed_characters(),
        Ok("123456789".chars().collect::<Vec<char>>())
    );
    let sixteen = Dynamic::from_rows(&vec![vec!['.'; 16]; 16]).unwrap();
    assert_eq!(
        sixteen.allowed_characters(),
        Ok("1234567890ABCDEF".chars().collect::<Vec<char>>())
    );
    let twentyfive = Dynamic::from_rows(&vec![vec!['.'; 25]; 25]).unwrap();
    assert_eq!(
        twentyfive.allowed_characters(),
        Ok("1234567890ABCDEFGHIJKLMNO".chars().collect::<Vec<char>>())
    );
}

#[test]
fn row_positions_excludes_self() {
    let grid = solved_4x4();
    let g = grid.row_positions(pos(1, 2));
    assert_eq!(g, Group::from(&[pos(1, 0), pos(1, 1), pos(1, 3)][..]));
    assert!(!g.contains(pos(1, 2)));
}

#[test]
fn col_positions_excludes_self() {
    let grid = solved_4x4();
    let g = grid.col_positions(pos(1, 2));
    assert_eq!(g, Group::from(&[pos(0, 2), pos(2, 2), pos(3, 2)][..]));
    assert!(!g.contains(pos(1, 2)));
}

#[test]
fn box_positions_of_corner() {
    let grid = solved_4x4();
    let g = grid.box_positions(pos(0, 0));
    assert_eq!(g, Group::from(&[pos(0, 1), pos(1, 0), pos(1, 1)][..]));
}

#[test]
fn group_sizes_on_nine() {
    let grid = Dynamic::from_rows(&vec![vec!['.'; 9]; 9]).unwrap();
    for r in 0..9 {
        for c in 0..9 {
            let p = pos(r, c);
            assert_eq!(grid.row_positions(p).len(), 8);
            assert_eq!(grid.col_positions(p).len(), 8);
            assert_eq!(grid.box_positions(p).len(), 8);
            assert!(!grid.row_positions(p).contains(p));
            assert!(!grid.col_positions(p).contains(p));
            assert!(!grid.box_positions(p).contains(p));
        }
    }
}

#[test]
fn box_positions_of_center_nine() {
    let grid = Dynamic::from_rows(&vec![vec!['.'; 9]; 9]).unwrap();
    let g = grid.box_positions(pos(4, 4));
    let expected = Group::from(
        &[
            pos(3, 3),
            pos(3, 4),
            pos(3, 5),
            pos(4, 3),
            pos(4, 5),
            pos(5, 3),
            pos(5, 4),
            pos(5, 5),
        ][..],
    );
    assert_eq!(g, expected);
}

#[test]
fn groups_positions_row_col_box_order() {
    let grid = solved_4x4();
    let g = grid.groups_positions(pos(0, 0));
    let expected = Group::from(
        &[
            pos(0, 1),
            pos(0, 2),
            pos(0, 3),
            pos(1, 0),
            pos(2, 0),
            pos(3, 0),
            pos(0, 1),
            pos(1, 0),
            pos(1, 1),
        ][..],
    );
    assert_eq!(g, expected);
}

#[test]
fn elems_drop_blanks() {
    let rows = vec![
        vec!['.', '2', '.', '4'],
        vec!['3', '4', '1', '2'],
        vec!['2', '1', '4', '3'],
        vec!['4', '3', '2', '1'],
    ];
    let grid = Dynamic::from_rows(&rows).unwrap();
    assert_eq!(grid.row_elems(pos(0, 0)), Group::from(&['2', '4'][..]));
    assert_eq!(grid.col_elems(pos(0, 0)), Group::from(&['3', '2', '4'][..]));
    assert_eq!(grid.box_elems(pos(0, 0)), Group::from(&['2', '3', '4'][..]));
    assert_eq!(
        grid.groups_elems(pos(0, 0)),
        Group::from(&['2', '4', '3', '2', '4', '2', '3', '4'][..])
    );
}

#[test]
fn conflicts_on_filled_corner() {
    let grid = solved_4x4();
    assert!(grid.conflicts(pos(0, 0), '2'));
    assert!(grid.conflicts(pos(0, 0), '4'));
    assert!(!grid.conflicts(pos(0, 0), '1'));
}

#[test]
fn never_conflicts_with_own_content() {
    let grid = solved_4x4();
    for r in 0..4 {
        for c in 0..4 {
            let p = pos(r, c);
            assert!(!grid.conflicts(p, grid.symbol_at(p)));
        }
    }
}

#[test]
fn possibilities_of_filled_cell() {
    let grid = solved_4x4();
    assert_eq!(grid.possibilities(pos(0, 0)), vec!['1']);
    assert_eq!(grid.possibilities(pos(2, 1)), vec!['1']);
}

#[test]
fn possibilities_of_blank_cell() {
    let rows = vec![
        vec!['.', '2', '3', '4'],
        vec!['3', '4', '1', '2'],
        vec!['2', '1', '4', '3'],
        vec!['4', '3', '2', '1'],
    ];
    let grid = Dynamic::from_rows(&rows).unwrap();
    assert_eq!(grid.possibilities(pos(0, 0)), vec!['1']);
}

#[test]
fn possibilities_narrow_as_cells_fill() {
    let mut grid = Dynamic::from_rows(&vec![vec!['.'; 4]; 4]).unwrap();
    assert_eq!(grid.possibilities(pos(0, 0)), vec!['1', '2', '3', '4']);
    grid.set_symbol(pos(0, 3), '2');
    grid.set_symbol(pos(3, 0), '3');
    grid.set_symbol(pos(1, 1), '4');
    assert_eq!(grid.possibilities(pos(0, 0)), vec!['1']);
}
