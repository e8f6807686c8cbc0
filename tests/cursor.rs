use island::cell::Cell::{self, Earth, MarkedEarth, Sea};
use island::cursor::{Cursor, Direction};
use island::grid::Grid;

fn read_all(map: &Grid) -> Vec<Cell> {
    let mut cells = vec![];
    let mut iter = map.cursor().iter();
    while let Some(c) = iter.next() {
        cells.push(c.read());
    }
    cells
}

#[test]
fn cursor_iterator() {
    let map = Grid::parse("# \n0").unwrap();
    let cells: Vec<Cell> = read_all(&map);

    assert_eq!(cells, vec![Earth, Sea, MarkedEarth('0')]);
}

#[test]
fn name() {
    let mut map = Grid::parse("# \n0").unwrap();
    let coord = map.cursor().coord();
    map.write(coord, Sea);
}

#[test]
fn iterator_follows_ragged_rows() {
    let map = Grid::parse("#\n 0#\n1").unwrap();
    let mut coords = vec![];
    let mut iter = map.cursor().iter();
    while let Some(c) = iter.next() {
        coords.push(c.coord());
    }
    assert_eq!(coords, vec![(0, 0), (0, 1), (1, 1), (2, 1), (0, 2)]);
    assert!(iter.next().is_none());
}

#[test]
fn moves_stay_inside() {
    let map = Grid::parse("#0\n 1\n").unwrap();
    let origin = map.cursor();
    assert!(origin.move_dir(Direction::Up).is_none());
    assert!(origin.move_dir(Direction::Left).is_none());
    let right = origin.move_dir(Direction::Right).unwrap();
    assert_eq!(right.coord(), (1, 0));
    assert_eq!(right.read(), MarkedEarth('0'));
    assert!(right.move_dir(Direction::Right).is_none());
    let down = right.move_dir(Direction::Down).unwrap();
    assert_eq!(down.coord(), (1, 1));
    assert_eq!(down.read(), MarkedEarth('1'));
    assert!(down.move_dir(Direction::Down).is_none());
    assert_eq!(down.move_dir(Direction::Left).unwrap().read(), Sea);
    assert_eq!(down.move_dir(Direction::Up).unwrap().coord(), (1, 0));
    assert_eq!(origin.move_next_line().unwrap().coord(), (0, 1));
    assert!(down.move_next_line().is_none());
}

#[test]
fn cursor_at_checks_bounds() {
    let map = Grid::parse("##\n#\n").unwrap();
    assert_eq!(Cursor::at(&map, (1, 0)).unwrap().read(), Earth);
    assert!(Cursor::at(&map, (1, 1)).is_none());
    assert!(Cursor::at(&map, (0, 2)).is_none());
    let c = map.cursor();
    assert!(c.get((1, 1)).is_none());
    assert_eq!(c.get((0, 1)).unwrap().coord(), (0, 1));
}
