use island::cell::{increment_char, is_valid_cell_char, Cell, Increment, Parse, EARTH_CHAR, RADIX_BASE, SEA_CHAR};

#[test]
fn radix_base() {
    assert!(RADIX_BASE > 0 && RADIX_BASE < 37);
}

#[test]
fn sea_constant_is_not_a_digit() {
    assert!(!SEA_CHAR.is_digit(RADIX_BASE));
}

#[test]
fn earth_constant_is_not_a_digit() {
    assert!(!EARTH_CHAR.is_digit(RADIX_BASE));
}

#[test]
fn sea_cell_to_char() -> Result<(), Parse> {
    assert_eq!(Cell::try_from(SEA_CHAR)?, Cell::Sea);
    Ok(())
}

#[test]
fn earth_cell_to_char() -> Result<(), Parse> {
    assert_eq!(Cell::try_from(EARTH_CHAR)?, Cell::Earth);
    Ok(())
}

#[test]
fn marked_earth_cell_to_char() -> Result<(), Parse> {
    assert_eq!(Cell::try_from('1')?, Cell::MarkedEarth('1'));
    Ok(())
}

#[test]
fn sea_char_to_cell() {
    assert_eq!(char::from(Cell::Sea), SEA_CHAR);
}

#[test]
fn earth_char_to_cell() {
    assert_eq!(char::from(Cell::Earth), EARTH_CHAR);
}

#[test]
fn marked_earth_char_to_cell() {
    assert_eq!(char::from(Cell::MarkedEarth('0')), '0');
}

#[test]
fn invalid_char_to_cell() {
    let invalid_char = '%';
    let res = Cell::try_from(invalid_char);
    assert_eq!(res, Err(Parse(invalid_char)));
}

#[test]
fn is_markable() {
    assert_eq!(true, Cell::Earth.is_markable());
    assert_eq!(false, Cell::Sea.is_markable());
    assert_eq!(false, Cell::MarkedEarth('0').is_markable());
}

#[test]
fn zero_cell() {
    let mut cell = Cell::MarkedEarth('0');
    let result = cell.increment();
    assert_eq!(result, Ok(()));
    assert_eq!(cell, Cell::MarkedEarth('1'));
}

#[test]
fn all() {
    let mut cell = Cell::MarkedEarth('0');
    let mut counter = 1;

    while let Ok(()) = cell.increment() {
        counter += 1;
    }

    assert_eq!(counter, RADIX_BASE);
}

#[test]
fn overflow() {
    let last_char = char::from_digit(RADIX_BASE - 1, RADIX_BASE).unwrap();
    let mut cell = Cell::MarkedEarth(last_char);

    assert_eq!(cell.increment(), Err(Increment::Overflow { cell }));
}

#[test]
fn sea() {
    let mut cell = Cell::Sea;

    assert_eq!(cell.increment(), Err(Increment::NotValidCell { cell }))
}

#[test]
fn earth() {
    let mut cell = Cell::Earth;

    assert_eq!(cell.increment(), Err(Increment::NotValidCell { cell }))
}

#[test]
fn increment_leaves_cell_on_failure() {
    let mut cell = Cell::MarkedEarth('z');
    assert!(cell.increment().is_err());
    assert_eq!(cell, Cell::MarkedEarth('z'));
}

#[test]
fn increment_crosses_from_digits_to_letters() {
    let mut cell = Cell::MarkedEarth('9');
    assert_eq!(cell.increment(), Ok(()));
    assert_eq!(cell, Cell::MarkedEarth('a'));
    assert_eq!(cell.increment(), Ok(()));
    assert_eq!(cell, Cell::MarkedEarth('b'));
}

#[test]
fn increment_char_values() {
    assert_eq!(increment_char('0'), Some('1'));
    assert_eq!(increment_char('8'), Some('9'));
    assert_eq!(increment_char('9'), Some('a'));
    assert_eq!(increment_char('y'), Some('z'));
    assert_eq!(increment_char('z'), None);
    assert_eq!(increment_char('#'), None);
    assert_eq!(increment_char('A'), None);
}

#[test]
fn valid_cell_chars() {
    assert!(is_valid_cell_char(' '));
    assert!(is_valid_cell_char('#'));
    assert!(is_valid_cell_char('0'));
    assert!(is_valid_cell_char('z'));
    assert!(!is_valid_cell_char('A'));
    assert!(!is_valid_cell_char('@'));
    assert!(!is_valid_cell_char('\n'));
}

#[test]
fn is_marked() {
    assert!(Cell::MarkedEarth('3').is_marked());
    assert!(!Cell::Earth.is_marked());
    assert!(!Cell::Sea.is_marked());
}

#[test]
fn increment_error_messages() {
    assert_eq!(
        Increment::Overflow { cell: Cell::MarkedEarth('z') }.message(),
        "cannot increment the cell 'z' because this is the maximum allowed character for marked earth"
    );
    assert_eq!(
        Increment::NotValidCell { cell: Cell::Earth }.message(),
        "cannot increment the cell '#' because only Cell::MarkedEarth can be incremented"
    );
    assert_eq!(
        Increment::NotValidCell { cell: Cell::Sea }.message(),
        "cannot increment the cell ' ' because only Cell::MarkedEarth can be incremented"
    );
}
