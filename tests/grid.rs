use island::cell::Cell::{self, Earth, MarkedEarth, Sea};
use island::grid::{Grid, GridResult};
use island::{Error, ErrorList};

const RAW_VALID_MAP: &str = "\
#  
###
 # 
# 0
";

#[test]
fn valid_map() -> GridResult<()> {
    let Grid(map_data) = Grid::parse(RAW_VALID_MAP)?;
    assert_eq!(
        map_data,
        vec![
            vec![Earth, Sea, Sea],
            vec![Earth, Earth, Earth],
            vec![Sea, Earth, Sea],
            vec![Earth, Sea, MarkedEarth('0')],
        ]
    );
    Ok(())
}

#[test]
fn map_map_empty() {
    let result: GridResult = Grid::parse("");
    let errors = result.unwrap_err();

    assert_eq!(errors, ErrorList(vec![Error::EmptyMap]));
}

#[test]
fn map_empty_lines() {
    let raw_map = "\n123\n\n456\n\n\n789";

    let result: GridResult = Grid::parse(raw_map);

    assert_eq!(
        result.unwrap_err(),
        ErrorList(vec![
            Error::EmptyLine(1),
            Error::EmptyLine(3),
            Error::EmptyLine(5),
            Error::EmptyLine(6)
        ])
    );
}

#[test]
fn map_invalid_character() {
    let raw_map = "@23\n45!\n7[9";

    let result: GridResult = Grid::parse(raw_map);

    assert_eq!(
        result.unwrap_err(),
        ErrorList(vec![
            Error::InvalidChar {
                char: '@',
                col: 1,
                line: 1
            },
            Error::InvalidChar {
                char: '!',
                col: 3,
                line: 2
            },
            Error::InvalidChar {
                char: '[',
                col: 2,
                line: 3
            },
        ])
    );
}

#[test]
fn map_mixed_errors() {
    let raw_map = "\n@\n\n";

    let result: GridResult = Grid::parse(raw_map);

    assert_eq!(
        result.unwrap_err(),
        ErrorList(vec![
            Error::EmptyLine(1),
            Error::InvalidChar {
                char: '@',
                line: 2,
                col: 1
            },
            Error::EmptyLine(3),
        ])
    )
}

#[test]
fn format_with_endline() {
    let raw_map = "123\n";
    let map = Grid::parse(raw_map).unwrap();
    assert_eq!(raw_map, map.render());
}

#[test]
fn format_without_endline() {
    let raw_map = "123".to_string();
    let map = Grid::parse(&raw_map).unwrap();

    // a newline is added after the last row
    assert_eq!(raw_map + "\n", map.render());
}

#[test]
fn format_with_several_lines() {
    let map = Grid::parse(RAW_VALID_MAP).unwrap();
    assert_eq!(RAW_VALID_MAP, map.render());
}

#[test]
fn valid_coord() {
    let map = Grid::parse(RAW_VALID_MAP).unwrap();

    // entire line 1
    assert_eq!(map.get((0, 0)), Some(Earth));
    assert_eq!(map.get((1, 0)), Some(Sea));
    assert_eq!(map.get((2, 0)), Some(Sea));

    // line 2 and 3
    assert_eq!(map.get((0, 1)), Some(Earth));
    assert_eq!(map.get((0, 2)), Some(Sea));

    // entire line 3
    assert_eq!(map.get((0, 3)), Some(Earth));
    assert_eq!(map.get((1, 3)), Some(Sea));
    assert_eq!(map.get((2, 3)), Some(MarkedEarth('0')));
}

#[test]
fn invalid_coord() {
    let map = Grid::parse(RAW_VALID_MAP).unwrap();

    assert_eq!(map.get((3, 0)), None);
    assert_eq!(map.get((0, 4)), None);
    assert_eq!(map.get((3, 3)), None);
    assert_eq!(map.get((42, 42)), None);
}

#[test]
fn simple_write() {
    let mut map = Grid::parse("000\n").unwrap();

    assert_eq!("000\n", map.render());
    assert_eq!(Some(()), map.write((0, 0), Cell::Earth));
    assert_eq!("#00\n", map.render());
}

#[test]
fn multiple_write() {
    let mut map = Grid::parse("00\n00\n").unwrap();

    assert_eq!("00\n00\n", map.render());

    assert_eq!(Some(()), map.write((0, 0), Cell::Earth));
    assert_eq!("#0\n00\n", map.render());

    assert_eq!(Some(()), map.write((1, 0), Cell::Sea));
    assert_eq!("# \n00\n", map.render());

    assert_eq!(Some(()), map.write((0, 1), Cell::MarkedEarth('1')));
    assert_eq!("# \n10\n", map.render());

    assert_eq!(Some(()), map.write((1, 1), Cell::MarkedEarth('2')));
    assert_eq!("# \n12\n", map.render());
}

#[test]
fn invalid_write() {
    let mut map = Grid::parse("000\n").unwrap();

    assert_eq!("000\n", map.render());
    assert_eq!(None, map.write((0, 1), Cell::Earth));
    assert_eq!("000\n", map.render());
}

#[test]
fn write_past_row_end_changes_nothing() {
    let mut map = Grid::parse("00\n0\n").unwrap();
    assert_eq!(None, map.write((1, 1), Cell::Earth));
    assert_eq!(None, map.write((usize::MAX, 0), Cell::Earth));
    assert_eq!("00\n0\n", map.render());
    assert_eq!(None, map.get((1, 1)));
}

#[test]
fn only_a_newline_is_an_empty_line() {
    assert_eq!(Grid::parse("\n").unwrap_err(), ErrorList(vec![Error::EmptyLine(1)]));
}

#[test]
fn carriage_return_is_an_invalid_char() {
    assert_eq!(
        Grid::parse("#\r\n").unwrap_err(),
        ErrorList(vec![Error::InvalidChar { char: '\r', line: 1, col: 2 }])
    );
}

#[test]
fn uppercase_is_no_label() {
    assert_eq!(
        Grid::parse("aA").unwrap_err(),
        ErrorList(vec![Error::InvalidChar { char: 'A', line: 1, col: 2 }])
    );
}

#[test]
fn render_of_parse_gives_text_back() {
    for text in ["#\n", " # 0z\n##\n", "   \n   \n", "abc\n#\n  #\n"] {
        assert_eq!(Grid::parse(text).unwrap().render(), text);
    }
}

#[test]
fn error_list_from_vec() {
    let list = ErrorList::from(vec![Error::EmptyLine(4)]);
    assert_eq!(list, ErrorList(vec![Error::EmptyLine(4)]));
}

#[test]
fn parse_through_from_str() {
    let map: Grid = "#0\n".parse().unwrap();
    assert_eq!(map.render(), "#0\n");
    let errors = "!".parse::<Grid>().unwrap_err();
    assert_eq!(errors, ErrorList(vec![Error::InvalidChar { char: '!', line: 1, col: 1 }]));
}
