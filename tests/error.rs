use island::Error::{EmptyLine, EmptyMap, InvalidChar};
use island::{Error, ErrorList};

#[test]
fn error_display_trait() {
    let err = EmptyMap;
    assert!(err.message().contains("empty"));

    let err = EmptyLine(42);
    assert!(err.message().contains("42"));

    let err = InvalidChar {
        char: 'z',
        line: 21,
        col: 42,
    };
    assert!(err.message().contains("21:42"));
}

#[test]
fn error_messages_in_full() {
    assert_eq!(EmptyMap.message(), "map is empty");
    assert_eq!(EmptyLine(7).message(), "empty line found at line '7'");
    assert_eq!(EmptyLine(0).message(), "empty line found at line '0'");
    assert_eq!(
        InvalidChar { char: '@', line: 1203, col: 10 }.message(),
        "invalid character '@' found at position 1203:10"
    );
    assert_eq!(
        EmptyLine(usize::MAX).message(),
        format!("empty line found at line '{}'", usize::MAX)
    );
}

#[test]
fn error_list_one_per_line() {
    let list = ErrorList(vec![
        EmptyLine(1),
        InvalidChar { char: '@', line: 2, col: 1 },
        EmptyLine(3),
    ]);
    assert_eq!(
        list.message(),
        "empty line found at line '1'\ninvalid character '@' found at position 2:1\nempty line found at line '3'"
    );
    assert_eq!(ErrorList(Vec::<Error>::new()).message(), "");
    assert_eq!(ErrorList(vec![EmptyMap]).message(), "map is empty");
}
