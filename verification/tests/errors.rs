use vernacular::error::{AggregateError, VernacularError};

fn io(msg: &str) -> VernacularError {
    VernacularError::io(std::io::Error::new(std::io::ErrorKind::Other, msg.to_string()))
}

#[test]
fn error_messages() {
    assert_eq!(io("disk on fire").message(), "I/O error: disk on fire");
    let e = VernacularError::in_file("loc/en_US/ui.ron", io("denied"));
    assert_eq!(e.message(), "Parse error: Failed to parse file 'loc/en_US/ui.ron': I/O error: denied");
    match &e {
        VernacularError::Parse(vernacular::error::ParseFailure::File(f)) => {
            assert_eq!(f.path(), "loc/en_US/ui.ron");
            assert!(matches!(f.source(), VernacularError::Io(_)));
        }
        _ => panic!("expected a file error"),
    }
}

#[test]
fn aggregate_messages() {
    let none = AggregateError::new(vec![]);
    assert!(none.is_empty());
    assert_eq!(none.message(), "0 errors occurred");

    let one = AggregateError::new(vec![io("a")]);
    assert_eq!(one.len(), 1);
    assert_eq!(one.message(), "1 error occurred: I/O error: a");

    let two = AggregateError::new(vec![io("a"), io("b")]);
    assert_eq!(two.len(), 2);
    assert!(!two.is_empty());
    assert_eq!(two.errors().len(), 2);
    assert_eq!(two.message(), "2 errors occurred:\n  - I/O error: a\n  - I/O error: b");
    assert_eq!(two.into_errors().len(), 2);
}
