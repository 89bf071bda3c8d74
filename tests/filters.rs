use indexmap::IndexSet;
use seqidx::filters::{is_valid_filter, Filters, TryFromIteratorError};

fn names(values: &[&str]) -> Vec<String> {
    values.iter().map(|s| s.to_string()).collect()
}

fn set(values: &[&str]) -> IndexSet<String> {
    values.iter().map(|s| s.to_string()).collect()
}

#[test]
fn test_try_from_iter() {
    assert_eq!(Filters::try_from_iter(&names(&["PASS"])), Ok(Filters::Pass));
    assert_eq!(Filters::try_from_iter(&names(&["q10"])), Ok(Filters::Fail(set(&["q10"]))));
    assert_eq!(
        Filters::try_from_iter(&names(&["q10", "s50"])),
        Ok(Filters::Fail(set(&["q10", "s50"])))
    );

    assert_eq!(Filters::try_from_iter(&names(&[])), Err(TryFromIteratorError::Empty));
    assert_eq!(
        Filters::try_from_iter(&names(&["q10", "q10"])),
        Err(TryFromIteratorError::DuplicateFilter(String::from("q10")))
    );
    assert_eq!(
        Filters::try_from_iter(&names(&[""])),
        Err(TryFromIteratorError::InvalidFilter(String::from("")))
    );
    assert_eq!(
        Filters::try_from_iter(&names(&["0"])),
        Err(TryFromIteratorError::InvalidFilter(String::from("0")))
    );
    assert_eq!(
        Filters::try_from_iter(&names(&["q 10"])),
        Err(TryFromIteratorError::InvalidFilter(String::from("q 10")))
    );
}

#[test]
fn pass_among_others_is_a_failure_list() {
    match Filters::try_from_iter(&names(&["PASS", "q10"])) {
        Ok(Filters::Fail(s)) => assert_eq!(s.iter().collect::<Vec<_>>(), vec!["PASS", "q10"]),
        other => panic!("unexpected: {:?}", other),
    }
}

#[test]
fn filter_names() {
    assert!(is_valid_filter("q10"));
    assert!(is_valid_filter("00"));
    assert!(!is_valid_filter("0"));
    assert!(!is_valid_filter(""));
    assert!(!is_valid_filter("a\tb"));
    assert!(!is_valid_filter("a\r"));
}
