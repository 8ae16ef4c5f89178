use bake::format::{quote, series};

#[test]
fn quote_puts_backticks_around() {
    assert_eq!(quote("build"), "`build`");
    assert_eq!(quote(""), "``");
}

#[test]
fn series_of_nothing_is_empty() {
    assert_eq!(series(&vec![]), "");
}

#[test]
fn series_of_one_is_the_item() {
    assert_eq!(series(&vec!["a".to_owned()]), "a");
}

#[test]
fn series_separates_by_comma_and_space() {
    let items = vec!["a".to_owned(), "".to_owned(), "c d".to_owned()];
    assert_eq!(series(&items), "a, , c d");
}
