use bake::yaml::{read, Yaml};

fn text(value: &str) -> Yaml {
    Yaml::Text(value.to_owned())
}

#[test]
fn read_scalars() {
    assert_eq!(read("hello"), Ok(text("hello")));
    assert_eq!(read("'7'"), Ok(text("7")));
    assert_eq!(read("true"), Ok(Yaml::Bool(true)));
    assert_eq!(read("false"), Ok(Yaml::Bool(false)));
    assert_eq!(read("7"), Ok(Yaml::Number));
    assert_eq!(read("-1.5"), Ok(Yaml::Number));
    assert_eq!(read("null"), Ok(Yaml::Null));
    assert_eq!(read("~"), Ok(Yaml::Null));
    assert_eq!(read(""), Ok(Yaml::Null));
    assert_eq!(read("!thing x"), Ok(Yaml::Tagged));
}

#[test]
fn read_keeps_the_order_of_a_sequence() {
    assert_eq!(
        read("[b, a, 1, [c], null]"),
        Ok(Yaml::List(vec![
            text("b"),
            text("a"),
            Yaml::Number,
            Yaml::List(vec![text("c")]),
            Yaml::Null,
        ]))
    );
}

#[test]
fn read_keeps_the_order_of_a_mapping() {
    assert_eq!(
        read("z: 1\na:\n  k: v\n3: [x]\n"),
        Ok(Yaml::Table(vec![
            (text("z"), Yaml::Number),
            (text("a"), Yaml::Table(vec![(text("k"), text("v"))])),
            (Yaml::Number, Yaml::List(vec![text("x")])),
        ]))
    );
}

#[test]
fn read_rejects_what_is_not_yaml() {
    for input in ["a: [1, 2", "a: b: c", "a: 1\n---\nb: 2\n", "k: 1\nk: 2\n", "*nowhere"] {
        let outcome = read(input);
        assert!(outcome.is_err());
        assert!(!outcome.unwrap_err().is_empty());
    }
}

#[test]
fn read_twice_gives_equal_trees() {
    let input = "image: i\ntasks:\n  a: x\n  b: {dependencies: [a]}\n";
    assert_eq!(read(input), read(input));
}
