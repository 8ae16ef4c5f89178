use bake::bakefile::{Bakefile, RawTask, Task};
use bake::schema::{Fault, SchemaError};
use bake::yaml::Yaml;

fn task() -> Task {
    Task {
        dependencies: vec!["a".to_owned(), "b".to_owned()],
        cache: true,
        env: vec![
            ("X".to_owned(), None),
            ("Y".to_owned(), Some("y".to_owned())),
        ],
        paths: vec!["src/*".to_owned()],
        location: "/scratch".to_owned(),
        user: "root".to_owned(),
        command: Some("make".to_owned()),
    }
}

fn bakefile() -> Bakefile {
    Bakefile {
        image: "ubuntu:18.04".to_owned(),
        default: Some("build".to_owned()),
        tasks: vec![
            ("build".to_owned(), task()),
            ("test".to_owned(), task()),
        ],
    }
}

#[test]
fn tasks_equal_field_for_field() {
    assert_eq!(task(), task());
    assert_eq!(task(), task().clone());
}

#[test]
fn tasks_differ_by_any_field() {
    let mut other = task();
    other.dependencies.pop();
    assert_ne!(task(), other);
    let mut other = task();
    other.dependencies.swap(0, 1);
    assert_ne!(task(), other);
    let mut other = task();
    other.cache = false;
    assert_ne!(task(), other);
    let mut other = task();
    other.env[0].1 = Some("".to_owned());
    assert_ne!(task(), other);
    let mut other = task();
    other.env[1].1 = None;
    assert_ne!(task(), other);
    let mut other = task();
    other.env[1].0 = "Z".to_owned();
    assert_ne!(task(), other);
    let mut other = task();
    other.paths.push("x".to_owned());
    assert_ne!(task(), other);
    let mut other = task();
    other.location = "/code".to_owned();
    assert_ne!(task(), other);
    let mut other = task();
    other.user = "me".to_owned();
    assert_ne!(task(), other);
    let mut other = task();
    other.command = None;
    assert_ne!(task(), other);
    let mut other = task();
    other.command = Some("cmake".to_owned());
    assert_ne!(task(), other);
}

#[test]
fn raw_tasks_equal_in_the_same_form_only() {
    assert_eq!(RawTask::Short("make".to_owned()), RawTask::Short("make".to_owned()));
    assert_ne!(RawTask::Short("make".to_owned()), RawTask::Short("cmake".to_owned()));
    assert_eq!(RawTask::Long(task()), RawTask::Long(task()));
    let record = RawTask::Short("make".to_owned()).normalize();
    assert_ne!(RawTask::Short("make".to_owned()), RawTask::Long(record));
}

#[test]
fn bakefiles_equal_field_for_field() {
    assert_eq!(bakefile(), bakefile());
    let mut other = bakefile();
    other.image = "alpine".to_owned();
    assert_ne!(bakefile(), other);
    let mut other = bakefile();
    other.default = None;
    assert_ne!(bakefile(), other);
    let mut other = bakefile();
    other.tasks[1].0 = "check".to_owned();
    assert_ne!(bakefile(), other);
    let mut other = bakefile();
    other.tasks[1].1.cache = false;
    assert_ne!(bakefile(), other);
    let mut other = bakefile();
    other.tasks.pop();
    assert_ne!(bakefile(), other);
}

#[test]
fn bakefiles_with_tasks_in_another_order_are_equal() {
    let mut other = bakefile();
    other.tasks[1].1.command = None;
    let mut swapped = Bakefile {
        image: other.image.clone(),
        default: other.default.clone(),
        tasks: other.tasks.clone(),
    };
    swapped.tasks.swap(0, 1);
    assert_eq!(other, swapped);
    assert_eq!(swapped, other);
    assert_ne!(bakefile(), swapped);
}

#[test]
fn bakefiles_with_other_names_differ() {
    let mut more = bakefile();
    more.tasks.push(("deploy".to_owned(), task()));
    assert_ne!(bakefile(), more);
    assert_ne!(more, bakefile());
    let mut other = bakefile();
    other.tasks[0].0 = "deploy".to_owned();
    assert_ne!(bakefile(), other);
    assert_ne!(other, bakefile());
}

#[test]
fn tasks_with_variables_in_another_order_are_equal() {
    let mut swapped = task();
    swapped.env.swap(0, 1);
    assert_eq!(task(), swapped);
    assert_eq!(swapped, task());
    let mut more = task();
    more.env.push(("Z".to_owned(), None));
    assert_ne!(task(), more);
    assert_ne!(more, task());
}

#[test]
fn first_of_two_entries_under_one_name_counts() {
    let mut twice = task();
    twice.env.push(("X".to_owned(), Some("later".to_owned())));
    assert_eq!(task(), twice);
    assert_eq!(twice, task());
    let mut other = task();
    other.env.insert(0, ("Y".to_owned(), None));
    assert_ne!(task(), other);
}

#[test]
fn dependencies_and_paths_compare_in_order() {
    let mut other = task();
    other.dependencies.swap(0, 1);
    assert_ne!(task(), other);
    let mut left = task();
    left.paths = vec!["a".to_owned(), "b".to_owned()];
    let mut right = task();
    right.paths = vec!["b".to_owned(), "a".to_owned()];
    assert_ne!(left, right);
}

#[test]
fn schema_errors_equal_by_fault_and_place() {
    let error = |fault, place: &str| SchemaError {
        fault,
        place: place.to_owned(),
    };
    assert_eq!(error(Fault::UnknownField, "a"), error(Fault::UnknownField, "a"));
    assert_ne!(error(Fault::UnknownField, "a"), error(Fault::UnknownField, "b"));
    assert_ne!(error(Fault::UnknownField, "a"), error(Fault::MissingField, "a"));
}

#[test]
fn trees_equal_by_shape_and_content() {
    let text = |value: &str| Yaml::Text(value.to_owned());
    let tree = |last: Yaml| {
        Yaml::Table(vec![
            (text("k"), Yaml::List(vec![Yaml::Null, Yaml::Bool(true), Yaml::Number])),
            (Yaml::Tagged, last),
        ])
    };
    assert_eq!(tree(text("v")), tree(text("v")));
    assert_ne!(tree(text("v")), tree(text("w")));
    assert_ne!(tree(text("v")), tree(Yaml::Null));
    assert_ne!(Yaml::List(vec![]), Yaml::Table(vec![]));
    assert_ne!(Yaml::List(vec![Yaml::Null]), Yaml::List(vec![]));
    assert_ne!(Yaml::Bool(true), Yaml::Bool(false));
    assert_ne!(Yaml::Number, Yaml::Tagged);
    assert_ne!(
        Yaml::Table(vec![(text("a"), text("b"))]),
        Yaml::Table(vec![(text("b"), text("a"))])
    );
}
