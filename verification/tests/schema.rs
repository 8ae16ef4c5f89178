use bake::bakefile::{interpret, parse, Bakefile, RawTask, Task, DEFAULT_LOCATION, DEFAULT_USER};
use bake::schema::{decode, Fault, SchemaError};
use bake::yaml::Yaml;

fn text(value: &str) -> Yaml {
    Yaml::Text(value.to_owned())
}

fn entry(key: &str, value: Yaml) -> (Yaml, Yaml) {
    (text(key), value)
}

fn document(tasks: Vec<(Yaml, Yaml)>) -> Yaml {
    Yaml::Table(vec![
        entry("image", text("ubuntu:18.04")),
        entry("tasks", Yaml::Table(tasks)),
    ])
}

fn fault(fault: Fault, place: &str) -> Result<Bakefile, SchemaError> {
    Err(SchemaError {
        fault,
        place: place.to_owned(),
    })
}

fn shorthand(command: &str) -> Task {
    Task {
        dependencies: vec![],
        cache: true,
        env: vec![],
        paths: vec![],
        location: "/scratch".to_owned(),
        user: "root".to_owned(),
        command: Some(command.to_owned()),
    }
}

#[test]
fn defaults_have_their_values() {
    assert_eq!(DEFAULT_LOCATION, "/scratch");
    assert_eq!(DEFAULT_USER, "root");
    assert!(bake::bakefile::default_task_cache());
    assert_eq!(bake::bakefile::default_task_location(), "/scratch");
    assert_eq!(bake::bakefile::default_task_user(), "root");
}

#[test]
fn normalize_shorthand_applies_defaults() {
    let task = RawTask::Short("cargo build".to_owned()).normalize();
    assert_eq!(task, shorthand("cargo build"));
}

#[test]
fn normalize_record_is_kept() {
    let record = Task {
        dependencies: vec!["a".to_owned()],
        cache: false,
        env: vec![("X".to_owned(), None)],
        paths: vec!["src/*".to_owned()],
        location: "/code".to_owned(),
        user: "foo".to_owned(),
        command: None,
    };
    assert_eq!(RawTask::Long(record.clone()).normalize(), record);
}

#[test]
fn shorthand_equals_record_with_command() {
    let short = parse("image: i\ntasks:\n  build: cargo build\n");
    let long = parse("image: i\ntasks:\n  build:\n    command: cargo build\n");
    assert!(short.is_ok());
    assert_eq!(short, long);
    assert_eq!(short.unwrap().tasks[0].1, shorthand("cargo build"));
}

#[test]
fn decode_reads_every_field() {
    let record = Yaml::Table(vec![
        entry("command", text("make")),
        entry("user", text("me")),
        entry("location", text("/src")),
        entry("paths", Yaml::List(vec![text("a"), text("b")])),
        entry(
            "env",
            Yaml::Table(vec![entry("A", Yaml::Null), entry("B", text("b"))]),
        ),
        entry("cache", Yaml::Bool(false)),
        entry("dependencies", Yaml::List(vec![text("other")])),
    ]);
    let tree = Yaml::Table(vec![
        entry("tasks", Yaml::Table(vec![entry("build", record)])),
        entry("default", text("build")),
        entry("image", text("alpine")),
    ]);
    let expected = Bakefile {
        image: "alpine".to_owned(),
        default: Some("build".to_owned()),
        tasks: vec![(
            "build".to_owned(),
            Task {
                dependencies: vec!["other".to_owned()],
                cache: false,
                env: vec![
                    ("A".to_owned(), None),
                    ("B".to_owned(), Some("b".to_owned())),
                ],
                paths: vec!["a".to_owned(), "b".to_owned()],
                location: "/src".to_owned(),
                user: "me".to_owned(),
                command: Some("make".to_owned()),
            },
        )],
    };
    assert_eq!(decode(&tree), Ok(expected));
}

#[test]
fn decode_does_not_check_the_task_graph() {
    let tree = Yaml::Table(vec![
        entry("image", text("i")),
        entry("default", text("nowhere")),
        entry("tasks", Yaml::Table(vec![])),
    ]);
    assert!(decode(&tree).is_ok());
    assert_eq!(
        interpret(&tree),
        Err("The default task `nowhere` does not exist.".to_owned())
    );
}

#[test]
fn decode_null_default_and_command_are_absent() {
    let tree = Yaml::Table(vec![
        entry("image", text("i")),
        entry("default", Yaml::Null),
        entry(
            "tasks",
            Yaml::Table(vec![entry(
                "t",
                Yaml::Table(vec![entry("command", Yaml::Null)]),
            )]),
        ),
    ]);
    let bakefile = decode(&tree).unwrap();
    assert_eq!(bakefile.default, None);
    assert_eq!(bakefile.tasks[0].1.command, None);
}

#[test]
fn fault_expected_mapping() {
    assert_eq!(decode(&Yaml::Null), fault(Fault::ExpectedMapping, ""));
    assert_eq!(
        decode(&Yaml::List(vec![])),
        fault(Fault::ExpectedMapping, "")
    );
    assert_eq!(decode(&text("image")), fault(Fault::ExpectedMapping, ""));
    let tree = Yaml::Table(vec![
        entry("image", text("i")),
        entry("tasks", Yaml::Number),
    ]);
    assert_eq!(decode(&tree), fault(Fault::ExpectedMapping, "tasks"));
    let tree = document(vec![entry(
        "t",
        Yaml::Table(vec![entry("env", Yaml::List(vec![]))]),
    )]);
    assert_eq!(decode(&tree), fault(Fault::ExpectedMapping, "tasks.t.env"));
}

#[test]
fn fault_expected_task() {
    for value in [
        Yaml::Null,
        Yaml::Bool(true),
        Yaml::Number,
        Yaml::Tagged,
        Yaml::List(vec![]),
    ] {
        let tree = document(vec![entry("build", value)]);
        assert_eq!(decode(&tree), fault(Fault::ExpectedTask, "tasks.build"));
    }
}

#[test]
fn fault_expected_string() {
    let tree = Yaml::Table(vec![
        entry("image", Yaml::Number),
        entry("tasks", Yaml::Table(vec![])),
    ]);
    assert_eq!(decode(&tree), fault(Fault::ExpectedString, "image"));
    let tree = Yaml::Table(vec![
        entry("image", Yaml::Null),
        entry("tasks", Yaml::Table(vec![])),
    ]);
    assert_eq!(decode(&tree), fault(Fault::ExpectedString, "image"));
    let tree = Yaml::Table(vec![
        entry("image", text("i")),
        entry("default", Yaml::Bool(false)),
        entry("tasks", Yaml::Table(vec![])),
    ]);
    assert_eq!(decode(&tree), fault(Fault::ExpectedString, "default"));
    for name in ["location", "user"] {
        for value in [Yaml::Null, Yaml::Number] {
            let tree = document(vec![entry("t", Yaml::Table(vec![entry(name, value)]))]);
            let place = format!("tasks.t.{}", name);
            assert_eq!(decode(&tree), fault(Fault::ExpectedString, &place));
        }
    }
    let tree = document(vec![entry(
        "t",
        Yaml::Table(vec![entry("command", Yaml::List(vec![]))]),
    )]);
    assert_eq!(decode(&tree), fault(Fault::ExpectedString, "tasks.t.command"));
    let tree = document(vec![entry(
        "t",
        Yaml::Table(vec![entry(
            "env",
            Yaml::Table(vec![entry("A", text("a")), entry("LEVEL", Yaml::Number)]),
        )]),
    )]);
    assert_eq!(
        decode(&tree),
        fault(Fault::ExpectedString, "tasks.t.env.LEVEL")
    );
}

#[test]
fn fault_expected_boolean() {
    for value in [text("true"), Yaml::Null, Yaml::Number] {
        let tree = document(vec![entry("t", Yaml::Table(vec![entry("cache", value)]))]);
        assert_eq!(decode(&tree), fault(Fault::ExpectedBoolean, "tasks.t.cache"));
    }
}

#[test]
fn fault_expected_strings() {
    let tree = document(vec![entry(
        "t",
        Yaml::Table(vec![entry("dependencies", text("a"))]),
    )]);
    assert_eq!(
        decode(&tree),
        fault(Fault::ExpectedStrings, "tasks.t.dependencies")
    );
    let tree = document(vec![entry(
        "t",
        Yaml::Table(vec![entry(
            "paths",
            Yaml::List(vec![text("a"), Yaml::Number, text("b")]),
        )]),
    )]);
    assert_eq!(decode(&tree), fault(Fault::ExpectedStrings, "tasks.t.paths"));
    let tree = document(vec![entry(
        "t",
        Yaml::Table(vec![entry("paths", Yaml::Null)]),
    )]);
    assert_eq!(decode(&tree), fault(Fault::ExpectedStrings, "tasks.t.paths"));
}

#[test]
fn fault_expected_key() {
    let tree = Yaml::Table(vec![
        entry("image", text("i")),
        (Yaml::Number, text("x")),
        entry("tasks", Yaml::Table(vec![])),
    ]);
    assert_eq!(decode(&tree), fault(Fault::ExpectedKey, ""));
    let tree = document(vec![(Yaml::Bool(true), text("cmd"))]);
    assert_eq!(decode(&tree), fault(Fault::ExpectedKey, "tasks"));
    let tree = document(vec![entry(
        "t",
        Yaml::Table(vec![(Yaml::Null, text("x"))]),
    )]);
    assert_eq!(decode(&tree), fault(Fault::ExpectedKey, "tasks.t"));
    let tree = document(vec![entry(
        "t",
        Yaml::Table(vec![entry(
            "env",
            Yaml::Table(vec![(Yaml::Number, Yaml::Null)]),
        )]),
    )]);
    assert_eq!(decode(&tree), fault(Fault::ExpectedKey, "tasks.t.env"));
}

#[test]
fn fault_unknown_field() {
    let tree = Yaml::Table(vec![
        entry("image", text("i")),
        entry("tasks", Yaml::Table(vec![])),
        entry("images", text("j")),
    ]);
    assert_eq!(decode(&tree), fault(Fault::UnknownField, "images"));
    let tree = document(vec![
        entry("good", text("cmd")),
        entry("t", Yaml::Table(vec![entry("comand", text("x"))])),
    ]);
    assert_eq!(decode(&tree), fault(Fault::UnknownField, "tasks.t.comand"));
}

#[test]
fn fault_duplicate_field() {
    let tree = Yaml::Table(vec![
        entry("image", text("i")),
        entry("tasks", Yaml::Table(vec![])),
        entry("image", text("j")),
    ]);
    assert_eq!(decode(&tree), fault(Fault::DuplicateField, "image"));
    let tree = document(vec![
        entry("a", text("x")),
        entry("b", text("y")),
        entry("a", text("z")),
    ]);
    assert_eq!(decode(&tree), fault(Fault::DuplicateField, "tasks.a"));
    let tree = document(vec![entry(
        "t",
        Yaml::Table(vec![entry("user", text("a")), entry("user", text("a"))]),
    )]);
    assert_eq!(decode(&tree), fault(Fault::DuplicateField, "tasks.t.user"));
    let tree = document(vec![entry(
        "t",
        Yaml::Table(vec![entry(
            "env",
            Yaml::Table(vec![entry("A", Yaml::Null), entry("A", text("a"))]),
        )]),
    )]);
    assert_eq!(decode(&tree), fault(Fault::DuplicateField, "tasks.t.env.A"));
}

#[test]
fn fault_empty_name() {
    let tree = document(vec![entry("", text("make"))]);
    assert_eq!(decode(&tree), fault(Fault::EmptyName, "tasks"));
    let tree = document(vec![
        entry("build", text("make")),
        entry("", Yaml::Table(vec![])),
    ]);
    assert_eq!(decode(&tree), fault(Fault::EmptyName, "tasks"));
    let tree = document(vec![entry("", Yaml::Number)]);
    assert_eq!(decode(&tree), fault(Fault::EmptyName, "tasks"));
    assert_eq!(interpret(&tree), Err("empty name at `tasks`".to_owned()));
}

#[test]
fn parse_rejects_a_task_without_a_name() {
    assert_eq!(
        parse("image: i\ntasks:\n  \"\": make\n"),
        Err("empty name at `tasks`".to_owned())
    );
    assert_eq!(
        parse("image: i\ntasks:\n  build: make\n  '': {}\n"),
        Err("empty name at `tasks`".to_owned())
    );
    assert!(parse("image: i\ntasks:\n  ' ': make\n").is_ok());
}

#[test]
fn fault_missing_field() {
    let tree = Yaml::Table(vec![entry("tasks", Yaml::Table(vec![]))]);
    assert_eq!(decode(&tree), fault(Fault::MissingField, "image"));
    let tree = Yaml::Table(vec![entry("image", text("i"))]);
    assert_eq!(decode(&tree), fault(Fault::MissingField, "tasks"));
    assert_eq!(
        decode(&Yaml::Table(vec![])),
        fault(Fault::MissingField, "image")
    );
}

#[test]
fn fault_of_a_key_comes_before_that_of_a_value() {
    let tree = Yaml::Table(vec![
        entry("image", Yaml::Number),
        entry("tasks", Yaml::Null),
        entry("extra", Yaml::Null),
    ]);
    assert_eq!(decode(&tree), fault(Fault::UnknownField, "extra"));
    let tree = document(vec![entry(
        "t",
        Yaml::Table(vec![
            entry("command", Yaml::Number),
            entry("cache", Yaml::Null),
        ]),
    )]);
    assert_eq!(decode(&tree), fault(Fault::ExpectedBoolean, "tasks.t.cache"));
    let tree = document(vec![
        entry("a", Yaml::Table(vec![entry("user", Yaml::Null)])),
        (Yaml::Null, text("x")),
    ]);
    assert_eq!(decode(&tree), fault(Fault::ExpectedString, "tasks.a.user"));
}

#[test]
fn messages_of_faults() {
    let cases = [
        (Fault::ExpectedMapping, "expected a mapping"),
        (Fault::ExpectedTask, "expected a command or a mapping"),
        (Fault::ExpectedString, "expected a string"),
        (Fault::ExpectedBoolean, "expected a boolean"),
        (Fault::ExpectedStrings, "expected a sequence of strings"),
        (Fault::ExpectedKey, "expected a string as key"),
        (Fault::UnknownField, "unknown field"),
        (Fault::DuplicateField, "duplicate field"),
        (Fault::EmptyName, "empty name"),
        (Fault::MissingField, "missing field"),
    ];
    for (fault, words) in cases {
        let at_top = SchemaError {
            fault,
            place: String::new(),
        };
        assert_eq!(at_top.message(), words);
        let below = SchemaError {
            fault,
            place: "tasks.build".to_owned(),
        };
        assert_eq!(below.message(), format!("{} at `tasks.build`", words));
    }
}

#[test]
fn parse_rejects_unknown_fields_at_every_level() {
    assert_eq!(
        parse("image: i\ntasks: {}\nversion: 2\n"),
        Err("unknown field at `version`".to_owned())
    );
    assert_eq!(
        parse("image: i\ntasks:\n  build:\n    command: make\n    shell: bash\n"),
        Err("unknown field at `tasks.build.shell`".to_owned())
    );
}

#[test]
fn parse_rejects_wrong_shapes() {
    assert_eq!(
        parse("- image\n- tasks\n"),
        Err("expected a mapping".to_owned())
    );
    assert_eq!(parse(""), Err("expected a mapping".to_owned()));
    assert_eq!(
        parse("tasks: {}\n"),
        Err("missing field at `image`".to_owned())
    );
    assert_eq!(
        parse("image: i\n"),
        Err("missing field at `tasks`".to_owned())
    );
    assert_eq!(
        parse("image: 7\ntasks: {}\n"),
        Err("expected a string at `image`".to_owned())
    );
    assert_eq!(
        parse("image: i\ntasks:\n  build: 7\n"),
        Err("expected a command or a mapping at `tasks.build`".to_owned())
    );
    assert_eq!(
        parse("image: i\ntasks:\n  build:\n    cache: yes\n"),
        Err("expected a boolean at `tasks.build.cache`".to_owned())
    );
    assert_eq!(
        parse("image: i\ntasks:\n  build:\n    dependencies: other\n"),
        Err("expected a sequence of strings at `tasks.build.dependencies`".to_owned())
    );
    assert_eq!(
        parse("image: i\ntasks:\n  build:\n    env:\n      LEVEL: 8080\n"),
        Err("expected a string at `tasks.build.env.LEVEL`".to_owned())
    );
    assert_eq!(
        parse("image: i\ntasks:\n  7: make\n"),
        Err("expected a string as key at `tasks`".to_owned())
    );
}

#[test]
fn parse_env_fallbacks() {
    let bakefile = parse(
        "image: i\ntasks:\n  t:\n    env:\n      A: ~\n      B: ''\n      C: \"8080\"\n      D:\n",
    )
    .unwrap();
    assert_eq!(
        bakefile.tasks[0].1.env,
        vec![
            ("A".to_owned(), None),
            ("B".to_owned(), Some("".to_owned())),
            ("C".to_owned(), Some("8080".to_owned())),
            ("D".to_owned(), None),
        ]
    );
}
