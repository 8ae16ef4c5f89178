//! The schema of a task definition document: which trees are documents, and
//! what is wrong with a tree that is none.
//!
//! The schema is closed. A mapping that the schema describes field by field
//! may hold those fields and no others, each at most once.

use crate::bakefile::{
    default_task_cache, default_task_location, default_task_user, distinct_names, Bakefile,
    BakefileView, RawTask, RawTaskView, Task, TaskView, DEFAULT_LOCATION, DEFAULT_USER,
};
use crate::seqs::{
    first_some, lemma_first_some_all_none, lemma_first_some_at, lemma_first_some_none, lookup,
};
use crate::yaml::{lemma_list_view, lemma_table_view, list_model, table_model, Node, Yaml};
use vstd::prelude::*;
use vstd::string::StringExecFns;

verus! {

/// What is wrong at a place of a tree.
#[derive(Clone, Copy, Debug, PartialEq, Eq, Structural)]
pub enum Fault {
    /// The value is not a mapping.
    ExpectedMapping,
    /// The value is neither a command nor a mapping.
    ExpectedTask,
    /// The value is not a string (nor null, where null is allowed).
    ExpectedString,
    /// The value is not a boolean.
    ExpectedBoolean,
    /// The value is not a sequence of strings.
    ExpectedStrings,
    /// A key of the mapping is not a string.
    ExpectedKey,
    /// The schema has no such field.
    UnknownField,
    /// The key occurs a second time.
    DuplicateField,
    /// A task has the empty string for its name.
    EmptyName,
    /// The field is required and absent.
    MissingField,
}

/// A fault with the place at which it was found: the keys that lead there
/// from the top of the document, separated by dots.
#[derive(Clone, Debug, Eq)]
pub struct SchemaError {
    pub fault: Fault,
    pub place: String,
}

/// The mathematical model of a [`SchemaError`].
pub struct SchemaErrorView {
    pub fault: Fault,
    pub place: Seq<char>,
}

impl View for SchemaError {
    type V = SchemaErrorView;

    open spec fn view(&self) -> SchemaErrorView {
        SchemaErrorView { fault: self.fault, place: self.place@ }
    }
}

impl PartialEq for SchemaError {
    /// Two errors are equal where they name the same fault at the same place.
    fn eq(&self, other: &SchemaError) -> (same: bool) {
        self.fault == other.fault && self.place == other.place
    }
}

impl vstd::std_specs::cmp::PartialEqSpecImpl for SchemaError {
    open spec fn obeys_eq_spec() -> bool {
        true
    }

    open spec fn eq_spec(&self, other: &SchemaError) -> bool {
        self@ == other@
    }
}

/// The place below another, under a key.
pub open spec fn below(place: Seq<char>, key: Seq<char>) -> Seq<char> {
    if place.len() == 0 {
        key
    } else {
        place + "."@ + key
    }
}

/// What a diagnostic says of a fault.
pub open spec fn fault_text(fault: Fault) -> Seq<char> {
    match fault {
        Fault::ExpectedMapping => "expected a mapping"@,
        Fault::ExpectedTask => "expected a command or a mapping"@,
        Fault::ExpectedString => "expected a string"@,
        Fault::ExpectedBoolean => "expected a boolean"@,
        Fault::ExpectedStrings => "expected a sequence of strings"@,
        Fault::ExpectedKey => "expected a string as key"@,
        Fault::UnknownField => "unknown field"@,
        Fault::DuplicateField => "duplicate field"@,
        Fault::EmptyName => "empty name"@,
        Fault::MissingField => "missing field"@,
    }
}

impl SchemaErrorView {
    /// The diagnostic: what is wrong, and where unless it is the document
    /// itself.
    pub open spec fn message(self) -> Seq<char> {
        if self.place.len() == 0 {
            fault_text(self.fault)
        } else {
            fault_text(self.fault) + " at `"@ + self.place + "`"@
        }
    }
}

impl SchemaError {
    /// The diagnostic for this error.
    pub fn message(&self) -> (text: String)
        ensures
            text@ == self@.message(),
    {
        let mut text = match self.fault {
            Fault::ExpectedMapping => String::from_str("expected a mapping"),
            Fault::ExpectedTask => String::from_str("expected a command or a mapping"),
            Fault::ExpectedString => String::from_str("expected a string"),
            Fault::ExpectedBoolean => String::from_str("expected a boolean"),
            Fault::ExpectedStrings => String::from_str("expected a sequence of strings"),
            Fault::ExpectedKey => String::from_str("expected a string as key"),
            Fault::UnknownField => String::from_str("unknown field"),
            Fault::DuplicateField => String::from_str("duplicate field"),
            Fault::EmptyName => String::from_str("empty name"),
            Fault::MissingField => String::from_str("missing field"),
        };
        if !self.place.as_str().is_empty() {
            text.append(" at `");
            text.append(self.place.as_str());
            text.append("`");
        }
        text
    }
}

/// A fault at a place.
fn fault_at(fault: Fault, place: &String) -> (error: SchemaError)
    ensures
        error@ == (SchemaErrorView { fault, place: place@ }),
{
    SchemaError { fault, place: place.clone() }
}

/// The place below another, under a key.
fn place_below(place: &String, key: &str) -> (child: String)
    ensures
        child@ == below(place@, key@),
{
    if place.as_str().is_empty() {
        key.to_owned()
    } else {
        let mut child = place.clone();
        child.append(".");
        child.append(key);
        child
    }
}

/// The value that a mapping gives a field.
pub open spec fn field(entries: Seq<(Node, Node)>, name: Seq<char>) -> Option<Node> {
    lookup(entries, Node::Text(name))
}

/// The fields of a document.
pub open spec fn document_fields() -> Seq<Seq<char>> {
    seq!["image"@, "default"@, "tasks"@]
}

/// The fields of a task.
pub open spec fn task_fields() -> Seq<Seq<char>> {
    seq!["dependencies"@, "cache"@, "env"@, "paths"@, "location"@, "user"@, "command"@]
}

/// Whether the key of an entry is that of an earlier entry too.
pub open spec fn repeats(entries: Seq<(Node, Node)>, i: int) -> bool {
    exists|j: int| 0 <= j < i && (#[trigger] entries[j]).0 == entries[i].0
}

/// What is wrong with the key of an entry of a mapping, if anything: it is
/// no string, or the mapping is one with the given fields only and the key is
/// none of them, or an earlier entry has the same key.
pub open spec fn key_fault(
    entries: Seq<(Node, Node)>,
    i: int,
    fields: Option<Seq<Seq<char>>>,
    place: Seq<char>,
) -> Option<SchemaErrorView> {
    match entries[i].0 {
        Node::Text(key) => {
            if fields is Some && !fields.unwrap().contains(key) {
                Some(SchemaErrorView { fault: Fault::UnknownField, place: below(place, key) })
            } else if repeats(entries, i) {
                Some(SchemaErrorView { fault: Fault::DuplicateField, place: below(place, key) })
            } else {
                None
            }
        },
        _ => Some(SchemaErrorView { fault: Fault::ExpectedKey, place }),
    }
}

/// What is wrong with the first key of a mapping that has a fault, if any
/// has.
pub open spec fn keys_fault(
    entries: Seq<(Node, Node)>,
    fields: Option<Seq<Seq<char>>>,
    place: Seq<char>,
) -> Option<SchemaErrorView> {
    first_some(Seq::new(entries.len(), |i: int| key_fault(entries, i, fields, place)))
}

/// Whether the text is one of the names.
fn is_among(text: &String, names: &Vec<String>) -> (found: bool)
    ensures
        found == names.deep_view().contains(text@),
{
    for i in 0..names.len()
        invariant
            forall|j: int| 0 <= j < i ==> (#[trigger] names.deep_view()[j]) != text@,
    {
        if names[i] == *text {
            assert(names.deep_view()[i as int] == text@);
            return true;
        }
    }
    false
}

/// Whether an earlier entry has the key of entry `i`, which is `key`.
fn key_repeats(entries: &Vec<(Yaml, Yaml)>, i: usize, key: &String) -> (found: bool)
    requires
        i < entries.len(),
        entries[i as int].0@ == Node::Text(key@),
    ensures
        found == repeats(table_model(entries@), i as int),
{
    let ghost model = table_model(entries@);
    for j in 0..i
        invariant
            i < entries.len(),
            model == table_model(entries@),
            model[i as int].0 == Node::Text(key@),
            forall|k: int| 0 <= k < j ==> (#[trigger] model[k]).0 != model[i as int].0,
    {
        match &entries[j].0 {
            Yaml::Text(earlier) => {
                if *earlier == *key {
                    assert(model[j as int].0 == model[i as int].0);
                    return true;
                }
            },
            _ => {},
        }
    }
    false
}

/// The key of an entry, or what is wrong with it.
fn checked_key<'a>(
    entries: &'a Vec<(Yaml, Yaml)>,
    i: usize,
    fields: Option<&Vec<String>>,
    place: &String,
) -> (outcome: Result<&'a String, SchemaError>)
    requires
        i < entries.len(),
    ensures
        match outcome {
            Ok(key) => {
                &&& key_fault(table_model(entries@), i as int, fields.deep_view(), place@) is None
                &&& entries[i as int].0 == Yaml::Text(*key)
            },
            Err(error) => key_fault(table_model(entries@), i as int, fields.deep_view(), place@)
                == Some(error@),
        },
{
    match &entries[i].0 {
        Yaml::Text(key) => {
            let unknown = match fields {
                Some(names) => !is_among(key, names),
                None => false,
            };
            if unknown {
                Err(
                    SchemaError {
                        fault: Fault::UnknownField,
                        place: place_below(place, key.as_str()),
                    },
                )
            } else if key_repeats(entries, i, key) {
                Err(
                    SchemaError {
                        fault: Fault::DuplicateField,
                        place: place_below(place, key.as_str()),
                    },
                )
            } else {
                Ok(key)
            }
        },
        _ => Err(fault_at(Fault::ExpectedKey, place)),
    }
}

/// What is wrong with the first key of a mapping that has a fault, if any
/// has.
fn check_keys(entries: &Vec<(Yaml, Yaml)>, fields: &Vec<String>, place: &String) -> (outcome:
    Option<SchemaError>)
    ensures
        match outcome {
            Some(error) => keys_fault(table_model(entries@), Some(fields.deep_view()), place@)
                == Some(error@),
            None => keys_fault(table_model(entries@), Some(fields.deep_view()), place@) is None,
        },
{
    let ghost model = table_model(entries@);
    let ghost faults = Seq::new(
        model.len(),
        |i: int| key_fault(model, i, Some(fields.deep_view()), place@),
    );
    for i in 0..entries.len()
        invariant
            model == table_model(entries@),
            faults == Seq::new(
                model.len(),
                |i: int| key_fault(model, i, Some(fields.deep_view()), place@),
            ),
            forall|j: int| 0 <= j < i ==> faults[j] is None,
    {
        match checked_key(entries, i, Some(fields), place) {
            Ok(_) => {},
            Err(error) => {
                proof {
                    lemma_first_some_at(faults, i as int);
                }
                return Some(error);
            },
        }
    }
    proof {
        lemma_first_some_none(faults);
    }
    None
}

/// The value that a mapping gives a field.
fn find_field<'a>(entries: &'a Vec<(Yaml, Yaml)>, name: &str) -> (found: Option<&'a Yaml>)
    ensures
        found.deep_view() == field(table_model(entries@), name@),
{
    let ghost model = table_model(entries@);
    proof {
        assert(model.skip(0) =~= model);
    }
    for i in 0..entries.len()
        invariant
            model == table_model(entries@),
            field(model, name@) == field(model.skip(i as int), name@),
    {
        proof {
            assert(model.skip(i as int)[0] == model[i as int]);
            assert(model.skip(i as int).drop_first() =~= model.skip(i + 1));
        }
        match &entries[i].0 {
            Yaml::Text(key) => {
                if *key == String::from_str(name) {
                    return Some(&entries[i].1);
                }
            },
            _ => {},
        }
    }
    None
}

/// A required string.
pub open spec fn required_text_at(node: Option<Node>, place: Seq<char>) -> Result<
    Seq<char>,
    SchemaErrorView,
> {
    match node {
        None => Err(SchemaErrorView { fault: Fault::MissingField, place }),
        Some(Node::Text(text)) => Ok(text),
        Some(_) => Err(SchemaErrorView { fault: Fault::ExpectedString, place }),
    }
}

/// A string; the default where the field is absent.
pub open spec fn text_at(node: Option<Node>, default: Seq<char>, place: Seq<char>) -> Result<
    Seq<char>,
    SchemaErrorView,
> {
    match node {
        None => Ok(default),
        Some(Node::Text(text)) => Ok(text),
        Some(_) => Err(SchemaErrorView { fault: Fault::ExpectedString, place }),
    }
}

/// A string, or none where the field is absent or null.
pub open spec fn optional_text_at(node: Option<Node>, place: Seq<char>) -> Result<
    Option<Seq<char>>,
    SchemaErrorView,
> {
    match node {
        None => Ok(None),
        Some(Node::Null) => Ok(None),
        Some(Node::Text(text)) => Ok(Some(text)),
        Some(_) => Err(SchemaErrorView { fault: Fault::ExpectedString, place }),
    }
}

/// A boolean; the default where the field is absent.
pub open spec fn flag_at(node: Option<Node>, default: bool, place: Seq<char>) -> Result<
    bool,
    SchemaErrorView,
> {
    match node {
        None => Ok(default),
        Some(Node::Bool(flag)) => Ok(flag),
        Some(_) => Err(SchemaErrorView { fault: Fault::ExpectedBoolean, place }),
    }
}

/// Whether every item is a string.
pub open spec fn all_text(items: Seq<Node>) -> bool {
    forall|i: int| 0 <= i < items.len() ==> (#[trigger] items[i]) is Text
}

/// A sequence of strings; empty where the field is absent.
pub open spec fn strings_at(node: Option<Node>, place: Seq<char>) -> Result<
    Seq<Seq<char>>,
    SchemaErrorView,
> {
    match node {
        None => Ok(Seq::empty()),
        Some(Node::List(items)) => if all_text(items) {
            Ok(Seq::new(items.len(), |i: int| items[i]->Text_0))
        } else {
            Err(SchemaErrorView { fault: Fault::ExpectedStrings, place })
        },
        Some(_) => Err(SchemaErrorView { fault: Fault::ExpectedStrings, place }),
    }
}

/// Reads a required string.
fn read_required_text(node: Option<&Yaml>, place: &String) -> (outcome: Result<String, SchemaError>)
    ensures
        match outcome {
            Ok(text) => required_text_at(node.deep_view(), place@) == Ok::<
                Seq<char>,
                SchemaErrorView,
            >(text@),
            Err(error) => required_text_at(node.deep_view(), place@) == Err::<
                Seq<char>,
                SchemaErrorView,
            >(error@),
        },
{
    match node {
        None => Err(fault_at(Fault::MissingField, place)),
        Some(Yaml::Text(text)) => Ok(text.clone()),
        Some(_) => Err(fault_at(Fault::ExpectedString, place)),
    }
}

/// Reads a string that has a default.
fn read_text(node: Option<&Yaml>, default: String, place: &String) -> (outcome: Result<
    String,
    SchemaError,
>)
    ensures
        match outcome {
            Ok(text) => text_at(node.deep_view(), default@, place@) == Ok::<
                Seq<char>,
                SchemaErrorView,
            >(text@),
            Err(error) => text_at(node.deep_view(), default@, place@) == Err::<
                Seq<char>,
                SchemaErrorView,
            >(error@),
        },
{
    match node {
        None => Ok(default),
        Some(Yaml::Text(text)) => Ok(text.clone()),
        Some(_) => Err(fault_at(Fault::ExpectedString, place)),
    }
}

/// Reads a string that may be absent or null.
fn read_optional_text(node: Option<&Yaml>, place: &String) -> (outcome: Result<
    Option<String>,
    SchemaError,
>)
    ensures
        match outcome {
            Ok(text) => optional_text_at(node.deep_view(), place@) == Ok::<
                Option<Seq<char>>,
                SchemaErrorView,
            >(text.deep_view()),
            Err(error) => optional_text_at(node.deep_view(), place@) == Err::<
                Option<Seq<char>>,
                SchemaErrorView,
            >(error@),
        },
{
    match node {
        None => Ok(None),
        Some(Yaml::Null) => Ok(None),
        Some(Yaml::Text(text)) => Ok(Some(text.clone())),
        Some(_) => Err(fault_at(Fault::ExpectedString, place)),
    }
}

/// Reads a boolean that has a default.
fn read_flag(node: Option<&Yaml>, default: bool, place: &String) -> (outcome: Result<
    bool,
    SchemaError,
>)
    ensures
        match outcome {
            Ok(flag) => flag_at(node.deep_view(), default, place@) == Ok::<bool, SchemaErrorView>(
                flag,
            ),
            Err(error) => flag_at(node.deep_view(), default, place@) == Err::<
                bool,
                SchemaErrorView,
            >(error@),
        },
{
    match node {
        None => Ok(default),
        Some(Yaml::Bool(flag)) => Ok(*flag),
        Some(_) => Err(fault_at(Fault::ExpectedBoolean, place)),
    }
}

/// Reads a sequence of strings.
fn read_strings(node: Option<&Yaml>, place: &String) -> (outcome: Result<Vec<String>, SchemaError>)
    ensures
        match outcome {
            Ok(texts) => strings_at(node.deep_view(), place@) == Ok::<
                Seq<Seq<char>>,
                SchemaErrorView,
            >(texts.deep_view()),
            Err(error) => strings_at(node.deep_view(), place@) == Err::<
                Seq<Seq<char>>,
                SchemaErrorView,
            >(error@),
        },
{
    match node {
        None => {
            let texts: Vec<String> = Vec::new();
            assert(texts.deep_view() =~= Seq::<Seq<char>>::empty());
            Ok(texts)
        },
        Some(Yaml::List(items)) => {
            let ghost model = list_model(items@);
            proof {
                lemma_list_view(*items);
            }
            let mut texts: Vec<String> = Vec::new();
            for i in 0..items.len()
                invariant
                    model == list_model(items@),
                    node.deep_view() == Some(Node::List(model)),
                    texts.len() == i,
                    forall|j: int| 0 <= j < i ==> (#[trigger] model[j]) == Node::Text(texts[j]@),
            {
                match &items[i] {
                    Yaml::Text(text) => {
                        texts.push(text.clone());
                    },
                    _ => {
                        assert(!(model[i as int] is Text));
                        return Err(fault_at(Fault::ExpectedStrings, place));
                    },
                }
            }
            proof {
                assert(all_text(model));
                assert(texts.deep_view() =~= Seq::new(model.len(), |i: int| model[i]->Text_0));
            }
            Ok(texts)
        },
        Some(_) => Err(fault_at(Fault::ExpectedStrings, place)),
    }
}

/// What is wrong with an entry of a mapping of variables, if anything: its
/// key, or a fallback that is neither a string nor null.
pub open spec fn variable_fault(entries: Seq<(Node, Node)>, i: int, place: Seq<char>) -> Option<
    SchemaErrorView,
> {
    match key_fault(entries, i, None, place) {
        Some(error) => Some(error),
        None => match entries[i].1 {
            Node::Text(_) => None,
            Node::Null => None,
            _ => Some(
                SchemaErrorView {
                    fault: Fault::ExpectedString,
                    place: below(place, entries[i].0->Text_0),
                },
            ),
        },
    }
}

/// The variable that an entry declares: its name, and its fallback unless
/// that is null.
pub open spec fn variable_of(entry: (Node, Node)) -> (Seq<char>, Option<Seq<char>>) {
    (
        entry.0->Text_0,
        match entry.1 {
            Node::Text(fallback) => Some(fallback),
            _ => None,
        },
    )
}

/// A mapping of variables to their fallbacks; empty where the field is
/// absent.
pub open spec fn variables_at(node: Option<Node>, place: Seq<char>) -> Result<
    Seq<(Seq<char>, Option<Seq<char>>)>,
    SchemaErrorView,
> {
    match node {
        None => Ok(Seq::empty()),
        Some(Node::Table(entries)) => match first_some(
            Seq::new(entries.len(), |i: int| variable_fault(entries, i, place)),
        ) {
            Some(error) => Err(error),
            None => Ok(Seq::new(entries.len(), |i: int| variable_of(entries[i]))),
        },
        Some(_) => Err(SchemaErrorView { fault: Fault::ExpectedMapping, place }),
    }
}

/// Reads a mapping of variables.
fn read_variables(node: Option<&Yaml>, place: &String) -> (outcome: Result<
    Vec<(String, Option<String>)>,
    SchemaError,
>)
    ensures
        match outcome {
            Ok(variables) => variables_at(node.deep_view(), place@) == Ok::<
                Seq<(Seq<char>, Option<Seq<char>>)>,
                SchemaErrorView,
            >(variables.deep_view()),
            Err(error) => variables_at(node.deep_view(), place@) == Err::<
                Seq<(Seq<char>, Option<Seq<char>>)>,
                SchemaErrorView,
            >(error@),
        },
{
    match node {
        None => {
            let variables: Vec<(String, Option<String>)> = Vec::new();
            assert(variables.deep_view() =~= Seq::<(Seq<char>, Option<Seq<char>>)>::empty());
            Ok(variables)
        },
        Some(Yaml::Table(entries)) => {
            let ghost model = table_model(entries@);
            let ghost faults = Seq::new(model.len(), |i: int| variable_fault(model, i, place@));
            proof {
                lemma_table_view(*entries);
            }
            let mut variables: Vec<(String, Option<String>)> = Vec::new();
            for i in 0..entries.len()
                invariant
                    model == table_model(entries@),
                    node.deep_view() == Some(Node::Table(model)),
                    faults == Seq::new(model.len(), |i: int| variable_fault(model, i, place@)),
                    forall|j: int| 0 <= j < i ==> faults[j] is None,
                    variables.len() == i,
                    forall|j: int|
                        0 <= j < i ==> (#[trigger] variables.deep_view()[j]) == variable_of(
                            model[j],
                        ),
            {
                let ghost before = variables.deep_view();
                let key = match checked_key(entries, i, None, place) {
                    Ok(key) => key,
                    Err(error) => {
                        proof {
                            lemma_first_some_at(faults, i as int);
                        }
                        return Err(error);
                    },
                };
                let fallback = match &entries[i].1 {
                    Yaml::Text(fallback) => Some(fallback.clone()),
                    Yaml::Null => None,
                    _ => {
                        proof {
                            lemma_first_some_at(faults, i as int);
                        }
                        return Err(
                            SchemaError {
                                fault: Fault::ExpectedString,
                                place: place_below(place, key.as_str()),
                            },
                        );
                    },
                };
                variables.push((key.clone(), fallback));
                proof {
                    assert(variables.deep_view() =~= before.push(variable_of(model[i as int])));
                }
            }
            proof {
                lemma_first_some_none(faults);
                assert(variables.deep_view() =~= Seq::new(
                    model.len(),
                    |i: int| variable_of(model[i]),
                ));
            }
            Ok(variables)
        },
        Some(_) => Err(fault_at(Fault::ExpectedMapping, place)),
    }
}

/// The task that a record of fields stands for: each field that the record
/// holds as the record gives it, every other at its default. Where the
/// record is none, the first of these is reported: a fault of a key; else the
/// field, in the order `dependencies`, `cache`, `env`, `paths`, `location`,
/// `user`, `command`, whose value has not the shape that the field asks for.
pub open spec fn record_at(entries: Seq<(Node, Node)>, place: Seq<char>) -> Result<
    TaskView,
    SchemaErrorView,
> {
    let keys = keys_fault(entries, Some(task_fields()), place);
    let dependencies = strings_at(field(entries, "dependencies"@), below(place, "dependencies"@));
    let cache = flag_at(field(entries, "cache"@), true, below(place, "cache"@));
    let env = variables_at(field(entries, "env"@), below(place, "env"@));
    let paths = strings_at(field(entries, "paths"@), below(place, "paths"@));
    let location = text_at(
        field(entries, "location"@),
        DEFAULT_LOCATION@,
        below(place, "location"@),
    );
    let user = text_at(field(entries, "user"@), DEFAULT_USER@, below(place, "user"@));
    let command = optional_text_at(field(entries, "command"@), below(place, "command"@));
    if keys is Some {
        Err(keys->Some_0)
    } else if dependencies is Err {
        Err(dependencies->Err_0)
    } else if cache is Err {
        Err(cache->Err_0)
    } else if env is Err {
        Err(env->Err_0)
    } else if paths is Err {
        Err(paths->Err_0)
    } else if location is Err {
        Err(location->Err_0)
    } else if user is Err {
        Err(user->Err_0)
    } else if command is Err {
        Err(command->Err_0)
    } else {
        Ok(
            TaskView {
                dependencies: dependencies->Ok_0,
                cache: cache->Ok_0,
                env: env->Ok_0,
                paths: paths->Ok_0,
                location: location->Ok_0,
                user: user->Ok_0,
                command: command->Ok_0,
            },
        )
    }
}

/// A task as the document writes it: a string is a bare command, a mapping a
/// record of fields, and nothing else is a task.
pub open spec fn task_at(node: Node, place: Seq<char>) -> Result<RawTaskView, SchemaErrorView> {
    match node {
        Node::Text(command) => Ok(RawTaskView::Short(command)),
        Node::Table(entries) => match record_at(entries, place) {
            Ok(task) => Ok(RawTaskView::Long(task)),
            Err(error) => Err(error),
        },
        _ => Err(SchemaErrorView { fault: Fault::ExpectedTask, place }),
    }
}

/// The names of the fields of a task.
fn task_field_names() -> (names: Vec<String>)
    ensures
        names.deep_view() == task_fields(),
{
    let mut names: Vec<String> = Vec::new();
    names.push(String::from_str("dependencies"));
    names.push(String::from_str("cache"));
    names.push(String::from_str("env"));
    names.push(String::from_str("paths"));
    names.push(String::from_str("location"));
    names.push(String::from_str("user"));
    names.push(String::from_str("command"));
    assert(names.deep_view() =~= task_fields());
    names
}

/// The names of the fields of a document.
fn document_field_names() -> (names: Vec<String>)
    ensures
        names.deep_view() == document_fields(),
{
    let mut names: Vec<String> = Vec::new();
    names.push(String::from_str("image"));
    names.push(String::from_str("default"));
    names.push(String::from_str("tasks"));
    assert(names.deep_view() =~= document_fields());
    names
}

/// Reads a record of the fields of a task.
fn read_record(entries: &Vec<(Yaml, Yaml)>, place: &String) -> (outcome: Result<Task, SchemaError>)
    ensures
        match outcome {
            Ok(task) => record_at(table_model(entries@), place@) == Ok::<TaskView, SchemaErrorView>(
                task@,
            ),
            Err(error) => record_at(table_model(entries@), place@) == Err::<
                TaskView,
                SchemaErrorView,
            >(error@),
        },
{
    match check_keys(entries, &task_field_names(), place) {
        Some(error) => {
            return Err(error);
        },
        None => {},
    }
    let dependencies = match read_strings(
        find_field(entries, "dependencies"),
        &place_below(place, "dependencies"),
    ) {
        Ok(dependencies) => dependencies,
        Err(error) => {
            return Err(error);
        },
    };
    let cache = match read_flag(
        find_field(entries, "cache"),
        default_task_cache(),
        &place_below(place, "cache"),
    ) {
        Ok(cache) => cache,
        Err(error) => {
            return Err(error);
        },
    };
    let env = match read_variables(find_field(entries, "env"), &place_below(place, "env")) {
        Ok(env) => env,
        Err(error) => {
            return Err(error);
        },
    };
    let paths = match read_strings(find_field(entries, "paths"), &place_below(place, "paths")) {
        Ok(paths) => paths,
        Err(error) => {
            return Err(error);
        },
    };
    let location = match read_text(
        find_field(entries, "location"),
        default_task_location(),
        &place_below(place, "location"),
    ) {
        Ok(location) => location,
        Err(error) => {
            return Err(error);
        },
    };
    let user = match read_text(
        find_field(entries, "user"),
        default_task_user(),
        &place_below(place, "user"),
    ) {
        Ok(user) => user,
        Err(error) => {
            return Err(error);
        },
    };
    let command = match read_optional_text(
        find_field(entries, "command"),
        &place_below(place, "command"),
    ) {
        Ok(command) => command,
        Err(error) => {
            return Err(error);
        },
    };
    Ok(Task { dependencies, cache, env, paths, location, user, command })
}

/// Reads a task in either of its forms.
fn read_task(node: &Yaml, place: &String) -> (outcome: Result<RawTask, SchemaError>)
    ensures
        match outcome {
            Ok(task) => task_at(node@, place@) == Ok::<RawTaskView, SchemaErrorView>(task@),
            Err(error) => task_at(node@, place@) == Err::<RawTaskView, SchemaErrorView>(error@),
        },
{
    match node {
        Yaml::Text(command) => Ok(RawTask::Short(command.clone())),
        Yaml::Table(entries) => {
            proof {
                lemma_table_view(*entries);
            }
            match read_record(entries, place) {
                Ok(task) => Ok(RawTask::Long(task)),
                Err(error) => Err(error),
            }
        },
        _ => Err(fault_at(Fault::ExpectedTask, place)),
    }
}

/// What is wrong with an entry of the mapping of tasks, if anything: its
/// key, or its name, which is empty, or its value, which is no task.
pub open spec fn task_fault(entries: Seq<(Node, Node)>, i: int, place: Seq<char>) -> Option<
    SchemaErrorView,
> {
    match key_fault(entries, i, None, place) {
        Some(error) => Some(error),
        None => if entries[i].0->Text_0.len() == 0 {
            Some(SchemaErrorView { fault: Fault::EmptyName, place })
        } else {
            match task_at(entries[i].1, below(place, entries[i].0->Text_0)) {
                Ok(_) => None,
                Err(error) => Some(error),
            }
        },
    }
}

/// The task that an entry of the mapping of tasks declares, under its name
/// and in its canonical form.
pub open spec fn named_task(entry: (Node, Node), place: Seq<char>) -> (Seq<char>, TaskView) {
    (entry.0->Text_0, task_at(entry.1, below(place, entry.0->Text_0))->Ok_0.normalized())
}

/// The tasks of a document, in the order of the document. The field is
/// required.
pub open spec fn tasks_at(node: Option<Node>, place: Seq<char>) -> Result<
    Seq<(Seq<char>, TaskView)>,
    SchemaErrorView,
> {
    match node {
        None => Err(SchemaErrorView { fault: Fault::MissingField, place }),
        Some(Node::Table(entries)) => match first_some(
            Seq::new(entries.len(), |i: int| task_fault(entries, i, place)),
        ) {
            Some(error) => Err(error),
            None => Ok(Seq::new(entries.len(), |i: int| named_task(entries[i], place))),
        },
        Some(_) => Err(SchemaErrorView { fault: Fault::ExpectedMapping, place }),
    }
}

/// The document that a tree stands for. Where the tree is none, the first of
/// these is reported: that the tree is no mapping; a fault of a key; a fault
/// of `image`, of `default`, of `tasks`.
pub open spec fn document_of(tree: Node) -> Result<BakefileView, SchemaErrorView> {
    match tree {
        Node::Table(entries) => {
            let top = Seq::<char>::empty();
            let keys = keys_fault(entries, Some(document_fields()), top);
            let image = required_text_at(field(entries, "image"@), below(top, "image"@));
            let default = optional_text_at(field(entries, "default"@), below(top, "default"@));
            let tasks = tasks_at(field(entries, "tasks"@), below(top, "tasks"@));
            if keys is Some {
                Err(keys->Some_0)
            } else if image is Err {
                Err(image->Err_0)
            } else if default is Err {
                Err(default->Err_0)
            } else if tasks is Err {
                Err(tasks->Err_0)
            } else {
                Ok(BakefileView { image: image->Ok_0, default: default->Ok_0, tasks: tasks->Ok_0 })
            }
        },
        _ => Err(SchemaErrorView { fault: Fault::ExpectedMapping, place: Seq::empty() }),
    }
}

/// Entries whose keys have no fault have strings for keys, and no two the
/// same.
proof fn lemma_keys_distinct(entries: Seq<(Node, Node)>, place: Seq<char>)
    requires
        forall|i: int| 0 <= i < entries.len() ==> key_fault(entries, i, None, place) is None,
    ensures
        forall|i: int| 0 <= i < entries.len() ==> (#[trigger] entries[i]).0 is Text,
        forall|i: int, j: int|
            0 <= i < j < entries.len() ==> (#[trigger] entries[i]).0->Text_0 != (
            #[trigger] entries[j]).0->Text_0,
{
    assert forall|i: int| 0 <= i < entries.len() implies (#[trigger] entries[i]).0 is Text by {
        assert(key_fault(entries, i, None, place) is None);
    }
    assert forall|i: int, j: int| 0 <= i < j < entries.len() implies (
    #[trigger] entries[i]).0->Text_0 != (#[trigger] entries[j]).0->Text_0 by {
        assert(key_fault(entries, i, None, place) is None);
        assert(key_fault(entries, j, None, place) is None);
        if entries[i].0->Text_0 == entries[j].0->Text_0 {
            assert(entries[i].0 == entries[j].0);
            assert(repeats(entries, j));
        }
    }
}

/// The variables that a mapping declares have distinct names.
pub proof fn lemma_variables_distinct(node: Option<Node>, place: Seq<char>)
    requires
        variables_at(node, place) is Ok,
    ensures
        distinct_names(variables_at(node, place)->Ok_0),
{
    match node {
        Some(Node::Table(entries)) => {
            let faults = Seq::new(entries.len(), |i: int| variable_fault(entries, i, place));
            lemma_first_some_all_none(faults);
            assert forall|i: int| 0 <= i < entries.len() implies key_fault(
                entries,
                i,
                None,
                place,
            ) is None by {
                assert(faults[i] is None);
            }
            lemma_keys_distinct(entries, place);
        },
        _ => {},
    }
}

/// The task that a value stands for declares no variable twice.
pub proof fn lemma_task_wf(node: Node, place: Seq<char>)
    requires
        task_at(node, place) is Ok,
    ensures
        task_at(node, place)->Ok_0.normalized().wf(),
{
    match node {
        Node::Table(entries) => {
            lemma_variables_distinct(field(entries, "env"@), below(place, "env"@));
        },
        _ => {},
    }
}

/// The document that a tree stands for has a name for every task, no two
/// tasks of one name, and no task that declares a variable twice.
pub proof fn lemma_document_wf(tree: Node)
    requires
        document_of(tree) is Ok,
    ensures
        document_of(tree)->Ok_0.wf(),
{
    let entries = tree->Table_0;
    let place = below(Seq::<char>::empty(), "tasks"@);
    let declared = field(entries, "tasks"@)->Some_0->Table_0;
    let tasks = document_of(tree)->Ok_0.tasks;
    let faults = Seq::new(declared.len(), |i: int| task_fault(declared, i, place));
    lemma_first_some_all_none(faults);
    assert forall|i: int| 0 <= i < declared.len() implies key_fault(declared, i, None, place)
        is None by {
        assert(faults[i] is None);
    }
    lemma_keys_distinct(declared, place);
    assert forall|i: int| 0 <= i < tasks.len() implies (#[trigger] tasks[i]).0.len() > 0 by {
        assert(faults[i] is None);
    }
    assert forall|i: int| 0 <= i < tasks.len() implies (#[trigger] tasks[i]).1.wf() by {
        assert(faults[i] is None);
        lemma_task_wf(declared[i].1, below(place, declared[i].0->Text_0));
    }
}

/// Reads the mapping of tasks.
fn read_tasks(node: Option<&Yaml>, place: &String) -> (outcome: Result<
    Vec<(String, Task)>,
    SchemaError,
>)
    ensures
        match outcome {
            Ok(tasks) => tasks_at(node.deep_view(), place@) == Ok::<
                Seq<(Seq<char>, TaskView)>,
                SchemaErrorView,
            >(tasks.deep_view()),
            Err(error) => tasks_at(node.deep_view(), place@) == Err::<
                Seq<(Seq<char>, TaskView)>,
                SchemaErrorView,
            >(error@),
        },
{
    match node {
        None => Err(fault_at(Fault::MissingField, place)),
        Some(Yaml::Table(entries)) => {
            let ghost model = table_model(entries@);
            let ghost faults = Seq::new(model.len(), |i: int| task_fault(model, i, place@));
            proof {
                lemma_table_view(*entries);
            }
            let mut tasks: Vec<(String, Task)> = Vec::new();
            for i in 0..entries.len()
                invariant
                    model == table_model(entries@),
                    node.deep_view() == Some(Node::Table(model)),
                    faults == Seq::new(model.len(), |i: int| task_fault(model, i, place@)),
                    forall|j: int| 0 <= j < i ==> faults[j] is None,
                    tasks.len() == i,
                    forall|j: int|
                        0 <= j < i ==> (#[trigger] tasks.deep_view()[j]) == named_task(
                            model[j],
                            place@,
                        ),
            {
                let ghost before = tasks.deep_view();
                let name = match checked_key(entries, i, None, place) {
                    Ok(name) => name,
                    Err(error) => {
                        proof {
                            lemma_first_some_at(faults, i as int);
                        }
                        return Err(error);
                    },
                };
                if name.as_str().is_empty() {
                    proof {
                        lemma_first_some_at(faults, i as int);
                    }
                    return Err(fault_at(Fault::EmptyName, place));
                }
                let task = match read_task(&entries[i].1, &place_below(place, name.as_str())) {
                    Ok(task) => task.normalize(),
                    Err(error) => {
                        proof {
                            lemma_first_some_at(faults, i as int);
                        }
                        return Err(error);
                    },
                };
                tasks.push((name.clone(), task));
                proof {
                    assert(tasks.deep_view() =~= before.push(named_task(model[i as int], place@)));
                }
            }
            proof {
                lemma_first_some_none(faults);
                assert(tasks.deep_view() =~= Seq::new(
                    model.len(),
                    |i: int| named_task(model[i], place@),
                ));
            }
            Ok(tasks)
        },
        Some(_) => Err(fault_at(Fault::ExpectedMapping, place)),
    }
}

/// Reads a tree as a document: every task in its canonical form, with
/// defaults applied.
///
/// Nothing here looks at what the dependencies and the default task name.
pub fn decode(tree: &Yaml) -> (outcome: Result<Bakefile, SchemaError>)
    ensures
        match outcome {
            Ok(bakefile) => document_of(tree@) == Ok::<BakefileView, SchemaErrorView>(bakefile@),
            Err(error) => document_of(tree@) == Err::<BakefileView, SchemaErrorView>(error@),
        },
        outcome matches Ok(bakefile) ==> bakefile@.wf(),
{
    proof {
        if document_of(tree@) is Ok {
            lemma_document_wf(tree@);
        }
    }
    let top = String::new();
    match tree {
        Yaml::Table(entries) => {
            proof {
                lemma_table_view(*entries);
            }
            match check_keys(entries, &document_field_names(), &top) {
                Some(error) => {
                    return Err(error);
                },
                None => {},
            }
            let image = match read_required_text(
                find_field(entries, "image"),
                &place_below(&top, "image"),
            ) {
                Ok(image) => image,
                Err(error) => {
                    return Err(error);
                },
            };
            let default = match read_optional_text(
                find_field(entries, "default"),
                &place_below(&top, "default"),
            ) {
                Ok(default) => default,
                Err(error) => {
                    return Err(error);
                },
            };
            let tasks = match read_tasks(
                find_field(entries, "tasks"),
                &place_below(&top, "tasks"),
            ) {
                Ok(tasks) => tasks,
                Err(error) => {
                    return Err(error);
                },
            };
            Ok(Bakefile { image, default, tasks })
        },
        _ => Err(fault_at(Fault::ExpectedMapping, &top)),
    }
}

} // verus!
