//! What holds of the library as a whole, proved from the definitions that
//! its contracts are written in.

use crate::bakefile::{
    agrees, distinct_names, has_task, missing_among, outcome_of, parsed, resolution,
    resolved_value, same_found, same_variables, snapshot_value, unresolved,
    violation_text, violations_text, Bakefile, BakefileView, TaskView,
};
use crate::format::{
    lemma_joined_mentions, lemma_mentions_part, lemma_mentions_within, mentions, quoted, series_of,
};
use crate::schema::{
    below, document_fields, document_of, field, key_fault, lemma_document_wf, record_at, repeats,
    task_at, task_fault, task_fields, tasks_at,
};
use crate::seqs::{lemma_first_some_exists, lemma_first_some_none, lemma_lookup_some, lookup};
use crate::yaml::Node;
use vstd::prelude::*;

verus! {

/// A value from the snapshot takes precedence: a declared variable that the
/// snapshot defines resolves to the snapshot's value, whatever fallback it
/// declares.
pub proof fn live_value_overrides_fallback(
    snapshot: Seq<(Seq<char>, Seq<char>)>,
    env: Seq<(Seq<char>, Option<Seq<char>>)>,
    i: int,
    value: Seq<char>,
)
    requires
        0 <= i < env.len(),
        snapshot_value(snapshot, env[i].0) == Some(value),
    ensures
        resolved_value(snapshot, env[i]) == Some(value),
        resolution(snapshot, env)[i] == (env[i].0, value),
{
}

/// A declared variable that the snapshot does not define resolves to its
/// fallback.
pub proof fn absent_variable_takes_fallback(
    snapshot: Seq<(Seq<char>, Seq<char>)>,
    env: Seq<(Seq<char>, Option<Seq<char>>)>,
    i: int,
    fallback: Seq<char>,
)
    requires
        0 <= i < env.len(),
        snapshot_value(snapshot, env[i].0) is None,
        env[i].1 == Some(fallback),
    ensures
        resolved_value(snapshot, env[i]) == Some(fallback),
        resolution(snapshot, env)[i] == (env[i].0, fallback),
{
}

/// Resolution reports every variable that has neither a value in the
/// snapshot nor a fallback, and succeeds exactly where there is none.
pub proof fn every_missing_variable_is_reported(
    snapshot: Seq<(Seq<char>, Seq<char>)>,
    env: Seq<(Seq<char>, Option<Seq<char>>)>,
)
    ensures
        forall|i: int|
            0 <= i < env.len() && snapshot_value(snapshot, (#[trigger] env[i]).0) is None
                && env[i].1 is None ==> unresolved(snapshot, env).contains(env[i].0),
        unresolved(snapshot, env).len() == 0 <==> forall|i: int|
            0 <= i < env.len() ==> resolved_value(snapshot, #[trigger] env[i]) is Some,
        resolution(snapshot, env).len() == env.len(),
{
    let open = |variable: (Seq<char>, Option<Seq<char>>)|
        resolved_value(snapshot, variable) is None;
    let name = |variable: (Seq<char>, Option<Seq<char>>)| variable.0;
    let kept = env.filter(open);
    assert forall|i: int|
        0 <= i < env.len() && snapshot_value(snapshot, (#[trigger] env[i]).0) is None
            && env[i].1 is None implies unresolved(snapshot, env).contains(env[i].0) by {
        env.lemma_filter_contains(open, i);
        let k = choose|k: int| 0 <= k < kept.len() && kept[k] == env[i];
        assert(kept.map_values(name)[k] == env[i].0);
    }
    if unresolved(snapshot, env).len() == 0 {
        assert forall|i: int| 0 <= i < env.len() implies resolved_value(
            snapshot,
            #[trigger] env[i],
        ) is Some by {
            if open(env[i]) {
                env.lemma_filter_contains(open, i);
            }
        }
    } else {
        assert(kept.len() > 0);
        env.lemma_filter_pred(open, 0);
        env.lemma_filter_contains_rev(open, kept[0]);
    }
}

/// Keeping some of the entries of a list that has no name twice leaves a list
/// that has no name twice.
proof fn lemma_filter_distinct<V>(
    entries: Seq<(Seq<char>, V)>,
    keep: spec_fn((Seq<char>, V)) -> bool,
)
    requires
        distinct_names(entries),
    ensures
        distinct_names(entries.filter(keep)),
    decreases entries.len(),
{
    reveal(Seq::filter);
    if entries.len() > 0 {
        let rest = entries.drop_last();
        let kept = rest.filter(keep);
        assert forall|i: int, j: int| 0 <= i < j < rest.len() implies (#[trigger] rest[i]).0 != (
        #[trigger] rest[j]).0 by {
            assert(entries[i].0 != entries[j].0);
        }
        lemma_filter_distinct(rest, keep);
        if keep(entries.last()) {
            assert forall|i: int| 0 <= i < kept.len() implies (#[trigger] kept[i]).0
                != entries.last().0 by {
                rest.lemma_filter_contains_rev(keep, kept[i]);
                let k = choose|k: int| 0 <= k < rest.len() && rest[k] == kept[i];
                assert(entries[k].0 != entries[entries.len() - 1].0);
            }
        }
    }
}

/// Of a task that declares no variable twice, resolution names no variable
/// twice: neither among the values that it returns nor among the names that
/// it reports as missing.
pub proof fn variables_are_named_once(
    snapshot: Seq<(Seq<char>, Seq<char>)>,
    env: Seq<(Seq<char>, Option<Seq<char>>)>,
)
    requires
        distinct_names(env),
    ensures
        distinct_names(resolution(snapshot, env)),
        unresolved(snapshot, env).no_duplicates(),
{
    let open = |variable: (Seq<char>, Option<Seq<char>>)|
        resolved_value(snapshot, variable) is None;
    let kept = env.filter(open);
    lemma_filter_distinct(env, open);
    assert forall|i: int, j: int|
        0 <= i < unresolved(snapshot, env).len() && 0 <= j < unresolved(snapshot, env).len() && i
            != j implies unresolved(snapshot, env)[i] != unresolved(snapshot, env)[j] by {
        if i < j {
            assert(kept[i].0 != kept[j].0);
        } else {
            assert(kept[j].0 != kept[i].0);
        }
    }
    assert forall|i: int, j: int| 0 <= i < j < env.len() implies (#[trigger] resolution(
        snapshot,
        env,
    )[i]).0 != (#[trigger] resolution(snapshot, env)[j]).0 by {
        assert(env[i].0 != env[j].0);
    }
}

/// A dependency that names no task is reported: there is a diagnostic, and
/// it shows the dependency and the task that lists it, each in backticks.
pub proof fn missing_dependency_is_named(document: BakefileView, i: int, j: int)
    requires
        0 <= i < document.tasks.len(),
        0 <= j < document.tasks[i].1.dependencies.len(),
        !has_task(document.tasks, document.tasks[i].1.dependencies[j]),
    ensures
        document.diagnostic() is Some,
        mentions(document.diagnostic()->Some_0, quoted(document.tasks[i].1.dependencies[j])),
        mentions(document.diagnostic()->Some_0, quoted(document.tasks[i].0)),
        mentions(document.diagnostic()->Some_0, document.tasks[i].1.dependencies[j]),
{
    let tasks = document.tasks;
    let dependencies = tasks[i].1.dependencies;
    let absent = |name: Seq<char>| !has_task(tasks, name);
    let found = |entry: (Seq<char>, TaskView)|
        (entry.0, missing_among(tasks, entry.1.dependencies));
    let offending = |found: (Seq<char>, Seq<Seq<char>>)| found.1.len() > 0;
    let show = |name: Seq<char>| quoted(name);
    let line = |found: (Seq<char>, Seq<Seq<char>>)| violation_text(found);

    let missing = dependencies.filter(absent);
    dependencies.lemma_filter_contains(absent, j);
    let k = choose|k: int| 0 <= k < missing.len() && missing[k] == dependencies[j];
    let names = missing.map_values(show);
    assert(names[k] == quoted(dependencies[j]));
    lemma_joined_mentions(names, ", "@, k);

    let all = tasks.map_values(found);
    assert(all[i] == (tasks[i].0, missing));
    assert(offending(all[i]));
    all.lemma_filter_contains(offending, i);
    let violations = document.violations();
    let v = choose|v: int| 0 <= v < violations.len() && violations[v] == all[i];
    let lines = violations.map_values(line);
    assert(lines[v] == violation_text(all[i]));
    lemma_joined_mentions(lines, ", "@, v);
    let listing = violations_text(violations);

    let text = violation_text(all[i]);
    lemma_mentions_part(quoted(tasks[i].0) + " ("@, series_of(names), ")"@);
    lemma_mentions_within(text, series_of(names), quoted(dependencies[j]));
    lemma_mentions_part(Seq::empty(), quoted(tasks[i].0), " ("@ + series_of(names) + ")"@);
    assert(Seq::<char>::empty() + quoted(tasks[i].0) + (" ("@ + series_of(names) + ")"@) =~= text);
    lemma_mentions_within(listing, text, quoted(dependencies[j]));
    lemma_mentions_within(listing, text, quoted(tasks[i].0));

    let message = document.diagnostic()->Some_0;
    if document.valid_default() {
        lemma_mentions_part("The following tasks have invalid dependencies: "@, listing, "."@);
    } else {
        lemma_mentions_part(
            "The default task `"@ + document.default.unwrap()
                + "` does not exist, and the following tasks have invalid dependencies: "@,
            listing,
            "."@,
        );
    }
    lemma_mentions_within(message, listing, quoted(dependencies[j]));
    lemma_mentions_within(message, listing, quoted(tasks[i].0));
    lemma_mentions_part("`"@, dependencies[j], "`"@);
    lemma_mentions_within(message, quoted(dependencies[j]), dependencies[j]);
}

/// A default task that does not exist is reported: there is a diagnostic,
/// and it shows the name in backticks. Where a dependency names no task
/// either, this is the diagnostic that shows that too.
pub proof fn invalid_default_is_named(document: BakefileView)
    requires
        !document.valid_default(),
    ensures
        document.diagnostic() is Some,
        mentions(document.diagnostic()->Some_0, quoted(document.default.unwrap())),
        mentions(document.diagnostic()->Some_0, document.default.unwrap()),
{
    let name = document.default.unwrap();
    lemma_mentions_part("`"@, name, "`"@);
    let listing = violations_text(document.violations());
    if document.violations().len() > 0 {
        let rest = " does not exist, and the following tasks have invalid dependencies: "@
            + listing + "."@;
        lemma_mentions_part("The default task "@, quoted(name), rest);
        reveal_strlit("The default task `");
        reveal_strlit("The default task ");
        reveal_strlit("`");
        reveal_strlit("` does not exist, and the following tasks have invalid dependencies: ");
        reveal_strlit(" does not exist, and the following tasks have invalid dependencies: ");
        assert("The default task `"@ =~= "The default task "@ + "`"@);
        assert("` does not exist, and the following tasks have invalid dependencies: "@ =~= "`"@
            + " does not exist, and the following tasks have invalid dependencies: "@);
        assert("The default task "@ + quoted(name) + rest =~= document.diagnostic()->Some_0);
    } else {
        lemma_mentions_part("The default task "@, quoted(name), " does not exist."@);
        reveal_strlit("The default task `");
        reveal_strlit("The default task ");
        reveal_strlit("`");
        reveal_strlit("` does not exist.");
        reveal_strlit(" does not exist.");
        assert("The default task `"@ =~= "The default task "@ + "`"@);
        assert("` does not exist."@ =~= "`"@ + " does not exist."@);
        assert("The default task "@ + quoted(name) + " does not exist."@
            =~= document.diagnostic()->Some_0);
    }
    lemma_mentions_within(document.diagnostic()->Some_0, quoted(name), name);
}

/// A document whose every dependency and whose default task, if it has one,
/// name a task of the document is accepted as it stands; and no other
/// document is accepted.
pub proof fn sound_task_graph_is_accepted(tree: Node)
    requires
        document_of(tree) is Ok,
    ensures
        document_of(tree)->Ok_0.resolved() ==> outcome_of(tree) == Ok::<BakefileView, Seq<char>>(
            document_of(tree)->Ok_0,
        ),
        !document_of(tree)->Ok_0.resolved() ==> outcome_of(tree) is Err,
{
    document_of(tree)->Ok_0.lemma_diagnostic();
}

/// Whatever is accepted has tasks of distinct names, declares no variable of
/// a task twice, and refers to tasks of its own only.
pub proof fn accepted_document_is_consistent(tree: Node)
    requires
        outcome_of(tree) is Ok,
    ensures
        outcome_of(tree)->Ok_0.wf(),
        outcome_of(tree)->Ok_0.resolved(),
{
    lemma_document_wf(tree);
    document_of(tree)->Ok_0.lemma_diagnostic();
}

/// The schema of a document is closed: a mapping with a key that is none of
/// `image`, `default` and `tasks` is no document.
pub proof fn unknown_document_field_is_rejected(tree: Node, i: int)
    requires
        tree is Table,
        0 <= i < tree->Table_0.len(),
        !(tree->Table_0[i].0 is Text && document_fields().contains(tree->Table_0[i].0->Text_0)),
    ensures
        document_of(tree) is Err,
        outcome_of(tree) is Err,
{
    let entries = tree->Table_0;
    let top = Seq::<char>::empty();
    let faults = Seq::new(
        entries.len(),
        |i: int| key_fault(entries, i, Some(document_fields()), top),
    );
    assert(faults[i] is Some);
    lemma_first_some_exists(faults, i);
}

/// The schema of a task is closed: a document with a task that is a mapping
/// with a key that is none of the fields of a task is no document.
pub proof fn unknown_task_field_is_rejected(tree: Node, i: int, j: int)
    requires
        tree is Table,
        field(tree->Table_0, "tasks"@) is Some,
        field(tree->Table_0, "tasks"@)->Some_0 is Table,
        0 <= i < field(tree->Table_0, "tasks"@)->Some_0->Table_0.len(),
        field(tree->Table_0, "tasks"@)->Some_0->Table_0[i].1 is Table,
        0 <= j < field(tree->Table_0, "tasks"@)->Some_0->Table_0[i].1->Table_0.len(),
        ({
            let key = field(tree->Table_0, "tasks"@)->Some_0->Table_0[i].1->Table_0[j].0;
            !(key is Text && task_fields().contains(key->Text_0))
        }),
    ensures
        document_of(tree) is Err,
        outcome_of(tree) is Err,
{
    let place = below(Seq::<char>::empty(), "tasks"@);
    let tasks = field(tree->Table_0, "tasks"@)->Some_0->Table_0;
    let record = tasks[i].1->Table_0;
    let faults = Seq::new(tasks.len(), |i: int| task_fault(tasks, i, place));
    if key_fault(tasks, i, None, place) is None {
        let inner = below(place, tasks[i].0->Text_0);
        let keys = Seq::new(
            record.len(),
            |j: int| key_fault(record, j, Some(task_fields()), inner),
        );
        assert(keys[j] is Some);
        lemma_first_some_exists(keys, j);
        assert(record_at(record, inner) is Err);
    }
    assert(faults[i] is Some);
    lemma_first_some_exists(faults, i);
    assert(tasks_at(field(tree->Table_0, "tasks"@), place) is Err);
}

/// A task must have a name: a document with a task under the empty string
/// is no document.
pub proof fn empty_task_name_is_rejected(tree: Node, i: int)
    requires
        tree is Table,
        field(tree->Table_0, "tasks"@) is Some,
        field(tree->Table_0, "tasks"@)->Some_0 is Table,
        0 <= i < field(tree->Table_0, "tasks"@)->Some_0->Table_0.len(),
        field(tree->Table_0, "tasks"@)->Some_0->Table_0[i].0 == Node::Text(Seq::empty()),
    ensures
        document_of(tree) is Err,
        outcome_of(tree) is Err,
{
    let place = below(Seq::<char>::empty(), "tasks"@);
    let tasks = field(tree->Table_0, "tasks"@)->Some_0->Table_0;
    let faults = Seq::new(tasks.len(), |i: int| task_fault(tasks, i, place));
    assert(faults[i] is Some);
    lemma_first_some_exists(faults, i);
    assert(tasks_at(field(tree->Table_0, "tasks"@), place) is Err);
}

/// Being the same task is an equivalence.
pub proof fn same_task_is_an_equivalence(first: TaskView, second: TaskView, third: TaskView)
    ensures
        first.same_as(first),
        first.same_as(second) ==> second.same_as(first),
        first.same_as(second) && second.same_as(third) ==> first.same_as(third),
{
    if first.same_as(second) {
        assert forall|name: Seq<char>| #![trigger lookup(second.env, name)] lookup(second.env, name)
            == lookup(first.env, name) by {
            assert(lookup(first.env, name) == lookup(second.env, name));
        }
        if second.same_as(third) {
            assert forall|name: Seq<char>| #![trigger lookup(first.env, name)] lookup(
                first.env,
                name,
            ) == lookup(third.env, name) by {
                assert(lookup(second.env, name) == lookup(third.env, name));
            }
        }
    }
}

/// Being the same document is an equivalence. Documents that are equal
/// field for field are the same, whatever the order of their tasks.
pub proof fn same_document_is_an_equivalence(
    first: BakefileView,
    second: BakefileView,
    third: BakefileView,
)
    ensures
        first.same_as(first),
        first.same_as(second) ==> second.same_as(first),
        first.same_as(second) && second.same_as(third) ==> first.same_as(third),
{
    assert forall|name: Seq<char>| #![trigger lookup(first.tasks, name)] same_found(
        lookup(first.tasks, name),
        lookup(first.tasks, name),
    ) by {
        if lookup(first.tasks, name) is Some {
            let task = lookup(first.tasks, name)->Some_0;
            same_task_is_an_equivalence(task, task, task);
        }
    }
    if first.same_as(second) {
        assert forall|name: Seq<char>| #![trigger lookup(second.tasks, name)] same_found(
            lookup(second.tasks, name),
            lookup(first.tasks, name),
        ) by {
            assert(same_found(lookup(first.tasks, name), lookup(second.tasks, name)));
            if lookup(first.tasks, name) is Some {
                same_task_is_an_equivalence(
                    lookup(first.tasks, name)->Some_0,
                    lookup(second.tasks, name)->Some_0,
                    lookup(second.tasks, name)->Some_0,
                );
            }
        }
        if second.same_as(third) {
            assert forall|name: Seq<char>| #![trigger lookup(first.tasks, name)] same_found(
                lookup(first.tasks, name),
                lookup(third.tasks, name),
            ) by {
                assert(same_found(lookup(first.tasks, name), lookup(second.tasks, name)));
                assert(same_found(lookup(second.tasks, name), lookup(third.tasks, name)));
                if lookup(first.tasks, name) is Some {
                    same_task_is_an_equivalence(
                        lookup(first.tasks, name)->Some_0,
                        lookup(second.tasks, name)->Some_0,
                        lookup(third.tasks, name)->Some_0,
                    );
                }
            }
        }
    }
}

/// In a list that has no name twice, each entry is the one that its name
/// leads to.
proof fn lemma_lookup_distinct<V>(entries: Seq<(Seq<char>, V)>, i: int)
    requires
        distinct_names(entries),
        0 <= i < entries.len(),
    ensures
        lookup(entries, entries[i].0) == Some(entries[i].1),
    decreases entries.len(),
{
    if i > 0 {
        let rest = entries.drop_first();
        assert(entries[0].0 != entries[i].0);
        assert forall|a: int, b: int| 0 <= a < b < rest.len() implies (#[trigger] rest[a]).0 != (
        #[trigger] rest[b]).0 by {
            assert(entries[a + 1].0 != entries[b + 1].0);
        }
        lemma_lookup_distinct(rest, i - 1);
    }
}

/// One half of the law below: what resolves in a document resolves in one
/// that is the same.
proof fn lemma_same_document_resolves(first: BakefileView, second: BakefileView)
    requires
        first.wf(),
        second.wf(),
        first.same_as(second),
        first.resolved(),
    ensures
        second.resolved(),
{
    assert forall|name: Seq<char>| has_task(first.tasks, name) implies has_task(
        second.tasks,
        name,
    ) by {
        lemma_lookup_some(first.tasks, name);
        lemma_lookup_some(second.tasks, name);
        assert(same_found(lookup(first.tasks, name), lookup(second.tasks, name)));
    }
    assert forall|i: int, j: int|
        0 <= i < second.tasks.len() && 0 <= j < second.tasks[i].1.dependencies.len()
        implies has_task(second.tasks, #[trigger] second.tasks[i].1.dependencies[j]) by {
        let name = second.tasks[i].0;
        lemma_lookup_distinct(second.tasks, i);
        assert(same_found(lookup(first.tasks, name), lookup(second.tasks, name)));
        lemma_lookup_some(first.tasks, name);
        let k = choose|k: int| 0 <= k < first.tasks.len() && (#[trigger] first.tasks[k]).0 == name;
        lemma_lookup_distinct(first.tasks, k);
        assert(first.tasks[k].1.dependencies == second.tasks[i].1.dependencies);
        assert(has_task(first.tasks, first.tasks[k].1.dependencies[j]));
    }
}

/// Documents that are the same are accepted alike: where neither holds a
/// name twice, every name resolves in the one exactly where every name
/// resolves in the other.
pub proof fn same_documents_resolve_alike(first: BakefileView, second: BakefileView)
    requires
        first.wf(),
        second.wf(),
        first.same_as(second),
    ensures
        first.resolved() <==> second.resolved(),
{
    same_document_is_an_equivalence(first, second, second);
    if first.resolved() {
        lemma_same_document_resolves(first, second);
    }
    if second.resolved() {
        lemma_same_document_resolves(second, first);
    }
}

/// Tasks that are the same resolve alike: where neither declares a variable
/// twice, the one has a variable without a value exactly where the other
/// has one.
pub proof fn same_tasks_resolve_alike(
    snapshot: Seq<(Seq<char>, Seq<char>)>,
    first: TaskView,
    second: TaskView,
)
    requires
        first.wf(),
        second.wf(),
        first.same_as(second),
    ensures
        unresolved(snapshot, first.env).len() == 0 <==> unresolved(snapshot, second.env).len() == 0,
{
    every_missing_variable_is_reported(snapshot, first.env);
    every_missing_variable_is_reported(snapshot, second.env);
    same_task_is_an_equivalence(first, second, second);
    if unresolved(snapshot, first.env).len() == 0 {
        lemma_same_variables_resolve(snapshot, first.env, second.env);
    }
    if unresolved(snapshot, second.env).len() == 0 {
        lemma_same_variables_resolve(snapshot, second.env, first.env);
    }
}

/// One half of the law above.
proof fn lemma_same_variables_resolve(
    snapshot: Seq<(Seq<char>, Seq<char>)>,
    first: Seq<(Seq<char>, Option<Seq<char>>)>,
    second: Seq<(Seq<char>, Option<Seq<char>>)>,
)
    requires
        distinct_names(first),
        distinct_names(second),
        same_variables(first, second),
        forall|i: int|
            0 <= i < first.len() ==> resolved_value(snapshot, #[trigger] first[i]) is Some,
    ensures
        forall|i: int|
            0 <= i < second.len() ==> resolved_value(snapshot, #[trigger] second[i]) is Some,
{
    assert forall|i: int| 0 <= i < second.len() implies resolved_value(
        snapshot,
        #[trigger] second[i],
    ) is Some by {
        let name = second[i].0;
        lemma_lookup_distinct(second, i);
        assert(lookup(first, name) == lookup(second, name));
        lemma_lookup_some(first, name);
        let k = choose|k: int| 0 <= k < first.len() && (#[trigger] first[k]).0 == name;
        lemma_lookup_distinct(first, k);
        assert(first[k] == second[i]);
    }
}

/// Parsing is a function of the text: two results of parsing one text are
/// both documents or both diagnostics, and equal field for field, so that
/// two documents compare equal.
pub proof fn parsing_twice_gives_equal_documents(
    text: Seq<char>,
    first: Result<Bakefile, String>,
    second: Result<Bakefile, String>,
)
    requires
        agrees(first, parsed(text)),
        agrees(second, parsed(text)),
    ensures
        first is Ok <==> second is Ok,
        first is Ok ==> first->Ok_0@ == second->Ok_0@,
        first is Ok ==> first->Ok_0@.same_as(second->Ok_0@),
        first is Err ==> first->Err_0@ == second->Err_0@,
{
    if first is Ok {
        same_document_is_an_equivalence(first->Ok_0@, first->Ok_0@, first->Ok_0@);
    }
}

/// A task written as a bare command is the task written as a record with
/// that command and no other field: the command, and every other field at its
/// default.
pub proof fn shorthand_is_record_with_command(command: Seq<char>, place: Seq<char>)
    ensures
        task_at(Node::Text(command), place) is Ok,
        task_at(Node::Table(seq![(Node::Text("command"@), Node::Text(command))]), place) is Ok,
        task_at(Node::Text(command), place)->Ok_0.normalized() == task_at(
            Node::Table(seq![(Node::Text("command"@), Node::Text(command))]),
            place,
        )->Ok_0.normalized(),
        task_at(Node::Text(command), place)->Ok_0.normalized() == TaskView::shorthand(command),
{
    let entries = seq![(Node::Text("command"@), Node::Text(command))];
    let keys = Seq::new(entries.len(), |i: int| key_fault(entries, i, Some(task_fields()), place));
    assert(task_fields()[6] == "command"@);
    assert(!repeats(entries, 0));
    assert(keys[0] is None);
    lemma_first_some_none(keys);
    reveal_strlit("command");
    reveal_strlit("dependencies");
    reveal_strlit("cache");
    reveal_strlit("env");
    reveal_strlit("paths");
    reveal_strlit("location");
    reveal_strlit("user");
    reveal_with_fuel(lookup, 2);
    let record = record_at(entries, place);
    assert(record->Ok_0.dependencies =~= Seq::<Seq<char>>::empty());
    assert(record->Ok_0.paths =~= Seq::<Seq<char>>::empty());
    assert(record->Ok_0.env =~= Seq::<(Seq<char>, Option<Seq<char>>)>::empty());
}

} // verus!
