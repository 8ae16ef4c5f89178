//! The task definition document: its model, the check of its task graph, and
//! the resolution of a task's environment.

use crate::format::{quote, quoted, series, series_of};
use crate::schema::{decode, document_of};
use crate::seqs::{lemma_lookup_some, lookup};
use crate::yaml::{read, yaml_text_tree, Node, Yaml};
use vstd::prelude::*;
use vstd::string::StringExecFns;

verus! {

/// The default location for commands and paths.
pub const DEFAULT_LOCATION: &'static str = "/scratch";

/// The default user for commands and paths.
pub const DEFAULT_USER: &'static str = "root";

/// One named unit of work.
///
/// `env` is a mapping, held as a list: each variable that the task asks for
/// with its fallback. A variable without a fallback must come from the
/// environment. No variable should stand in the list twice; where one does,
/// its first entry is the one that `==` goes by. The order of the list
/// decides the order of what [`environment`] returns, and nothing else.
#[derive(Clone, Debug, Eq)]
pub struct Task {
    pub dependencies: Vec<String>,
    pub cache: bool,
    pub env: Vec<(String, Option<String>)>,
    pub paths: Vec<String>,
    pub location: String,
    pub user: String,
    pub command: Option<String>,
}

/// The mathematical model of a [`Task`].
pub struct TaskView {
    pub dependencies: Seq<Seq<char>>,
    pub cache: bool,
    pub env: Seq<(Seq<char>, Option<Seq<char>>)>,
    pub paths: Seq<Seq<char>>,
    pub location: Seq<char>,
    pub user: Seq<char>,
    pub command: Option<Seq<char>>,
}

impl DeepView for Task {
    type V = TaskView;

    open spec fn deep_view(&self) -> TaskView {
        TaskView {
            dependencies: self.dependencies.deep_view(),
            cache: self.cache,
            env: self.env.deep_view(),
            paths: self.paths.deep_view(),
            location: self.location@,
            user: self.user@,
            command: self.command.deep_view(),
        }
    }
}

impl View for Task {
    type V = TaskView;

    open spec fn view(&self) -> TaskView {
        self.deep_view()
    }
}

/// Whether two lists hold the same strings in the same order.
fn same_strings(left: &Vec<String>, right: &Vec<String>) -> (same: bool)
    ensures
        same == (left.deep_view() == right.deep_view()),
{
    if left.len() != right.len() {
        assert(left.deep_view().len() != right.deep_view().len());
        return false;
    }
    for i in 0..left.len()
        invariant
            left.len() == right.len(),
            forall|j: int| 0 <= j < i ==> left.deep_view()[j] == right.deep_view()[j],
    {
        if left[i] != right[i] {
            assert(left.deep_view()[i as int] != right.deep_view()[i as int]);
            return false;
        }
    }
    assert(left.deep_view() =~= right.deep_view());
    true
}

/// Whether two strings that may be absent are the same.
fn same_optional(left: &Option<String>, right: &Option<String>) -> (same: bool)
    ensures
        same == (left.deep_view() == right.deep_view()),
{
    match (left, right) {
        (None, None) => true,
        (Some(left), Some(right)) => *left == *right,
        _ => false,
    }
}

/// Whether two lists declare the same variables with the same fallbacks, in
/// whatever order. Of a variable that a list declares twice, the first
/// declaration counts.
pub open spec fn same_variables(
    left: Seq<(Seq<char>, Option<Seq<char>>)>,
    right: Seq<(Seq<char>, Option<Seq<char>>)>,
) -> bool {
    forall|name: Seq<char>| #![trigger lookup(left, name)] lookup(left, name) == lookup(right, name)
}

/// The fallback that the list declares for the variable.
fn find_fallback<'a>(entries: &'a Vec<(String, Option<String>)>, name: &String) -> (found: Option<
    &'a Option<String>,
>)
    ensures
        found.deep_view() == lookup(entries.deep_view(), name@),
{
    let ghost all = entries.deep_view();
    proof {
        assert(all.skip(0) =~= all);
    }
    for i in 0..entries.len()
        invariant
            all == entries.deep_view(),
            lookup(all, name@) == lookup(all.skip(i as int), name@),
    {
        proof {
            assert(all.skip(i as int)[0] == all[i as int]);
            assert(all.skip(i as int).drop_first() =~= all.skip(i + 1));
        }
        if entries[i].0 == *name {
            return Some(&entries[i].1);
        }
    }
    None
}

/// Whether two lists declare the same variables with the same fallbacks.
fn equal_variables(
    left: &Vec<(String, Option<String>)>,
    right: &Vec<(String, Option<String>)>,
) -> (same: bool)
    ensures
        same == same_variables(left.deep_view(), right.deep_view()),
{
    let ghost mine = left.deep_view();
    let ghost theirs = right.deep_view();
    for i in 0..left.len()
        invariant
            mine == left.deep_view(),
            theirs == right.deep_view(),
            forall|j: int|
                0 <= j < i ==> lookup(mine, (#[trigger] mine[j]).0) == lookup(theirs, mine[j].0),
    {
        let same = match (find_fallback(left, &left[i].0), find_fallback(right, &left[i].0)) {
            (Some(here), Some(there)) => same_optional(here, there),
            (None, None) => true,
            _ => false,
        };
        if !same {
            assert(lookup(mine, mine[i as int].0) != lookup(theirs, mine[i as int].0));
            return false;
        }
    }
    for i in 0..right.len()
        invariant
            mine == left.deep_view(),
            theirs == right.deep_view(),
            forall|j: int|
                0 <= j < mine.len() ==> lookup(mine, (#[trigger] mine[j]).0) == lookup(
                    theirs,
                    mine[j].0,
                ),
            forall|j: int| 0 <= j < i ==> lookup(mine, (#[trigger] theirs[j]).0) is Some,
    {
        if find_fallback(left, &right[i].0).is_none() {
            proof {
                lemma_lookup_some(theirs, theirs[i as int].0);
            }
            return false;
        }
    }
    proof {
        assert forall|name: Seq<char>| #![trigger lookup(mine, name)] lookup(mine, name) == lookup(
            theirs,
            name,
        ) by {
            lemma_lookup_some(mine, name);
            lemma_lookup_some(theirs, name);
        }
    }
    true
}

impl PartialEq for Task {
    /// Two tasks are equal where they are equal field for field, the
    /// variables compared as a mapping: their order does not count.
    fn eq(&self, other: &Task) -> (same: bool) {
        same_strings(&self.dependencies, &other.dependencies) && self.cache == other.cache
            && equal_variables(&self.env, &other.env) && same_strings(&self.paths, &other.paths)
            && self.location == other.location && self.user == other.user && same_optional(
            &self.command,
            &other.command,
        )
    }
}

impl vstd::std_specs::cmp::PartialEqSpecImpl for Task {
    open spec fn obeys_eq_spec() -> bool {
        true
    }

    open spec fn eq_spec(&self, other: &Task) -> bool {
        self@.same_as(other@)
    }
}

/// Whether no two entries have the same name.
pub open spec fn distinct_names<V>(entries: Seq<(Seq<char>, V)>) -> bool {
    forall|i: int, j: int|
        0 <= i < j < entries.len() ==> (#[trigger] entries[i]).0 != (#[trigger] entries[j]).0
}

impl TaskView {
    /// Whether two tasks are the same: equal field for field, the variables
    /// compared as a mapping.
    pub open spec fn same_as(self, other: TaskView) -> bool {
        &&& self.dependencies == other.dependencies
        &&& self.cache == other.cache
        &&& same_variables(self.env, other.env)
        &&& self.paths == other.paths
        &&& self.location == other.location
        &&& self.user == other.user
        &&& self.command == other.command
    }

    /// Whether the task declares no variable twice.
    pub open spec fn wf(self) -> bool {
        distinct_names(self.env)
    }

    /// The task that runs the command and leaves every other field at its
    /// default.
    pub open spec fn shorthand(command: Seq<char>) -> TaskView {
        TaskView {
            dependencies: Seq::empty(),
            cache: true,
            env: Seq::empty(),
            paths: Seq::empty(),
            location: DEFAULT_LOCATION@,
            user: DEFAULT_USER@,
            command: Some(command),
        }
    }
}

/// A task as a document writes it: a bare command, or a record of fields.
#[derive(Clone, Debug, Eq)]
pub enum RawTask {
    Short(String),
    Long(Task),
}

/// The mathematical model of a [`RawTask`].
pub enum RawTaskView {
    Short(Seq<char>),
    Long(TaskView),
}

impl View for RawTask {
    type V = RawTaskView;

    open spec fn view(&self) -> RawTaskView {
        match self {
            RawTask::Short(command) => RawTaskView::Short(command@),
            RawTask::Long(task) => RawTaskView::Long(task@),
        }
    }
}

impl PartialEq for RawTask {
    /// Two tasks are equal where they are written in the same form and are
    /// the same in it.
    fn eq(&self, other: &RawTask) -> (same: bool) {
        match (self, other) {
            (RawTask::Short(left), RawTask::Short(right)) => *left == *right,
            (RawTask::Long(left), RawTask::Long(right)) => *left == *right,
            _ => false,
        }
    }
}

impl vstd::std_specs::cmp::PartialEqSpecImpl for RawTask {
    open spec fn obeys_eq_spec() -> bool {
        true
    }

    open spec fn eq_spec(&self, other: &RawTask) -> bool {
        self@.same_as(other@)
    }
}

impl RawTaskView {
    /// Whether two tasks are written in the same form and are the same in
    /// it.
    pub open spec fn same_as(self, other: RawTaskView) -> bool {
        match (self, other) {
            (RawTaskView::Short(left), RawTaskView::Short(right)) => left == right,
            (RawTaskView::Long(left), RawTaskView::Long(right)) => left.same_as(right),
            _ => false,
        }
    }

    /// The task that this stands for: a bare command stands for the task
    /// that runs it with every other field at its default, a record for
    /// itself.
    pub open spec fn normalized(self) -> TaskView {
        match self {
            RawTaskView::Short(command) => TaskView::shorthand(command),
            RawTaskView::Long(task) => task,
        }
    }
}

impl RawTask {
    /// Turns either form of a task into the one canonical form.
    pub fn normalize(self) -> (task: Task)
        ensures
            task@ == self@.normalized(),
    {
        match self {
            RawTask::Short(command) => {
                let task = Task {
                    dependencies: Vec::new(),
                    cache: default_task_cache(),
                    env: Vec::new(),
                    paths: Vec::new(),
                    location: default_task_location(),
                    user: default_task_user(),
                    command: Some(command),
                };
                proof {
                    assert(task.dependencies.deep_view() =~= Seq::<Seq<char>>::empty());
                    assert(task.paths.deep_view() =~= Seq::<Seq<char>>::empty());
                    assert(task.env.deep_view() =~= Seq::<(Seq<char>, Option<Seq<char>>)>::empty());
                }
                task
            },
            RawTask::Long(task) => task,
        }
    }
}

/// A task definition document: the image, the task to run when none is
/// named, and the tasks by name.
///
/// `tasks` is a mapping, held as a list in the order of the document. No
/// name should stand in the list twice; where one does, its first entry is
/// the one that `==` goes by. The order of the list decides the order in
/// which a diagnostic names tasks, and nothing else.
#[derive(Clone, Debug, Eq)]
pub struct Bakefile {
    pub image: String,
    pub default: Option<String>,
    pub tasks: Vec<(String, Task)>,
}

/// The mathematical model of a [`Bakefile`].
pub struct BakefileView {
    pub image: Seq<char>,
    pub default: Option<Seq<char>>,
    pub tasks: Seq<(Seq<char>, TaskView)>,
}

impl DeepView for Bakefile {
    type V = BakefileView;

    open spec fn deep_view(&self) -> BakefileView {
        BakefileView {
            image: self.image@,
            default: self.default.deep_view(),
            tasks: self.tasks.deep_view(),
        }
    }
}

impl View for Bakefile {
    type V = BakefileView;

    open spec fn view(&self) -> BakefileView {
        self.deep_view()
    }
}

/// Whether two tasks under one name, or the absence of any, are the same.
pub open spec fn same_found(left: Option<TaskView>, right: Option<TaskView>) -> bool {
    match (left, right) {
        (None, None) => true,
        (Some(left), Some(right)) => left.same_as(right),
        _ => false,
    }
}

/// Whether two lists hold the same tasks under the same names, in whatever
/// order. Of a name that a list holds twice, the first task counts.
pub open spec fn same_tasks(
    left: Seq<(Seq<char>, TaskView)>,
    right: Seq<(Seq<char>, TaskView)>,
) -> bool {
    forall|name: Seq<char>|
        #![trigger lookup(left, name)]
        same_found(lookup(left, name), lookup(right, name))
}

/// The task that the list holds under the name.
fn find_task<'a>(tasks: &'a Vec<(String, Task)>, name: &String) -> (found: Option<&'a Task>)
    ensures
        found.deep_view() == lookup(tasks.deep_view(), name@),
{
    let ghost all = tasks.deep_view();
    proof {
        assert(all.skip(0) =~= all);
    }
    for i in 0..tasks.len()
        invariant
            all == tasks.deep_view(),
            lookup(all, name@) == lookup(all.skip(i as int), name@),
    {
        proof {
            assert(all.skip(i as int)[0] == all[i as int]);
            assert(all.skip(i as int).drop_first() =~= all.skip(i + 1));
        }
        if tasks[i].0 == *name {
            return Some(&tasks[i].1);
        }
    }
    None
}

/// Whether two lists hold the same tasks under the same names.
fn equal_tasks(left: &Vec<(String, Task)>, right: &Vec<(String, Task)>) -> (same: bool)
    ensures
        same == same_tasks(left.deep_view(), right.deep_view()),
{
    let ghost mine = left.deep_view();
    let ghost theirs = right.deep_view();
    for i in 0..left.len()
        invariant
            mine == left.deep_view(),
            theirs == right.deep_view(),
            forall|j: int|
                0 <= j < i ==> same_found(
                    lookup(mine, (#[trigger] mine[j]).0),
                    lookup(theirs, mine[j].0),
                ),
    {
        let same = match (find_task(left, &left[i].0), find_task(right, &left[i].0)) {
            (Some(here), Some(there)) => *here == *there,
            (None, None) => true,
            _ => false,
        };
        if !same {
            assert(!same_found(lookup(mine, mine[i as int].0), lookup(theirs, mine[i as int].0)));
            return false;
        }
    }
    for i in 0..right.len()
        invariant
            mine == left.deep_view(),
            theirs == right.deep_view(),
            forall|j: int|
                0 <= j < mine.len() ==> same_found(
                    lookup(mine, (#[trigger] mine[j]).0),
                    lookup(theirs, mine[j].0),
                ),
            forall|j: int| 0 <= j < i ==> lookup(mine, (#[trigger] theirs[j]).0) is Some,
    {
        if find_task(left, &right[i].0).is_none() {
            proof {
                lemma_lookup_some(theirs, theirs[i as int].0);
                assert(!same_found(
                    lookup(mine, theirs[i as int].0),
                    lookup(theirs, theirs[i as int].0),
                ));
            }
            return false;
        }
    }
    proof {
        assert forall|name: Seq<char>| #![trigger lookup(mine, name)] same_found(
            lookup(mine, name),
            lookup(theirs, name),
        ) by {
            lemma_lookup_some(mine, name);
            lemma_lookup_some(theirs, name);
        }
    }
    true
}

impl PartialEq for Bakefile {
    /// Two documents are equal where they have the same image and the same
    /// default task, and hold the same tasks under the same names: the
    /// order of the tasks does not count.
    fn eq(&self, other: &Bakefile) -> (same: bool) {
        self.image == other.image && same_optional(&self.default, &other.default) && equal_tasks(
            &self.tasks,
            &other.tasks,
        )
    }
}

impl vstd::std_specs::cmp::PartialEqSpecImpl for Bakefile {
    open spec fn obeys_eq_spec() -> bool {
        true
    }

    open spec fn eq_spec(&self, other: &Bakefile) -> bool {
        self@.same_as(other@)
    }
}

/// Whether one of the tasks has the name.
pub open spec fn has_task(tasks: Seq<(Seq<char>, TaskView)>, name: Seq<char>) -> bool {
    exists|i: int| 0 <= i < tasks.len() && (#[trigger] tasks[i]).0 == name
}

/// The dependencies, in their order, that name no task.
pub open spec fn missing_among(
    tasks: Seq<(Seq<char>, TaskView)>,
    dependencies: Seq<Seq<char>>,
) -> Seq<Seq<char>> {
    dependencies.filter(|name: Seq<char>| !has_task(tasks, name))
}

/// Those of the entries that have a dependency naming none of the tasks,
/// each with the dependencies that name none.
pub open spec fn violations_among(
    tasks: Seq<(Seq<char>, TaskView)>,
    entries: Seq<(Seq<char>, TaskView)>,
) -> Seq<(Seq<char>, Seq<Seq<char>>)> {
    entries.map_values(
        |entry: (Seq<char>, TaskView)| (entry.0, missing_among(tasks, entry.1.dependencies)),
    ).filter(|found: (Seq<char>, Seq<Seq<char>>)| found.1.len() > 0)
}

impl BakefileView {
    /// Whether two documents are the same: the same image, the same default
    /// task, and the same tasks under the same names.
    pub open spec fn same_as(self, other: BakefileView) -> bool {
        &&& self.image == other.image
        &&& self.default == other.default
        &&& same_tasks(self.tasks, other.tasks)
    }

    /// Whether every task has a name, no two tasks have the same name, and
    /// no task declares a variable twice.
    pub open spec fn wf(self) -> bool {
        &&& forall|i: int| 0 <= i < self.tasks.len() ==> (#[trigger] self.tasks[i]).0.len() > 0
        &&& distinct_names(self.tasks)
        &&& forall|i: int| 0 <= i < self.tasks.len() ==> (#[trigger] self.tasks[i]).1.wf()
    }

    /// Whether every dependency of every task, and the default task if there
    /// is one, names a task of the document.
    pub open spec fn resolved(self) -> bool {
        &&& self.valid_default()
        &&& forall|i: int, j: int|
            0 <= i < self.tasks.len() && 0 <= j < self.tasks[i].1.dependencies.len() ==> has_task(
                self.tasks,
                #[trigger] self.tasks[i].1.dependencies[j],
            )
    }

    /// Whether the default task, if there is one, exists.
    pub open spec fn valid_default(self) -> bool {
        match self.default {
            None => true,
            Some(name) => has_task(self.tasks, name),
        }
    }

    /// Each task that has a dependency naming no task, in the order of the
    /// tasks, with those dependencies in the order in which the task lists
    /// them.
    pub open spec fn violations(self) -> Seq<(Seq<char>, Seq<Seq<char>>)> {
        violations_among(self.tasks, self.tasks)
    }

    /// The diagnostic for the task graph, or `None` where every dependency
    /// and the default task exist.
    pub open spec fn diagnostic(self) -> Option<Seq<char>> {
        let violations = self.violations();
        if violations.len() > 0 {
            if self.valid_default() {
                Some(
                    "The following tasks have invalid dependencies: "@ + violations_text(violations)
                        + "."@,
                )
            } else {
                Some(
                    "The default task `"@ + self.default.unwrap()
                        + "` does not exist, and the following tasks have invalid dependencies: "@
                        + violations_text(violations) + "."@,
                )
            }
        } else if !self.valid_default() {
            Some("The default task `"@ + self.default.unwrap() + "` does not exist."@)
        } else {
            None
        }
    }
}

/// One offending task as a diagnostic shows it: its name in backticks, then
/// in parentheses the dependencies that name no task.
pub open spec fn violation_text(found: (Seq<char>, Seq<Seq<char>>)) -> Seq<char> {
    quoted(found.0) + " ("@ + series_of(found.1.map_values(|name: Seq<char>| quoted(name))) + ")"@
}

/// The offending tasks as a diagnostic shows them.
pub open spec fn violations_text(violations: Seq<(Seq<char>, Seq<Seq<char>>)>) -> Seq<char> {
    series_of(violations.map_values(|found: (Seq<char>, Seq<Seq<char>>)| violation_text(found)))
}

/// The value that a snapshot of the environment gives a variable: that of
/// the first entry under the variable's name.
pub open spec fn snapshot_value(snapshot: Seq<(Seq<char>, Seq<char>)>, name: Seq<char>) -> Option<
    Seq<char>,
> {
    lookup(snapshot, name)
}

/// The value of a declared variable: the one from the snapshot where the
/// snapshot defines the variable, else the declared fallback, else none.
pub open spec fn resolved_value(
    snapshot: Seq<(Seq<char>, Seq<char>)>,
    variable: (Seq<char>, Option<Seq<char>>),
) -> Option<Seq<char>> {
    match snapshot_value(snapshot, variable.0) {
        Some(value) => Some(value),
        None => variable.1,
    }
}

/// The names of the declared variables that have no value, in the order of
/// their declaration.
pub open spec fn unresolved(
    snapshot: Seq<(Seq<char>, Seq<char>)>,
    env: Seq<(Seq<char>, Option<Seq<char>>)>,
) -> Seq<Seq<char>> {
    env.filter(
        |variable: (Seq<char>, Option<Seq<char>>)| resolved_value(snapshot, variable) is None,
    ).map_values(|variable: (Seq<char>, Option<Seq<char>>)| variable.0)
}

/// Each declared variable with its value, in the order of their declaration.
pub open spec fn resolution(
    snapshot: Seq<(Seq<char>, Seq<char>)>,
    env: Seq<(Seq<char>, Option<Seq<char>>)>,
) -> Seq<(Seq<char>, Seq<char>)> {
    env.map_values(
        |variable: (Seq<char>, Option<Seq<char>>)|
            (variable.0, resolved_value(snapshot, variable).unwrap()),
    )
}

/// What reading a tree as a document comes to: the document, where the tree
/// is one and its task graph is sound; else the diagnostic of the schema, or
/// that of the task graph.
pub open spec fn outcome_of(tree: Node) -> Result<BakefileView, Seq<char>> {
    match document_of(tree) {
        Err(error) => Err(error.message()),
        Ok(document) => match document.diagnostic() {
            Some(message) => Err(message),
            None => Ok(document),
        },
    }
}

/// Whether a result holds what was expected of it.
pub open spec fn agrees(
    outcome: Result<Bakefile, String>,
    expected: Result<BakefileView, Seq<char>>,
) -> bool {
    match outcome {
        Ok(bakefile) => expected == Ok::<BakefileView, Seq<char>>(bakefile@),
        Err(message) => expected == Err::<BakefileView, Seq<char>>(message@),
    }
}

/// What parsing a text comes to: where the text is YAML, what its tree comes
/// to; else the words in which the YAML reader rejects the text.
pub open spec fn parsed(text: Seq<char>) -> Result<BakefileView, Seq<char>> {
    match yaml_text_tree(text) {
        Ok(tree) => outcome_of(tree),
        Err(message) => Err(message),
    }
}

/// Whether a task may be cached when it does not say.
pub fn default_task_cache() -> (cache: bool)
    ensures
        cache,
{
    true
}

/// The location of a task that names none.
pub fn default_task_location() -> (location: String)
    ensures
        location@ == DEFAULT_LOCATION@,
{
    DEFAULT_LOCATION.to_owned()
}

/// The user of a task that names none.
pub fn default_task_user() -> (user: String)
    ensures
        user@ == DEFAULT_USER@,
{
    DEFAULT_USER.to_owned()
}

/// Whether one of the tasks has the name.
fn contains_task(tasks: &Vec<(String, Task)>, name: &String) -> (found: bool)
    ensures
        found == has_task(tasks.deep_view(), name@),
{
    for i in 0..tasks.len()
        invariant
            forall|j: int| 0 <= j < i ==> (#[trigger] tasks.deep_view()[j]).0 != name@,
    {
        if tasks[i].0 == *name {
            assert(tasks.deep_view()[i as int].0 == name@);
            return true;
        }
    }
    false
}

/// The dependencies that name no task.
fn missing_dependencies(tasks: &Vec<(String, Task)>, dependencies: &Vec<String>) -> (missing: Vec<
    String,
>)
    ensures
        missing.deep_view() == missing_among(tasks.deep_view(), dependencies.deep_view()),
{
    let mut missing: Vec<String> = Vec::new();
    let ghost all = dependencies.deep_view();
    let ghost absent = |name: Seq<char>| !has_task(tasks.deep_view(), name);
    proof {
        reveal(Seq::filter);
        assert(missing.deep_view() =~= all.take(0).filter(absent));
    }
    for i in 0..dependencies.len()
        invariant
            all == dependencies.deep_view(),
            absent == |name: Seq<char>| !has_task(tasks.deep_view(), name),
            missing.deep_view() == all.take(i as int).filter(absent),
    {
        let ghost before = missing.deep_view();
        proof {
            assert(all.take(i + 1) =~= all.take(i as int).push(all[i as int]));
            all.take(i as int).lemma_filter_push(all[i as int], absent);
        }
        if !contains_task(tasks, &dependencies[i]) {
            missing.push(dependencies[i].clone());
            assert(missing.deep_view() =~= before.push(all[i as int]));
        }
    }
    proof {
        assert(all.take(dependencies.len() as int) =~= all);
    }
    missing
}

/// What `violations_among` makes of one more entry.
proof fn lemma_violations_push(
    tasks: Seq<(Seq<char>, TaskView)>,
    entries: Seq<(Seq<char>, TaskView)>,
    entry: (Seq<char>, TaskView),
)
    ensures
        violations_among(tasks, entries.push(entry)) == if missing_among(
            tasks,
            entry.1.dependencies,
        ).len() > 0 {
            violations_among(tasks, entries).push(
                (entry.0, missing_among(tasks, entry.1.dependencies)),
            )
        } else {
            violations_among(tasks, entries)
        },
{
    let found = |entry: (Seq<char>, TaskView)|
        (entry.0, missing_among(tasks, entry.1.dependencies));
    let offending = |found: (Seq<char>, Seq<Seq<char>>)| found.1.len() > 0;
    assert(entries.push(entry).map_values(found) =~= entries.map_values(found).push(found(entry)));
    entries.map_values(found).lemma_filter_push(found(entry), offending);
}

/// A filter that no item passes leaves nothing.
proof fn lemma_filter_nothing<T>(items: Seq<T>, keep: spec_fn(T) -> bool)
    requires
        forall|i: int| 0 <= i < items.len() ==> !keep(#[trigger] items[i]),
    ensures
        items.filter(keep).len() == 0,
{
    let kept = items.filter(keep);
    if kept.len() > 0 {
        items.lemma_filter_pred(keep, 0);
        items.lemma_filter_contains_rev(keep, kept[0]);
    }
}

impl BakefileView {
    /// There is no diagnostic exactly where every name resolves.
    pub proof fn lemma_diagnostic(self)
        ensures
            self.diagnostic() is None <==> self.resolved(),
    {
        let tasks = self.tasks;
        let found = |entry: (Seq<char>, TaskView)|
            (entry.0, missing_among(tasks, entry.1.dependencies));
        let offending = |found: (Seq<char>, Seq<Seq<char>>)| found.1.len() > 0;
        let absent = |name: Seq<char>| !has_task(tasks, name);
        let all = tasks.map_values(found);
        if self.resolved() {
            assert forall|i: int| 0 <= i < all.len() implies !offending(#[trigger] all[i]) by {
                lemma_filter_nothing(tasks[i].1.dependencies, absent);
            }
            lemma_filter_nothing(all, offending);
        }
        if self.violations().len() == 0 {
            assert forall|i: int, j: int|
                0 <= i < tasks.len() && 0 <= j < tasks[i].1.dependencies.len() implies has_task(
                tasks,
                #[trigger] tasks[i].1.dependencies[j],
            ) by {
                let dependencies = tasks[i].1.dependencies;
                if absent(dependencies[j]) {
                    dependencies.lemma_filter_contains(absent, j);
                    assert(offending(all[i]));
                    all.lemma_filter_contains(offending, i);
                }
            }
        }
    }
}

/// One offending task as a diagnostic shows it.
fn violation_line(name: &String, missing: &Vec<String>) -> (line: String)
    ensures
        line@ == violation_text((name@, missing.deep_view())),
{
    let mut names: Vec<String> = Vec::new();
    let ghost all = missing.deep_view();
    let ghost show = |name: Seq<char>| quoted(name);
    for i in 0..missing.len()
        invariant
            all == missing.deep_view(),
            show == |name: Seq<char>| quoted(name),
            names.deep_view() == all.take(i as int).map_values(show),
    {
        let ghost before = names.deep_view();
        names.push(quote(missing[i].as_str()));
        proof {
            assert(names.deep_view() =~= before.push(quoted(all[i as int])));
            assert(all.take(i + 1).map_values(show) =~= all.take(i as int).map_values(show).push(
                quoted(all[i as int]),
            ));
        }
    }
    proof {
        assert(all.take(missing.len() as int) =~= all);
    }
    let mut line = quote(name.as_str());
    line.append(" (");
    line.append(series(&names).as_str());
    line.append(")");
    line
}

/// Checks that every dependency of every task, and the default task if there
/// is one, names a task of the document.
///
/// All that is wrong is found before anything is reported, and reported in
/// one diagnostic.
pub fn check_dependencies(bakefile: &Bakefile) -> (outcome: Result<(), String>)
    ensures
        outcome is Ok <==> bakefile@.resolved(),
        match outcome {
            Ok(_) => bakefile@.diagnostic() is None,
            Err(message) => bakefile@.diagnostic() == Some(message@),
        },
{
    proof {
        bakefile@.lemma_diagnostic();
    }
    let valid_default = match &bakefile.default {
        None => true,
        Some(name) => contains_task(&bakefile.tasks, name),
    };

    let ghost tasks = bakefile@.tasks;
    let ghost show = |found: (Seq<char>, Seq<Seq<char>>)| violation_text(found);
    let mut lines: Vec<String> = Vec::new();
    proof {
        reveal(Seq::filter);
        assert(lines.deep_view() =~= violations_among(tasks, tasks.take(0)).map_values(show));
    }
    for i in 0..bakefile.tasks.len()
        invariant
            tasks == bakefile@.tasks,
            show == |found: (Seq<char>, Seq<Seq<char>>)| violation_text(found),
            lines.deep_view() == violations_among(tasks, tasks.take(i as int)).map_values(show),
    {
        let ghost before = lines.deep_view();
        let ghost earlier = violations_among(tasks, tasks.take(i as int));
        let missing = missing_dependencies(&bakefile.tasks, &bakefile.tasks[i].1.dependencies);
        proof {
            assert(tasks.take(i + 1) =~= tasks.take(i as int).push(tasks[i as int]));
            lemma_violations_push(tasks, tasks.take(i as int), tasks[i as int]);
        }
        if missing.len() > 0 {
            lines.push(violation_line(&bakefile.tasks[i].0, &missing));
            proof {
                let found = (tasks[i as int].0, missing.deep_view());
                assert(lines.deep_view() =~= before.push(violation_text(found)));
                assert(earlier.push(found).map_values(show) =~= earlier.map_values(show).push(
                    violation_text(found),
                ));
            }
        }
    }
    proof {
        assert(tasks.take(bakefile.tasks.len() as int) =~= tasks);
        assert(lines.deep_view().len() == bakefile@.violations().len());
    }

    if lines.len() > 0 {
        let listing = series(&lines);
        match &bakefile.default {
            Some(name) if !valid_default => {
                let mut message = String::from_str("The default task `");
                message.append(name.as_str());
                message.append(
                    "` does not exist, and the following tasks have invalid dependencies: ",
                );
                message.append(listing.as_str());
                message.append(".");
                Err(message)
            },
            _ => {
                let mut message = String::from_str(
                    "The following tasks have invalid dependencies: ",
                );
                message.append(listing.as_str());
                message.append(".");
                Err(message)
            },
        }
    } else {
        match &bakefile.default {
            Some(name) if !valid_default => {
                let mut message = String::from_str("The default task `");
                message.append(name.as_str());
                message.append("` does not exist.");
                Err(message)
            },
            _ => Ok(()),
        }
    }
}

/// The value that the snapshot gives the variable.
fn lookup_variable<'a>(snapshot: &'a Vec<(String, String)>, name: &String) -> (value: Option<
    &'a String,
>)
    ensures
        value.deep_view() == snapshot_value(snapshot.deep_view(), name@),
{
    let ghost all = snapshot.deep_view();
    proof {
        assert(all.skip(0) =~= all);
    }
    for i in 0..snapshot.len()
        invariant
            all == snapshot.deep_view(),
            lookup(all, name@) == lookup(all.skip(i as int), name@),
    {
        proof {
            assert(all.skip(i as int)[0] == all[i as int]);
            assert(all.skip(i as int).drop_first() =~= all.skip(i + 1));
        }
        if snapshot[i].0 == *name {
            return Some(&snapshot[i].1);
        }
    }
    None
}

/// What `unresolved` makes of one more declared variable.
proof fn lemma_unresolved_push(
    snapshot: Seq<(Seq<char>, Seq<char>)>,
    env: Seq<(Seq<char>, Option<Seq<char>>)>,
    variable: (Seq<char>, Option<Seq<char>>),
)
    ensures
        unresolved(snapshot, env.push(variable)) == if resolved_value(snapshot, variable) is None {
            unresolved(snapshot, env).push(variable.0)
        } else {
            unresolved(snapshot, env)
        },
{
    let open = |variable: (Seq<char>, Option<Seq<char>>)|
        resolved_value(snapshot, variable) is None;
    let name = |variable: (Seq<char>, Option<Seq<char>>)| variable.0;
    env.lemma_filter_push(variable, open);
    assert(env.filter(open).push(variable).map_values(name) =~= env.filter(open).map_values(
        name,
    ).push(variable.0));
}

/// Resolves the variables that a task declares against a snapshot of the
/// environment.
///
/// A value from the snapshot takes precedence over a declared fallback. A
/// variable with neither is unresolved, and all such variables are reported
/// together.
pub fn environment(task: &Task, snapshot: &Vec<(String, String)>) -> (outcome: Result<
    Vec<(String, String)>,
    Vec<String>,
>)
    ensures
        outcome is Ok <==> unresolved(snapshot.deep_view(), task@.env).len() == 0,
        match outcome {
            Ok(values) => values.deep_view() == resolution(snapshot.deep_view(), task@.env),
            Err(names) => names.deep_view() == unresolved(snapshot.deep_view(), task@.env),
        },
{
    let mut violations: Vec<String> = Vec::new();
    let mut result: Vec<(String, String)> = Vec::new();
    let ghost env = task@.env;
    let ghost live = snapshot.deep_view();
    proof {
        reveal(Seq::filter);
        assert(violations.deep_view() =~= unresolved(live, env.take(0)));
        assert(result.deep_view() =~= resolution(live, env.take(0)));
    }
    for i in 0..task.env.len()
        invariant
            env == task@.env,
            live == snapshot.deep_view(),
            violations.deep_view() == unresolved(live, env.take(i as int)),
            violations.len() == 0 ==> result.deep_view() == resolution(live, env.take(i as int)),
    {
        let ghost reported = violations.deep_view();
        let ghost resolved = result.deep_view();
        proof {
            assert(env.take(i + 1) =~= env.take(i as int).push(env[i as int]));
            lemma_unresolved_push(live, env.take(i as int), env[i as int]);
            assert(resolution(live, env.take(i + 1)) =~= resolution(live, env.take(i as int)).push(
                (env[i as int].0, resolved_value(live, env[i as int]).unwrap()),
            ));
        }
        let name = &task.env[i].0;
        let value = match lookup_variable(snapshot, name) {
            Some(value) => Some(value.clone()),
            None => match &task.env[i].1 {
                Some(fallback) => Some(fallback.clone()),
                None => None,
            },
        };
        assert(value.deep_view() == resolved_value(live, env[i as int]));
        match value {
            Some(value) => {
                result.push((name.clone(), value));
                assert(result.deep_view() =~= resolved.push((env[i as int].0, value@)));
            },
            None => {
                violations.push(name.clone());
                assert(violations.deep_view() =~= reported.push(env[i as int].0));
            },
        }
    }
    proof {
        assert(env.take(task.env.len() as int) =~= env);
    }

    if violations.len() > 0 {
        return Err(violations);
    }
    Ok(result)
}

/// Reads a tree as a document and checks its task graph.
pub fn interpret(tree: &Yaml) -> (outcome: Result<Bakefile, String>)
    ensures
        agrees(outcome, outcome_of(tree@)),
        outcome matches Ok(bakefile) ==> bakefile@.wf() && bakefile@.resolved(),
{
    match decode(tree) {
        Err(error) => Err(error.message()),
        Ok(bakefile) => match check_dependencies(&bakefile) {
            Err(message) => Err(message),
            Ok(_) => Ok(bakefile),
        },
    }
}

/// Parses the text of a task definition document.
///
/// Either the whole document comes back, every task in its canonical form
/// and every name that it refers to resolved, or one diagnostic.
pub fn parse(bakefile_data: &str) -> (outcome: Result<Bakefile, String>)
    ensures
        agrees(outcome, parsed(bakefile_data@)),
        outcome matches Ok(bakefile) ==> bakefile@.wf() && bakefile@.resolved(),
{
    match read(bakefile_data) {
        Err(message) => Err(message),
        Ok(tree) => interpret(&tree),
    }
}

} // verus!
