//! The tree of values that a YAML text stands for, and the reader that
//! produces it.

use vstd::prelude::*;

verus! {

/// A YAML value, as far as a document schema can look into it.
///
/// Numbers and tagged values keep no payload: no field of the schema takes
/// one, so all that is ever asked of them is that they are not something else.
#[derive(Debug, Eq)]
pub enum Yaml {
    Null,
    Bool(bool),
    Number,
    Text(String),
    List(Vec<Yaml>),
    Table(Vec<(Yaml, Yaml)>),
    Tagged,
}

/// The mathematical model of a [`Yaml`] value.
pub enum Node {
    Null,
    Bool(bool),
    Number,
    Text(Seq<char>),
    List(Seq<Node>),
    Table(Seq<(Node, Node)>),
    Tagged,
}

impl Yaml {
    /// The tree that this value stands for.
    pub open spec fn model(&self) -> Node
        decreases self,
    {
        match self {
            Yaml::Null => Node::Null,
            Yaml::Bool(flag) => Node::Bool(*flag),
            Yaml::Number => Node::Number,
            Yaml::Text(text) => Node::Text(text@),
            Yaml::List(items) => Node::List(
                Seq::new(
                    items@.len(),
                    |i: int|
                        if 0 <= i < items@.len() {
                            items@[i].model()
                        } else {
                            Node::Null
                        },
                ),
            ),
            Yaml::Table(entries) => Node::Table(
                Seq::new(
                    entries@.len(),
                    |i: int|
                        if 0 <= i < entries@.len() {
                            (entries@[i].0.model(), entries@[i].1.model())
                        } else {
                            (Node::Null, Node::Null)
                        },
                ),
            ),
            Yaml::Tagged => Node::Tagged,
        }
    }
}

impl View for Yaml {
    type V = Node;

    open spec fn view(&self) -> Node {
        self.model()
    }
}

impl DeepView for Yaml {
    type V = Node;

    open spec fn deep_view(&self) -> Node {
        self.model()
    }
}

/// The models of the items of a list, in their order.
pub open spec fn list_model(items: Seq<Yaml>) -> Seq<Node> {
    Seq::new(items.len(), |i: int| items[i]@)
}

/// The models of the entries of a table, in their order.
pub open spec fn table_model(entries: Seq<(Yaml, Yaml)>) -> Seq<(Node, Node)> {
    Seq::new(entries.len(), |i: int| (entries[i].0@, entries[i].1@))
}

/// The model of a list holds the models of its items.
pub proof fn lemma_list_view(items: Vec<Yaml>)
    ensures
        Yaml::List(items)@ == Node::List(list_model(items@)),
{
    assert(Yaml::List(items)@->List_0 =~= list_model(items@));
}

/// The model of a table holds the models of its entries.
pub proof fn lemma_table_view(entries: Vec<(Yaml, Yaml)>)
    ensures
        Yaml::Table(entries)@ == Node::Table(table_model(entries@)),
{
    let made = Yaml::Table(entries)@->Table_0;
    assert(made =~= table_model(entries@));
}

impl Yaml {
    /// Whether two values stand for the same tree.
    fn same_as(&self, other: &Yaml) -> (same: bool)
        ensures
            same == (self@ == other@),
        decreases self,
    {
        match (self, other) {
            (Yaml::Null, Yaml::Null) => true,
            (Yaml::Bool(left), Yaml::Bool(right)) => *left == *right,
            (Yaml::Number, Yaml::Number) => true,
            (Yaml::Text(left), Yaml::Text(right)) => *left == *right,
            (Yaml::List(left), Yaml::List(right)) => {
                proof {
                    lemma_list_view(*left);
                    lemma_list_view(*right);
                }
                if left.len() != right.len() {
                    assert(list_model(left@).len() != list_model(right@).len());
                    return false;
                }
                for i in 0..left.len()
                    invariant
                        decreases_to!(self => left),
                        left.len() == right.len(),
                        self@ == Node::List(list_model(left@)),
                        other@ == Node::List(list_model(right@)),
                        forall|j: int| 0 <= j < i ==> left@[j]@ == right@[j]@,
                {
                    if !left[i].same_as(&right[i]) {
                        assert(list_model(left@)[i as int] != list_model(right@)[i as int]);
                        return false;
                    }
                }
                assert(list_model(left@) =~= list_model(right@));
                true
            },
            (Yaml::Table(left), Yaml::Table(right)) => {
                proof {
                    lemma_table_view(*left);
                    lemma_table_view(*right);
                }
                if left.len() != right.len() {
                    assert(table_model(left@).len() != table_model(right@).len());
                    return false;
                }
                for i in 0..left.len()
                    invariant
                        decreases_to!(self => left),
                        left.len() == right.len(),
                        self@ == Node::Table(table_model(left@)),
                        other@ == Node::Table(table_model(right@)),
                        forall|j: int|
                            0 <= j < i ==> left@[j].0@ == right@[j].0@ && left@[j].1@
                                == right@[j].1@,
                {
                    if !left[i].0.same_as(&right[i].0) || !left[i].1.same_as(&right[i].1) {
                        assert(table_model(left@)[i as int] != table_model(right@)[i as int]);
                        return false;
                    }
                }
                assert(table_model(left@) =~= table_model(right@));
                true
            },
            (Yaml::Tagged, Yaml::Tagged) => true,
            _ => false,
        }
    }
}

impl PartialEq for Yaml {
    /// Two values are equal where they stand for the same tree.
    fn eq(&self, other: &Yaml) -> (same: bool) {
        self.same_as(other)
    }
}

impl vstd::std_specs::cmp::PartialEqSpecImpl for Yaml {
    open spec fn obeys_eq_spec() -> bool {
        true
    }

    open spec fn eq_spec(&self, other: &Yaml) -> bool {
        self@ == other@
    }
}

/// `serde_yaml::Value`, the value that the YAML reader makes of a text. It is
/// opaque here: all that is known of one is the tree that it holds.
#[verifier::external_type_specification]
#[verifier::external_body]
pub struct ExValue(serde_yaml::Value);

/// What the YAML reader makes of a text: the tree that the text stands for,
/// or the words in which the reader rejects the text.
pub uninterp spec fn yaml_text_tree(text: Seq<char>) -> Result<Node, Seq<char>>;

/// The tree that a value of the YAML reader holds.
pub uninterp spec fn value_tree(value: serde_yaml::Value) -> Node;

/// Calls `serde_yaml::from_str` for a `serde_yaml::Value`, and `to_string` on
/// the error where it fails.
///
/// Believed, not proved: the reader returns for every text, and what it
/// returns depends on the text alone. So a text either always yields a value
/// that holds one and the same tree, or is always rejected in the same words.
#[verifier::external_body]
pub(crate) fn read_value(text: &str) -> (outcome: Result<serde_yaml::Value, String>)
    ensures
        match outcome {
            Ok(value) => yaml_text_tree(text@) == Ok::<Node, Seq<char>>(value_tree(value)),
            Err(message) => yaml_text_tree(text@) == Err::<Node, Seq<char>>(message@),
        },
{
    match serde_yaml::from_str::<serde_yaml::Value>(text) {
        Ok(value) => Ok(value),
        Err(error) => Err(error.to_string()),
    }
}

/// Copies a `serde_yaml::Value` into a [`Yaml`], variant by variant.
///
/// Believed, not proved: the copy holds the tree of the value, which is the
/// same variant with the same flag or text, the items of a sequence and the
/// entries of a mapping in the order in which the value holds them. A number
/// and a tagged value are copied without their payload.
#[verifier::external_body]
pub(crate) fn tree_of(value: &serde_yaml::Value) -> (tree: Yaml)
    ensures
        tree@ == value_tree(*value),
{
    match value {
        serde_yaml::Value::Null => Yaml::Null,
        serde_yaml::Value::Bool(flag) => Yaml::Bool(*flag),
        serde_yaml::Value::Number(_) => Yaml::Number,
        serde_yaml::Value::String(text) => Yaml::Text(text.clone()),
        serde_yaml::Value::Sequence(items) => Yaml::List(items.iter().map(tree_of).collect()),
        serde_yaml::Value::Mapping(entries) => Yaml::Table(
            entries.iter().map(|(key, value)| (tree_of(key), tree_of(value))).collect(),
        ),
        serde_yaml::Value::Tagged(_) => Yaml::Tagged,
    }
}

/// Reads a YAML text into a tree.
pub fn read(text: &str) -> (outcome: Result<Yaml, String>)
    ensures
        match outcome {
            Ok(tree) => yaml_text_tree(text@) == Ok::<Node, Seq<char>>(tree@),
            Err(message) => yaml_text_tree(text@) == Err::<Node, Seq<char>>(message@),
        },
{
    match read_value(text) {
        Ok(value) => Ok(tree_of(&value)),
        Err(message) => Err(message),
    }
}

} // verus!
