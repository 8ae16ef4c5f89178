//! The text of diagnostics: names in backticks, lists joined by a separator.

use vstd::prelude::*;
use vstd::string::StringExecFns;

verus! {

/// A name as a diagnostic shows it: between two backticks.
pub open spec fn quoted(name: Seq<char>) -> Seq<char> {
    "`"@ + name + "`"@
}

/// The items in their order, with the separator between each two of them.
pub open spec fn joined(items: Seq<Seq<char>>, separator: Seq<char>) -> Seq<char>
    decreases items.len(),
{
    if items.len() == 0 {
        Seq::empty()
    } else if items.len() == 1 {
        items[0]
    } else {
        joined(items.drop_last(), separator) + separator + items.last()
    }
}

/// A list as a diagnostic shows it: the items separated by a comma and a space.
pub open spec fn series_of(items: Seq<Seq<char>>) -> Seq<char> {
    joined(items, ", "@)
}

/// Whether the part occurs in the text.
pub open spec fn mentions(text: Seq<char>, part: Seq<char>) -> bool {
    exists|start: int, end: int|
        0 <= start <= end <= text.len() && #[trigger] text.subrange(start, end) == part
}

/// A part of a text occurs in it.
pub proof fn lemma_mentions_part(before: Seq<char>, part: Seq<char>, after: Seq<char>)
    ensures
        mentions(before + part + after, part),
{
    let text = before + part + after;
    assert(text.subrange(before.len() as int, (before.len() + part.len()) as int) =~= part);
}

/// What occurs in a part of a text occurs in the text.
pub proof fn lemma_mentions_within(text: Seq<char>, middle: Seq<char>, part: Seq<char>)
    requires
        mentions(text, middle),
        mentions(middle, part),
    ensures
        mentions(text, part),
{
    let (a, b) = choose|a: int, b: int|
        0 <= a <= b <= text.len() && #[trigger] text.subrange(a, b) == middle;
    let (c, d) = choose|c: int, d: int|
        0 <= c <= d <= middle.len() && #[trigger] middle.subrange(c, d) == part;
    assert(text.subrange(a + c, a + d) =~= part);
}

/// Each item occurs in the items joined.
pub proof fn lemma_joined_mentions(items: Seq<Seq<char>>, separator: Seq<char>, i: int)
    requires
        0 <= i < items.len(),
    ensures
        mentions(joined(items, separator), items[i]),
    decreases items.len(),
{
    let empty = Seq::<char>::empty();
    if items.len() == 1 {
        lemma_mentions_part(empty, items[0], empty);
        assert(empty + items[0] + empty =~= items[0]);
    } else if i == items.len() - 1 {
        lemma_mentions_part(joined(items.drop_last(), separator) + separator, items[i], empty);
        assert(joined(items.drop_last(), separator) + separator + items[i] + empty =~= joined(
            items,
            separator,
        ));
    } else {
        lemma_joined_mentions(items.drop_last(), separator, i);
        lemma_mentions_part(empty, joined(items.drop_last(), separator), separator + items.last());
        assert(empty + joined(items.drop_last(), separator) + (separator + items.last()) =~= joined(
            items,
            separator,
        ));
        lemma_mentions_within(
            joined(items, separator),
            joined(items.drop_last(), separator),
            items[i],
        );
    }
}

/// Puts a name between backticks.
pub fn quote(name: &str) -> (text: String)
    ensures
        text@ == quoted(name@),
{
    let mut text = String::from_str("`");
    text.append(name);
    text.append("`");
    text
}

/// Joins the items with a comma and a space between each two of them.
pub fn series(items: &Vec<String>) -> (text: String)
    ensures
        text@ == series_of(items.deep_view()),
{
    let mut text = String::new();
    let ghost all = items.deep_view();
    for i in 0..items.len()
        invariant
            all == items.deep_view(),
            text@ == series_of(all.take(i as int)),
    {
        proof {
            assert(all.take(i + 1).drop_last() =~= all.take(i as int));
            assert(all.take(i + 1).last() == items[i as int]@);
        }
        if i > 0 {
            text.append(", ");
        }
        text.append(items[i].as_str());
        proof {
            if i == 0 {
                assert(text@ =~= all[0]);
            }
        }
    }
    proof {
        assert(all.take(items.len() as int) =~= all);
    }
    text
}

} // verus!
