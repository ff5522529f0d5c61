//! What stands at a path of a document, and that a traversal finds it.

use crate::document::{Document, Tree};
use crate::json::Json;
use crate::output::pairs;
use crate::query::{execute_spec, search_spec, JSONQuery, Step};
use crate::query_executor::{
    agree, all, key_not_string, matched, sole, wanted, Failure,
};
use crate::traversal::{entry_keys, field_names, walk, walk_entries, walk_fields, walk_items};
use vstd::prelude::*;

verus! {

/// The JSON value of a document.
pub open spec fn value_of(tree: Tree) -> Json
    decreases tree,
{
    match tree {
        Tree::Scalar(value) => value,
        Tree::Text(text) => Json::Text(text),
        Tree::Broken(_) => Json::Null,
        Tree::List(items) => Json::Array(values_of(items)),
        Tree::Record(fields) => Json::Object(pairs(field_names(fields), field_values(fields))),
        Tree::Dict(entries) => Json::Object(pairs(entry_keys(entries), entry_values(entries))),
        Tree::Variant(name, payload) => Json::Object(pairs(seq![name], seq![value_of(*payload)])),
    }
}

/// The JSON values of the given documents.
pub open spec fn values_of(trees: Seq<Tree>) -> Seq<Json>
    decreases trees,
{
    Seq::new(
        trees.len(),
        |i: int|
            if 0 <= i < trees.len() {
                value_of(trees[i])
            } else {
                Json::Null
            },
    )
}

/// The JSON values of the fields of a record.
pub open spec fn field_values(fields: Seq<(Seq<char>, Tree)>) -> Seq<Json>
    decreases fields,
{
    Seq::new(
        fields.len(),
        |i: int|
            if 0 <= i < fields.len() {
                value_of(fields[i].1)
            } else {
                Json::Null
            },
    )
}

/// The JSON values of the entries of a map.
pub open spec fn entry_values(entries: Seq<(Tree, Tree)>) -> Seq<Json>
    decreases entries,
{
    Seq::new(
        entries.len(),
        |i: int|
            if 0 <= i < entries.len() {
                value_of(entries[i].1)
            } else {
                Json::Null
            },
    )
}

/// The parts of `tree` that stand at `path`, in the order of the traversal.
/// There is more than one where a record or a map repeats a name.
pub open spec fn at(tree: Tree, path: Seq<Step>) -> Seq<Tree>
    decreases tree, 0nat,
{
    if path.len() == 0 {
        seq![tree]
    } else {
        let rest = path.skip(1);
        match tree {
            Tree::List(items) => match path[0] {
                Step::Index(index) => if index < items.len() {
                    at(items[index as int], rest)
                } else {
                    Seq::empty()
                },
                Step::Field(_) => Seq::empty(),
            },
            Tree::Record(fields) => match path[0] {
                Step::Field(name) => at_fields(fields, 0, name, rest),
                Step::Index(_) => Seq::empty(),
            },
            Tree::Dict(entries) => match path[0] {
                Step::Field(name) => at_entries(entries, 0, name, rest),
                Step::Index(_) => Seq::empty(),
            },
            Tree::Variant(name, payload) => if path[0] == Step::Field(name) {
                at(*payload, rest)
            } else {
                Seq::empty()
            },
            _ => Seq::empty(),
        }
    }
}

/// What stands at `rest` in the fields named `name`, from position `from` on.
pub open spec fn at_fields(
    fields: Seq<(Seq<char>, Tree)>,
    from: nat,
    name: Seq<char>,
    rest: Seq<Step>,
) -> Seq<Tree>
    decreases fields, fields.len() - from,
{
    if from >= fields.len() {
        Seq::empty()
    } else {
        (if fields[from as int].0 == name {
            at(fields[from as int].1, rest)
        } else {
            Seq::empty()
        }) + at_fields(fields, from + 1, name, rest)
    }
}

/// What stands at `rest` in the values of the key `name`, from position
/// `from` on.
pub open spec fn at_entries(
    entries: Seq<(Tree, Tree)>,
    from: nat,
    name: Seq<char>,
    rest: Seq<Step>,
) -> Seq<Tree>
    decreases entries, entries.len() - from,
{
    if from >= entries.len() {
        Seq::empty()
    } else {
        (if entries[from as int].0 == Tree::Text(name) {
            at(entries[from as int].1, rest)
        } else {
            Seq::empty()
        }) + at_entries(entries, from + 1, name, rest)
    }
}

/// What a traversal that does not fail hands on, said without traversing:
/// below the place that the query names the value of the document, above it
/// the values of what stands at the rest of the query, elsewhere nothing.
pub open spec fn expected(tree: Tree, path: Seq<Step>, query: Seq<Step>) -> Seq<Json> {
    if matched(query, path) {
        seq![value_of(tree)]
    } else if agree(query, path) {
        values_of(at(tree, query.skip(path.len() as int)))
    } else {
        Seq::empty()
    }
}

/// [`expected`] for the items of a sequence from index `from` on.
pub open spec fn expected_items(items: Seq<Tree>, from: nat, path: Seq<Step>, query: Seq<Step>)
    -> Seq<Json> {
    if matched(query, path) {
        values_of(items).skip(from as int)
    } else if agree(query, path) {
        match query[path.len() as int] {
            Step::Index(index) => if from <= index < items.len() {
                values_of(at(items[index as int], query.skip((path.len() + 1) as int)))
            } else {
                Seq::empty()
            },
            Step::Field(_) => Seq::empty(),
        }
    } else {
        Seq::empty()
    }
}

/// [`expected`] for the fields of a record from position `from` on.
pub open spec fn expected_fields(
    fields: Seq<(Seq<char>, Tree)>,
    from: nat,
    path: Seq<Step>,
    query: Seq<Step>,
) -> Seq<Json> {
    if matched(query, path) {
        field_values(fields).skip(from as int)
    } else if agree(query, path) {
        match query[path.len() as int] {
            Step::Field(name) => values_of(
                at_fields(fields, from, name, query.skip((path.len() + 1) as int)),
            ),
            Step::Index(_) => Seq::empty(),
        }
    } else {
        Seq::empty()
    }
}

/// [`expected`] for the entries of a map from position `from` on.
pub open spec fn expected_entries(
    entries: Seq<(Tree, Tree)>,
    from: nat,
    path: Seq<Step>,
    query: Seq<Step>,
) -> Seq<Json> {
    if matched(query, path) {
        entry_values(entries).skip(from as int)
    } else if agree(query, path) {
        match query[path.len() as int] {
            Step::Field(name) => values_of(
                at_entries(entries, from, name, query.skip((path.len() + 1) as int)),
            ),
            Step::Index(_) => Seq::empty(),
        }
    } else {
        Seq::empty()
    }
}

/// The values of two runs of documents are the values of the runs joined.
pub proof fn lemma_values_join(first: Seq<Tree>, second: Seq<Tree>)
    ensures
        values_of(first) + values_of(second) == values_of(first + second),
{
    assert(values_of(first) + values_of(second) =~= values_of(first + second));
}

/// How a path that is one step longer stands to the query.
pub proof fn lemma_step(query: Seq<Step>, path: Seq<Step>, step: Step)
    ensures
        matched(query, path) ==> matched(query, path.push(step)),
        !agree(query, path) ==> !agree(query, path.push(step)),
        agree(query, path) && path.len() < query.len() && query[path.len() as int] == step
            ==> agree(query, path.push(step)),
        agree(query, path) && path.len() < query.len() && query[path.len() as int] != step
            ==> !agree(query, path.push(step)),
        !agree(query, path) ==> !wanted(query, path, step),
{
    let longer = path.push(step);
    if !agree(query, path) {
        let i = choose|i: int| 0 <= i < query.len() && i < path.len() && query[i] != path[i];
        assert(longer[i] == path[i]);
    }
    if agree(query, path) && path.len() < query.len() {
        if query[path.len() as int] == step {
            assert forall|i: int| 0 <= i < query.len() && i < longer.len() implies query[i]
                == longer[i] by {
                if i < path.len() {
                    assert(longer[i] == path[i]);
                }
            }
        } else {
            assert(longer[path.len() as int] == step);
        }
    }
    if matched(query, path) {
        assert forall|i: int| 0 <= i < query.len() && i < longer.len() implies query[i]
            == longer[i] by {
            assert(longer[i] == path[i]);
        }
    }
}

/// A traversal that does not fail hands on what [`expected`] says.
pub proof fn lemma_walk(tree: Tree, path: Seq<Step>, query: Seq<Step>)
    requires
        walk(tree, path, query) is Ok,
    ensures
        walk(tree, path, query)->Ok_0 == expected(tree, path, query),
    decreases tree, 0nat,
{
    let in_match = matched(query, path);
    let rest = query.skip(path.len() as int);
    if !in_match && agree(query, path) {
        assert(rest.len() > 0);
        assert(rest[0] == query[path.len() as int]);
        assert(rest.skip(1) =~= query.skip((path.len() + 1) as int));
    }
    match tree {
        Tree::Scalar(value) => {
            assert(values_of(Seq::<Tree>::empty()) =~= Seq::<Json>::empty());
        },
        Tree::Text(text) => {
            assert(values_of(Seq::<Tree>::empty()) =~= Seq::<Json>::empty());
        },
        Tree::Broken(_) => {},
        Tree::List(items) => {
            lemma_walk_items(items, 0, path, query);
            assert(values_of(items).skip(0) =~= values_of(items));
            assert(values_of(Seq::<Tree>::empty()) =~= Seq::<Json>::empty());
        },
        Tree::Record(fields) => {
            lemma_walk_fields(fields, 0, path, query);
            assert(field_values(fields).skip(0) =~= field_values(fields));
            assert(values_of(Seq::<Tree>::empty()) =~= Seq::<Json>::empty());
        },
        Tree::Dict(entries) => {
            lemma_walk_entries(entries, 0, path, query);
            assert(entry_values(entries).skip(0) =~= entry_values(entries));
            assert(values_of(Seq::<Tree>::empty()) =~= Seq::<Json>::empty());
        },
        Tree::Variant(name, payload) => {
            let step = Step::Field(name);
            lemma_step(query, path, step);
            assert(values_of(Seq::<Tree>::empty()) =~= Seq::<Json>::empty());
            if wanted(query, path, step) {
                lemma_walk(*payload, path.push(step), query);
                if !in_match {
                    lemma_reached(*payload, path, step, query);
                }
            }
        },
    }
}

/// Where a path that is one step longer reaches the end of the query, what
/// stands at the rest of the query is the document itself.
pub proof fn lemma_reached(tree: Tree, path: Seq<Step>, step: Step, query: Seq<Step>)
    requires
        agree(query, path),
        path.len() < query.len(),
        query[path.len() as int] == step,
    ensures
        expected(tree, path.push(step), query) == values_of(
            at(tree, query.skip((path.len() + 1) as int)),
        ),
{
    lemma_step(query, path, step);
    let longer = path.push(step);
    if matched(query, longer) {
        assert(query.skip((path.len() + 1) as int) =~= Seq::<Step>::empty());
        assert(values_of(seq![tree]) =~= seq![value_of(tree)]);
    }
}

/// [`lemma_walk`] for the items of a sequence.
pub proof fn lemma_walk_items(items: Seq<Tree>, from: nat, path: Seq<Step>, query: Seq<Step>)
    requires
        from <= items.len(),
        walk_items(items, from, path, query) is Ok,
    ensures
        walk_items(items, from, path, query)->Ok_0 == expected_items(items, from, path, query),
    decreases items, items.len() - from,
{
    assert(values_of(Seq::<Tree>::empty()) =~= Seq::<Json>::empty());
    if from >= items.len() {
        assert(values_of(items).skip(from as int) =~= Seq::<Json>::empty());
    } else {
        let step = Step::Index(from);
        lemma_step(query, path, step);
        lemma_walk_items(items, from + 1, path, query);
        let others = walk_items(items, from + 1, path, query)->Ok_0;
        if wanted(query, path, step) {
            lemma_walk(items[from as int], path.push(step), query);
            if matched(query, path) {
                assert(seq![value_of(items[from as int])] + values_of(items).skip((from + 1) as int)
                    =~= values_of(items).skip(from as int));
            } else {
                lemma_reached(items[from as int], path, step, query);
                assert(expected(items[from as int], path.push(step), query) + Seq::<
                    Json,
                >::empty() =~= expected(items[from as int], path.push(step), query));
            }
        } else {
            assert(Seq::<Json>::empty() + others =~= others);
        }
    }
}

/// [`lemma_walk`] for the fields of a record.
pub proof fn lemma_walk_fields(
    fields: Seq<(Seq<char>, Tree)>,
    from: nat,
    path: Seq<Step>,
    query: Seq<Step>,
)
    requires
        from <= fields.len(),
        walk_fields(fields, from, path, query) is Ok,
    ensures
        walk_fields(fields, from, path, query)->Ok_0 == expected_fields(fields, from, path, query),
    decreases fields, fields.len() - from,
{
    assert(values_of(Seq::<Tree>::empty()) =~= Seq::<Json>::empty());
    if from >= fields.len() {
        assert(field_values(fields).skip(from as int) =~= Seq::<Json>::empty());
    } else {
        let name = fields[from as int].0;
        let value = fields[from as int].1;
        let step = Step::Field(name);
        lemma_step(query, path, step);
        lemma_walk_fields(fields, from + 1, path, query);
        let others = walk_fields(fields, from + 1, path, query)->Ok_0;
        if wanted(query, path, step) {
            lemma_walk(value, path.push(step), query);
            if matched(query, path) {
                assert(seq![value_of(value)] + field_values(fields).skip((from + 1) as int)
                    =~= field_values(fields).skip(from as int));
            } else {
                lemma_reached(value, path, step, query);
                let rest = query.skip((path.len() + 1) as int);
                lemma_values_join(at(value, rest), at_fields(fields, from + 1, name, rest));
            }
        } else {
            assert(Seq::<Json>::empty() + others =~= others);
            if agree(query, path) && !matched(query, path) {
                if query[path.len() as int] is Field {
                    let wished = query[path.len() as int]->Field_0;
                    let rest = query.skip((path.len() + 1) as int);
                    assert(Seq::<Tree>::empty() + at_fields(fields, from + 1, wished, rest)
                        =~= at_fields(fields, from + 1, wished, rest));
                }
            }
        }
    }
}

/// [`lemma_walk`] for the entries of a map.
pub proof fn lemma_walk_entries(
    entries: Seq<(Tree, Tree)>,
    from: nat,
    path: Seq<Step>,
    query: Seq<Step>,
)
    requires
        from <= entries.len(),
        walk_entries(entries, from, path, query) is Ok,
    ensures
        walk_entries(entries, from, path, query)->Ok_0 == expected_entries(
            entries,
            from,
            path,
            query,
        ),
    decreases entries, entries.len() - from,
{
    assert(values_of(Seq::<Tree>::empty()) =~= Seq::<Json>::empty());
    if from >= entries.len() {
        assert(entry_values(entries).skip(from as int) =~= Seq::<Json>::empty());
    } else {
        let value = entries[from as int].1;
        let key = entries[from as int].0->Text_0;
        assert(entries[from as int].0 == Tree::Text(key));
        let step = Step::Field(key);
        lemma_step(query, path, step);
        lemma_walk_entries(entries, from + 1, path, query);
        let others = walk_entries(entries, from + 1, path, query)->Ok_0;
        lemma_walk(value, path.push(step), query);
        if matched(query, path) {
            assert(seq![value_of(value)] + entry_values(entries).skip((from + 1) as int)
                =~= entry_values(entries).skip(from as int));
        } else if agree(query, path) {
            if query[path.len() as int] == step {
                lemma_reached(value, path, step, query);
                let rest = query.skip((path.len() + 1) as int);
                lemma_values_join(at(value, rest), at_entries(entries, from + 1, key, rest));
            } else {
                assert(Seq::<Json>::empty() + others =~= others);
                if query[path.len() as int] is Field {
                    let wished = query[path.len() as int]->Field_0;
                    let rest = query.skip((path.len() + 1) as int);
                    assert(Seq::<Tree>::empty() + at_entries(entries, from + 1, wished, rest)
                        =~= at_entries(entries, from + 1, wished, rest));
                }
            }
        } else {
            assert(Seq::<Json>::empty() + others =~= others);
        }
    }
}

/// Whether every part of a document can be told: no value fails to describe
/// itself, and every key of a map is a string.
pub open spec fn sound(tree: Tree) -> bool
    decreases tree,
{
    match tree {
        Tree::Scalar(_) => true,
        Tree::Text(_) => true,
        Tree::Broken(_) => false,
        Tree::List(items) => sound_items(items),
        Tree::Record(fields) => sound_fields(fields),
        Tree::Dict(entries) => sound_entries(entries),
        Tree::Variant(_, payload) => sound(*payload),
    }
}

/// Whether every item is sound.
pub open spec fn sound_items(items: Seq<Tree>) -> bool
    decreases items,
{
    forall|i: int| 0 <= i < items.len() ==> sound(#[trigger] items[i])
}

/// Whether the value of every field is sound.
pub open spec fn sound_fields(fields: Seq<(Seq<char>, Tree)>) -> bool
    decreases fields,
{
    forall|i: int| 0 <= i < fields.len() ==> sound((#[trigger] fields[i]).1)
}

/// Whether every entry has a string as its key and a sound value.
pub open spec fn sound_entries(entries: Seq<(Tree, Tree)>) -> bool
    decreases entries,
{
    forall|i: int|
        0 <= i < entries.len() ==> (#[trigger] entries[i]).0 is Text && sound(entries[i].1)
}

/// Whether a failure is one that a document can cause: a value that fails
/// to describe itself, or a map key that is no string.
pub open spec fn caused_by_document(failure: Failure) -> bool {
    failure is Serialization || failure == Failure::InternalError(key_not_string())
}

/// The traversal of a document fails only where the document is not sound,
/// and only in the ways that a document can cause: it never breaks a rule of
/// the executor.
pub proof fn lemma_walk_fails(tree: Tree, path: Seq<Step>, query: Seq<Step>)
    ensures
        sound(tree) ==> walk(tree, path, query) is Ok,
        walk(tree, path, query) matches Err(failure) ==> caused_by_document(failure),
    decreases tree, 0nat,
{
    match tree {
        Tree::List(items) => {
            lemma_walk_items_fails(items, 0, path, query);
        },
        Tree::Record(fields) => {
            lemma_walk_fields_fails(fields, 0, path, query);
        },
        Tree::Dict(entries) => {
            lemma_walk_entries_fails(entries, 0, path, query);
        },
        Tree::Variant(name, payload) => {
            lemma_walk_fails(*payload, path.push(Step::Field(name)), query);
        },
        _ => {},
    }
}

/// [`lemma_walk_fails`] for the items of a sequence.
pub proof fn lemma_walk_items_fails(
    items: Seq<Tree>,
    from: nat,
    path: Seq<Step>,
    query: Seq<Step>,
)
    ensures
        sound_items(items) ==> walk_items(items, from, path, query) is Ok,
        walk_items(items, from, path, query) matches Err(failure) ==> caused_by_document(failure),
    decreases items, items.len() - from,
{
    if from < items.len() {
        if sound_items(items) {
            assert(sound(items[from as int]));
        }
        lemma_walk_fails(items[from as int], path.push(Step::Index(from)), query);
        lemma_walk_items_fails(items, from + 1, path, query);
    }
}

/// [`lemma_walk_fails`] for the fields of a record.
pub proof fn lemma_walk_fields_fails(
    fields: Seq<(Seq<char>, Tree)>,
    from: nat,
    path: Seq<Step>,
    query: Seq<Step>,
)
    ensures
        sound_fields(fields) ==> walk_fields(fields, from, path, query) is Ok,
        walk_fields(fields, from, path, query) matches Err(failure) ==> caused_by_document(
            failure,
        ),
    decreases fields, fields.len() - from,
{
    if from < fields.len() {
        if sound_fields(fields) {
            assert(sound(fields[from as int].1));
        }
        lemma_walk_fails(
            fields[from as int].1,
            path.push(Step::Field(fields[from as int].0)),
            query,
        );
        lemma_walk_fields_fails(fields, from + 1, path, query);
    }
}

/// [`lemma_walk_fails`] for the entries of a map.
pub proof fn lemma_walk_entries_fails(
    entries: Seq<(Tree, Tree)>,
    from: nat,
    path: Seq<Step>,
    query: Seq<Step>,
)
    ensures
        sound_entries(entries) ==> walk_entries(entries, from, path, query) is Ok,
        walk_entries(entries, from, path, query) matches Err(failure) ==> caused_by_document(
            failure,
        ),
    decreases entries, entries.len() - from,
{
    if from < entries.len() {
        if sound_entries(entries) {
            assert(entries[from as int].0 is Text && sound(entries[from as int].1));
        }
        if entries[from as int].0 is Text {
            lemma_walk_fails(
                entries[from as int].1,
                path.push(Step::Field(entries[from as int].0->Text_0)),
                query,
            );
        }
        lemma_walk_entries_fails(entries, from + 1, path, query);
    }
}

impl JSONQuery {
    /// The execution of a query on a document fails only if the query is
    /// empty, if several values stand at its path, or in a way that the
    /// document causes. On a sound document it fails in the first two ways
    /// only.
    pub proof fn law_execute_fails(self, target: Document)
        ensures
            execute_spec(self@, target@) matches Err(failure) ==> failure is EmptyQuery || failure
                is TwoMatchingPaths || caused_by_document(failure),
            execute_spec(self@, target@) matches Err(failure) ==> sound(target@) ==> failure
                is EmptyQuery || failure is TwoMatchingPaths,
    {
        lemma_walk_fails(target@, Seq::empty(), self@);
    }

    /// An execution whose traversal does not fail gives the value of what
    /// stands at the path of the query: the value if there is one such
    /// part, `None` if there is none, and a failure if there are several.
    pub proof fn law_execute_finds(self, target: Document)
        requires
            self@.len() > 0,
            walk(target@, Seq::empty(), self@) is Ok,
        ensures
            execute_spec(self@, target@) == sole(values_of(at(target@, self@))),
    {
        lemma_walk(target@, Seq::empty(), self@);
        assert(self@.skip(0) =~= self@);
    }

    /// A search whose traversal does not fail gives the values of all that
    /// stands at the path of the query, in the order of the traversal.
    pub proof fn law_search_finds(self, target: Document)
        requires
            self@.len() > 0,
            walk(target@, Seq::empty(), self@) is Ok,
        ensures
            search_spec(self@, target@) == Ok::<Seq<(Seq<Step>, Json)>, Failure>(
                all(values_of(at(target@, self@))),
            ),
    {
        lemma_walk(target@, Seq::empty(), self@);
        assert(self@.skip(0) =~= self@);
    }

    /// The query that names the path of a leaf, where no other part of the
    /// document stands at that path, gives the value of the leaf.
    pub proof fn law_leaf_is_found(self, target: Document, leaf: Tree)
        requires
            self@.len() > 0,
            walk(target@, Seq::empty(), self@) is Ok,
            leaf is Scalar || leaf is Text,
            at(target@, self@) == seq![leaf],
        ensures
            execute_spec(self@, target@) == Ok::<Option<Json>, Failure>(Some(value_of(leaf))),
    {
        self.law_execute_finds(target);
        assert(values_of(seq![leaf]) =~= seq![value_of(leaf)]);
    }

    /// The query that names a path at which nothing stands gives `None`.
    pub proof fn law_missing_path_gives_none(self, target: Document)
        requires
            self@.len() > 0,
            walk(target@, Seq::empty(), self@) is Ok,
            at(target@, self@).len() == 0,
        ensures
            execute_spec(self@, target@) == Ok::<Option<Json>, Failure>(None),
    {
        self.law_execute_finds(target);
    }
}

} // verus!
