//! The traversal of a document, and what it finds.
//!
//! [`walk`] says which values the traversal of a document hands to the
//! executor's innermost frame, or how it fails. [`Document::serialize`]
//! traverses a document and drives an executor, which ends in the state that
//! [`walk`] describes.

use crate::document::{entries_of, fields_of, trees_of, Document, Primitive, Tree};
use crate::json::Json;
use crate::output::{
    lemma_accept_all_join, lemma_accept_all_list, lemma_accept_all_map, lemma_accept_all_small,
    pairs, ElementKind, Frame,
};
use crate::query::Step;
use crate::query_executor::{
    key_not_string, matched, wanted, Failure, Machine, Marker, QueryExecErr, QueryExecutor,
};
use vstd::prelude::*;

verus! {

/// What two parts of a traversal find, one after the other: the failure of
/// the first, else the failure of the second, else what both found.
pub open spec fn chain(first: Result<Seq<Json>, Failure>, second: Result<Seq<Json>, Failure>)
    -> Result<Seq<Json>, Failure> {
    match first {
        Err(failure) => Err(failure),
        Ok(found) => match second {
            Err(failure) => Err(failure),
            Ok(more) => Ok(found + more),
        },
    }
}

/// The value that a container builds of what was found in it: an array of
/// the values, or an object of the keys with the values.
pub open spec fn assembled(kind: ElementKind, keys: Seq<Seq<char>>, found: Seq<Json>) -> Json {
    if kind == ElementKind::Object {
        Json::Object(pairs(keys, found))
    } else {
        Json::Array(found)
    }
}

/// What a container hands on. In a match it is one value, built of what was
/// found in the container; elsewhere it is what was found in the container.
pub open spec fn contained(
    in_match: bool,
    kind: ElementKind,
    keys: Seq<Seq<char>>,
    inner: Result<Seq<Json>, Failure>,
) -> Result<Seq<Json>, Failure> {
    match inner {
        Err(failure) => Err(failure),
        Ok(found) => Ok(
            if in_match {
                seq![assembled(kind, keys, found)]
            } else {
                found
            },
        ),
    }
}

/// The names of the fields of a record.
pub open spec fn field_names(fields: Seq<(Seq<char>, Tree)>) -> Seq<Seq<char>> {
    Seq::new(fields.len(), |i: int| fields[i].0)
}

/// The string that a key is; only a string is a key.
pub open spec fn key_of(key: Tree) -> Seq<char> {
    match key {
        Tree::Text(text) => text,
        _ => Seq::empty(),
    }
}

/// The keys of the entries of a map.
pub open spec fn entry_keys(entries: Seq<(Tree, Tree)>) -> Seq<Seq<char>> {
    Seq::new(entries.len(), |i: int| key_of(entries[i].0))
}

/// What the traversal of `tree`, which stands at `path`, hands on, or how it
/// fails.
///
/// At the place that `query` names and below it, every value is handed on: a
/// scalar as it is, a container as the one value that it builds. Elsewhere a
/// scalar is passed over, and a container hands on what is found in those of
/// its parts that are entered: of a sequence the item at the index that the
/// query names, of a record the fields of the name that the query names, of a
/// variant its payload if the query names the variant, and of a map every
/// value. A map key that is no string fails the traversal when its entry is
/// met, a value that cannot describe itself when it is entered.
pub open spec fn walk(tree: Tree, path: Seq<Step>, query: Seq<Step>) -> Result<
    Seq<Json>,
    Failure,
>
    decreases tree, 0nat,
{
    let in_match = matched(query, path);
    match tree {
        Tree::Scalar(value) => Ok(
            if in_match {
                seq![value]
            } else {
                Seq::empty()
            },
        ),
        Tree::Text(text) => Ok(
            if in_match {
                seq![Json::Text(text)]
            } else {
                Seq::empty()
            },
        ),
        Tree::Broken(complaint) => Err(Failure::Serialization(complaint)),
        Tree::List(items) => contained(
            in_match,
            ElementKind::List,
            Seq::empty(),
            walk_items(items, 0, path, query),
        ),
        Tree::Record(fields) => contained(
            in_match,
            ElementKind::Object,
            field_names(fields),
            walk_fields(fields, 0, path, query),
        ),
        Tree::Dict(entries) => contained(
            in_match,
            ElementKind::Object,
            entry_keys(entries),
            walk_entries(entries, 0, path, query),
        ),
        Tree::Variant(name, payload) => {
            if wanted(query, path, Step::Field(name)) {
                contained(
                    in_match,
                    ElementKind::Object,
                    seq![name],
                    walk(*payload, path.push(Step::Field(name)), query),
                )
            } else {
                Ok(Seq::empty())
            }
        },
    }
}

/// What the traversal of the items of a sequence from index `from` on hands
/// on.
pub open spec fn walk_items(items: Seq<Tree>, from: nat, path: Seq<Step>, query: Seq<Step>)
    -> Result<Seq<Json>, Failure>
    decreases items, items.len() - from,
{
    if from >= items.len() {
        Ok(Seq::empty())
    } else {
        chain(
            if wanted(query, path, Step::Index(from)) {
                walk(items[from as int], path.push(Step::Index(from)), query)
            } else {
                Ok(Seq::empty())
            },
            walk_items(items, from + 1, path, query),
        )
    }
}

/// What the traversal of the fields of a record from position `from` on
/// hands on.
pub open spec fn walk_fields(
    fields: Seq<(Seq<char>, Tree)>,
    from: nat,
    path: Seq<Step>,
    query: Seq<Step>,
) -> Result<Seq<Json>, Failure>
    decreases fields, fields.len() - from,
{
    if from >= fields.len() {
        Ok(Seq::empty())
    } else {
        chain(
            if wanted(query, path, Step::Field(fields[from as int].0)) {
                walk(
                    fields[from as int].1,
                    path.push(Step::Field(fields[from as int].0)),
                    query,
                )
            } else {
                Ok(Seq::empty())
            },
            walk_fields(fields, from + 1, path, query),
        )
    }
}

/// What the traversal of the entries of a map from position `from` on hands
/// on.
pub open spec fn walk_entries(
    entries: Seq<(Tree, Tree)>,
    from: nat,
    path: Seq<Step>,
    query: Seq<Step>,
) -> Result<Seq<Json>, Failure>
    decreases entries, entries.len() - from,
{
    if from >= entries.len() {
        Ok(Seq::empty())
    } else {
        chain(
            match entries[from as int].0 {
                Tree::Text(key) => walk(
                    entries[from as int].1,
                    path.push(Step::Field(key)),
                    query,
                ),
                _ => Err(Failure::InternalError(key_not_string())),
            },
            walk_entries(entries, from + 1, path, query),
        )
    }
}

/// The machine after a part of the traversal, or its failure.
pub open spec fn visited(before: Machine, found: Result<Seq<Json>, Failure>) -> Result<
    Machine,
    Failure,
> {
    match found {
        Ok(values) => Ok(before.record(values)),
        Err(failure) => Err(failure),
    }
}

/// Whether a call ended as expected: in the given machine, or with the
/// given failure.
pub open spec fn follows(r: Result<(), QueryExecErr>, after: Machine, expected: Result<
    Machine,
    Failure,
>) -> bool {
    match expected {
        Ok(next) => r is Ok && after == next,
        Err(failure) => r is Err && r->Err_0@ == failure,
    }
}

/// Recording nothing leaves the machine as it is.
pub proof fn lemma_record_nothing(machine: Machine)
    requires
        machine.wf(),
    ensures
        machine.record(Seq::empty()) == machine,
{
    assert(machine.output.update(machine.output.len() - 1, machine.top()) =~= machine.output);
}

/// Recording one value is offering it in a match.
pub proof fn lemma_record_one(machine: Machine, value: Json)
    requires
        machine.wf(),
    ensures
        machine.record(seq![value]) == machine.with_top(machine.top().accept(value)),
{
    lemma_accept_all_small(machine.top(), value);
}

/// Recording two runs of values is recording them joined.
pub proof fn lemma_record_join(machine: Machine, first: Seq<Json>, second: Seq<Json>)
    requires
        machine.wf(),
    ensures
        machine.record(first).record(second) == machine.record(first + second),
{
    lemma_accept_all_join(machine.top(), first, second);
    let last = machine.output.len() - 1;
    assert(machine.record(first).output.update(
        last,
        machine.top().accept_all(first).accept_all(second),
    ) =~= machine.output.update(last, machine.top().accept_all(first + second)));
}

/// The machine inside a container that holds `found` so far: in a match the
/// container has a frame of its own, elsewhere what is found goes to the
/// frame that was innermost before.
pub open spec fn inside(
    before: Machine,
    kind: ElementKind,
    keys: Seq<Seq<char>>,
    found: Seq<Json>,
) -> Machine {
    if before.is_match() {
        Machine {
            output: before.output.push(
                Frame {
                    kind,
                    items: if kind == ElementKind::Object {
                        Seq::empty()
                    } else {
                        found
                    },
                    keys,
                    values: if kind == ElementKind::Object {
                        found
                    } else {
                        Seq::empty()
                    },
                },
            ),
            ..before
        }
    } else {
        before.record(found)
    }
}

/// Entering a container puts the machine inside it, with nothing found.
pub proof fn lemma_inside_open(before: Machine, kind: ElementKind)
    requires
        before.wf(),
        kind != ElementKind::Root,
    ensures
        before.open(kind) == inside(before, kind, Seq::empty(), Seq::empty()),
        inside(before, kind, Seq::empty(), Seq::empty()).wf(),
{
    if !before.is_match() {
        lemma_record_nothing(before);
    }
}

/// A key that comes inside a container joins the keys of its frame.
pub proof fn lemma_inside_key(
    before: Machine,
    keys: Seq<Seq<char>>,
    found: Seq<Json>,
    key: Seq<char>,
)
    requires
        before.wf(),
    ensures
        inside(before, ElementKind::Object, keys, found).key(key) == inside(
            before,
            ElementKind::Object,
            keys.push(key),
            found,
        ),
{
    let now = inside(before, ElementKind::Object, keys, found);
    if before.is_match() {
        assert(now.key(key).output =~= inside(
            before,
            ElementKind::Object,
            keys.push(key),
            found,
        ).output);
    }
}

/// What is found inside a container joins what its frame holds.
pub proof fn lemma_inside_record(
    before: Machine,
    kind: ElementKind,
    keys: Seq<Seq<char>>,
    found: Seq<Json>,
    more: Seq<Json>,
)
    requires
        before.wf(),
        kind != ElementKind::Root,
    ensures
        inside(before, kind, keys, found).record(more) == inside(before, kind, keys, found + more),
{
    let now = inside(before, kind, keys, found);
    if before.is_match() {
        let frame = now.top();
        if kind == ElementKind::Object {
            lemma_accept_all_map(frame, more);
        } else {
            lemma_accept_all_list(frame, more);
        }
        assert(now.record(more).output =~= inside(before, kind, keys, found + more).output);
    } else {
        lemma_record_join(before, found, more);
    }
}

/// Leaving a container hands on what `contained` says.
pub proof fn lemma_inside_close(
    before: Machine,
    kind: ElementKind,
    keys: Seq<Seq<char>>,
    found: Seq<Json>,
)
    requires
        before.wf(),
        kind != ElementKind::Root,
    ensures
        Ok::<Machine, Failure>(inside(before, kind, keys, found).close()) == visited(
            before,
            contained(before.is_match(), kind, keys, Ok(found)),
        ),
{
    let now = inside(before, kind, keys, found);
    if before.is_match() {
        let value = assembled(kind, keys, found);
        assert(now.output.last().finish() == value);
        assert(now.output.drop_last() =~= before.output);
        lemma_record_one(before, value);
    }
}

/// The machine after one item of a sequence was handed over.
pub open spec fn item_visit(before: Machine, item: Tree) -> Result<Machine, Failure> {
    match before.state.last() {
        Marker::Sequence(met, length) if before.state.len() > 0 && met < length => {
            let counted = before.unmark().mark(Marker::Sequence(met + 1, length));
            if counted.wants(Step::Index(met)) {
                visited(counted, walk(item, counted.path.push(Step::Index(met)), counted.query))
            } else {
                Ok(counted)
            }
        },
        _ => Err(Failure::InternalError(crate::query_executor::bad_item())),
    }
}

/// The machine after one field of a record was handed over.
pub open spec fn field_visit(before: Machine, name: Seq<char>, value: Tree) -> Result<
    Machine,
    Failure,
> {
    if before.wants(Step::Field(name)) {
        visited(
            before.key(name),
            walk(value, before.path.push(Step::Field(name)), before.query),
        )
    } else {
        Ok(before)
    }
}

/// The machine after the key of a map entry was handed over.
pub open spec fn key_visit(before: Machine, key: Tree) -> Result<Machine, Failure> {
    match key {
        Tree::Text(text) => Ok(
            before.mark(Marker::MapKey).mark(Marker::MapKeyStr(text)).key(text).enter(
                Step::Field(text),
            ),
        ),
        _ => Err(Failure::InternalError(key_not_string())),
    }
}

/// The machine after the value of a map entry was handed over.
pub open spec fn value_visit(before: Machine, value: Tree) -> Result<Machine, Failure> {
    if !(before.state.len() > 0 && before.state.last() is MapKeyStr) {
        Err(Failure::InternalError(crate::query_executor::value_without_key()))
    } else {
        match walk(value, before.path, before.query) {
            Err(failure) => Err(failure),
            Ok(found) => match crate::query_executor::ends_entry(
                before.mark(Marker::MapValue).state,
            ) {
                Err(failure) => Err(failure),
                Ok(rest) => Ok(Machine { state: rest, ..before.record(found).leave() }),
            },
        }
    }
}

/// The machine after a variant was entered, if it was.
pub open spec fn variant_begun(before: Machine, name: Seq<char>) -> Machine {
    let opened = before.open(ElementKind::Object).mark(Marker::StartMap);
    if before.wants(Step::Field(name)) {
        opened.key(name).enter(Step::Field(name))
    } else {
        opened
    }
}

/// Entering a variant, traversing its payload and leaving it hands on what
/// [`walk`] says of the variant.
pub proof fn lemma_variant(
    before: Machine,
    name: Seq<char>,
    payload: Tree,
    inner: Result<Seq<Json>, Failure>,
)
    requires
        before.wf(),
        before.wants(Step::Field(name)),
        inner == walk(payload, before.path.push(Step::Field(name)), before.query),
    ensures
        inner matches Ok(found) ==> Ok::<Machine, Failure>(
            variant_begun(before, name).record(found).leave().close().unmark(),
        ) == visited(
            before,
            walk(Tree::Variant(name, Box::new(payload)), before.path, before.query),
        ),
        inner matches Err(failure) ==> walk(
            Tree::Variant(name, Box::new(payload)),
            before.path,
            before.query,
        ) == Err::<Seq<Json>, Failure>(failure),
{
    if inner is Ok {
                    let found = inner->Ok_0;
        let kind = ElementKind::Object;
        lemma_inside_open(before, kind);
        let opened = inside(before, kind, Seq::empty(), Seq::empty());
        lemma_inside_key(before, Seq::empty(), Seq::empty(), name);
        let keyed = inside(before, kind, Seq::<Seq<char>>::empty().push(name), Seq::empty());
        assert(Seq::<Seq<char>>::empty().push(name) =~= seq![name]);
        lemma_inside_record(before, kind, seq![name], Seq::empty(), found);
        assert(Seq::<Json>::empty() + found =~= found);
        lemma_inside_close(before, kind, seq![name], found);
        let begun = variant_begun(before, name);
        assert(begun.path.drop_last() =~= before.path);
        assert(begun.state.drop_last() =~= before.state);
        assert(begun.output == keyed.output);
        let last = inside(before, kind, seq![name], found);
        assert(begun.record(found).output == last.output);
        assert(begun.record(found).leave().close().unmark() == last.close());
    }
}

impl Document {
    /// Traverses the document and tells `runner` of all that the traversal
    /// meets.
    pub fn serialize(&self, runner: &mut QueryExecutor) -> (r: Result<(), QueryExecErr>)
        requires
            old(runner)@.wf(),
            !old(runner)@.awaits_key(),
        ensures
            final(runner)@.wf(),
            follows(
                r,
                final(runner)@,
                visited(old(runner)@, walk(self@, old(runner)@.path, old(runner)@.query)),
            ),
        decreases self, 0nat,
    {
        proof {
            lemma_record_nothing(runner@);
            lemma_record_all_scalars(runner@);
        }
        match self {
            Document::Unit => runner.serialize_unit(),
            Document::Bool(v) => runner.serialize_bool(*v),
            Document::Signed(v) => runner.serialize_i64(*v),
            Document::Unsigned(v) => runner.serialize_u64(*v),
            Document::Char(v) => runner.serialize_char(*v),
            Document::Text(v) => runner.serialize_str(v.as_str()),
            Document::Json(v) => runner.possible_result(&Primitive::Json(v)),
            Document::Absent => runner.serialize_none(),
            Document::Present(inner) => runner.serialize_some(inner),
            Document::UnitVariant(name) => runner.serialize_unit_variant(name.as_str()),
            Document::Newtype(inner) => runner.serialize_newtype_struct(inner),
            Document::NewtypeVariant(name, inner) => runner.serialize_newtype_variant(
                name.as_str(),
                inner,
            ),
            Document::Sequence(items) => runner.serialize_seq(items),
            Document::TupleVariant(name, items) => runner.serialize_tuple_variant(
                name.as_str(),
                items,
            ),
            Document::Mapping(entries) => runner.serialize_map(entries),
            Document::Struct(fields) => runner.serialize_struct(fields),
            Document::StructVariant(name, fields) => runner.serialize_struct_variant(
                name.as_str(),
                fields,
            ),
            Document::Unrepresentable(complaint) => Err(QueryExecErr::custom(complaint.as_str())),
        }
    }
}

/// Offering a value is recording it in a match, and recording nothing
/// elsewhere.
pub proof fn lemma_record_all_scalars(machine: Machine)
    requires
        machine.wf(),
    ensures
        forall|value: Json| #[trigger]
            machine.offer(value) == machine.record(
                if machine.is_match() {
                    seq![value]
                } else {
                    Seq::empty()
                },
            ),
{
    assert forall|value: Json| #[trigger]
        machine.offer(value) == machine.record(
            if machine.is_match() {
                seq![value]
            } else {
                Seq::empty()
            },
        ) by {
        lemma_record_nothing(machine);
        lemma_record_one(machine, value);
    }
}

impl QueryExecutor {
    /// Traverses an optional value that is present: the value itself.
    pub fn serialize_some(&mut self, value: &Document) -> (r: Result<(), QueryExecErr>)
        requires
            old(self)@.wf(),
            !old(self)@.awaits_key(),
        ensures
            final(self)@.wf(),
            follows(
                r,
                final(self)@,
                visited(old(self)@, walk(value@, old(self)@.path, old(self)@.query)),
            ),
        decreases value, 1nat,
    {
        value.serialize(self)
    }

    /// Traverses a struct that wraps one value: the value itself.
    pub fn serialize_newtype_struct(&mut self, value: &Document) -> (r: Result<
        (),
        QueryExecErr,
    >)
        requires
            old(self)@.wf(),
            !old(self)@.awaits_key(),
        ensures
            final(self)@.wf(),
            follows(
                r,
                final(self)@,
                visited(old(self)@, walk(value@, old(self)@.path, old(self)@.query)),
            ),
        decreases value, 1nat,
    {
        value.serialize(self)
    }

    /// Enters a variant if that can lead to a match, and says whether it
    /// did. In a match the variant builds an object of its own, with its
    /// name as the one key.
    pub fn begin_variant(&mut self, variant: &str) -> (entered: bool)
        requires
            old(self)@.wf(),
        ensures
            entered == old(self)@.wants(Step::Field(variant@)),
            final(self)@ == variant_begun(old(self)@, variant@),
            final(self)@.wf(),
            !final(self)@.awaits_key(),
    {
        self.enter_map();
        self.enter_name(variant)
    }

    /// Leaves a variant; `entered` says whether it was entered.
    pub fn end_variant(&mut self, entered: bool)
        requires
            old(self)@.wf(),
        ensures
            final(self)@ == (if entered {
                old(self)@.leave().close().unmark()
            } else {
                old(self)@.close().unmark()
            }),
            final(self)@.wf(),
    {
        if entered {
            self.exit_name(None);
        }
        self.exit_map();
    }

    /// Traverses a variant that wraps one value.
    pub fn serialize_newtype_variant(&mut self, variant: &str, value: &Document) -> (r: Result<
        (),
        QueryExecErr,
    >)
        requires
            old(self)@.wf(),
        ensures
            final(self)@.wf(),
            follows(
                r,
                final(self)@,
                visited(
                    old(self)@,
                    walk(
                        Tree::Variant(variant@, Box::new(value@)),
                        old(self)@.path,
                        old(self)@.query,
                    ),
                ),
            ),
        decreases value, 1nat,
    {
        let ghost before = self@;
        let entered = self.begin_variant(variant);
        if entered {
            proof {
                lemma_variant(
                    before,
                    variant@,
                    value@,
                    walk(value@, before.path.push(Step::Field(variant@)), before.query),
                );
            }
            match value.serialize(self) {
                Ok(()) => {},
                Err(failure) => {
                    return Err(failure);
                },
            }
        } else {
            proof {
                lemma_record_nothing(before);
                assert(before.mark(Marker::StartMap).state.drop_last() =~= before.state);
            }
        }
        self.end_variant(entered);
        Ok(())
    }

    /// Traverses one item of the innermost sequence, if it can lead to a
    /// match.
    pub fn sequence_element(&mut self, value: &Document) -> (r: Result<(), QueryExecErr>)
        requires
            old(self)@.wf(),
        ensures
            final(self)@.wf(),
            follows(r, final(self)@, item_visit(old(self)@, value@)),
        decreases value, 1nat,
    {
        let ghost before = self@;
        let index = match self.next_index() {
            Ok(index) => index,
            Err(failure) => {
                return Err(failure);
            },
        };
        let ghost counted = self@;
        if self.enter_index(index) {
            match value.serialize(self) {
                Ok(()) => {},
                Err(failure) => {
                    return Err(failure);
                },
            }
            self.exit_index(index);
            proof {
                let step = Step::Index(index as nat);
                assert(counted.path.push(step).drop_last() =~= counted.path);
            }
        }
        Ok(())
    }

    /// Traverses a sequence: it is entered, its items are handed over one
    /// by one, and it is left.
    pub fn serialize_seq(&mut self, items: &Vec<Document>) -> (r: Result<(), QueryExecErr>)
        requires
            old(self)@.wf(),
        ensures
            final(self)@.wf(),
            follows(
                r,
                final(self)@,
                visited(
                    old(self)@,
                    walk(Tree::List(trees_of(items@)), old(self)@.path, old(self)@.query),
                ),
            ),
        decreases items, 0nat,
    {
        let ghost before = self@;
        let ghost trees = trees_of(items@);
        let ghost kind = ElementKind::List;
        let ghost none = Seq::<Seq<char>>::empty();
        let length = items.len();
        self.enter_sequence(Some(length));
        let mut i: usize = 0;
        let ghost mut found = Seq::<Json>::empty();
        proof {
            lemma_inside_open(before, kind);
        }
        while i < length
            invariant
                i <= length,
                length == items.len(),
                trees == trees_of(items@),
                before == old(self)@,
                before.wf(),
                self@.wf(),
                kind == ElementKind::List,
                none == Seq::<Seq<char>>::empty(),
                self@ == inside(before, kind, none, found).mark(
                    Marker::Sequence(i as nat, length as nat),
                ),
                walk_items(trees, 0, before.path, before.query) == chain(
                    Ok(found),
                    walk_items(trees, i as nat, before.path, before.query),
                ),
            decreases length - i,
        {
            let ghost now = inside(before, kind, none, found);
            let ghost here = if wanted(before.query, before.path, Step::Index(i as nat)) {
                walk(trees[i as int], before.path.push(Step::Index(i as nat)), before.query)
            } else {
                Ok(Seq::empty())
            };
            proof {
                assert(trees[i as int] == items@[i as int]@);
                assert(now.mark(Marker::Sequence(i as nat, length as nat)).state.drop_last()
                    =~= now.state);
                if here is Ok {
                    let more = here->Ok_0;
                    lemma_inside_record(before, kind, none, found, more);
                    let rest = walk_items(trees, (i + 1) as nat, before.path, before.query);
                    if rest is Ok {
                    let others = rest->Ok_0;
                        assert(found + (more + others) =~= (found + more) + others);
                    }
                }
                lemma_record_nothing(now.mark(Marker::Sequence((i + 1) as nat, length as nat)));
                assert(found + Seq::<Json>::empty() =~= found);
            }
            match self.sequence_element(&items[i]) {
                Ok(()) => {},
                Err(failure) => {
                    return Err(failure);
                },
            }
            proof {
                found = found + here->Ok_0;
            }
            i = i + 1;
        }
        proof {
            lemma_inside_close(before, kind, none, found);
            assert(found + Seq::<Json>::empty() =~= found);
            let now = inside(before, kind, none, found);
            assert(now.mark(Marker::Sequence(length as nat, length as nat)).state.drop_last()
                =~= now.state);
        }
        self.exit_sequence()
    }

    /// Traverses a variant that holds a tuple.
    pub fn serialize_tuple_variant(&mut self, variant: &str, items: &Vec<Document>) -> (r: Result<
        (),
        QueryExecErr,
    >)
        requires
            old(self)@.wf(),
        ensures
            final(self)@.wf(),
            follows(
                r,
                final(self)@,
                visited(
                    old(self)@,
                    walk(
                        Tree::Variant(variant@, Box::new(Tree::List(trees_of(items@)))),
                        old(self)@.path,
                        old(self)@.query,
                    ),
                ),
            ),
        decreases items, 1nat,
    {
        let ghost before = self@;
        let entered = self.begin_variant(variant);
        if entered {
            proof {
                lemma_variant(
                    before,
                    variant@,
                    Tree::List(trees_of(items@)),
                    walk(
                        Tree::List(trees_of(items@)),
                        before.path.push(Step::Field(variant@)),
                        before.query,
                    ),
                );
            }
            match self.serialize_seq(items) {
                Ok(()) => {},
                Err(failure) => {
                    return Err(failure);
                },
            }
        } else {
            proof {
                lemma_record_nothing(before);
                assert(before.mark(Marker::StartMap).state.drop_last() =~= before.state);
            }
        }
        self.end_variant(entered);
        Ok(())
    }

    /// Traverses one field of a struct, if it can lead to a match.
    pub fn serialize_field(&mut self, key: &str, value: &Document) -> (r: Result<
        (),
        QueryExecErr,
    >)
        requires
            old(self)@.wf(),
            !old(self)@.awaits_key(),
        ensures
            final(self)@.wf(),
            follows(r, final(self)@, field_visit(old(self)@, key@, value@)),
        decreases value, 1nat,
    {
        let ghost before = self@;
        if self.enter_name(key) {
            match value.serialize(self) {
                Ok(()) => {},
                Err(failure) => {
                    return Err(failure);
                },
            }
            self.exit_name(Some(key));
            proof {
                assert(before.path.push(Step::Field(key@)).drop_last() =~= before.path);
            }
        }
        Ok(())
    }

    /// Traverses a struct: it is entered, its fields are handed over one by
    /// one, and it is left.
    pub fn serialize_struct(&mut self, fields: &Vec<(String, Document)>) -> (r: Result<
        (),
        QueryExecErr,
    >)
        requires
            old(self)@.wf(),
        ensures
            final(self)@.wf(),
            follows(
                r,
                final(self)@,
                visited(
                    old(self)@,
                    walk(Tree::Record(fields_of(fields@)), old(self)@.path, old(self)@.query),
                ),
            ),
        decreases fields, 0nat,
    {
        let ghost before = self@;
        let ghost trees = fields_of(fields@);
        let ghost names = field_names(trees);
        let ghost kind = ElementKind::Object;
        self.enter_map();
        let mut i: usize = 0;
        let ghost mut found = Seq::<Json>::empty();
        proof {
            lemma_inside_open(before, kind);
            assert(names.take(0) =~= Seq::<Seq<char>>::empty());
        }
        while i < fields.len()
            invariant
                i <= fields.len(),
                trees == fields_of(fields@),
                names == field_names(trees),
                before == old(self)@,
                before.wf(),
                self@.wf(),
                kind == ElementKind::Object,
                self@ == inside(before, kind, names.take(i as int), found).mark(Marker::StartMap),
                walk_fields(trees, 0, before.path, before.query) == chain(
                    Ok(found),
                    walk_fields(trees, i as nat, before.path, before.query),
                ),
            decreases fields.len() - i,
        {
            let ghost name = trees[i as int].0;
            let ghost here = if wanted(before.query, before.path, Step::Field(name)) {
                walk(trees[i as int].1, before.path.push(Step::Field(name)), before.query)
            } else {
                Ok(Seq::empty())
            };
            proof {
                assert(trees[i as int].1 == fields@[i as int].1@);
                assert(name == fields@[i as int].0@);
                assert(names.take(i + 1) =~= names.take(i as int).push(name));
                lemma_inside_key(before, names.take(i as int), found, name);
                if here is Ok {
                    let more = here->Ok_0;
                    lemma_inside_record(before, kind, names.take(i + 1), found, more);
                    let rest = walk_fields(trees, (i + 1) as nat, before.path, before.query);
                    if rest is Ok {
                    let others = rest->Ok_0;
                        assert(found + (more + others) =~= (found + more) + others);
                    }
                }
                assert(found + Seq::<Json>::empty() =~= found);
            }
            match self.serialize_field(fields[i].0.as_str(), &fields[i].1) {
                Ok(()) => {},
                Err(failure) => {
                    return Err(failure);
                },
            }
            proof {
                found = found + here->Ok_0;
            }
            i = i + 1;
        }
        proof {
            assert(names.take(i as int) =~= names);
            lemma_inside_close(before, kind, names, found);
            assert(found + Seq::<Json>::empty() =~= found);
            let now = inside(before, kind, names, found);
            assert(now.mark(Marker::StartMap).state.drop_last() =~= now.state);
        }
        self.exit_map();
        Ok(())
    }

    /// Traverses a variant that holds named fields.
    pub fn serialize_struct_variant(
        &mut self,
        variant: &str,
        fields: &Vec<(String, Document)>,
    ) -> (r: Result<(), QueryExecErr>)
        requires
            old(self)@.wf(),
        ensures
            final(self)@.wf(),
            follows(
                r,
                final(self)@,
                visited(
                    old(self)@,
                    walk(
                        Tree::Variant(variant@, Box::new(Tree::Record(fields_of(fields@)))),
                        old(self)@.path,
                        old(self)@.query,
                    ),
                ),
            ),
        decreases fields, 1nat,
    {
        let ghost before = self@;
        let entered = self.begin_variant(variant);
        if entered {
            proof {
                lemma_variant(
                    before,
                    variant@,
                    Tree::Record(fields_of(fields@)),
                    walk(
                        Tree::Record(fields_of(fields@)),
                        before.path.push(Step::Field(variant@)),
                        before.query,
                    ),
                );
            }
            match self.serialize_struct(fields) {
                Ok(()) => {},
                Err(failure) => {
                    return Err(failure);
                },
            }
        } else {
            proof {
                lemma_record_nothing(before);
                assert(before.mark(Marker::StartMap).state.drop_last() =~= before.state);
            }
        }
        self.end_variant(entered);
        Ok(())
    }

    /// Takes the key of a map entry, which must be a string, and enters it.
    pub fn serialize_key(&mut self, key: &Document) -> (r: Result<(), QueryExecErr>)
        requires
            old(self)@.wf(),
        ensures
            final(self)@.wf(),
            follows(r, final(self)@, key_visit(old(self)@, key@)),
    {
        match key.key_text() {
            Some(text) => {
                self.enter_map_key();
                match self.serialize_str(text) {
                    Ok(()) => {},
                    Err(failure) => {
                        return Err(failure);
                    },
                }
                self.exit_map_key()
            },
            None => Err(QueryExecErr::internal("Map key not a simple String!")),
        }
    }

    /// Traverses the value of a map entry, and leaves the entry.
    pub fn serialize_value(&mut self, value: &Document) -> (r: Result<(), QueryExecErr>)
        requires
            old(self)@.wf(),
        ensures
            final(self)@.wf(),
            follows(r, final(self)@, value_visit(old(self)@, value@)),
        decreases value, 1nat,
    {
        match self.enter_map_value() {
            Ok(()) => {},
            Err(failure) => {
                return Err(failure);
            },
        }
        match value.serialize(self) {
            Ok(()) => {},
            Err(failure) => {
                return Err(failure);
            },
        }
        self.exit_map_value()
    }

    /// Traverses a map: it is entered, its entries are handed over one by
    /// one, key before value, and it is left.
    pub fn serialize_map(&mut self, entries: &Vec<(Document, Document)>) -> (r: Result<
        (),
        QueryExecErr,
    >)
        requires
            old(self)@.wf(),
        ensures
            final(self)@.wf(),
            follows(
                r,
                final(self)@,
                visited(
                    old(self)@,
                    walk(Tree::Dict(entries_of(entries@)), old(self)@.path, old(self)@.query),
                ),
            ),
        decreases entries, 0nat,
    {
        let ghost before = self@;
        let ghost trees = entries_of(entries@);
        let ghost keys = entry_keys(trees);
        let ghost kind = ElementKind::Object;
        self.enter_map();
        let mut i: usize = 0;
        let ghost mut found = Seq::<Json>::empty();
        proof {
            lemma_inside_open(before, kind);
            assert(keys.take(0) =~= Seq::<Seq<char>>::empty());
        }
        while i < entries.len()
            invariant
                i <= entries.len(),
                trees == entries_of(entries@),
                keys == entry_keys(trees),
                before == old(self)@,
                before.wf(),
                self@.wf(),
                kind == ElementKind::Object,
                self@ == inside(before, kind, keys.take(i as int), found).mark(Marker::StartMap),
                walk_entries(trees, 0, before.path, before.query) == chain(
                    Ok(found),
                    walk_entries(trees, i as nat, before.path, before.query),
                ),
            decreases entries.len() - i,
        {
            let ghost key = keys[i as int];
            let ghost here = match trees[i as int].0 {
                Tree::Text(text) => walk(
                    trees[i as int].1,
                    before.path.push(Step::Field(text)),
                    before.query,
                ),
                _ => Err(Failure::InternalError(key_not_string())),
            };
            let ghost now = inside(before, kind, keys.take(i as int), found).mark(
                Marker::StartMap,
            );
            proof {
                assert(trees[i as int].0 == entries@[i as int].0@);
                assert(trees[i as int].1 == entries@[i as int].1@);
                assert(keys.take(i + 1) =~= keys.take(i as int).push(key));
                lemma_inside_key(before, keys.take(i as int), found, key);
                if here is Ok {
                    let more = here->Ok_0;
                    lemma_inside_record(before, kind, keys.take(i + 1), found, more);
                    let rest = walk_entries(trees, (i + 1) as nat, before.path, before.query);
                    if rest is Ok {
                    let others = rest->Ok_0;
                        assert(found + (more + others) =~= (found + more) + others);
                    }
                }
            }
            match self.serialize_key(&entries[i].0) {
                Ok(()) => {},
                Err(failure) => {
                    return Err(failure);
                },
            }
            let ghost keyed = self@;
            proof {
                let marked = keyed.mark(Marker::MapValue).state;
                assert(marked.take(marked.len() - 3) =~= now.state);
                assert(keyed.path.drop_last() =~= now.path);
            }
            match self.serialize_value(&entries[i].1) {
                Ok(()) => {},
                Err(failure) => {
                    return Err(failure);
                },
            }
            proof {
                found = found + here->Ok_0;
            }
            i = i + 1;
        }
        proof {
            assert(keys.take(i as int) =~= keys);
            lemma_inside_close(before, kind, keys, found);
            assert(found + Seq::<Json>::empty() =~= found);
            let now = inside(before, kind, keys, found);
            assert(now.mark(Marker::StartMap).state.drop_last() =~= now.state);
        }
        self.exit_map();
        Ok(())
    }
}

} // verus!
