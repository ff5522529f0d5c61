//! Partially built output values.
//!
//! While a matched container is traversed, what it holds is collected in a
//! frame: the items of an array, or the keys and the values of an object.
//! When the container ends, the frame is finished into one JSON value.

use crate::json::{
    json_array, json_clone, json_entries, json_map_insert, json_map_new, json_object, json_view,
    json_views, Json,
};
use vstd::prelude::*;

verus! {

/// What a frame is building.
#[derive(Debug, Clone, Copy, PartialEq, Eq, Structural)]
pub enum ElementKind {
    /// The bottom frame, which receives the results.
    Root,
    /// An array.
    List,
    /// An object.
    Object,
}

/// Mathematical model of an [`OutputStackFrame`].
pub struct Frame {
    pub kind: ElementKind,
    pub items: Seq<Json>,
    pub keys: Seq<Seq<char>>,
    pub values: Seq<Json>,
}

/// The object whose members are the first `n` keys, each with the value at
/// its position; of two equal keys the later one stays.
pub open spec fn pairs_upto(keys: Seq<Seq<char>>, values: Seq<Json>, n: nat) -> Map<
    Seq<char>,
    Json,
>
    decreases n,
{
    if n == 0 {
        Map::empty()
    } else {
        pairs_upto(keys, values, (n - 1) as nat).insert(keys[n - 1], values[n - 1])
    }
}

/// The object made of keys and values that stand at the same position.
pub open spec fn pairs(keys: Seq<Seq<char>>, values: Seq<Json>) -> Map<Seq<char>, Json> {
    pairs_upto(
        keys,
        values,
        if keys.len() <= values.len() {
            keys.len()
        } else {
            values.len()
        },
    )
}

impl Frame {
    /// An empty frame of the given kind.
    pub open spec fn fresh(kind: ElementKind) -> Frame {
        Frame { kind, items: Seq::empty(), keys: Seq::empty(), values: Seq::empty() }
    }

    pub open spec fn push_item(self, item: Json) -> Frame {
        Frame { kind: ElementKind::List, items: self.items.push(item), ..self }
    }

    pub open spec fn push_key(self, key: Seq<char>) -> Frame {
        Frame { kind: ElementKind::Object, keys: self.keys.push(key), ..self }
    }

    pub open spec fn push_value(self, value: Json) -> Frame {
        Frame { kind: ElementKind::Object, values: self.values.push(value), ..self }
    }

    /// The frame after it received a value: an object takes it as the value
    /// of its last key, anything else as its next item.
    pub open spec fn accept(self, value: Json) -> Frame {
        if self.kind == ElementKind::Object {
            self.push_value(value)
        } else {
            self.push_item(value)
        }
    }

    /// The frame after it received the given values, one after the other.
    pub open spec fn accept_all(self, found: Seq<Json>) -> Frame
        decreases found.len(),
    {
        if found.len() == 0 {
            self
        } else {
            self.accept_all(found.drop_last()).accept(found.last())
        }
    }

    /// The value that the frame has built.
    pub open spec fn finish(self) -> Json {
        if self.kind == ElementKind::Object {
            Json::Object(pairs(self.keys, self.values))
        } else {
            Json::Array(self.items)
        }
    }

    /// The values that reached the frame, whatever it is building.
    pub open spec fn received(self) -> Seq<Json> {
        if self.kind == ElementKind::Object {
            self.values
        } else {
            self.items
        }
    }
}

/// Receiving nothing changes nothing; receiving one value is `accept`.
pub proof fn lemma_accept_all_small(frame: Frame, value: Json)
    ensures
        frame.accept_all(Seq::empty()) == frame,
        frame.accept_all(seq![value]) == frame.accept(value),
{
    assert(seq![value].drop_last() =~= Seq::<Json>::empty());
    assert(frame.accept_all(seq![value].drop_last()) == frame);
}

/// Receiving two runs of values is receiving them joined.
pub proof fn lemma_accept_all_join(frame: Frame, first: Seq<Json>, second: Seq<Json>)
    ensures
        frame.accept_all(first).accept_all(second) == frame.accept_all(first + second),
    decreases second.len(),
{
    if second.len() == 0 {
        assert(first + second =~= first);
    } else {
        lemma_accept_all_join(frame, first, second.drop_last());
        assert((first + second).drop_last() =~= first + second.drop_last());
        assert((first + second).last() == second.last());
    }
}

/// An empty array frame that received values holds them as its items.
pub proof fn lemma_accept_all_list(frame: Frame, found: Seq<Json>)
    requires
        frame.kind != ElementKind::Object,
    ensures
        found.len() > 0 ==> frame.accept_all(found).kind == ElementKind::List,
        found.len() == 0 ==> frame.accept_all(found).kind == frame.kind,
        frame.accept_all(found).items == frame.items + found,
        frame.accept_all(found).keys == frame.keys,
        frame.accept_all(found).values == frame.values,
    decreases found.len(),
{
    if found.len() == 0 {
        assert(frame.items + found =~= frame.items);
    } else {
        lemma_accept_all_list(frame, found.drop_last());
        assert(frame.items + found =~= (frame.items + found.drop_last()).push(found.last()));
    }
}

/// An object frame that received values holds them as its values.
pub proof fn lemma_accept_all_map(frame: Frame, found: Seq<Json>)
    requires
        frame.kind == ElementKind::Object,
    ensures
        frame.accept_all(found).kind == ElementKind::Object,
        frame.accept_all(found).items == frame.items,
        frame.accept_all(found).keys == frame.keys,
        frame.accept_all(found).values == frame.values + found,
    decreases found.len(),
{
    if found.len() == 0 {
        assert(frame.values + found =~= frame.values);
    } else {
        lemma_accept_all_map(frame, found.drop_last());
        assert(frame.values + found =~= (frame.values + found.drop_last()).push(found.last()));
    }
}

/// The views of a list of strings.
pub open spec fn texts(strings: Seq<String>) -> Seq<Seq<char>> {
    strings.map_values(|s: String| s@)
}

/// A partially built output value.
#[derive(Debug)]
pub struct OutputStackFrame {
    kind: ElementKind,
    list_items: Vec<serde_json::Value>,
    map_keys: Vec<String>,
    map_values: Vec<serde_json::Value>,
}

impl View for OutputStackFrame {
    type V = Frame;

    closed spec fn view(&self) -> Frame {
        Frame {
            kind: self.kind,
            items: json_views(self.list_items@),
            keys: texts(self.map_keys@),
            values: json_views(self.map_values@),
        }
    }
}

impl Default for OutputStackFrame {
    fn default() -> (frame: Self)
        ensures
            frame@ == Frame::fresh(ElementKind::Root),
    {
        let frame = OutputStackFrame {
            kind: ElementKind::Root,
            list_items: Vec::new(),
            map_keys: Vec::new(),
            map_values: Vec::new(),
        };
        assert(frame@.items =~= Seq::<Json>::empty());
        assert(frame@.keys =~= Seq::<Seq<char>>::empty());
        assert(frame@.values =~= Seq::<Json>::empty());
        frame
    }
}

/// The same items in the opposite order.
pub fn reversed<T>(items: Vec<T>) -> (turned: Vec<T>)
    ensures
        turned@.len() == items@.len(),
        forall|i: int| 0 <= i < items@.len() ==> turned@[i] == items@[items@.len() - 1 - i],
{
    let ghost all = items@;
    let mut items = items;
    let mut turned: Vec<T> = Vec::new();
    while items.len() > 0
        invariant
            items@.len() + turned@.len() == all.len(),
            items@ == all.take(items@.len() as int),
            forall|i: int| 0 <= i < turned@.len() ==> turned@[i] == all[all.len() - 1 - i],
        decreases items.len(),
    {
        let last = items.pop().unwrap();
        turned.push(last);
        assert(items@ =~= all.take(items@.len() as int));
    }
    turned
}

impl OutputStackFrame {
    /// An empty frame for an array.
    pub fn list() -> (frame: OutputStackFrame)
        ensures
            frame@ == Frame::fresh(ElementKind::List),
    {
        let mut frame = OutputStackFrame::default();
        frame.kind = ElementKind::List;
        frame
    }

    /// An empty frame for an object.
    pub fn map() -> (frame: OutputStackFrame)
        ensures
            frame@ == Frame::fresh(ElementKind::Object),
    {
        let mut frame = OutputStackFrame::default();
        frame.kind = ElementKind::Object;
        frame
    }

    /// What the frame is building.
    pub fn kind(&self) -> (kind: ElementKind)
        ensures
            kind == self@.kind,
    {
        self.kind
    }

    /// Adds an item; the frame is an array from then on.
    pub fn push_item(&mut self, item: serde_json::Value)
        ensures
            final(self)@ == old(self)@.push_item(json_view(item)),
    {
        self.kind = ElementKind::List;
        self.list_items.push(item);
        assert(final(self)@.items =~= old(self)@.items.push(json_view(item)));
    }

    /// Adds a key; the frame is an object from then on.
    pub fn push_key(&mut self, item: String)
        ensures
            final(self)@ == old(self)@.push_key(item@),
    {
        self.kind = ElementKind::Object;
        self.map_keys.push(item);
        assert(final(self)@.keys =~= old(self)@.keys.push(item@));
    }

    /// Adds a value; the frame is an object from then on.
    pub fn push_value(&mut self, item: serde_json::Value)
        ensures
            final(self)@ == old(self)@.push_value(json_view(item)),
    {
        self.kind = ElementKind::Object;
        self.map_values.push(item);
        assert(final(self)@.values =~= old(self)@.values.push(json_view(item)));
    }

    /// Adds a value where the kind of the frame says: to an object as the
    /// value of its last key, else as the next item.
    pub fn accept(&mut self, value: serde_json::Value)
        ensures
            final(self)@ == old(self)@.accept(json_view(value)),
    {
        match self.kind {
            ElementKind::Root => self.push_item(value),
            ElementKind::List => self.push_item(value),
            ElementKind::Object => self.push_value(value),
        }
    }

    /// Finishes `complex` and adds the value that it built.
    pub fn push(&mut self, complex: OutputStackFrame)
        requires
            complex@.kind != ElementKind::Root,
        ensures
            final(self)@ == old(self)@.accept(complex@.finish()),
    {
        let value = complex.finish();
        self.accept(value);
    }

    /// The value that the frame has built: an array of its items, or an
    /// object of its keys and values. The bottom frame builds no value.
    pub fn finish(self) -> (value: serde_json::Value)
        requires
            self@.kind != ElementKind::Root,
        ensures
            json_view(value) == self@.finish(),
    {
        match self.kind {
            ElementKind::Root => json_array(self.list_items),
            ElementKind::List => json_array(self.list_items),
            ElementKind::Object => {
                let ghost keys = texts(self.map_keys@);
                let ghost values = json_views(self.map_values@);
                let ghost n: nat = if keys.len() <= values.len() {
                    keys.len()
                } else {
                    values.len()
                };
                assert(keys.len() == self.map_keys@.len());
                assert(values.len() == self.map_values@.len());
                assert(self.map_keys.len() <= usize::MAX);
                let mut keys_left = reversed(self.map_keys);
                let mut values_left = reversed(self.map_values);
                let mut dict = json_map_new();
                let mut done: usize = 0;
                while keys_left.len() > 0 && values_left.len() > 0
                    invariant
                        done <= n,
                        n <= usize::MAX,
                        n <= keys.len(),
                        n <= values.len(),
                        n == keys.len() || n == values.len(),
                        keys_left@.len() == keys.len() - done,
                        values_left@.len() == values.len() - done,
                        forall|i: int|
                            0 <= i < keys_left@.len() ==> (#[trigger] keys_left@[i])@
                                == keys[keys.len() - 1 - i],
                        forall|i: int|
                            0 <= i < values_left@.len() ==> json_view(#[trigger] values_left@[i])
                                == values[values.len() - 1 - i],
                        json_entries(dict) == pairs_upto(keys, values, done as nat),
                    decreases keys_left.len(),
                {
                    let key = keys_left.pop().unwrap();
                    let value = values_left.pop().unwrap();
                    assert(key@ == keys[done as int]);
                    assert(json_view(value) == values[done as int]);
                    json_map_insert(&mut dict, key, value);
                    done = done + 1;
                }
                json_object(dict)
            },
        }
    }

    /// The values that reached the frame, in their order.
    pub fn into_received(self) -> (values: Vec<serde_json::Value>)
        ensures
            json_views(values@) == self@.received(),
    {
        match self.kind {
            ElementKind::Root => self.list_items,
            ElementKind::List => self.list_items,
            ElementKind::Object => self.map_values,
        }
    }

    /// A copy of the first value that reached the frame.
    pub fn first(&self) -> (value: serde_json::Value)
        requires
            self@.received().len() > 0,
        ensures
            json_view(value) == self@.received()[0],
    {
        match self.kind {
            ElementKind::Root => json_clone(&self.list_items[0]),
            ElementKind::List => json_clone(&self.list_items[0]),
            ElementKind::Object => json_clone(&self.map_values[0]),
        }
    }

    /// How many values reached the frame.
    pub fn count(&self) -> (n: usize)
        ensures
            n == self@.received().len(),
    {
        match self.kind {
            ElementKind::Root => self.list_items.len(),
            ElementKind::List => self.list_items.len(),
            ElementKind::Object => self.map_values.len(),
        }
    }
}

} // verus!
