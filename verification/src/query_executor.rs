//! The query executor: a state machine that a traversal drives.
//!
//! The traversal tells the executor of every scalar it meets and of every
//! container, field, key and item it enters and leaves. The executor keeps
//! the path to where the traversal stands, holds it against the query, says
//! where descending can still lead to a match, and collects what matches.

use crate::document::Primitive;
use crate::json::{json_error_text, json_view, Json};
use crate::output::{reversed, ElementKind, Frame};
pub use crate::output::OutputStackFrame;
use crate::query::{clone_elements, steps, JSONQuery, QueryElement, Step};
use vstd::prelude::*;

verus! {

/// Why a query could not be executed.
#[derive(Debug, PartialEq, Eq)]
pub enum QueryExecErr {
    /// The query has no element.
    EmptyQuery,
    /// The traversal did not keep to the protocol, or handed over a map key
    /// that is no string.
    InternalError(String),
    /// The document failed to describe one of its values.
    Serialization(String),
    /// More than one value stands at the path of the query.
    TwoMatchingPaths,
}

/// Mathematical model of a [`QueryExecErr`].
pub enum Failure {
    EmptyQuery,
    InternalError(Seq<char>),
    Serialization(Seq<char>),
    TwoMatchingPaths,
}

impl View for QueryExecErr {
    type V = Failure;

    open spec fn view(&self) -> Failure {
        match self {
            QueryExecErr::EmptyQuery => Failure::EmptyQuery,
            QueryExecErr::InternalError(detail) => Failure::InternalError(detail@),
            QueryExecErr::Serialization(detail) => Failure::Serialization(detail@),
            QueryExecErr::TwoMatchingPaths => Failure::TwoMatchingPaths,
        }
    }
}

impl From<serde_json::Error> for QueryExecErr {
    /// An error of the JSON conversion, kept as an internal error that
    /// carries what the error shows of itself.
    fn from(err: serde_json::Error) -> (failure: Self)
        ensures
            failure is InternalError,
    {
        QueryExecErr::InternalError(json_error_text(&err))
    }
}

impl vstd::std_specs::convert::FromSpecImpl<serde_json::Error> for QueryExecErr {
    open spec fn obeys_from_spec() -> bool {
        false
    }

    open spec fn from_spec(err: serde_json::Error) -> Self {
        QueryExecErr::InternalError(arbitrary())
    }
}

/// A map key that is no string was handed over.
pub open spec fn key_not_string() -> Seq<char> {
    "Map key not a simple String!"@
}

/// A second string was handed over as the key of one entry.
pub open spec fn key_twice() -> Seq<char> {
    "Shouldn't see multiple str for the same key!"@
}

/// An item was handed over outside a sequence, or beyond its length.
pub open spec fn bad_item() -> Seq<char> {
    "Bad sequence_element state"@
}

/// A sequence ended that was not open, or before all its items came.
pub open spec fn bad_sequence_end() -> Seq<char> {
    "Bad exit_sequence state"@
}

/// A value was handed over before the key of its entry.
pub open spec fn value_without_key() -> Seq<char> {
    "Bad enter_map_value state"@
}

/// A value ended that had not begun.
pub open spec fn expected_value() -> Seq<char> {
    "Expected MapValue state"@
}

/// A value ended whose key is not known.
pub open spec fn expected_key_text() -> Seq<char> {
    "Expected MapKeyStr state"@
}

/// A value ended whose entry had not begun.
pub open spec fn expected_key() -> Seq<char> {
    "Expected MapKey state"@
}

impl QueryExecErr {
    /// The failure that a document reports of itself.
    pub fn custom(msg: &str) -> (failure: Self)
        ensures
            failure@ == Failure::Serialization(msg@),
    {
        QueryExecErr::Serialization(msg.to_owned())
    }

    /// A broken rule of the traversal.
    pub fn internal(msg: &str) -> (failure: Self)
        ensures
            failure@ == Failure::InternalError(msg@),
    {
        QueryExecErr::InternalError(msg.to_owned())
    }
}

/// Where in a container the traversal stands.
#[derive(Debug)]
pub enum State {
    /// In a map or struct, between its entries.
    StartMap,
    /// In a map entry whose key is awaited.
    MapKey,
    /// In a map entry whose key is the given string.
    MapKeyStr(String),
    /// In the value of a map entry.
    MapValue,
    /// In a sequence: the number of items met, and its length.
    Sequence(usize, usize),
}

/// Mathematical model of a [`State`].
pub enum Marker {
    StartMap,
    MapKey,
    MapKeyStr(Seq<char>),
    MapValue,
    Sequence(nat, nat),
}

impl View for State {
    type V = Marker;

    open spec fn view(&self) -> Marker {
        match self {
            State::StartMap => Marker::StartMap,
            State::MapKey => Marker::MapKey,
            State::MapKeyStr(key) => Marker::MapKeyStr(key@),
            State::MapValue => Marker::MapValue,
            State::Sequence(met, length) => Marker::Sequence(*met as nat, *length as nat),
        }
    }
}

/// How the path of the traversal stands to the query.
pub enum Matching {
    /// They part ways.
    NotMatching,
    /// The path is the start of the query, which goes on with this step.
    Found(Step),
    /// The query is the start of the path, which goes on with these steps.
    IsMatch(Seq<Step>),
}

/// How the path of the traversal stands to the query.
pub enum NextStep<'a> {
    NotMatching,
    Found(&'a QueryElement),
    IsMatch(&'a [QueryElement]),
}

impl<'a> View for NextStep<'a> {
    type V = Matching;

    open spec fn view(&self) -> Matching {
        match self {
            NextStep::NotMatching => Matching::NotMatching,
            NextStep::Found(element) => Matching::Found(element@),
            NextStep::IsMatch(relative) => Matching::IsMatch(steps(relative@)),
        }
    }
}

/// Whether two paths are equal as far as both go.
pub open spec fn agree(query: Seq<Step>, path: Seq<Step>) -> bool {
    forall|i: int| 0 <= i < query.len() && i < path.len() ==> query[i] == path[i]
}

/// Whether `path` leads to the place that `query` names, or below it.
pub open spec fn matched(query: Seq<Step>, path: Seq<Step>) -> bool {
    query.len() <= path.len() && agree(query, path)
}

/// Whether going on from `path` by `step` can lead to the place that `query`
/// names: `path` is there already, or `step` is the step by which the query
/// goes on.
pub open spec fn wanted(query: Seq<Step>, path: Seq<Step>, step: Step) -> bool {
    ||| matched(query, path)
    ||| path.len() < query.len() && agree(query, path) && query[path.len() as int] == step
}

/// Mathematical model of a [`QueryExecutor`].
pub struct Machine {
    /// The path that is looked for.
    pub query: Seq<Step>,
    /// The path from the root to where the traversal stands.
    pub path: Seq<Step>,
    /// The containers that the traversal is in, outermost first.
    pub state: Seq<Marker>,
    /// The output values that are being built, outermost first.
    pub output: Seq<Frame>,
}

impl Machine {
    /// The machine before the traversal starts.
    pub open spec fn start(query: Seq<Step>) -> Machine {
        Machine {
            query,
            path: Seq::empty(),
            state: Seq::empty(),
            output: seq![Frame::fresh(ElementKind::Root)],
        }
    }

    /// There is a bottom frame, and no other frame is one.
    pub open spec fn wf(self) -> bool {
        &&& self.output.len() > 0
        &&& forall|i: int| 0 < i < self.output.len() ==> self.output[i].kind != ElementKind::Root
    }

    /// How the path stands to the query.
    pub open spec fn next_step(self) -> Matching {
        if !agree(self.query, self.path) {
            Matching::NotMatching
        } else if self.path.len() < self.query.len() {
            Matching::Found(self.query[self.path.len() as int])
        } else {
            Matching::IsMatch(self.path.skip(self.query.len() as int))
        }
    }

    /// Whether the traversal stands at the path of the query or below it.
    pub open spec fn is_match(self) -> bool {
        matched(self.query, self.path)
    }

    /// Whether descending by `step` can lead to a match: the traversal is in
    /// a match already, or `step` is the step by which the query goes on.
    pub open spec fn wants(self, step: Step) -> bool {
        wanted(self.query, self.path, step)
    }

    /// The innermost frame.
    pub open spec fn top(self) -> Frame {
        self.output.last()
    }

    /// The machine with another innermost frame.
    pub open spec fn with_top(self, frame: Frame) -> Machine {
        Machine { output: self.output.update(self.output.len() - 1, frame), ..self }
    }

    /// The machine after its innermost frame received the given values.
    pub open spec fn record(self, found: Seq<Json>) -> Machine {
        self.with_top(self.top().accept_all(found))
    }

    /// The machine after its innermost frame received a value, if the
    /// traversal stands in a match.
    pub open spec fn offer(self, value: Json) -> Machine {
        if self.is_match() {
            self.with_top(self.top().accept(value))
        } else {
            self
        }
    }

    /// The machine after its innermost frame received a key, if the
    /// traversal stands in a match.
    pub open spec fn key(self, key: Seq<char>) -> Machine {
        if self.is_match() {
            self.with_top(self.top().push_key(key))
        } else {
            self
        }
    }

    /// The machine one step further down.
    pub open spec fn enter(self, step: Step) -> Machine {
        Machine { path: self.path.push(step), ..self }
    }

    /// The machine one step back up.
    pub open spec fn leave(self) -> Machine {
        if self.path.len() > 0 {
            Machine { path: self.path.drop_last(), ..self }
        } else {
            self
        }
    }

    /// The machine inside one more container.
    pub open spec fn mark(self, marker: Marker) -> Machine {
        Machine { state: self.state.push(marker), ..self }
    }

    /// The machine outside its innermost container.
    pub open spec fn unmark(self) -> Machine {
        if self.state.len() > 0 {
            Machine { state: self.state.drop_last(), ..self }
        } else {
            self
        }
    }

    /// The machine with a new frame for a container that is in a match.
    pub open spec fn open(self, kind: ElementKind) -> Machine {
        if self.is_match() {
            Machine { output: self.output.push(Frame::fresh(kind)), ..self }
        } else {
            self
        }
    }

    /// The machine after the frame of a container that is in a match was
    /// finished and its value handed to the frame below.
    pub open spec fn close(self) -> Machine {
        if self.is_match() && self.output.len() > 1 {
            let below = self.output.drop_last();
            Machine {
                output: below.update(
                    below.len() - 1,
                    below.last().accept(self.output.last().finish()),
                ),
                ..self
            }
        } else {
            self
        }
    }

    /// Whether the traversal stands where the key of a map entry is awaited.
    pub open spec fn awaits_key(self) -> bool {
        self.state.len() > 0 && (self.state.last() is MapKey || self.state.last() is MapKeyStr)
    }
}

/// The models of a stack of states.
pub open spec fn markers(states: Seq<State>) -> Seq<Marker> {
    states.map_values(|s: State| s@)
}

/// The models of a stack of frames.
pub open spec fn frames(stack: Seq<OutputStackFrame>) -> Seq<Frame> {
    stack.map_values(|f: OutputStackFrame| f@)
}

/// The state machine that answers one query during one traversal.
#[derive(Debug)]
pub struct QueryExecutor {
    query: Vec<QueryElement>,
    current_path: Vec<QueryElement>,
    state: Vec<State>,
    output: Vec<OutputStackFrame>,
}

impl View for QueryExecutor {
    type V = Machine;

    closed spec fn view(&self) -> Machine {
        Machine {
            query: steps(self.query@),
            path: steps(self.current_path@),
            state: markers(self.state@),
            output: frames(self.output@),
        }
    }
}

impl QueryExecutor {
    /// An executor for `query`, before the traversal starts. A query without
    /// elements is refused.
    pub fn new(query: &JSONQuery) -> (r: Result<Self, QueryExecErr>)
        ensures
            query@.len() == 0 ==> r is Err && r->Err_0@ == Failure::EmptyQuery,
            query@.len() > 0 ==> r is Ok && r->Ok_0@ == Machine::start(query@),
    {
        if query.elements.len() == 0 {
            return Err(QueryExecErr::EmptyQuery);
        }
        let mut output: Vec<OutputStackFrame> = Vec::new();
        output.push(OutputStackFrame::default());
        let runner = QueryExecutor {
            query: clone_elements(&query.elements),
            current_path: Vec::new(),
            state: Vec::new(),
            output,
        };
        assert(runner@.path =~= Seq::<Step>::empty());
        assert(runner@.state =~= Seq::<Marker>::empty());
        assert(runner@.output =~= seq![Frame::fresh(ElementKind::Root)]);
        Ok(runner)
    }

    /// Whether the executor is in order: it has a bottom frame, and no other
    /// frame is one. An executor that `new` made stays so.
    pub fn well_formed(&self) -> (b: bool)
        ensures
            b == self@.wf(),
    {
        if self.output.len() == 0 {
            return false;
        }
        let mut i: usize = 1;
        while i < self.output.len()
            invariant
                1 <= i <= self.output.len(),
                forall|j: int| 0 < j < i ==> self@.output[j].kind != ElementKind::Root,
            decreases self.output.len() - i,
        {
            match self.output[i].kind() {
                ElementKind::Root => {
                    assert(self@.output[i as int].kind == ElementKind::Root);
                    return false;
                },
                _ => {},
            }
            i = i + 1;
        }
        true
    }

    /// How the path stands to the query.
    pub fn next_step(&self) -> (next: NextStep<'_>)
        ensures
            next@ == self@.next_step(),
    {
        let mut i: usize = 0;
        while i < self.query.len() && i < self.current_path.len()
            invariant
                i <= self.query.len(),
                i <= self.current_path.len(),
                forall|j: int| 0 <= j < i ==> self@.query[j] == self@.path[j],
            decreases self.query.len() - i,
        {
            if self.query[i] != self.current_path[i] {
                assert(self@.query[i as int] != self@.path[i as int]);
                return NextStep::NotMatching;
            }
            i += 1;
        }
        if self.current_path.len() < self.query.len() {
            NextStep::Found(&self.query[i])
        } else {
            let relative = vstd::slice::slice_subrange(
                self.current_path.as_slice(),
                i,
                self.current_path.len(),
            );
            assert(steps(relative@) =~= self@.path.skip(self@.query.len() as int));
            NextStep::IsMatch(relative)
        }
    }

    /// The steps from the end of the query to where the traversal stands, if
    /// it stands in a match.
    pub fn relative_path(&self) -> (relative: Option<Vec<QueryElement>>)
        ensures
            match self@.next_step() {
                Matching::IsMatch(rest) => relative is Some && steps(relative->Some_0@) == rest,
                _ => relative is None,
            },
    {
        match self.next_step() {
            NextStep::IsMatch(relative) => {
                let mut copy: Vec<QueryElement> = Vec::new();
                let mut i: usize = 0;
                while i < relative.len()
                    invariant
                        i <= relative.len(),
                        copy.len() == i,
                        forall|j: int| 0 <= j < i ==> copy[j]@ == relative[j]@,
                    decreases relative.len() - i,
                {
                    copy.push(relative[i].clone());
                    i = i + 1;
                }
                assert(steps(copy@) =~= steps(relative@));
                Some(copy)
            },
            _ => None,
        }
    }

    /// Whether the traversal stands at the path of the query or below it.
    pub fn is_match(&self) -> (b: bool)
        ensures
            b == self@.is_match(),
    {
        match self.next_step() {
            NextStep::IsMatch(_) => true,
            _ => false,
        }
    }

    /// Records `found` in the innermost frame if the traversal stands in a
    /// match; a value met elsewhere leaves no trace.
    pub fn possible_result(&mut self, found: &Primitive) -> (r: Result<(), QueryExecErr>)
        requires
            old(self)@.wf(),
        ensures
            r is Ok,
            final(self)@ == old(self)@.offer(found.json()),
            final(self)@.wf(),
    {
        if self.is_match() {
            let value = match found.to_json() {
                Ok(value) => value,
                Err(err) => {
                    return Err(QueryExecErr::from(err));
                },
            };
            let last = self.output.len() - 1;
            self.output[last].accept(value);
            assert(self@.output =~= old(self)@.output.update(
                last as int,
                old(self)@.top().accept(found.json()),
            ));
        }
        Ok(())
    }

    /// The one value that the traversal found, or `None` if it found none.
    /// More than one is a failure: the query does not say which is meant.
    pub fn get_result(self) -> (r: Result<Option<serde_json::Value>, QueryExecErr>)
        requires
            self@.wf(),
        ensures
            answer(r) == sole(self@.output[0].received()),
    {
        let output = &self.output[0];
        let found = output.count();
        if found == 0 {
            Ok(None)
        } else if found == 1 {
            Ok(Some(output.first()))
        } else {
            Err(QueryExecErr::TwoMatchingPaths)
        }
    }

    /// All the values that the traversal found, in the order in which it
    /// found them, each with the steps that lead to it from the place that
    /// the query names. There are no such steps: what lies below that place
    /// is part of the value that stands there.
    pub fn get_results(self) -> (found: Vec<(Vec<QueryElement>, serde_json::Value)>)
        requires
            self@.wf(),
        ensures
            hits(found@) == all(self@.output[0].received()),
    {
        let mut output = self.output;
        let ghost stack = output@;
        let mut root = OutputStackFrame::default();
        let ghost mut depth: int = stack.len() as int;
        while output.len() > 0
            invariant
                stack.len() > 0,
                0 <= depth <= stack.len(),
                output@ == stack.take(depth),
                depth < stack.len() ==> root@ == stack[depth]@,
            decreases output.len(),
        {
            root = output.pop().unwrap();
            proof {
                depth = depth - 1;
            }
            assert(output@ =~= stack.take(depth));
        }
        let ghost values = root@.received();
        let mut left = reversed(root.into_received());
        let mut found: Vec<(Vec<QueryElement>, serde_json::Value)> = Vec::new();
        while left.len() > 0
            invariant
                left@.len() + found@.len() == values.len(),
                forall|i: int|
                    0 <= i < left@.len() ==> json_view(#[trigger] left@[i]) == values[values.len()
                        - 1 - i],
                forall|i: int|
                    0 <= i < found@.len() ==> (#[trigger] hits(found@)[i]) == (
                        Seq::<Step>::empty(),
                        values[i],
                    ),
            decreases left.len(),
        {
            let value = left.pop().unwrap();
            let ghost before = found@;
            let relative: Vec<QueryElement> = Vec::new();
            assert(steps(relative@) =~= Seq::<Step>::empty());
            found.push((relative, value));
            assert forall|i: int| 0 <= i < found@.len() implies (#[trigger] hits(found@)[i]) == (
                Seq::<Step>::empty(),
                values[i],
            ) by {
                if i < before.len() {
                    assert(hits(found@)[i] == hits(before)[i]);
                }
            }
        }
        assert(hits(found@) =~= all(values));
        found
    }

    /// Enters the field `name` if that can lead to a match, and says whether
    /// it did. In a match the name becomes a key of the innermost frame.
    pub fn enter_name(&mut self, name: &str) -> (entered: bool)
        requires
            old(self)@.wf(),
        ensures
            entered == old(self)@.wants(Step::Field(name@)),
            final(self)@ == (if entered {
                old(self)@.key(name@).enter(Step::Field(name@))
            } else {
                old(self)@
            }),
            final(self)@.wf(),
    {
        let continues_match = match self.next_step() {
            NextStep::IsMatch(_) => true,
            NextStep::Found(QueryElement::Field(field)) => {
                let field: &str = field.as_str();
                same_text(name, field)
            },
            _ => false,
        };
        if continues_match {
            self.must_enter_name(name);
        }
        continues_match
    }

    /// Enters the field `name`, whether or not that can lead to a match. In
    /// a match the name becomes a key of the innermost frame.
    pub fn must_enter_name(&mut self, name: &str)
        requires
            old(self)@.wf(),
        ensures
            final(self)@ == old(self)@.key(name@).enter(Step::Field(name@)),
            final(self)@.wf(),
    {
        if self.is_match() {
            let last = self.output.len() - 1;
            self.output[last].push_key(name.to_owned());
            assert(self@.output =~= old(self)@.output.update(
                last as int,
                old(self)@.top().push_key(name@),
            ));
        }
        let ghost before = self.current_path@;
        let element = QueryElement::field(name);
        self.current_path.push(element);
        assert(steps(before.push(element)) =~= steps(before).push(Step::Field(name@)));
    }

    /// Leaves the field that was entered last.
    pub fn exit_name(&mut self, name: Option<&str>)
        requires
            old(self)@.wf(),
        ensures
            final(self)@ == old(self)@.leave(),
            final(self)@.wf(),
    {
        self.pop_path();
    }

    /// Leaves the innermost step of the path.
    fn pop_path(&mut self)
        ensures
            final(self)@ == old(self)@.leave(),
    {
        let ghost before = self.current_path@;
        let top = self.current_path.pop();
        if top.is_some() {
            assert(steps(before.drop_last()) =~= steps(before).drop_last());
        } else {
            assert(steps(before).len() == 0);
        }
    }

    /// Puts a marker on the stack of containers.
    fn push_state(&mut self, marker: State)
        ensures
            final(self)@ == old(self)@.mark(marker@),
    {
        let ghost before = self.state@;
        self.state.push(marker);
        assert(markers(before.push(marker)) =~= markers(before).push(marker@));
    }

    /// Takes the innermost marker from the stack of containers.
    fn pop_state(&mut self) -> (top: Option<State>)
        ensures
            final(self)@ == old(self)@.unmark(),
            old(self)@.state.len() == 0 ==> top is None,
            old(self)@.state.len() > 0 ==> top is Some && top->Some_0@ == old(self)@.state.last(),
    {
        let ghost before = self.state@;
        let top = self.state.pop();
        if top.is_some() {
            assert(markers(before.drop_last()) =~= markers(before).drop_last());
        } else {
            assert(markers(before).len() == 0);
        }
        top
    }

    /// Starts a frame of the given kind if the traversal stands in a match.
    fn open_frame(&mut self, frame: OutputStackFrame)
        requires
            old(self)@.wf(),
            frame@ == Frame::fresh(frame@.kind),
            frame@.kind != ElementKind::Root,
        ensures
            final(self)@ == old(self)@.open(frame@.kind),
            final(self)@.wf(),
    {
        if self.is_match() {
            let ghost before = self.output@;
            self.output.push(frame);
            assert(frames(before.push(frame)) =~= frames(before).push(frame@));
        }
    }

    /// Finishes the innermost frame and hands its value to the frame below,
    /// if the traversal stands in a match and the frame is not the bottom.
    fn close_frame(&mut self)
        requires
            old(self)@.wf(),
        ensures
            final(self)@ == old(self)@.close(),
            final(self)@.wf(),
    {
        if self.is_match() && self.output.len() > 1 {
            let ghost before = self.output@;
            let top = self.output.pop().unwrap();
            assert(top@ == frames(before).last());
            let last = self.output.len() - 1;
            self.output[last].push(top);
            assert(self@.output =~= frames(before).drop_last().update(
                last as int,
                frames(before).drop_last().last().accept(top@.finish()),
            ));
        }
    }

    /// Enters a sequence of the given length.
    pub fn enter_sequence(&mut self, length: Option<usize>)
        requires
            old(self)@.wf(),
            length is Some,
        ensures
            final(self)@ == old(self)@.open(ElementKind::List).mark(
                Marker::Sequence(0, length->Some_0 as nat),
            ),
            final(self)@.wf(),
    {
        self.open_frame(OutputStackFrame::list());
        self.push_state(State::Sequence(0, length.unwrap()));
    }

    /// Counts one more item of the innermost sequence and gives its index.
    /// It is a failure if the traversal is not in a sequence, or if all items
    /// of the sequence have come already.
    pub fn next_index(&mut self) -> (r: Result<usize, QueryExecErr>)
        requires
            old(self)@.wf(),
        ensures
            final(self)@.wf(),
            match old(self)@.state.last() {
                Marker::Sequence(met, length) if old(self)@.state.len() > 0 && met < length => {
                    &&& r is Ok
                    &&& r->Ok_0 == met
                    &&& final(self)@ == old(self)@.unmark().mark(Marker::Sequence(met + 1, length))
                },
                _ => r is Err && r->Err_0@ == Failure::InternalError(bad_item()) && final(self)@
                    == old(self)@,
            },
    {
        if self.state.len() == 0 {
            return Err(QueryExecErr::internal("Bad sequence_element state"));
        }
        let last = self.state.len() - 1;
        match &self.state[last] {
            State::Sequence(met, length) => {
                let met = *met;
                let length = *length;
                if met < length {
                    let _ = self.pop_state();
                    self.push_state(State::Sequence(met + 1, length));
                    Ok(met)
                } else {
                    Err(QueryExecErr::internal("Bad sequence_element state"))
                }
            },
            _ => Err(QueryExecErr::internal("Bad sequence_element state")),
        }
    }

    /// Enters the item at `index` if that can lead to a match, and says
    /// whether it did.
    pub fn enter_index(&mut self, index: usize) -> (entered: bool)
        requires
            old(self)@.wf(),
        ensures
            entered == old(self)@.wants(Step::Index(index as nat)),
            final(self)@ == (if entered {
                old(self)@.enter(Step::Index(index as nat))
            } else {
                old(self)@
            }),
            final(self)@.wf(),
    {
        let should_enter = match self.next_step() {
            NextStep::NotMatching => false,
            NextStep::Found(QueryElement::ArrayItem(x)) => index == *x,
            NextStep::Found(_) => false,
            NextStep::IsMatch(_) => true,
        };
        if should_enter {
            let ghost before = self.current_path@;
            let element = QueryElement::array_item(index);
            self.current_path.push(element);
            assert(steps(before.push(element)) =~= steps(before).push(
                Step::Index(index as nat),
            ));
        }
        should_enter
    }

    /// Leaves the item that was entered last.
    pub fn exit_index(&mut self, index: usize)
        requires
            old(self)@.wf(),
        ensures
            final(self)@ == old(self)@.leave(),
            final(self)@.wf(),
    {
        self.pop_path();
    }

    /// Leaves the innermost sequence. In a match its frame is finished and
    /// handed down. It is a failure if the traversal is not in a sequence,
    /// or if not all items of the sequence have come.
    pub fn exit_sequence(&mut self) -> (r: Result<(), QueryExecErr>)
        requires
            old(self)@.wf(),
        ensures
            final(self)@ == old(self)@.close().unmark(),
            final(self)@.wf(),
            match old(self)@.state.last() {
                Marker::Sequence(met, length) if old(self)@.state.len() > 0 && met == length => r
                    is Ok,
                _ => r is Err && r->Err_0@ == Failure::InternalError(bad_sequence_end()),
            },
    {
        self.close_frame();
        let top = self.pop_state();
        match top {
            Some(State::Sequence(met, length)) => {
                if met == length {
                    Ok(())
                } else {
                    Err(QueryExecErr::internal("Bad exit_sequence state"))
                }
            },
            _ => Err(QueryExecErr::internal("Bad exit_sequence state")),
        }
    }

    /// Enters a map or a struct.
    pub fn enter_map(&mut self)
        requires
            old(self)@.wf(),
        ensures
            final(self)@ == old(self)@.open(ElementKind::Object).mark(Marker::StartMap),
            final(self)@.wf(),
    {
        self.open_frame(OutputStackFrame::map());
        self.push_state(State::StartMap);
    }

    /// Leaves the innermost map or struct. In a match its frame is finished
    /// and handed down.
    pub fn exit_map(&mut self)
        requires
            old(self)@.wf(),
        ensures
            final(self)@ == old(self)@.close().unmark(),
            final(self)@.wf(),
    {
        self.close_frame();
        let _ = self.pop_state();
    }

    /// Starts a map entry: its key is awaited.
    pub fn enter_map_key(&mut self)
        requires
            old(self)@.wf(),
        ensures
            final(self)@ == old(self)@.mark(Marker::MapKey),
            final(self)@.wf(),
    {
        self.push_state(State::MapKey);
    }

    /// Ends the key of a map entry. It is a failure if no string came as the
    /// key.
    pub fn exit_map_key(&mut self) -> (r: Result<(), QueryExecErr>)
        ensures
            final(self)@ == old(self)@,
            old(self)@.state.len() > 0 && old(self)@.state.last() is MapKeyStr ==> r is Ok,
            !(old(self)@.state.len() > 0 && old(self)@.state.last() is MapKeyStr) ==> r is Err
                && r->Err_0@ == Failure::InternalError(key_not_string()),
    {
        if self.state.len() == 0 {
            return Err(QueryExecErr::internal("Map key not a simple String!"));
        }
        match &self.state[self.state.len() - 1] {
            State::MapKeyStr(_) => Ok(()),
            _ => Err(QueryExecErr::internal("Map key not a simple String!")),
        }
    }

    /// Starts the value of a map entry. It is a failure if the key of the
    /// entry is not known.
    pub fn enter_map_value(&mut self) -> (r: Result<(), QueryExecErr>)
        requires
            old(self)@.wf(),
        ensures
            final(self)@.wf(),
            old(self)@.state.len() > 0 && old(self)@.state.last() is MapKeyStr ==> r is Ok
                && final(self)@ == old(self)@.mark(Marker::MapValue),
            !(old(self)@.state.len() > 0 && old(self)@.state.last() is MapKeyStr) ==> r is Err
                && r->Err_0@ == Failure::InternalError(value_without_key()) && final(self)@
                == old(self)@,
    {
        if self.state.len() == 0 {
            return Err(QueryExecErr::internal("Bad enter_map_value state"));
        }
        match &self.state[self.state.len() - 1] {
            State::MapKeyStr(_) => {},
            _ => {
                return Err(QueryExecErr::internal("Bad enter_map_value state"));
            },
        }
        self.push_state(State::MapValue);
        Ok(())
    }

    /// Ends the value of a map entry, and the entry with it: the traversal
    /// leaves the key that it had entered. It is a failure if the traversal
    /// is not in the value of an entry whose key is a string; the markers
    /// that were looked at are gone then.
    pub fn exit_map_value(&mut self) -> (r: Result<(), QueryExecErr>)
        requires
            old(self)@.wf(),
        ensures
            final(self)@.wf(),
            final(self)@ == entry_ended(old(self)@),
            match ends_entry(old(self)@.state) {
                Ok(rest) => r is Ok && final(self)@ == (Machine {
                    state: rest,
                    ..old(self)@.leave()
                }),
                Err(failure) => r is Err && r->Err_0@ == failure,
            },
    {
        match self.pop_state() {
            Some(State::MapValue) => {},
            _ => {
                return Err(QueryExecErr::internal("Expected MapValue state"));
            },
        }
        assert(self@.state =~= old(self)@.state.take(old(self)@.state.len() - 1));
        match self.pop_state() {
            Some(State::MapKeyStr(name)) => {
                self.exit_name(Some(name.as_str()));
            },
            _ => {
                return Err(QueryExecErr::internal("Expected MapKeyStr state"));
            },
        }
        assert(self@.state =~= old(self)@.state.take(old(self)@.state.len() - 2));
        match self.pop_state() {
            Some(State::MapKey) => {
                assert(self@.state =~= old(self)@.state.take(old(self)@.state.len() - 3));
                Ok(())
            },
            _ => Err(QueryExecErr::internal("Expected MapKey state")),
        }
    }

    /// Takes a boolean, which is recorded if the traversal stands in a match.
    pub fn serialize_bool(&mut self, v: bool) -> (r: Result<(), QueryExecErr>)
        requires
            old(self)@.wf(),
        ensures
            r is Ok,
            final(self)@ == old(self)@.offer(Json::Bool(v)),
            final(self)@.wf(),
    {
        self.possible_result(&Primitive::Bool(v))
    }

    /// Takes a number, which is recorded if the traversal stands in a match.
    pub fn serialize_i8(&mut self, v: i8) -> (r: Result<(), QueryExecErr>)
        requires
            old(self)@.wf(),
        ensures
            r is Ok,
            final(self)@ == old(self)@.offer(Json::Number(v as int)),
            final(self)@.wf(),
    {
        self.possible_result(&Primitive::Signed(v as i64))
    }

    /// Takes a number, which is recorded if the traversal stands in a match.
    pub fn serialize_i16(&mut self, v: i16) -> (r: Result<(), QueryExecErr>)
        requires
            old(self)@.wf(),
        ensures
            r is Ok,
            final(self)@ == old(self)@.offer(Json::Number(v as int)),
            final(self)@.wf(),
    {
        self.possible_result(&Primitive::Signed(v as i64))
    }

    /// Takes a number, which is recorded if the traversal stands in a match.
    pub fn serialize_i32(&mut self, v: i32) -> (r: Result<(), QueryExecErr>)
        requires
            old(self)@.wf(),
        ensures
            r is Ok,
            final(self)@ == old(self)@.offer(Json::Number(v as int)),
            final(self)@.wf(),
    {
        self.possible_result(&Primitive::Signed(v as i64))
    }

    /// Takes a number, which is recorded if the traversal stands in a match.
    pub fn serialize_i64(&mut self, v: i64) -> (r: Result<(), QueryExecErr>)
        requires
            old(self)@.wf(),
        ensures
            r is Ok,
            final(self)@ == old(self)@.offer(Json::Number(v as int)),
            final(self)@.wf(),
    {
        self.possible_result(&Primitive::Signed(v))
    }

    /// Takes a number, which is recorded if the traversal stands in a match.
    pub fn serialize_u8(&mut self, v: u8) -> (r: Result<(), QueryExecErr>)
        requires
            old(self)@.wf(),
        ensures
            r is Ok,
            final(self)@ == old(self)@.offer(Json::Number(v as int)),
            final(self)@.wf(),
    {
        self.possible_result(&Primitive::Unsigned(v as u64))
    }

    /// Takes a number, which is recorded if the traversal stands in a match.
    pub fn serialize_u16(&mut self, v: u16) -> (r: Result<(), QueryExecErr>)
        requires
            old(self)@.wf(),
        ensures
            r is Ok,
            final(self)@ == old(self)@.offer(Json::Number(v as int)),
            final(self)@.wf(),
    {
        self.possible_result(&Primitive::Unsigned(v as u64))
    }

    /// Takes a number, which is recorded if the traversal stands in a match.
    pub fn serialize_u32(&mut self, v: u32) -> (r: Result<(), QueryExecErr>)
        requires
            old(self)@.wf(),
        ensures
            r is Ok,
            final(self)@ == old(self)@.offer(Json::Number(v as int)),
            final(self)@.wf(),
    {
        self.possible_result(&Primitive::Unsigned(v as u64))
    }

    /// Takes a number, which is recorded if the traversal stands in a match.
    pub fn serialize_u64(&mut self, v: u64) -> (r: Result<(), QueryExecErr>)
        requires
            old(self)@.wf(),
        ensures
            r is Ok,
            final(self)@ == old(self)@.offer(Json::Number(v as int)),
            final(self)@.wf(),
    {
        self.possible_result(&Primitive::Unsigned(v))
    }

    /// Takes a character: it counts as the string of that one character.
    pub fn serialize_char(&mut self, v: char) -> (r: Result<(), QueryExecErr>)
        requires
            old(self)@.wf(),
        ensures
            r is Ok,
            final(self)@ == old(self)@.offer(Json::Text(seq![v])),
            final(self)@.wf(),
    {
        self.possible_result(&Primitive::Char(v))
    }

    /// Takes an absent optional value: it counts as `null`.
    pub fn serialize_none(&mut self) -> (r: Result<(), QueryExecErr>)
        requires
            old(self)@.wf(),
        ensures
            r is Ok,
            final(self)@ == old(self)@.offer(Json::Null),
            final(self)@.wf(),
    {
        self.serialize_unit()
    }

    /// Takes the unit value: it counts as `null`.
    pub fn serialize_unit(&mut self) -> (r: Result<(), QueryExecErr>)
        requires
            old(self)@.wf(),
        ensures
            r is Ok,
            final(self)@ == old(self)@.offer(Json::Null),
            final(self)@.wf(),
    {
        self.possible_result(&Primitive::Unit)
    }

    /// Takes a struct without fields: it counts as `null`.
    pub fn serialize_unit_struct(&mut self) -> (r: Result<(), QueryExecErr>)
        requires
            old(self)@.wf(),
        ensures
            r is Ok,
            final(self)@ == old(self)@.offer(Json::Null),
            final(self)@.wf(),
    {
        self.serialize_unit()
    }

    /// Takes a variant without payload: it counts as the string of its name.
    pub fn serialize_unit_variant(&mut self, variant: &str) -> (r: Result<(), QueryExecErr>)
        requires
            old(self)@.wf(),
        ensures
            final(self)@.wf(),
            match takes_text(old(self)@, variant@) {
                Ok(next) => r is Ok && final(self)@ == next,
                Err(failure) => r is Err && r->Err_0@ == failure && final(self)@ == old(self)@,
            },
    {
        self.serialize_str(variant)
    }

    /// Takes a string: the key of the map entry whose key is awaited, or
    /// else a value like any other. A second key for one entry is a failure.
    pub fn serialize_str(&mut self, v: &str) -> (r: Result<(), QueryExecErr>)
        requires
            old(self)@.wf(),
        ensures
            final(self)@.wf(),
            match takes_text(old(self)@, v@) {
                Ok(next) => r is Ok && final(self)@ == next,
                Err(failure) => r is Err && r->Err_0@ == failure && final(self)@ == old(self)@,
            },
    {
        if self.state.len() == 0 {
            return self.possible_result(&Primitive::Text(v));
        }
        let awaited = match &self.state[self.state.len() - 1] {
            State::MapKey => 0u8,
            State::MapKeyStr(_) => 1u8,
            _ => 2u8,
        };
        if awaited == 0 {
            self.push_state(State::MapKeyStr(v.to_owned()));
            self.must_enter_name(v);
            Ok(())
        } else if awaited == 1 {
            Err(QueryExecErr::internal("Shouldn't see multiple str for the same key!"))
        } else {
            self.possible_result(&Primitive::Text(v))
        }
    }
}

/// The one value among those found, none if none was found, or the failure
/// of having found several.
pub open spec fn sole(found: Seq<Json>) -> Result<Option<Json>, Failure> {
    if found.len() == 0 {
        Ok(None)
    } else if found.len() == 1 {
        Ok(Some(found[0]))
    } else {
        Err(Failure::TwoMatchingPaths)
    }
}

/// The values found, each with the steps that lead to it from the place
/// that the query names: none.
pub open spec fn all(found: Seq<Json>) -> Seq<(Seq<Step>, Json)> {
    found.map_values(|value: Json| (Seq::<Step>::empty(), value))
}

/// The models of what a search found.
pub open spec fn hits(found: Seq<(Vec<QueryElement>, serde_json::Value)>) -> Seq<
    (Seq<Step>, Json),
> {
    found.map_values(
        |hit: (Vec<QueryElement>, serde_json::Value)| (steps(hit.0@), json_view(hit.1)),
    )
}

/// What an execution gave, as a model.
pub open spec fn answer(r: Result<Option<serde_json::Value>, QueryExecErr>) -> Result<
    Option<Json>,
    Failure,
> {
    match r {
        Ok(Some(value)) => Ok(Some(json_view(value))),
        Ok(None) => Ok(None),
        Err(failure) => Err(failure@),
    }
}

/// The machine after a map entry was ended, or after that was tried. Up to
/// three markers are taken from the stack: the first must be that of the
/// value, the second that of the known key, with which the traversal leaves
/// the key, the third that of the entry. A marker that is not the one it
/// must be is taken too, and ends the taking.
pub open spec fn entry_ended(machine: Machine) -> Machine {
    let state = machine.state;
    if !(state.len() >= 1 && state[state.len() - 1] is MapValue) {
        machine.unmark()
    } else if !(state.len() >= 2 && state[state.len() - 2] is MapKeyStr) {
        machine.unmark().unmark()
    } else {
        machine.unmark().unmark().leave().unmark()
    }
}

/// What is left of the stack of containers when a map entry ends, or why
/// the entry cannot end here.
pub open spec fn ends_entry(state: Seq<Marker>) -> Result<Seq<Marker>, Failure> {
    if !(state.len() >= 1 && state[state.len() - 1] is MapValue) {
        Err(Failure::InternalError(expected_value()))
    } else if !(state.len() >= 2 && state[state.len() - 2] is MapKeyStr) {
        Err(Failure::InternalError(expected_key_text()))
    } else if !(state.len() >= 3 && state[state.len() - 3] is MapKey) {
        Err(Failure::InternalError(expected_key()))
    } else {
        Ok(state.take(state.len() - 3))
    }
}

/// The machine after it took a string, or why it cannot take one.
pub open spec fn takes_text(machine: Machine, text: Seq<char>) -> Result<Machine, Failure> {
    if machine.state.len() > 0 && machine.state.last() is MapKey {
        Ok(machine.mark(Marker::MapKeyStr(text)).key(text).enter(Step::Field(text)))
    } else if machine.state.len() > 0 && machine.state.last() is MapKeyStr {
        Err(Failure::InternalError(key_twice()))
    } else {
        Ok(machine.offer(Json::Text(text)))
    }
}

/// Whether two strings are the same.
fn same_text(a: &str, b: &str) -> (same: bool)
    ensures
        same == (a@ == b@),
{
    a.to_owned() == b.to_owned()
}

} // verus!
