//! Path elements and queries.

use crate::document::{Document, Tree};
use crate::json::Json;
use crate::output::{lemma_accept_all_list, ElementKind, Frame};
use crate::query_executor::{
    all, answer, hits, sole, Failure, QueryExecErr, QueryExecutor,
};
use crate::query_parser::{
    is_name_char, lemma_digit_run_is, lemma_name_run_is, next_spec, parse_from, parse_query,
    parse_spec, ParseFault, QueryParseErr,
};
use crate::text::{decimal_digits, lemma_decimal_round_trip, push_decimal};
use crate::traversal::walk;
use vstd::prelude::*;

verus! {

/// One step of a query: a named field or a position in a sequence.
#[derive(Debug, Hash)]
pub enum QueryElement {
    Field(String),
    ArrayItem(usize),
}

/// Mathematical model of a [`QueryElement`].
pub enum Step {
    Field(Seq<char>),
    Index(nat),
}

impl View for QueryElement {
    type V = Step;

    open spec fn view(&self) -> Step {
        match self {
            QueryElement::Field(name) => Step::Field(name@),
            QueryElement::ArrayItem(index) => Step::Index(*index as nat),
        }
    }
}

/// The steps that a list of elements stands for.
pub open spec fn steps(elements: Seq<QueryElement>) -> Seq<Step> {
    elements.map_values(|e: QueryElement| e@)
}

impl Clone for QueryElement {
    fn clone(&self) -> (e: Self)
        ensures
            e@ == self@,
    {
        match self {
            QueryElement::Field(name) => QueryElement::Field(name.clone()),
            QueryElement::ArrayItem(index) => QueryElement::ArrayItem(*index),
        }
    }
}

impl PartialEq for QueryElement {
    fn eq(&self, other: &Self) -> (b: bool) {
        match self {
            QueryElement::Field(a) => match other {
                QueryElement::Field(b) => *a == *b,
                QueryElement::ArrayItem(_) => false,
            },
            QueryElement::ArrayItem(a) => match other {
                QueryElement::Field(_) => false,
                QueryElement::ArrayItem(b) => *a == *b,
            },
        }
    }
}

impl vstd::std_specs::cmp::PartialEqSpecImpl for QueryElement {
    open spec fn obeys_eq_spec() -> bool {
        true
    }

    open spec fn eq_spec(&self, other: &Self) -> bool {
        self@ == other@
    }
}

impl Eq for QueryElement {}

impl QueryElement {
    pub fn field(field: &str) -> (e: Self)
        ensures
            e@ == Step::Field(field@),
    {
        QueryElement::Field(field.to_owned())
    }

    pub fn array_item(index: usize) -> (e: Self)
        ensures
            e@ == Step::Index(index as nat),
    {
        QueryElement::ArrayItem(index)
    }
}

/// How one step is written in a path.
pub open spec fn render_step(step: Step) -> Seq<char> {
    match step {
        Step::Field(name) => seq!['.'] + name,
        Step::Index(index) => seq!['['] + decimal_digits(index) + seq![']'],
    }
}

/// How a path is written: its steps one after the other.
pub open spec fn render(path: Seq<Step>) -> Seq<char>
    decreases path.len(),
{
    if path.len() == 0 {
        Seq::empty()
    } else {
        render_step(path[0]) + render(path.skip(1))
    }
}

/// Whether a step, once written, reads back as itself: a field name must
/// not be empty and must hold only name characters, an index must fit.
pub open spec fn step_writable(step: Step) -> bool {
    match step {
        Step::Field(name) => name.len() > 0 && forall|i: int|
            0 <= i < name.len() ==> is_name_char(#[trigger] name[i]),
        Step::Index(index) => index <= usize::MAX,
    }
}

/// Whether every step of a path is writable.
pub open spec fn writable(path: Seq<Step>) -> bool {
    forall|i: int| 0 <= i < path.len() ==> step_writable(#[trigger] path[i])
}

/// A written path grows at its end by the step that is added.
pub proof fn lemma_render_push(path: Seq<Step>, step: Step)
    ensures
        render(path.push(step)) == render(path) + render_step(step),
    decreases path.len(),
{
    let longer = path.push(step);
    if path.len() == 0 {
        assert(longer.skip(1) =~= Seq::<Step>::empty());
        assert(render(longer.skip(1)) =~= Seq::<char>::empty());
        assert(render(path) =~= Seq::<char>::empty());
        assert(render(longer) =~= render(path) + render_step(step));
    } else {
        assert(longer.skip(1) =~= path.skip(1).push(step));
        lemma_render_push(path.skip(1), step);
        assert(render(longer) =~= render(path) + render_step(step));
    }
}

/// A written path is empty or starts with `.` or `[`.
pub proof fn lemma_render_head(path: Seq<Step>)
    ensures
        path.len() == 0 ==> render(path).len() == 0,
        path.len() > 0 ==> render(path).len() > 0 && (render(path)[0] == '.' || render(path)[0]
            == '['),
{
    if path.len() > 0 {
        let head = render_step(path[0]);
        assert(head.len() > 0);
        assert(render(path)[0] == head[0]);
    }
}

/// A writable step that stands before the start of another element, or at
/// the end, is read back as itself and no further.
pub proof fn lemma_read_step(step: Step, tail: Seq<char>, at: nat)
    requires
        step_writable(step),
        tail.len() > 0 ==> tail[0] == '.' || tail[0] == '[',
    ensures
        next_spec(render_step(step) + tail, at) == Ok::<Option<(Step, nat)>, ParseFault>(
            Some((step, render_step(step).len())),
        ),
        (render_step(step) + tail).skip(render_step(step).len() as int) == tail,
{
    let text = render_step(step) + tail;
    let body = text.skip(1);
    assert(text.skip(render_step(step).len() as int) =~= tail);
    match step {
        Step::Field(name) => {
            assert(body =~= name + tail);
            assert forall|i: int| 0 <= i < name.len() implies is_name_char(#[trigger] body[i]) by {
                assert(body[i] == name[i]);
            }
            lemma_name_run_is(body, name.len());
            assert(body.take(name.len() as int) =~= name);
        },
        Step::Index(index) => {
            let digits = decimal_digits(index);
            lemma_decimal_round_trip(index);
            assert(body =~= digits + seq![']'] + tail);
            assert forall|i: int| 0 <= i < digits.len() implies crate::text::is_digit(
                #[trigger] body[i],
            ) by {
                assert(body[i] == digits[i]);
            }
            assert(body[digits.len() as int] == ']');
            lemma_digit_run_is(body, digits.len());
            assert(body.take(digits.len() as int) =~= digits);
        },
    }
}

/// A writable path, once written, is read back as itself, wherever in the
/// input it starts.
pub proof fn lemma_parse_render(path: Seq<Step>, at: nat)
    requires
        writable(path),
    ensures
        parse_from(render(path), at) == Ok::<Seq<Step>, ParseFault>(path),
    decreases path.len(),
{
    if path.len() == 0 {
        assert(path =~= Seq::<Step>::empty());
    } else {
        let rest = path.skip(1);
        let tail = render(rest);
        let used = render_step(path[0]).len();
        lemma_render_head(rest);
        lemma_read_step(path[0], tail, at);
        assert(writable(rest)) by {
            assert forall|i: int| 0 <= i < rest.len() implies step_writable(#[trigger] rest[i]) by {
                assert(rest[i] == path[i + 1]);
            }
        }
        lemma_parse_render(rest, at + used);
        assert(seq![path[0]] + rest =~= path);
    }
}

/// What the execution of `query` on the document `tree` gives: the one value
/// that the traversal finds, `None` if it finds none, or a failure, which is
/// that of an empty query, that of the traversal, or that of having found
/// more than one value.
pub open spec fn execute_spec(query: Seq<Step>, tree: Tree) -> Result<Option<Json>, Failure> {
    if query.len() == 0 {
        Err(Failure::EmptyQuery)
    } else {
        match walk(tree, Seq::empty(), query) {
            Err(failure) => Err(failure),
            Ok(found) => sole(found),
        }
    }
}

/// What the search for `query` in the document `tree` gives: every value
/// that the traversal finds, in the order of the traversal, or a failure,
/// which is that of an empty query or that of the traversal.
pub open spec fn search_spec(query: Seq<Step>, tree: Tree) -> Result<
    Seq<(Seq<Step>, Json)>,
    Failure,
> {
    if query.len() == 0 {
        Err(Failure::EmptyQuery)
    } else {
        match walk(tree, Seq::empty(), query) {
            Err(failure) => Err(failure),
            Ok(found) => Ok(all(found)),
        }
    }
}

/// What a search gave, as a model.
pub open spec fn search_answer(
    r: Result<Vec<(Vec<QueryElement>, serde_json::Value)>, QueryExecErr>,
) -> Result<Seq<(Seq<Step>, Json)>, Failure> {
    match r {
        Ok(found) => Ok(hits(found@)),
        Err(failure) => Err(failure@),
    }
}

/// A path query: the steps that lead from the root of a document to the
/// value that is wanted.
#[derive(Debug)]
pub struct JSONQuery {
    /// Field names and sequence positions, outermost first.
    pub elements: Vec<QueryElement>,
}

impl View for JSONQuery {
    type V = Seq<Step>;

    open spec fn view(&self) -> Seq<Step> {
        steps(self.elements@)
    }
}

/// A copy of a list of elements.
pub fn clone_elements(elements: &Vec<QueryElement>) -> (copy: Vec<QueryElement>)
    ensures
        steps(copy@) == steps(elements@),
{
    let mut copy: Vec<QueryElement> = Vec::new();
    let mut i: usize = 0;
    while i < elements.len()
        invariant
            i <= elements.len(),
            copy.len() == i,
            forall|j: int| 0 <= j < i ==> copy[j]@ == elements[j]@,
        decreases elements.len() - i,
    {
        copy.push(elements[i].clone());
        i = i + 1;
    }
    assert(steps(copy@) =~= steps(elements@));
    copy
}

impl Clone for JSONQuery {
    fn clone(&self) -> (q: Self)
        ensures
            q@ == self@,
    {
        JSONQuery { elements: clone_elements(&self.elements) }
    }
}

impl PartialEq for JSONQuery {
    fn eq(&self, other: &Self) -> (b: bool) {
        if self.elements.len() != other.elements.len() {
            assert(self@.len() != other@.len());
            return false;
        }
        let mut i: usize = 0;
        while i < self.elements.len()
            invariant
                i <= self.elements.len(),
                self.elements.len() == other.elements.len(),
                forall|j: int| 0 <= j < i ==> self@[j] == other@[j],
            decreases self.elements.len() - i,
        {
            if self.elements[i] != other.elements[i] {
                assert(self@[i as int] != other@[i as int]);
                return false;
            }
            i = i + 1;
        }
        assert(self@ =~= other@);
        true
    }
}

impl vstd::std_specs::cmp::PartialEqSpecImpl for JSONQuery {
    open spec fn obeys_eq_spec() -> bool {
        true
    }

    open spec fn eq_spec(&self, other: &Self) -> bool {
        self@ == other@
    }
}

impl Eq for JSONQuery {}

impl QueryElement {
    /// The element as it is written in a path: `.name` or `[index]`.
    pub fn to_string(&self) -> (text: String)
        ensures
            text@ == render_step(self@),
    {
        let mut text = String::new();
        self.write_to(&mut text);
        assert(text@ =~= render_step(self@));
        text
    }

    /// Appends the element, as it is written in a path, to `out`.
    pub fn write_to(&self, out: &mut String)
        ensures
            final(out)@ == old(out)@ + render_step(self@),
    {
        match self {
            QueryElement::Field(name) => {
                out.push('.');
                out.append(name.as_str());
                assert(final(out)@ =~= old(out)@ + render_step(self@));
            },
            QueryElement::ArrayItem(index) => {
                out.push('[');
                push_decimal(out, *index);
                out.push(']');
                assert(final(out)@ =~= old(out)@ + render_step(self@));
            },
        }
    }
}

impl JSONQuery {
    /// A query made of the given elements.
    pub fn new(elements: Vec<QueryElement>) -> (q: Self)
        ensures
            q.elements == elements,
    {
        JSONQuery { elements }
    }

    /// Reads a query from its written form, such as `.field.array[8]`.
    pub fn parse(input: &str) -> (r: Result<Self, QueryParseErr>)
        ensures
            match parse_spec(input@) {
                Ok(path) => r is Ok && r->Ok_0@ == path,
                Err(fault) => r is Err && r->Err_0@ == fault,
            },
    {
        match parse_query(input) {
            Ok(elements) => Ok(JSONQuery::new(elements)),
            Err(fault) => Err(fault),
        }
    }

    /// A query of one element.
    pub fn single(q: QueryElement) -> (query: Self)
        ensures
            query.elements@ == seq![q],
    {
        let mut elements: Vec<QueryElement> = Vec::new();
        elements.push(q);
        JSONQuery::new(elements)
    }

    /// The query in its written form, which `parse` reads.
    pub fn to_string(&self) -> (text: String)
        ensures
            text@ == render(self@),
    {
        let mut text = String::new();
        let mut i: usize = 0;
        assert(self@.take(0) =~= Seq::<Step>::empty());
        while i < self.elements.len()
            invariant
                i <= self.elements.len(),
                text@ == render(self@.take(i as int)),
            decreases self.elements.len() - i,
        {
            proof {
                lemma_render_push(self@.take(i as int), self@[i as int]);
                assert(self@.take(i + 1) =~= self@.take(i as int).push(self@[i as int]));
            }
            self.elements[i].write_to(&mut text);
            i = i + 1;
        }
        assert(self@.take(i as int) =~= self@);
        text
    }

    /// Executes the query on a document: the value that stands at the path
    /// of the query, if there is one.
    pub fn execute(&self, target: &Document) -> (r: Result<Option<serde_json::Value>, QueryExecErr>)
        ensures
            answer(r) == execute_spec(self@, target@),
    {
        let mut runner = match QueryExecutor::new(self) {
            Ok(runner) => runner,
            Err(failure) => {
                return Err(failure);
            },
        };
        let ghost start = runner@;
        match target.serialize(&mut runner) {
            Ok(()) => {},
            Err(failure) => {
                return Err(failure);
            },
        }
        proof {
            let found = walk(target@, Seq::empty(), self@)->Ok_0;
            lemma_accept_all_list(Frame::fresh(ElementKind::Root), found);
            assert(Seq::<Json>::empty() + found =~= found);
        }
        runner.get_result()
    }

    /// Searches a document for the query: every value that stands at the
    /// path of the query, in the order of the traversal. Where `execute`
    /// fails because several values stand there, `search` gives them all.
    pub fn search(&self, target: &Document) -> (r: Result<
        Vec<(Vec<QueryElement>, serde_json::Value)>,
        QueryExecErr,
    >)
        ensures
            search_answer(r) == search_spec(self@, target@),
    {
        let mut runner = match QueryExecutor::new(self) {
            Ok(runner) => runner,
            Err(failure) => {
                return Err(failure);
            },
        };
        match target.serialize(&mut runner) {
            Ok(()) => {},
            Err(failure) => {
                return Err(failure);
            },
        }
        proof {
            let found = walk(target@, Seq::empty(), self@)->Ok_0;
            lemma_accept_all_list(Frame::fresh(ElementKind::Root), found);
            assert(Seq::<Json>::empty() + found =~= found);
        }
        Ok(runner.get_results())
    }

    /// Executing a query twice on one document gives the same both times.
    pub proof fn law_execute_repeatable(
        self,
        target: Document,
        first: Result<Option<serde_json::Value>, QueryExecErr>,
        second: Result<Option<serde_json::Value>, QueryExecErr>,
    )
        requires
            answer(first) == execute_spec(self@, target@),
            answer(second) == execute_spec(self@, target@),
        ensures
            answer(first) == answer(second),
    {
    }

    /// Whether every field name of the query can be written down: it is not
    /// empty and holds no `.`, no `[` and no whitespace.
    pub open spec fn well_named(&self) -> bool {
        forall|i: int|
            0 <= i < self@.len() && (#[trigger] self@[i]) is Field ==> step_writable(self@[i])
    }

    /// Writing a query down and parsing what was written gives the query
    /// back, provided that its field names can be written down.
    pub proof fn law_parse_render(self)
        requires
            self.well_named(),
        ensures
            parse_spec(render(self@)) == Ok::<Seq<Step>, ParseFault>(self@),
    {
        assert(writable(self@)) by {
            assert forall|i: int| 0 <= i < self@.len() implies step_writable(
                #[trigger] self@[i],
            ) by {
                assert(self@[i] == self.elements@[i]@);
            }
        }
        lemma_parse_render(self@, 0);
    }
}

} // verus!
