//! The path grammar and its parser.
//!
//! A path is a run of elements; an element is `.` and a field name, or `[`,
//! decimal digits and `]`. A field name is a maximal run of characters other
//! than `.`, `[` and whitespace.

use crate::query::{QueryElement, Step, steps};
use crate::text::{
    decimal_value, is_decimal_digit, is_digit, is_space, is_whitespace, lemma_decimal_value_push,
    push_digit,
};
use vstd::prelude::*;

verus! {

/// Why a path could not be parsed.
///
/// Every `usize` is an index into the input, counted in characters.
#[derive(Debug, PartialEq, Eq, Clone)]
pub enum QueryParseErr {
    /// The character at this index stands where an element must start, and
    /// is neither `.` nor `[`.
    BadCharacter(usize),
    /// A `.` is followed by `.`, by `[` or by the end of the input.
    MissingField,
    /// A `[` is followed by `]` or by the end of the input; the index is
    /// that of the place where the first digit should stand.
    MissingNumber(usize),
    /// The character at this index stands between `[` and `]` and is no
    /// decimal digit.
    BadArray(usize),
    /// The character at this index is whitespace in a field name.
    BadField(usize),
    /// The input ended where this character was expected.
    UnexpectedEOF(char),
    /// The character at this index is not the one that was expected.
    Unexpected(usize, char),
    /// The digits that start at this index denote a number that is too
    /// large for an index; the text says so.
    BadIndex(usize, String),
}

/// Mathematical model of a [`QueryParseErr`].
pub enum ParseFault {
    BadCharacter(nat),
    MissingField,
    MissingNumber(nat),
    BadArray(nat),
    BadField(nat),
    UnexpectedEOF(char),
    Unexpected(nat, char),
    BadIndex(nat, Seq<char>),
}

impl View for QueryParseErr {
    type V = ParseFault;

    open spec fn view(&self) -> ParseFault {
        match self {
            QueryParseErr::BadCharacter(at) => ParseFault::BadCharacter(*at as nat),
            QueryParseErr::MissingField => ParseFault::MissingField,
            QueryParseErr::MissingNumber(at) => ParseFault::MissingNumber(*at as nat),
            QueryParseErr::BadArray(at) => ParseFault::BadArray(*at as nat),
            QueryParseErr::BadField(at) => ParseFault::BadField(*at as nat),
            QueryParseErr::UnexpectedEOF(wanted) => ParseFault::UnexpectedEOF(*wanted),
            QueryParseErr::Unexpected(at, wanted) => ParseFault::Unexpected(*at as nat, *wanted),
            QueryParseErr::BadIndex(at, detail) => ParseFault::BadIndex(*at as nat, detail@),
        }
    }
}

/// What `BadIndex` says of a number that does not fit.
pub open spec fn overflow_text() -> Seq<char> {
    "number too large to fit in target type"@
}

/// Whether `c` may stand in a field name.
pub open spec fn is_name_char(c: char) -> bool {
    c != '.' && c != '[' && !is_space(c)
}

/// Length of the longest prefix of `s` made of decimal digits.
pub open spec fn digit_run(s: Seq<char>) -> nat
    decreases s.len(),
{
    if s.len() > 0 && is_digit(s[0]) {
        1 + digit_run(s.skip(1))
    } else {
        0
    }
}

/// Length of the longest prefix of `s` made of field name characters.
pub open spec fn name_run(s: Seq<char>) -> nat
    decreases s.len(),
{
    if s.len() > 0 && is_name_char(s[0]) {
        1 + name_run(s.skip(1))
    } else {
        0
    }
}

/// An index element at the head of `s`, with the number of characters it
/// takes, where `s` starts at index `at` of the whole input.
pub open spec fn read_array_spec(s: Seq<char>, at: nat) -> Result<(Step, nat), ParseFault> {
    if s.len() == 0 {
        Err(ParseFault::UnexpectedEOF('['))
    } else if s[0] != '[' {
        Err(ParseFault::Unexpected(at, '['))
    } else {
        let body = s.skip(1);
        let n = digit_run(body);
        if n < body.len() && body[n as int] != ']' {
            Err(ParseFault::BadArray(at + 1 + n))
        } else if n == 0 {
            Err(ParseFault::MissingNumber(at + 1))
        } else if n == body.len() {
            Err(ParseFault::UnexpectedEOF(']'))
        } else if decimal_value(body.take(n as int)) > usize::MAX {
            Err(ParseFault::BadIndex(at + 1, overflow_text()))
        } else {
            Ok((Step::Index(decimal_value(body.take(n as int))), n + 2))
        }
    }
}

/// A field element at the head of `s`, with the number of characters it
/// takes, where `s` starts at index `at` of the whole input.
pub open spec fn read_field_spec(s: Seq<char>, at: nat) -> Result<(Step, nat), ParseFault> {
    if s.len() == 0 {
        Err(ParseFault::UnexpectedEOF('.'))
    } else if s[0] != '.' {
        Err(ParseFault::Unexpected(at, '.'))
    } else {
        let body = s.skip(1);
        let n = name_run(body);
        if n < body.len() && is_space(body[n as int]) {
            Err(ParseFault::BadField(at + 1 + n))
        } else if n == 0 {
            Err(ParseFault::MissingField)
        } else {
            Ok((Step::Field(body.take(n as int)), n + 1))
        }
    }
}

/// The element at the head of `s`, if `s` is not empty.
pub open spec fn next_spec(s: Seq<char>, at: nat) -> Result<Option<(Step, nat)>, ParseFault> {
    if s.len() == 0 {
        Ok(None)
    } else if s[0] == '[' {
        match read_array_spec(s, at) {
            Ok(found) => Ok(Some(found)),
            Err(fault) => Err(fault),
        }
    } else if s[0] == '.' {
        match read_field_spec(s, at) {
            Ok(found) => Ok(Some(found)),
            Err(fault) => Err(fault),
        }
    } else {
        Err(ParseFault::BadCharacter(at))
    }
}

/// `first` followed by what the rest of the input gave.
pub open spec fn prepend(first: Seq<Step>, rest: Result<Seq<Step>, ParseFault>) -> Result<
    Seq<Step>,
    ParseFault,
> {
    match rest {
        Ok(more) => Ok(first + more),
        Err(fault) => Err(fault),
    }
}

/// The elements of the path `s`, which starts at index `at` of the whole
/// input, or the first fault met from left to right.
pub open spec fn parse_from(s: Seq<char>, at: nat) -> Result<Seq<Step>, ParseFault>
    decreases s.len(),
{
    match next_spec(s, at) {
        Err(fault) => Err(fault),
        Ok(None) => Ok(Seq::empty()),
        Ok(Some((step, used))) => {
            if 0 < used <= s.len() {
                prepend(seq![step], parse_from(s.skip(used as int), at + used))
            } else {
                Ok(seq![step])
            }
        },
    }
}

/// The elements of the path `s`, or the first fault met from left to right.
pub open spec fn parse_spec(s: Seq<char>) -> Result<Seq<Step>, ParseFault> {
    parse_from(s, 0)
}

/// A run of digits is no longer than the text it stands in.
pub proof fn lemma_digit_run_bound(s: Seq<char>)
    ensures
        digit_run(s) <= s.len(),
    decreases s.len(),
{
    if s.len() > 0 && is_digit(s[0]) {
        lemma_digit_run_bound(s.skip(1));
    }
}

/// A run of name characters is no longer than the text it stands in.
pub proof fn lemma_name_run_bound(s: Seq<char>)
    ensures
        name_run(s) <= s.len(),
    decreases s.len(),
{
    if s.len() > 0 && is_name_char(s[0]) {
        lemma_name_run_bound(s.skip(1));
    }
}

/// Digits up to the first character that is none make the run of digits.
pub proof fn lemma_digit_run_is(s: Seq<char>, n: nat)
    requires
        n <= s.len(),
        forall|i: int| 0 <= i < n ==> is_digit(#[trigger] s[i]),
        n < s.len() ==> !is_digit(s[n as int]),
    ensures
        digit_run(s) == n,
    decreases n,
{
    if n > 0 {
        let t = s.skip(1);
        assert forall|i: int| 0 <= i < n - 1 implies is_digit(#[trigger] t[i]) by {
            assert(t[i] == s[i + 1]);
        }
        lemma_digit_run_is(t, (n - 1) as nat);
    }
}

/// Name characters up to the first character that is none make the run of
/// name characters.
pub proof fn lemma_name_run_is(s: Seq<char>, n: nat)
    requires
        n <= s.len(),
        forall|i: int| 0 <= i < n ==> is_name_char(#[trigger] s[i]),
        n < s.len() ==> !is_name_char(s[n as int]),
    ensures
        name_run(s) == n,
    decreases n,
{
    if n > 0 {
        let t = s.skip(1);
        assert forall|i: int| 0 <= i < n - 1 implies is_name_char(#[trigger] t[i]) by {
            assert(t[i] == s[i + 1]);
        }
        lemma_name_run_is(t, (n - 1) as nat);
    }
}

/// An element that is read takes at least one character and no more than
/// there are.
pub proof fn lemma_next_advances(s: Seq<char>, at: nat)
    ensures
        next_spec(s, at) matches Ok(Some((_, used))) ==> 0 < used <= s.len(),
{
    if s.len() > 0 {
        lemma_digit_run_bound(s.skip(1));
        lemma_name_run_bound(s.skip(1));
    }
}

/// How far reading an index element at the head of `s` moves the cursor,
/// whether or not there is one: past `[`, the digits and the character that
/// ends them, which may be the end of the input; past the first character,
/// or the end of the input, where that is no `[`.
pub open spec fn read_array_moves(s: Seq<char>) -> nat {
    if s.len() == 0 || s[0] != '[' {
        1
    } else {
        digit_run(s.skip(1)) + 2
    }
}

/// How far reading a field element at the head of `s` moves the cursor,
/// whether or not there is one: past `.` and the name characters; past the
/// first character, or the end of the input, where that is no `.`.
pub open spec fn read_field_moves(s: Seq<char>) -> nat {
    if s.len() == 0 || s[0] != '.' {
        1
    } else {
        name_run(s.skip(1)) + 1
    }
}

/// How far reading the next element at the head of `s` moves the cursor: not
/// at all where `s` is empty or starts no element.
pub open spec fn next_moves(s: Seq<char>) -> nat {
    if s.len() == 0 {
        0
    } else if s[0] == '[' {
        read_array_moves(s)
    } else if s[0] == '.' {
        read_field_moves(s)
    } else {
        0
    }
}

/// A cursor over the characters of a path. Reading at the end of the input
/// moves the cursor like any other reading, so it may stand past the end.
pub struct Parser {
    data: Vec<char>,
    position: usize,
}

impl Parser {
    /// The index one past the end of the input fits a `usize`.
    #[verifier::type_invariant]
    spec fn roomy(&self) -> bool {
        self.data.len() < usize::MAX
    }

    /// The whole input.
    pub closed spec fn input(&self) -> Seq<char> {
        self.data@
    }

    /// Index of the next character to read; past the end of the input
    /// there is none.
    pub closed spec fn offset(&self) -> nat {
        self.position as nat
    }

    /// What is left to read.
    pub open spec fn rest(&self) -> Seq<char> {
        if self.offset() <= self.input().len() {
            self.input().skip(self.offset() as int)
        } else {
            Seq::empty()
        }
    }

    /// A cursor at the start of `input`.
    pub fn from(input: &str) -> (parser: Parser)
        ensures
            parser.input() == input@,
            parser.offset() == 0,
    {
        let mut data: Vec<char> = Vec::new();
        for c in it: input.chars()
            invariant
                data@ == it.seq().take(it.index() as int),
                it.seq() == input@,
        {
            data.push(c);
        }
        // The cursor may come to stand one past the end. A vector that takes
        // one character more has an index to spare for that.
        data.push(' ');
        let room = data.len();
        let _ = data.pop();
        assert(data@ =~= input@);
        assert(data@.len() + 1 == room);
        Parser { data, position: 0 }
    }

    /// Index of the next character to read.
    pub fn position(&self) -> (at: usize)
        ensures
            at == self.offset(),
    {
        self.position
    }

    /// The next character, if any is left. Where one is left, the cursor
    /// can move on.
    pub fn peek(&self) -> (found: Option<char>)
        ensures
            found == if self.offset() < self.input().len() {
                Some(self.input()[self.offset() as int])
            } else {
                None
            },
            found is Some ==> self.offset() < usize::MAX,
    {
        if self.position < self.data.len() {
            Some(self.data[self.position])
        } else {
            None
        }
    }

    /// Reads the next character, if any is left. The cursor moves by one
    /// also where none is left.
    pub fn advance(&mut self) -> (found: Option<char>)
        requires
            old(self).offset() < usize::MAX,
        ensures
            final(self).input() == old(self).input(),
            final(self).offset() == old(self).offset() + 1,
            found == if old(self).offset() < old(self).input().len() {
                Some(old(self).input()[old(self).offset() as int])
            } else {
                None
            },
    {
        proof {
            use_type_invariant(&*self);
        }
        let found = self.peek();
        self.position += 1;
        found
    }

    /// Reads the next character, which must be `expected`. The cursor moves
    /// by one whatever is found, also at the end of the input.
    pub fn consume(&mut self, expected: char) -> (r: Result<(), QueryParseErr>)
        requires
            old(self).offset() < usize::MAX,
        ensures
            final(self).input() == old(self).input(),
            final(self).offset() == old(self).offset() + 1,
            r == (if old(self).rest().len() == 0 {
                Err::<(), QueryParseErr>(QueryParseErr::UnexpectedEOF(expected))
            } else if old(self).rest()[0] == expected {
                Ok::<(), QueryParseErr>(())
            } else {
                Err::<(), QueryParseErr>(
                    QueryParseErr::Unexpected(old(self).offset() as usize, expected),
                )
            }),
    {
        match self.advance() {
            None => Err(QueryParseErr::UnexpectedEOF(expected)),
            Some(actual) => {
                if actual == expected {
                    Ok(())
                } else {
                    Err(QueryParseErr::Unexpected(self.position - 1, expected))
                }
            },
        }
    }

    /// Reads `[`, decimal digits and `]`. The cursor moves past all that was
    /// read, also where the reading fails.
    pub fn read_array(&mut self) -> (r: Result<QueryElement, QueryParseErr>)
        requires
            old(self).offset() < usize::MAX,
        ensures
            final(self).input() == old(self).input(),
            final(self).offset() == old(self).offset() + read_array_moves(old(self).rest()),
            match read_array_spec(old(self).rest(), old(self).offset()) {
                Ok((step, _)) => r is Ok && r->Ok_0@ == step,
                Err(fault) => r is Err && r->Err_0@ == fault,
            },
    {
        let ghost whole = self.input();
        let ghost at = self.offset();
        let ghost body = self.rest().skip(1);
        proof {
            use_type_invariant(&*self);
        }
        match self.consume('[') {
            Ok(()) => {},
            Err(fault) => {
                return Err(fault);
            },
        }
        let mut value: Option<usize> = Some(0);
        let mut count: usize = 0;
        let start = self.position;
        let mut closed = false;
        let mut more = true;
        assert(body =~= whole.skip(start as int));
        assert(body.take(0) =~= Seq::<char>::empty());
        while more
            invariant
                self.input() == whole,
                whole == old(self).input(),
                whole.len() < usize::MAX,
                at == old(self).offset(),
                at < whole.len(),
                body == old(self).rest().skip(1),
                old(self).rest().len() > 0 && old(self).rest()[0] == '[',
                body == whole.skip(start as int),
                start == at + 1,
                start + count <= whole.len(),
                more ==> self.position == start + count && !closed,
                !more ==> self.position == start + count + 1,
                !more && closed ==> start + count < whole.len() && body[count as int] == ']',
                !more && !closed ==> start + count == whole.len(),
                forall|i: int| 0 <= i < count ==> is_digit(#[trigger] body[i]),
                value == (if decimal_value(body.take(count as int)) <= usize::MAX {
                    Some(decimal_value(body.take(count as int)) as usize)
                } else {
                    None
                }),
            decreases whole.len() - start - count + (if more { 1int } else { 0int }),
        {
            match self.advance() {
                None => {
                    more = false;
                },
                Some(ch) => {
                    assert(ch == body[count as int]);
                    if ch == ']' {
                        closed = true;
                        more = false;
                    } else if is_decimal_digit(ch) {
                        proof {
                            assert(body.take(count + 1) =~= body.take(count as int).push(ch));
                            lemma_decimal_value_push(body.take(count as int), ch);
                        }
                        value = push_digit(value, ch);
                        count = count + 1;
                    } else {
                        proof {
                            lemma_digit_run_is(body, count as nat);
                        }
                        return Err(QueryParseErr::BadArray(self.position - 1));
                    }
                },
            }
        }
        proof {
            lemma_digit_run_is(body, count as nat);
        }
        if count == 0 {
            Err(QueryParseErr::MissingNumber(start))
        } else if !closed {
            Err(QueryParseErr::UnexpectedEOF(']'))
        } else {
            match value {
                Some(index) => Ok(QueryElement::ArrayItem(index)),
                None => Err(
                    QueryParseErr::BadIndex(
                        start,
                        String::from_str("number too large to fit in target type"),
                    ),
                ),
            }
        }
    }

    /// Reads `.` and a field name. The cursor moves past all that was read,
    /// also where the reading fails; whitespace in the name is not read.
    pub fn read_field(&mut self) -> (r: Result<QueryElement, QueryParseErr>)
        requires
            old(self).offset() < usize::MAX,
        ensures
            final(self).input() == old(self).input(),
            final(self).offset() == old(self).offset() + read_field_moves(old(self).rest()),
            match read_field_spec(old(self).rest(), old(self).offset()) {
                Ok((step, _)) => r is Ok && r->Ok_0@ == step,
                Err(fault) => r is Err && r->Err_0@ == fault,
            },
    {
        let ghost whole = self.input();
        let ghost at = self.offset();
        let ghost body = self.rest().skip(1);
        proof {
            use_type_invariant(&*self);
        }
        match self.consume('.') {
            Ok(()) => {},
            Err(fault) => {
                return Err(fault);
            },
        }
        let start = self.position;
        let mut id = String::new();
        let mut count: usize = 0;
        let mut more = true;
        assert(body =~= whole.skip(start as int));
        while more
            invariant
                self.input() == whole,
                whole == old(self).input(),
                at == old(self).offset(),
                at < whole.len(),
                body == old(self).rest().skip(1),
                old(self).rest().len() > 0 && old(self).rest()[0] == '.',
                body == whole.skip(start as int),
                start == at + 1,
                self.position == start + count,
                self.position <= whole.len(),
                whole.len() < usize::MAX,
                !more ==> count == body.len() || !is_name_char(body[count as int]),
                !more && count < body.len() ==> !is_space(body[count as int]),
                forall|i: int| 0 <= i < count ==> is_name_char(#[trigger] body[i]),
                id@ == body.take(count as int),
            decreases whole.len() - self.position + (if more { 1int } else { 0int }),
        {
            match self.peek() {
                None => {
                    more = false;
                },
                Some(ch) => {
                    assert(ch == body[count as int]);
                    if ch == '.' || ch == '[' {
                        more = false;
                    } else if is_whitespace(ch) {
                        proof {
                            lemma_name_run_is(body, count as nat);
                        }
                        return Err(QueryParseErr::BadField(self.position));
                    } else {
                        match self.consume(ch) {
                            Ok(()) => {},
                            Err(fault) => {
                                return Err(fault);
                            },
                        }
                        id.push(ch);
                        count = count + 1;
                        assert(id@ =~= body.take(count as int));
                    }
                },
            }
        }
        proof {
            lemma_name_run_is(body, count as nat);
        }
        if count == 0 {
            Err(QueryParseErr::MissingField)
        } else {
            Ok(QueryElement::Field(id))
        }
    }

    /// Reads the next element, if any input is left. Where nothing is left,
    /// and where the next character starts no element, the cursor stays.
    pub fn next(&mut self) -> (r: Result<Option<QueryElement>, QueryParseErr>)
        ensures
            final(self).input() == old(self).input(),
            final(self).offset() == old(self).offset() + next_moves(old(self).rest()),
            match next_spec(old(self).rest(), old(self).offset()) {
                Ok(Some((step, _))) => r is Ok && r->Ok_0 is Some && r->Ok_0->Some_0@ == step,
                Ok(None) => r is Ok && r->Ok_0 is None,
                Err(fault) => r is Err && r->Err_0@ == fault,
            },
    {
        proof {
            use_type_invariant(&*self);
        }
        match self.peek() {
            Some(ch) => {
                if ch == '[' {
                    match self.read_array() {
                        Ok(element) => Ok(Some(element)),
                        Err(fault) => Err(fault),
                    }
                } else if ch == '.' {
                    match self.read_field() {
                        Ok(element) => Ok(Some(element)),
                        Err(fault) => Err(fault),
                    }
                } else {
                    Err(QueryParseErr::BadCharacter(self.position))
                }
            },
            None => Ok(None),
        }
    }
}

/// What a parse gave, as a model.
pub open spec fn outcome(r: Result<Vec<QueryElement>, QueryParseErr>) -> Result<
    Seq<Step>,
    ParseFault,
> {
    match r {
        Ok(elements) => Ok(steps(elements@)),
        Err(fault) => Err(fault@),
    }
}

/// Parses a path into its elements.
pub fn parse_query(input: &str) -> (r: Result<Vec<QueryElement>, QueryParseErr>)
    ensures
        outcome(r) == parse_spec(input@),
{
    let mut output: Vec<QueryElement> = Vec::new();
    let mut parser = Parser::from(input);
    assert(parser.rest() =~= input@);
    assert(steps(output@) =~= Seq::<Step>::empty());
    loop
        invariant
            parser.input() == input@,
            parser.offset() <= input@.len(),
            parse_spec(input@) == prepend(
                steps(output@),
                parse_from(parser.rest(), parser.offset()),
            ),
        decreases input@.len() - parser.offset(),
    {
        let ghost before = parser.rest();
        let ghost at = parser.offset();
        let ghost done = steps(output@);
        proof {
            lemma_next_advances(before, at);
        }
        match parser.next() {
            Err(fault) => {
                return Err(fault);
            },
            Ok(None) => {
                assert(done + Seq::<Step>::empty() =~= done);
                return Ok(output);
            },
            Ok(Some(element)) => {
                output.push(element);
                proof {
                    let used = next_spec(before, at)->Ok_0->Some_0.1;
                    assert(used == next_moves(before));
                    assert(parser.rest() =~= before.skip(used as int));
                    assert(steps(output@) =~= done + seq![element@]);
                    let tail = parse_from(parser.rest(), parser.offset());
                    if tail is Ok {
                        assert(done + (seq![element@] + tail->Ok_0) =~= (done + seq![element@])
                            + tail->Ok_0);
                    }
                }
            },
        }
    }
}

} // verus!
