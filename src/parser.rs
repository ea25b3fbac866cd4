//! The scanner and the recursive descent over the grammar rules.
use vstd::prelude::*;
use vstd::string::StrSliceExecFns;
use vstd::string::StringExecFns;
use crate::error::Error;
use crate::grammar::{
    char_at, dist, document, document_at, inside_start, elements_at, ends_with_trailing_comma, is_escape_char,
    is_number_char, is_white_space, member_at, members_at, number_at, number_run_len, opt_len,
    prepend, sanity, string_at, string_body_len, value_at, ws_len,
};
use crate::number::{has_fraction_mark_exec, is_float_literal, parse_integer};
use crate::value::{
    elements_view, lemma_array_view, lemma_object_view, members_view, JsonNumber, JsonTree,
    JsonValue,
};

verus! {

/// A parser over one document: the text and a cursor into it, counted in
/// characters.
pub struct JsonParser<'a> {
    json_string: &'a str,
    chars: Vec<char>,
    index: usize,
}

/// Whether `c` has the Unicode `White_Space` property.
pub fn is_white_space_char(c: char) -> (r: bool)
    ensures
        r == is_white_space(c),
{
    let u = c as u32;
    (0x09 <= u && u <= 0x0d) || u == 0x20 || u == 0x85 || u == 0xa0 || u == 0x1680 || (0x2000 <= u
        && u <= 0x200a) || u == 0x2028 || u == 0x2029 || u == 0x202f || u == 0x205f || u == 0x3000
}

fn is_number_char_exec(c: char) -> (r: bool)
    ensures
        r == is_number_char(c),
{
    (c >= '0' && c <= '9') || c == '.' || c == 'e' || c == 'E' || c == '+' || c == '-'
}

impl<'a> JsonParser<'a> {
    /// The text being parsed.
    pub closed spec fn text(&self) -> Seq<char> {
        self.json_string@
    }

    /// The cursor.
    pub closed spec fn cursor(&self) -> nat {
        self.index as nat
    }

    /// The characters mirror the text, the text is short enough for the
    /// cursor to run a few characters past its end, and it did at most that.
    pub closed spec fn wf(&self) -> bool {
        &&& self.chars@ == self.json_string@
        &&& self.json_string@.len() + 16 <= usize::MAX
        &&& self.index <= self.json_string@.len() + 5
    }

    /// A parser at the start of `json_string`.
    pub fn new(json_string: &'a str) -> (r: Self)
        ensures
            r.text() == json_string@,
            r.cursor() == 0,
            json_string@.len() + 16 <= usize::MAX ==> r.wf(),
    {
        let n = json_string.unicode_len();
        let mut chars: Vec<char> = Vec::new();
        let mut i: usize = 0;
        while i < n
            invariant
                n == json_string@.len(),
                i <= n,
                chars@ == json_string@.subrange(0, i as int),
            decreases n - i,
        {
            chars.push(json_string.get_char(i));
            i = i + 1;
        }
        assert(chars@ =~= json_string@);
        JsonParser { json_string, chars, index: 0 }
    }

    /// The character at the cursor, if any.
    pub fn peek(&self) -> (r: Option<char>)
        requires
            self.wf(),
        ensures
            r == char_at(self.text(), self.cursor() as int),
    {
        if self.index < self.chars.len() {
            Some(self.chars[self.index])
        } else {
            None
        }
    }

    /// Whether `c` stands at the cursor.
    fn next_is(&self, c: char) -> (r: bool)
        requires
            self.wf(),
        ensures
            r == (char_at(self.text(), self.cursor() as int) == Some(c)),
    {
        self.index < self.chars.len() && self.chars[self.index] == c
    }

    /// Takes `ch` when it stands at the cursor; otherwise does nothing.
    pub fn consume(&mut self, ch: char)
        requires
            old(self).wf(),
        ensures
            final(self).wf(),
            final(self).text() == old(self).text(),
            final(self).cursor() == old(self).cursor() + opt_len(
                old(self).text(),
                old(self).cursor(),
                ch,
            ),
    {
        if self.next_is(ch) {
            self.index = self.index + 1;
        }
    }

    /// Moves the cursor over the whitespace at it.
    pub fn consume_whitespace(&mut self)
        requires
            old(self).wf(),
        ensures
            final(self).wf(),
            final(self).text() == old(self).text(),
            final(self).cursor() == old(self).cursor() + ws_len(old(self).text(), old(self).cursor()),
    {
        let ghost start = self.cursor();
        while self.index < self.chars.len() && is_white_space_char(self.chars[self.index])
            invariant
                self.wf(),
                self.text() == old(self).text(),
                start <= self.cursor(),
                ws_len(self.text(), start) == (self.cursor() - start) + ws_len(
                    self.text(),
                    self.cursor(),
                ),
            decreases self.chars@.len() - self.index,
        {
            self.index = self.index + 1;
        }
    }

    /// Succeeds when `expected` stands at the cursor, without taking it.
    pub fn expect(&self, expected: char) -> (r: Result<(), Error>)
        requires
            self.wf(),
        ensures
            r is Ok <==> char_at(self.text(), self.cursor() as int) == Some(expected),
            r is Err ==> r == Err::<(), Error>(Error::UnexpectedCharacter),
    {
        if self.next_is(expected) {
            Ok(())
        } else {
            Err(Error::UnexpectedCharacter)
        }
    }

    /// Where the document starts once its leading whitespace is trimmed.
    fn document_start(&self) -> (r: usize)
        requires
            self.wf(),
        ensures
            r == ws_len(self.text(), 0),
    {
        let mut k: usize = 0;
        while k < self.chars.len() && is_white_space_char(self.chars[k])
            invariant
                self.wf(),
                k <= self.chars@.len(),
                ws_len(self.text(), 0) == k + ws_len(self.text(), k as nat),
            decreases self.chars@.len() - k,
        {
            k = k + 1;
        }
        k
    }

    /// The whitespace-trimmed document opens with `{` or `[`, and the raw
    /// text does not end with `,}` or `,]`.
    pub fn sanity_check(&self) -> (r: Result<(), Error>)
        requires
            self.wf(),
        ensures
            r == sanity(self.text()),
    {
        let start = self.document_start();
        if start >= self.chars.len() || (self.chars[start] != '{' && self.chars[start] != '[') {
            return Err(Error::NotObjectOrArray);
        }
        let n = self.chars.len();
        if n >= 2 && self.chars[n - 2] == ',' && (self.chars[n - 1] == '}' || self.chars[n - 1]
            == ']') {
            return Err(Error::TrailingComma);
        }
        Ok(())
    }

    /// Reads a whole document from the cursor.
    pub fn parse(&mut self) -> (r: Result<JsonValue, Error>)
        requires
            old(self).wf(),
        ensures
            final(self).wf(),
            final(self).text() == old(self).text(),
            match document_at(old(self).text(), old(self).cursor()) {
                Ok(t) => r is Ok && r->Ok_0@ == t && final(self).cursor() == old(self).text().len(),
                Err(e) => r == Err::<JsonValue, Error>(e),
            },
    {
        self.consume_whitespace();
        match self.sanity_check() {
            Ok(()) => {},
            Err(e) => return Err(e),
        }
        let result = match self.parse_value() {
            Ok(v) => v,
            Err(e) => return Err(e),
        };
        self.consume_whitespace();
        if self.index != self.chars.len() {
            return Err(Error::ExtraCharacters);
        }
        Ok(result)
    }

    /// Reads a value at the cursor, after whitespace.
    fn parse_value(&mut self) -> (r: Result<JsonValue, Error>)
        requires
            old(self).wf(),
        ensures
            final(self).wf(),
            final(self).text() == old(self).text(),
            match value_at(old(self).text(), old(self).cursor()) {
                Ok((t, n)) => r is Ok && r->Ok_0@ == t && final(self).cursor() == old(self).cursor()
                    + n,
                Err(e) => r == Err::<JsonValue, Error>(e),
            },
        decreases dist(old(self).text(), old(self).cursor()), 1nat,
    {
        self.consume_whitespace();
        match self.peek() {
            Some(c) => {
                if c == '{' {
                    self.parse_object()
                } else if c == '[' {
                    self.parse_array()
                } else if c == '"' {
                    match self.parse_string() {
                        Ok(t) => Ok(JsonValue::String(t)),
                        Err(e) => Err(e),
                    }
                } else if (c >= '0' && c <= '9') || c == '-' {
                    self.parse_number()
                } else if c == 't' || c == 'f' {
                    self.parse_boolean()
                } else if c == 'n' {
                    self.parse_null()
                } else {
                    Err(Error::UnexpectedCharacter)
                }
            },
            None => Err(Error::UnexpectedCharacter),
        }
    }

    /// Reads `true` or `false` by its first character, after whitespace:
    /// the cursor moves by the literal's length whatever follows.
    fn parse_boolean(&mut self) -> (r: Result<JsonValue, Error>)
        requires
            old(self).wf(),
        ensures
            final(self).wf(),
            final(self).text() == old(self).text(),
            ({
                let s = old(self).text();
                let p = old(self).cursor() + ws_len(s, old(self).cursor());
                if char_at(s, p as int) == Some('t') {
                    (r matches Ok(JsonValue::Boolean(true))) && final(self).cursor() == p + 4
                } else if char_at(s, p as int) == Some('f') {
                    (r matches Ok(JsonValue::Boolean(false))) && final(self).cursor() == p + 5
                } else {
                    r == Err::<JsonValue, Error>(Error::InvalidBooleanValue)
                }
            }),
    {
        self.consume_whitespace();
        if self.next_is('t') {
            self.index = self.index + 4;
            Ok(JsonValue::Boolean(true))
        } else if self.next_is('f') {
            self.index = self.index + 5;
            Ok(JsonValue::Boolean(false))
        } else {
            Err(Error::InvalidBooleanValue)
        }
    }

    /// Reads `null` by its first character: the cursor moves by four
    /// whatever follows.
    fn parse_null(&mut self) -> (r: Result<JsonValue, Error>)
        requires
            old(self).wf(),
        ensures
            final(self).wf(),
            final(self).text() == old(self).text(),
            char_at(old(self).text(), old(self).cursor() as int) == Some('n') ==> (r matches Ok(
                JsonValue::Null,
            )) && final(self).cursor() == old(self).cursor() + 4,
            char_at(old(self).text(), old(self).cursor() as int) != Some('n') ==> r == Err::<
                JsonValue,
                Error,
            >(Error::InvalidNullValue),
    {
        if self.next_is('n') {
            self.index = self.index + 4;
            Ok(JsonValue::Null)
        } else {
            Err(Error::InvalidNullValue)
        }
    }

    /// Reads one member of an object: key, `:` and value.
    fn parse_member(&mut self) -> (r: Result<(String, JsonValue), Error>)
        requires
            old(self).wf(),
        ensures
            final(self).wf(),
            final(self).text() == old(self).text(),
            match member_at(old(self).text(), old(self).cursor()) {
                Ok((m, n)) => r is Ok && r->Ok_0.0@ == m.0 && r->Ok_0.1@ == m.1
                    && final(self).cursor() == old(self).cursor() + n,
                Err(e) => r == Err::<(String, JsonValue), Error>(e),
            },
        decreases dist(old(self).text(), old(self).cursor()), 2nat,
    {
        self.consume_whitespace();
        let (from, to) = match self.scan_string() {
            Ok(range) => range,
            Err(e) => return Err(e),
        };
        let key = self.slice(from, to);
        if from == to {
            self.consume('"');
        }
        self.consume_whitespace();
        match self.expect(':') {
            Ok(()) => {},
            Err(e) => return Err(e),
        }
        self.consume(':');
        self.consume_whitespace();
        let value = match self.parse_value() {
            Ok(v) => v,
            Err(e) => return Err(e),
        };
        self.consume('"');
        Ok((key, value))
    }

    /// Reads an object; the cursor stands at its `{`.
    fn parse_object(&mut self) -> (r: Result<JsonValue, Error>)
        requires
            old(self).wf(),
            char_at(old(self).text(), old(self).cursor() as int) == Some('{'),
        ensures
            final(self).wf(),
            final(self).text() == old(self).text(),
            match members_at(old(self).text(), inside_start(old(self).text(), old(self).cursor())) {
                Ok((m, n)) => r is Ok && r->Ok_0@ == JsonTree::Object(m) && final(self).cursor()
                    == inside_start(old(self).text(), old(self).cursor()) + n,
                Err(e) => r == Err::<JsonValue, Error>(e),
            },
        decreases dist(old(self).text(), old(self).cursor()), 0nat,
    {
        let ghost s = self.text();
        self.consume('{');
        self.consume_whitespace();
        let ghost start = self.cursor();
        let mut result: Vec<(String, JsonValue)> = Vec::new();
        assert(members_view(result@) =~= seq![]);
        while !self.next_is('}')
            invariant
                self.wf(),
                s == old(self).text(),
                self.text() == s,
                old(self).cursor() < s.len(),
                start == inside_start(s, old(self).cursor()),
                start <= self.cursor(),
                members_at(s, start) == prepend(
                    members_view(result@),
                    (self.cursor() - start) as nat,
                    members_at(s, self.cursor()),
                ),
            decreases dist(s, self.cursor()),
        {
            let ghost j = self.cursor();
            if self.index >= self.chars.len() {
                return Err(Error::UnterminatedString);
            }
            let (key, value) = match self.parse_member() {
                Ok(m) => m,
                Err(e) => return Err(e),
            };
            let ghost item = (key@, value@);
            let ghost acc = members_view(result@);
            proof {
                lemma_member_advances(s, j);
                assert(members_view(result@.push((key, value))) =~= members_view(result@).push(
                    item,
                ));
            }
            result.push((key, value));
            self.consume_whitespace();
            if self.next_is(',') {
                self.consume(',');
                self.consume('\n');
                self.consume_whitespace();
            } else if self.next_is('}') {
                self.consume_whitespace();
                proof {
                    assert(members_at(s, self.cursor()) == Ok::<
                        (Seq<(Seq<char>, JsonTree)>, nat),
                        Error,
                    >((seq![], 1)));
                    assert(seq![item] + seq![] =~= seq![item]);
                }
            } else {
                return Err(Error::ExpectedCommaOrBrace);
            }
            proof {
                assert(members_at(s, j) == prepend(
                    seq![item],
                    (self.cursor() - j) as nat,
                    members_at(s, self.cursor()),
                ));
                lemma_prepend_push(
                    acc,
                    item,
                    (j - start) as nat,
                    (self.cursor() - j) as nat,
                    members_at(s, self.cursor()),
                );
                assert(members_view(result@) + seq![] =~= members_view(result@));
            }
        }
        self.consume('}');
        proof {
            lemma_object_view(result);
            assert(members_view(result@) + seq![] =~= members_view(result@));
        }
        Ok(JsonValue::Object(result))
    }

    /// Reads an array; the cursor stands at its `[`.
    fn parse_array(&mut self) -> (r: Result<JsonValue, Error>)
        requires
            old(self).wf(),
            char_at(old(self).text(), old(self).cursor() as int) == Some('['),
        ensures
            final(self).wf(),
            final(self).text() == old(self).text(),
            match elements_at(old(self).text(), inside_start(old(self).text(), old(self).cursor())) {
                Ok((a, n)) => r is Ok && r->Ok_0@ == JsonTree::Array(a) && final(self).cursor()
                    == inside_start(old(self).text(), old(self).cursor()) + n,
                Err(e) => r == Err::<JsonValue, Error>(e),
            },
        decreases dist(old(self).text(), old(self).cursor()), 0nat,
    {
        let ghost s = self.text();
        self.consume('[');
        self.consume_whitespace();
        let ghost start = self.cursor();
        let mut result: Vec<JsonValue> = Vec::new();
        assert(elements_view(result@) =~= seq![]);
        while !self.next_is(']')
            invariant
                self.wf(),
                s == old(self).text(),
                self.text() == s,
                old(self).cursor() < s.len(),
                start == inside_start(s, old(self).cursor()),
                start <= self.cursor(),
                elements_at(s, start) == prepend(
                    elements_view(result@),
                    (self.cursor() - start) as nat,
                    elements_at(s, self.cursor()),
                ),
            decreases dist(s, self.cursor()),
        {
            let ghost j = self.cursor();
            proof {
                lemma_value_advances(s, j);
            }
            let value = match self.parse_value() {
                Ok(v) => v,
                Err(e) => return Err(e),
            };
            let ghost item = value@;
            let ghost acc = elements_view(result@);
            proof {
                assert(elements_view(result@.push(value)) =~= elements_view(result@).push(item));
            }
            result.push(value);
            self.consume_whitespace();
            if self.next_is(',') {
                self.consume(',');
            } else if self.next_is(']') {
                proof {
                    assert(elements_at(s, self.cursor()) == Ok::<(Seq<JsonTree>, nat), Error>(
                        (seq![], 1),
                    ));
                    assert(seq![item] + seq![] =~= seq![item]);
                }
            } else {
                return Err(Error::ExpectedCommaOrBracket);
            }
            proof {
                assert(elements_at(s, j) == prepend(
                    seq![item],
                    (self.cursor() - j) as nat,
                    elements_at(s, self.cursor()),
                ));
                lemma_prepend_push(acc, item, (j - start) as nat, (self.cursor() - j) as nat, elements_at(s, self.cursor()));
                assert(elements_view(result@) + seq![] =~= elements_view(result@));
            }
        }
        self.consume(']');
        proof {
            lemma_array_view(result);
            assert(elements_view(result@) + seq![] =~= elements_view(result@));
        }
        Ok(JsonValue::Array(result))
    }

    /// Reads a string body from the cursor, after the opening quote and the
    /// whitespace that follows it, and returns where the body starts and
    /// ends; the closing quote is taken.
    fn scan_string(&mut self) -> (r: Result<(usize, usize), Error>)
        requires
            old(self).wf(),
        ensures
            final(self).wf(),
            final(self).text() == old(self).text(),
            match string_at(old(self).text(), old(self).cursor()) {
                Ok((t, n)) => r is Ok && r->Ok_0.0 <= r->Ok_0.1 <= old(self).text().len()
                    && old(self).text().subrange(r->Ok_0.0 as int, r->Ok_0.1 as int) == t
                    && final(self).cursor() == old(self).cursor() + n,
                Err(e) => r == Err::<(usize, usize), Error>(e),
            },
    {
        let ghost s = self.text();
        self.consume('"');
        self.consume_whitespace();
        let start = self.index;
        while self.index < self.chars.len()
            invariant
                self.wf(),
                s == old(self).text(),
                self.text() == s,
                start <= self.index,
                start == old(self).cursor() + opt_len(s, old(self).cursor(), '"') + ws_len(
                    s,
                    old(self).cursor() + opt_len(s, old(self).cursor(), '"'),
                ),
                string_body_len(s, start as nat) == match string_body_len(s, self.cursor()) {
                    Ok(n) => Ok((n + (self.index - start)) as nat),
                    Err(e) => Err(e),
                },
            decreases self.chars@.len() - self.index,
        {
            let c = self.chars[self.index];
            if c == '\\' {
                if self.index + 1 >= self.chars.len() {
                    return Err(Error::UnterminatedString);
                }
                if !is_valid_escape(self.chars[self.index + 1]) {
                    return Err(Error::InvalidEscape);
                }
                self.index = self.index + 2;
            } else if c == '\t' {
                return Err(Error::TabInString);
            } else if c == '\n' {
                return Err(Error::NewlineInString);
            } else if c == '"' {
                let end = self.index;
                self.index = self.index + 1;
                return Ok((start, end));
            } else {
                self.index = self.index + 1;
            }
        }
        Err(Error::UnterminatedString)
    }

    /// The text between two positions, as a `String`.
    fn slice(&self, from: usize, to: usize) -> (r: String)
        requires
            self.wf(),
            from <= to <= self.text().len(),
        ensures
            r@ == self.text().subrange(from as int, to as int),
    {
        String::from_str(self.json_string.substring_char(from, to))
    }

    /// Reads a string at the cursor.
    fn parse_string(&mut self) -> (r: Result<String, Error>)
        requires
            old(self).wf(),
        ensures
            final(self).wf(),
            final(self).text() == old(self).text(),
            match string_at(old(self).text(), old(self).cursor()) {
                Ok((t, n)) => r is Ok && r->Ok_0@ == t && final(self).cursor() == old(self).cursor()
                    + n,
                Err(e) => r == Err::<String, Error>(e),
            },
    {
        match self.scan_string() {
            Ok((from, to)) => Ok(self.slice(from, to)),
            Err(e) => Err(e),
        }
    }

    /// Reads the longest run of number characters at the cursor as a number.
    fn parse_number(&mut self) -> (r: Result<JsonValue, Error>)
        requires
            old(self).wf(),
            old(self).cursor() < old(self).text().len(),
        ensures
            final(self).wf(),
            final(self).text() == old(self).text(),
            match number_at(old(self).text(), old(self).cursor()) {
                Ok((t, n)) => r is Ok && r->Ok_0@ == t && final(self).cursor() == old(self).cursor()
                    + n,
                Err(e) => r == Err::<JsonValue, Error>(e),
            },
    {
        let ghost s = self.text();
        let start = self.index;
        let mut t: Vec<char> = Vec::new();
        while self.index < self.chars.len() && is_number_char_exec(self.chars[self.index])
            invariant
                self.wf(),
                s == old(self).text(),
                self.text() == s,
                start == old(self).cursor(),
                start <= self.index <= s.len(),
                t@ == s.subrange(start as int, self.index as int),
                number_run_len(s, start as nat) == (self.index - start) + number_run_len(
                    s,
                    self.cursor(),
                ),
            decreases self.chars@.len() - self.index,
        {
            t.push(self.chars[self.index]);
            self.index = self.index + 1;
        }
        if has_fraction_mark_exec(&t) {
            if is_float_literal(&t) {
                Ok(JsonValue::Number(JsonNumber::Decimal(self.slice(start, self.index))))
            } else {
                Err(Error::InvalidNumber)
            }
        } else if t.len() > 1 && t[0] == '0' && t[1] >= '0' && t[1] <= '9' {
            Err(Error::LeadingZero)
        } else {
            match parse_integer(&t) {
                Some(v) => Ok(JsonValue::Number(JsonNumber::Integer(v))),
                None => Err(Error::InvalidNumber),
            }
        }
    }
}

/// Parses a whole document: an object or an array, with whitespace around it.
pub fn parse(input: &str) -> (r: Result<JsonValue, Error>)
    requires
        input@.len() + 16 <= usize::MAX,
    ensures
        match document(input@) {
            Ok(t) => r is Ok && r->Ok_0@ == t,
            Err(e) => r == Err::<JsonValue, Error>(e),
        },
{
    let mut parser = JsonParser::new(input);
    parser.parse()
}

proof fn lemma_prepend_push<A>(
    acc: Seq<A>,
    x: A,
    used: nat,
    step: nat,
    rest: Result<(Seq<A>, nat), Error>,
)
    ensures
        prepend(acc, used, prepend(seq![x], step, rest)) == prepend(acc.push(x), used + step, rest),
{
    match rest {
        Ok((t, n)) => {
            assert(acc + (seq![x] + t) =~= acc.push(x) + t);
        },
        Err(_) => {},
    }
}

/// A member that is read spans at least its key and its `:`.
proof fn lemma_member_advances(s: Seq<char>, j: nat)
    ensures
        member_at(s, j) is Ok ==> member_at(s, j)->Ok_0.1 >= 1,
{
}

/// A value that is read consumes at least one character.
proof fn lemma_value_advances(s: Seq<char>, i: nat)
    ensures
        value_at(s, i) is Ok ==> value_at(s, i)->Ok_0.1 >= 1,
{
    let p = i + ws_len(s, i);
    if p < s.len() {
        assert(number_run_len(s, p) >= 1 || !is_number_char(s[p as int]));
    }
}

/// Whether `c` may follow a backslash in a string.
pub fn is_valid_escape(c: char) -> (r: bool)
    ensures
        r == is_escape_char(c),
{
    c == '"' || c == '\\' || c == '/' || c == 'b' || c == 'f' || c == 'n' || c == 'r' || c == 't'
        || c == 'u'
}

} // verus!
