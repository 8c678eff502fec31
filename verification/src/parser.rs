//! The parser: reads a document into the tree, sorting each object's
//! members as it goes.

use vstd::prelude::*;
use crate::decode::decode_string_literal;
use crate::fault::{Fault, Literal, SortError};
use crate::grammar::{
    array, at, block_end, byte_pos, digits_end, document_from, expect, is_digit, is_space, array_items,
    number_exponent, number_fraction,
    lemma_space_end, line_end, literal_text, literal_token, object_members, number_token, object,
    space_end, starts_pair, string_scan, string_token, trivia_end, value, Part, arrange,
    render_parts, lemma_string_token, lemma_trivia_end, member_head, item_head,
};
use crate::order::sort_entries_preserving_trivia_slots;
use crate::text::{byte_offset, chars_of, leading_byte, lemma_utf8_len_prefix, string_from, utf8_len};
use crate::tree::{
    ArrayBody, ArrayItem, ArrayNode, Document, JsonNode, ObjectBody, ObjectEntry, ObjectNode,
    ParsedKey, RawString, array_text, document_text, node_text, object_text, entry_part,
    entry_parts, lemma_entries_text, item_part, item_parts, lemma_items_text,
};

verus! {

/// Whether `e` reports the fault `f`: its fault is `f`, and it carries the
/// decoder's message exactly when the decoder refused a literal.
pub open spec fn reports(e: SortError, f: Fault) -> bool {
    e.fault == f && (e.cause is Some <==> f is InvalidEscapedString)
}

/// The error for a fault that the decoder has no part in.
fn fault_error(fault: Fault) -> (e: SortError)
    requires
        !(fault is InvalidEscapedString),
    ensures
        reports(e, fault),
{
    SortError { fault, cause: None }
}

/// The tree that reading the object at `p` gives: the trivia between the
/// braces where it has no member, else its members sorted by key, each
/// position keeping its own trivia.
pub open spec fn object_shape(s: Seq<char>, p: int, o: ObjectNode) -> bool {
    let q = trivia_end(s, p + 1)->Some_0;
    if at(s, q) == Some('}') {
        o.body matches ObjectBody::Empty(t) && t@ == s.subrange(p + 1, q)
    } else {
        o.body matches ObjectBody::Entries(es) && entry_parts(es@) == arrange(
            object_members(s, p + 1, q)->Ok_0.0,
        )
    }
}

/// The tree that reading the array at `p` gives: the trivia between the
/// brackets where it has no item, else its items in their order.
pub open spec fn array_shape(s: Seq<char>, p: int, a: ArrayNode) -> bool {
    let q = trivia_end(s, p + 1)->Some_0;
    if at(s, q) == Some(']') {
        a.body matches ArrayBody::Empty(t) && t@ == s.subrange(p + 1, q)
    } else {
        a.body matches ArrayBody::Items(is) && item_parts(is@) == array_items(s, p + 1, q)->Ok_0.0
    }
}

/// A cursor over the characters of the source text.
pub struct Parser {
    pub source: Vec<char>,
    pub byte_len: usize,
    pub pos: usize,
}

impl Parser {
    /// The cursor is within the text, and `byte_len` is the length of its
    /// UTF-8 encoding.
    pub open spec fn wf(&self) -> bool {
        &&& self.pos <= self.source@.len()
        &&& self.source@.len() <= usize::MAX
        &&& self.byte_len == utf8_len(self.source@)
    }

    /// A parser at the start of `source`.
    pub fn new(source: &str) -> (parser: Self)
        ensures
            parser.wf(),
            parser.source@ == source@,
            parser.pos == 0,
    {
        let byte_len = source.as_bytes().len();
        let chars = chars_of(source);
        let _ = chars.len();
        Parser { source: chars, byte_len, pos: 0 }
    }

    /// The byte offset of character `p`.
    fn offset(&self, p: usize) -> (offset: usize)
        requires
            self.wf(),
            p <= self.source@.len(),
        ensures
            offset == byte_pos(self.source@, p as int),
    {
        proof {
            lemma_utf8_len_prefix(self.source@, p as int);
        }
        byte_offset(&self.source, p, self.byte_len)
    }

    /// The characters from `start` to `end`.
    fn slice(&self, start: usize, end: usize) -> (piece: Vec<char>)
        requires
            start <= end <= self.source@.len(),
        ensures
            piece@ == self.source@.subrange(start as int, end as int),
    {
        let mut piece: Vec<char> = Vec::new();
        let mut i = start;
        while i < end
            invariant
                start <= i <= end <= self.source@.len(),
                piece@ == self.source@.subrange(start as int, i as int),
            decreases end - i,
        {
            piece.push(self.source[i]);
            i += 1;
            assert(piece@ =~= self.source@.subrange(start as int, i as int));
        }
        piece
    }

    /// The character under the cursor, if any.
    pub fn peek_byte(&self) -> (c: Option<char>)
        ensures
            c == at(self.source@, self.pos as int),
    {
        if self.pos < self.source.len() {
            Some(self.source[self.pos])
        } else {
            None
        }
    }

    /// Whether the cursor is on `a` followed by `b`.
    fn at_pair(&self, a: char, b: char) -> (found: bool)
        ensures
            found == starts_pair(self.source@, self.pos as int, a, b),
    {
        self.pos < self.source.len() && self.source.len() - self.pos >= 2 && self.source[self.pos]
            == a && self.source[self.pos + 1] == b
    }

    /// Whether the cursor is on a digit.
    fn at_digit(&self) -> (found: bool)
        ensures
            found == (at(self.source@, self.pos as int) matches Some(c) && is_digit(c)),
    {
        match self.peek_byte() {
            Some(c) => '0' <= c && c <= '9',
            None => false,
        }
    }

    /// Steps over `expected`.
    pub fn expect_byte(&mut self, expected: char) -> (res: Result<(), SortError>)
        requires
            old(self).wf(),
        ensures
            final(self).wf(),
            final(self).source == old(self).source,
            final(self).byte_len == old(self).byte_len,
            match expect(old(self).source@, old(self).pos as int, expected) {
                Ok(q) => res is Ok && final(self).pos == q,
                Err(f) => res matches Err(e) && reports(e, f) && final(self).pos == old(self).pos,
            },
    {
        match self.peek_byte() {
            Some(byte) => {
                if byte == expected {
                    self.pos += 1;
                    Ok(())
                } else {
                    let at = self.offset(self.pos);
                    Err(
                        fault_error(
                            Fault::ExpectedByte {
                                expected,
                                found: leading_byte(byte),
                                at,
                            },
                        ),
                    )
                }
            },
            None => Err(fault_error(Fault::ExpectedByteAtEnd { expected })),
        }
    }

    /// Steps over the run of trivia under the cursor and returns it.
    pub fn parse_trivia(&mut self) -> (res: Result<Vec<char>, SortError>)
        requires
            old(self).wf(),
        ensures
            final(self).wf(),
            final(self).source == old(self).source,
            final(self).byte_len == old(self).byte_len,
            match trivia_end(old(self).source@, old(self).pos as int) {
                Some(e) => res matches Ok(t) && final(self).pos == e && t@
                    == old(self).source@.subrange(old(self).pos as int, e),
                None => res matches Err(err) && reports(err, Fault::UnterminatedComment),
            },
    {
        reveal(trivia_end);
        let ghost s = self.source@;
        let start = self.pos;
        let len = self.source.len();

        loop
            invariant
                self.wf(),
                self.source@ == s,
                self.source == old(self).source,
                self.byte_len == old(self).byte_len,
                len == s.len(),
                start == old(self).pos,
                start <= self.pos <= len,
                trivia_end(s, start as int) == trivia_end(s, self.pos as int),
            ensures
                self.wf(),
                self.source@ == s,
                self.source == old(self).source,
                self.byte_len == old(self).byte_len,
                start <= self.pos <= len,
                trivia_end(s, start as int) == Some(self.pos as int),
            decreases len - self.pos,
        {
            reveal(trivia_end);
            let checkpoint = self.pos;

            // Skip whitespace
            while self.pos < len && is_space_char(self.source[self.pos])
                invariant
                    self.wf(),
                    self.source@ == s,
                    self.source == old(self).source,
                    self.byte_len == old(self).byte_len,
                    len == s.len(),
                    checkpoint <= self.pos <= len,
                    space_end(s, checkpoint as int) == space_end(s, self.pos as int),
                decreases len - self.pos,
            {
                self.pos += 1;
            }
            assert(space_end(s, self.pos as int) == self.pos as int);
            let q = self.pos;

            if self.at_pair('/', '/') {
                self.pos += 2;
                while self.pos < len && self.source[self.pos] != '\n'
                    invariant
                        self.wf(),
                        self.source@ == s,
                        self.source == old(self).source,
                        self.byte_len == old(self).byte_len,
                        len == s.len(),
                        q + 2 <= self.pos <= len,
                        line_end(s, q + 2) == line_end(s, self.pos as int),
                    decreases len - self.pos,
                {
                    self.pos += 1;
                }
                assert(trivia_end(s, checkpoint as int) == trivia_end(s, line_end(s, q + 2)));
                continue;
            }

            if self.at_pair('/', '*') {
                self.pos += 2;
                while self.pos < len && len - self.pos >= 2 && !(self.source[self.pos] == '*'
                    && self.source[self.pos + 1] == '/')
                    invariant
                        self.wf(),
                        self.source@ == s,
                        self.source == old(self).source,
                        self.byte_len == old(self).byte_len,
                        len == s.len(),
                        q + 2 <= self.pos <= len,
                        block_end(s, q + 2) == block_end(s, self.pos as int),
                    decreases len - self.pos,
                {
                    self.pos += 1;
                }

                if len - self.pos < 2 {
                    assert(block_end(s, self.pos as int) is None);
                    return Err(fault_error(Fault::UnterminatedComment));
                }

                self.pos += 2;
                assert(trivia_end(s, checkpoint as int) == trivia_end(s, self.pos as int));
                continue;
            }

            assert(trivia_end(s, checkpoint as int) == Some(q as int));
            if checkpoint == self.pos {
                break;
            }
            assert(trivia_end(s, self.pos as int) == Some(q as int)) by {
                lemma_space_end(s, q as int);
            }
        }

        Ok(self.slice(start, self.pos))
    }

    /// Reads the string literal under the cursor.
    pub fn lex_string(&mut self) -> (res: Result<RawString, SortError>)
        requires
            old(self).wf(),
        ensures
            final(self).wf(),
            final(self).source == old(self).source,
            final(self).byte_len == old(self).byte_len,
            match string_token(old(self).source@, old(self).pos as int) {
                Ok((e, v)) => res matches Ok(raw) && final(self).pos == e && raw.raw@
                    == old(self).source@.subrange(old(self).pos as int, e) && (raw.decoded is Some
                    <==> raw.raw@.contains('\\')) && match raw.decoded {
                    Some(d) => d@ == v,
                    None => v == raw.raw@.subrange(1, raw.raw@.len() - 1),
                },
                Err(f) => res matches Err(err) && reports(err, f),
            },
    {
        reveal(string_token);
        let ghost s = self.source@;
        match self.expect_byte('"') {
            Err(e) => {
                return Err(e);
            },
            Ok(()) => {},
        }
        let start = self.pos - 1;
        let mut has_escapes = false;
        let len = self.source.len();

        loop
            invariant
                self.wf(),
                self.source@ == s,
                self.source == old(self).source,
                self.byte_len == old(self).byte_len,
                len == s.len(),
                start == old(self).pos,
                start < self.pos <= len,
                at(s, start as int) == Some('"'),
                string_scan(s, start as int, start + 1, false) == string_scan(
                    s,
                    start as int,
                    self.pos as int,
                    has_escapes,
                ),
                has_escapes <==> exists|j: int| start < j < self.pos && #[trigger] s[j] == '\\',
            decreases len - self.pos,
        {
            reveal(string_token);
            match self.peek_byte() {
                None => {
                    return Err(fault_error(Fault::UnterminatedString));
                },
                Some(byte) => {
                    if byte == '"' {
                        self.pos += 1;
                        let slice = self.slice(start, self.pos);
                        let decoded = if has_escapes {
                            let literal = string_from(&self.source, start, self.pos);
                            match decode_string_literal(literal.as_str()) {
                                Ok(d) => Some(chars_of(d.as_str())),
                                Err(message) => {
                                    let at = self.offset(start);
                                    return Err(
                                        SortError {
                                            fault: Fault::InvalidEscapedString { at },
                                            cause: Some(message),
                                        },
                                    );
                                },
                            }
                        } else {
                            None
                        };
                        assert(slice@.subrange(1, slice@.len() - 1) =~= s.subrange(
                            start + 1,
                            self.pos - 1,
                        ));
                        proof {
                            if has_escapes {
                                let j = choose|j: int| start < j < self.pos - 1 && #[trigger] s[j]
                                    == '\\';
                                assert(slice@[j - start] == '\\');
                            } else {
                                assert forall|i: int| 0 <= i < slice@.len() implies #[trigger] slice@[i]
                                    != '\\' by {
                                    assert(slice@[i] == s[start + i]);
                                }
                            }
                        }
                        return Ok(RawString { raw: slice, decoded });
                    } else if byte == '\\' {
                        has_escapes = true;
                        self.pos += 1;
                        if self.peek_byte().is_none() {
                            let at = self.offset(self.pos);
                            return Err(fault_error(Fault::UnterminatedEscape { at }));
                        }
                        self.pos += 1;
                    } else if (byte as u32) < 0x20 {
                        let at = self.offset(start);
                        return Err(fault_error(Fault::InvalidStringLiteral { at }));
                    } else {
                        self.pos += 1;
                    }
                },
            }
        }
    }

    /// Steps over the digits under the cursor.
    fn skip_digits(&mut self)
        requires
            old(self).wf(),
        ensures
            final(self).wf(),
            final(self).source == old(self).source,
            final(self).byte_len == old(self).byte_len,
            final(self).pos == digits_end(old(self).source@, old(self).pos as int),
            old(self).pos <= final(self).pos,
    {
        let ghost s = self.source@;
        while self.at_digit()
            invariant
                self.wf(),
                self.source@ == s,
                self.source == old(self).source,
                self.byte_len == old(self).byte_len,
                old(self).pos <= self.pos,
                digits_end(s, old(self).pos as int) == digits_end(s, self.pos as int),
            decreases s.len() - self.pos,
        {
            self.pos += 1;
        }
    }

    /// Steps over the integer part of the number that starts at `start`,
    /// whose sign, if any, is behind the cursor.
    fn scan_integer(&mut self, start: usize) -> (res: Result<(), SortError>)
        requires
            old(self).wf(),
            start <= old(self).pos,
        ensures
            final(self).wf(),
            final(self).source == old(self).source,
            final(self).byte_len == old(self).byte_len,
            old(self).pos <= final(self).pos,
            ({
                let s = old(self).source@;
                let q = old(self).pos as int;
                if at(s, q) == Some('0') {
                    res is Ok && final(self).pos == q + 1
                } else if at(s, q) matches Some(c) && '1' <= c <= '9' {
                    res is Ok && final(self).pos == digits_end(s, q + 1)
                } else {
                    res matches Err(e) && reports(
                        e,
                        Fault::InvalidNumber { at: byte_pos(s, start as int) },
                    )
                }
            }),
    {
        match self.peek_byte() {
            Some(c) => {
                if c == '0' {
                    self.pos += 1;
                    Ok(())
                } else if '1' <= c && c <= '9' {
                    self.pos += 1;
                    self.skip_digits();
                    Ok(())
                } else {
                    let at = self.offset(start);
                    Err(fault_error(Fault::InvalidNumber { at }))
                }
            },
            None => {
                let at = self.offset(start);
                Err(fault_error(Fault::InvalidNumber { at }))
            },
        }
    }

    /// Steps over the fraction of a number, if one is under the cursor.
    fn scan_fraction(&mut self) -> (res: Result<(), SortError>)
        requires
            old(self).wf(),
        ensures
            final(self).wf(),
            final(self).source == old(self).source,
            final(self).byte_len == old(self).byte_len,
            old(self).pos <= final(self).pos,
            match number_fraction(old(self).source@, old(self).pos as int) {
                Ok(e) => res is Ok && final(self).pos == e,
                Err(f) => res matches Err(err) && reports(err, f),
            },
    {
        if self.peek_byte() == Some('.') {
            self.pos += 1;
            if !self.at_digit() {
                let at = self.offset(self.pos);
                return Err(fault_error(Fault::InvalidFraction { at }));
            }
            self.skip_digits();
        }
        Ok(())
    }

    /// Steps over the exponent of a number, if one is under the cursor.
    fn scan_exponent(&mut self) -> (res: Result<(), SortError>)
        requires
            old(self).wf(),
        ensures
            final(self).wf(),
            final(self).source == old(self).source,
            final(self).byte_len == old(self).byte_len,
            old(self).pos <= final(self).pos,
            match number_exponent(old(self).source@, old(self).pos as int) {
                Ok(e) => res is Ok && final(self).pos == e,
                Err(f) => res matches Err(err) && reports(err, f),
            },
    {
        let c = self.peek_byte();
        if c == Some('e') || c == Some('E') {
            self.pos += 1;
            let sign = self.peek_byte();
            if sign == Some('+') || sign == Some('-') {
                self.pos += 1;
            }
            if !self.at_digit() {
                let at = self.offset(self.pos);
                return Err(fault_error(Fault::InvalidExponent { at }));
            }
            self.skip_digits();
        }
        Ok(())
    }

    /// Reads the number under the cursor and returns it as written.
    pub fn parse_number(&mut self) -> (res: Result<Vec<char>, SortError>)
        requires
            old(self).wf(),
        ensures
            final(self).wf(),
            final(self).source == old(self).source,
            final(self).byte_len == old(self).byte_len,
            old(self).pos <= final(self).pos,
            match number_token(old(self).source@, old(self).pos as int) {
                Ok(e) => res matches Ok(t) && final(self).pos == e && t@
                    == old(self).source@.subrange(old(self).pos as int, e),
                Err(f) => res matches Err(err) && reports(err, f),
            },
    {
        reveal(number_token);
        let start = self.pos;

        if self.peek_byte() == Some('-') {
            self.pos += 1;
        }

        match self.scan_integer(start) {
            Err(e) => {
                return Err(e);
            },
            Ok(()) => {},
        }
        match self.scan_fraction() {
            Err(e) => {
                return Err(e);
            },
            Ok(()) => {},
        }
        match self.scan_exponent() {
            Err(e) => {
                return Err(e);
            },
            Ok(()) => {},
        }

        Ok(self.slice(start, self.pos))
    }

    /// Reads `literal` under the cursor and returns it as written.
    pub fn parse_literal(&mut self, literal: Literal) -> (res: Result<Vec<char>, SortError>)
        requires
            old(self).wf(),
        ensures
            final(self).wf(),
            final(self).source == old(self).source,
            final(self).byte_len == old(self).byte_len,
            old(self).pos <= final(self).pos,
            match literal_token(old(self).source@, old(self).pos as int, literal) {
                Ok(e) => res matches Ok(t) && final(self).pos == e && t@
                    == old(self).source@.subrange(old(self).pos as int, e),
                Err(f) => res matches Err(err) && reports(err, f) && final(self).pos == old(
                    self,
                ).pos,
            },
    {
        reveal(literal_token);
        let ghost s = self.source@;
        let text = literal_chars(literal);
        let start = self.pos;
        let mut matched = self.source.len() - start >= text.len();
        let mut i: usize = 0;
        while i < text.len() && matched
            invariant
                self.source@ == s,
                start == self.pos,
                self.wf(),
                text@ == literal_text(literal),
                i <= text@.len(),
                matched ==> start + text@.len() <= s.len() && s.subrange(
                    start as int,
                    start + i,
                ) == text@.take(i as int),
                !matched ==> !(start + text@.len() <= s.len() && s.subrange(
                    start as int,
                    start + text@.len(),
                ) == text@),
            decreases text@.len() - i + (if matched { 1int } else { 0int }),
        {
            if self.source[start + i] != text[i] {
                matched = false;
                assert(s.subrange(start as int, start + text@.len())[i as int] != text@[i as int]);
            } else {
                i += 1;
                assert(s.subrange(start as int, start + i) =~= text@.take(i as int));
            }
        }
        if matched {
            assert(text@.take(text@.len() as int) =~= text@);
            self.pos = start + text.len();
            return Ok(self.slice(start, self.pos));
        }
        let at = self.offset(start);
        Err(fault_error(Fault::ExpectedLiteral { literal, at }))
    }
}

impl ParsedKey {
    /// The key that a string literal stands for: the string that the
    /// decoder made of it, or, where it has no escapes, the characters
    /// between its quotes.
    pub fn from_raw(raw: RawString) -> (res: Result<Self, SortError>)
        requires
            raw.raw@.len() >= 2,
        ensures
            res matches Ok(key) && key.raw_span@ == raw.raw@ && key.decoded@ == match raw.decoded {
                Some(d) => d@,
                None => raw.raw@.subrange(1, raw.raw@.len() - 1),
            },
    {
        let decoded = if let Some(decoded) = raw.decoded {
            decoded
        } else {
            let mut inner: Vec<char> = Vec::new();
            let end = raw.raw.len() - 1;
            let mut i: usize = 1;
            while i < end
                invariant
                    1 <= i <= end,
                    end == raw.raw@.len() - 1,
                    inner@ == raw.raw@.subrange(1, i as int),
                decreases end - i,
            {
                inner.push(raw.raw[i]);
                i += 1;
                assert(inner@ =~= raw.raw@.subrange(1, i as int));
            }
            inner
        };
        Ok(ParsedKey { raw_span: raw.raw, decoded })
    }
}

impl Parser {
    /// Reads the value under the cursor, sorting the members of every object
    /// in it.
    #[verifier::rlimit(60)]
    pub fn parse_value(&mut self) -> (res: Result<JsonNode, SortError>)
        requires
            old(self).wf(),
        ensures
            final(self).wf(),
            final(self).source == old(self).source,
            final(self).byte_len == old(self).byte_len,
            match value(old(self).source@, old(self).pos as int) {
                Ok((t, n)) => res matches Ok(node) && node_text(node) == t && final(self).pos
                    == old(self).pos + n && {
                    let s = old(self).source@;
                    let p = old(self).pos as int;
                    &&& at(s, p) == Some('{') ==> (node matches JsonNode::Object(o)
                        && object_shape(s, p, o))
                    &&& at(s, p) == Some('[') ==> (node matches JsonNode::Array(a)
                        && array_shape(s, p, a))
                    &&& at(s, p) != Some('{') && at(s, p) != Some('[') ==> node is Primitive
                },
                Err(f) => res matches Err(e) && reports(e, f),
            },
        decreases old(self).source@.len() - old(self).pos, 3int,
    {
        let ghost s = self.source@;
        let ghost p = self.pos as int;
        proof {
            lemma_string_token(s, p);
        }
        match self.peek_byte() {
            Some(c) => {
                if c == '{' {
                    match self.parse_object() {
                        Ok(object) => Ok(JsonNode::Object(object)),
                        Err(e) => Err(e),
                    }
                } else if c == '[' {
                    match self.parse_array() {
                        Ok(array) => Ok(JsonNode::Array(array)),
                        Err(e) => Err(e),
                    }
                } else if c == '"' {
                    match self.lex_string() {
                        Ok(string) => Ok(JsonNode::Primitive(string.raw)),
                        Err(e) => Err(e),
                    }
                } else if c == '-' || ('0' <= c && c <= '9') {
                    match self.parse_number() {
                        Ok(t) => Ok(JsonNode::Primitive(t)),
                        Err(e) => Err(e),
                    }
                } else if c == 't' {
                    match self.parse_literal(Literal::True) {
                        Ok(t) => Ok(JsonNode::Primitive(t)),
                        Err(e) => Err(e),
                    }
                } else if c == 'f' {
                    match self.parse_literal(Literal::False) {
                        Ok(t) => Ok(JsonNode::Primitive(t)),
                        Err(e) => Err(e),
                    }
                } else if c == 'n' {
                    match self.parse_literal(Literal::Null) {
                        Ok(t) => Ok(JsonNode::Primitive(t)),
                        Err(e) => Err(e),
                    }
                } else {
                    let at = self.offset(self.pos);
                    Err(fault_error(Fault::UnexpectedByte { found: leading_byte(c), at }))
                }
            },
            None => Err(fault_error(Fault::UnexpectedEnd)),
        }
    }

    /// Reads the member whose key is under the cursor, up to the end of the
    /// trivia after its value: its key, the colon with the trivia around it,
    /// its value, and that trivia.
    fn parse_member(&mut self) -> (res: Result<(ParsedKey, Vec<char>, JsonNode, Vec<char>), SortError>)
        requires
            old(self).wf(),
        ensures
            final(self).wf(),
            final(self).source == old(self).source,
            final(self).byte_len == old(self).byte_len,
            match member_head(old(self).source@, old(self).pos as int) {
                Ok((key, d0, vt, vn, da)) => res matches Ok((k, between, v, after)) && {
                    let s = old(self).source@;
                    let p = old(self).pos as int;
                    &&& k.decoded@ == key
                    &&& k.raw_span@ + between@ == s.subrange(p, p + d0)
                    &&& node_text(v) == vt
                    &&& after@ == s.subrange(p + d0 + vn, p + d0 + vn + da)
                    &&& final(self).pos == p + d0 + vn + da
                    &&& p + d0 + vn + da <= s.len()
                },
                Err(f) => res matches Err(e) && reports(e, f),
            },
        decreases old(self).source@.len() - old(self).pos, 0int,
    {
        let ghost s = self.source@;
        let key_pos = self.pos;
        let raw_key = match self.lex_string() {
            Err(e) => {
                return Err(e);
            },
            Ok(r) => r,
        };
        proof {
            lemma_string_token(s, key_pos as int);
        }
        let key = match ParsedKey::from_raw(raw_key) {
            Err(e) => {
                return Err(e);
            },
            Ok(k) => k,
        };
        let between_start = self.pos;
        proof {
            lemma_trivia_end(s, between_start as int);
        }
        match self.parse_trivia() {
            Err(e) => {
                return Err(e);
            },
            Ok(_) => {},
        }
        match self.expect_byte(':') {
            Err(e) => {
                return Err(e);
            },
            Ok(()) => {},
        }
        proof {
            lemma_trivia_end(s, self.pos as int);
        }
        match self.parse_trivia() {
            Err(e) => {
                return Err(e);
            },
            Ok(_) => {},
        }
        let between = self.slice(between_start, self.pos);
        let v0 = self.pos;
        let value = match self.parse_value() {
            Err(e) => {
                return Err(e);
            },
            Ok(v) => v,
        };
        proof {
            lemma_trivia_end(s, self.pos as int);
        }
        let after = match self.parse_trivia() {
            Err(e) => {
                return Err(e);
            },
            Ok(t) => t,
        };
        assert(key.raw_span@ + between@ =~= s.subrange(key_pos as int, v0 as int));
        Ok((key, between, value, after))
    }

    /// Reads the object under the cursor, sorting its members.
    #[verifier::rlimit(60)]
    pub fn parse_object(&mut self) -> (res: Result<ObjectNode, SortError>)
        requires
            old(self).wf(),
        ensures
            final(self).wf(),
            final(self).source == old(self).source,
            final(self).byte_len == old(self).byte_len,
            match object(old(self).source@, old(self).pos as int) {
                Ok((t, n)) => res matches Ok(o) && object_text(o) == t && final(self).pos
                    == old(self).pos + n && object_shape(old(self).source@, old(self).pos as int, o),
                Err(f) => res matches Err(e) && reports(e, f),
            },
        decreases old(self).source@.len() - old(self).pos, 2int,
    {
        let ghost s = self.source@;
        let ghost p0 = self.pos as int;
        match self.expect_byte('{') {
            Err(e) => {
                return Err(e);
            },
            Ok(()) => {},
        }
        proof {
            lemma_trivia_end(s, p0 + 1);
        }
        let mut next_leading = match self.parse_trivia() {
            Err(e) => {
                return Err(e);
            },
            Ok(t) => t,
        };
        if self.peek_byte() == Some('}') {
            self.pos += 1;
            let o = ObjectNode { body: ObjectBody::Empty(next_leading) };
            assert(object_text(o) =~= seq!['{'] + s.subrange(p0 + 1, self.pos - 1) + seq!['}']);
            return Ok(o);
        }
        let ghost q = self.pos as int;
        let ghost mut lead: int = p0 + 1;
        let mut entries: Vec<ObjectEntry> = Vec::new();
        assert(entry_parts(entries@) =~= Seq::<Part>::empty());
        loop
            invariant_except_break
                next_leading@ == s.subrange(lead, self.pos as int),
                object_members(s, lead, self.pos as int) matches Ok((rest, m)) ==> object_members(
                    s,
                    p0 + 1,
                    q,
                ) == Ok::<(Seq<Part>, nat), Fault>(
                    (entry_parts(entries@) + rest, (self.pos + m - q) as nat),
                ),
                object_members(s, lead, self.pos as int) matches Err(f) ==> object_members(
                    s,
                    p0 + 1,
                    q,
                ) == Err::<(Seq<Part>, nat), Fault>(f),
            invariant
                self.wf(),
                self.source@ == s,
                self.source == old(self).source,
                self.byte_len == old(self).byte_len,
                0 <= p0 < s.len(),
                p0 + 1 <= lead <= self.pos <= s.len(),
                p0 + 1 <= q <= self.pos,
                trivia_end(s, p0 + 1) == Some(q),
                at(s, q) != Some('}'),
                at(s, p0) == Some('{'),
                p0 == old(self).pos,
            ensures
                self.wf(),
                self.source@ == s,
                self.source == old(self).source,
                self.byte_len == old(self).byte_len,
                0 <= p0 < s.len(),
                q <= self.pos <= s.len(),
                trivia_end(s, p0 + 1) == Some(q),
                at(s, q) != Some('}'),
                object_members(s, p0 + 1, q) == Ok::<(Seq<Part>, nat), Fault>(
                    (entry_parts(entries@), (self.pos - q) as nat),
                ),
            decreases s.len() - self.pos,
        {
                let key_pos = self.pos;
            let (key, between, value, after) = match self.parse_member() {
                Err(e) => {
                    return Err(e);
                },
                Ok(m) => m,
            };
            let ghost a = self.pos as int;
            let entry = ObjectEntry { leading: next_leading, key, between, value, after };
            let ghost part = entry_part(entry);
            let ghost before = entries@;
            entries.push(entry);
            assert(entry_parts(entries@) =~= entry_parts(before).push(part));
            proof {
                let (k, d0, vt, vn, da) = member_head(s, key_pos as int)->Ok_0;
                assert(part == Part {
                    leading: s.subrange(lead, key_pos as int),
                    key: k,
                    body: s.subrange(key_pos as int, key_pos + d0) + vt,
                    after: s.subrange(key_pos + d0 + vn, a),
                });
            }
            match self.peek_byte() {
                Some(c) => {
                    if c == ',' {
                        self.pos += 1;
                        proof {
                            lemma_trivia_end(s, a + 1);
                        }
                        next_leading = match self.parse_trivia() {
                            Err(e) => {
                                return Err(e);
                            },
                            Ok(t) => t,
                        };
                        proof {
                            lead = a + 1;
                        }
                        assert(entry_parts(before) + (seq![part] + object_members(
                            s,
                            lead,
                            self.pos as int,
                        )->Ok_0.0) =~= entry_parts(entries@) + object_members(
                            s,
                            lead,
                            self.pos as int,
                        )->Ok_0.0);
                    } else if c == '}' {
                        self.pos += 1;
                        assert(entry_parts(before) + seq![part] =~= entry_parts(entries@));
                        break;
                    } else {
                        let at = self.offset(self.pos);
                        return Err(fault_error(Fault::ExpectedCommaOrBrace { at }));
                    }
                },
                None => {
                    let at = self.offset(self.pos);
                    return Err(fault_error(Fault::ExpectedCommaOrBrace { at }));
                },
            }
        }

        let ghost unsorted = entries@;
        sort_entries_preserving_trivia_slots(&mut entries);
        proof {
            lemma_entries_text(entries@);
        }
        let o = ObjectNode { body: ObjectBody::Entries(entries) };
        assert(object_text(o) =~= seq!['{'] + render_parts(arrange(entry_parts(unsorted))) + seq![
            '}',
        ]);
        Ok(o)
    }
}

impl Parser {
    /// Reads the item under the cursor, up to the end of the trivia after it.
    fn parse_item(&mut self) -> (res: Result<(JsonNode, Vec<char>), SortError>)
        requires
            old(self).wf(),
        ensures
            final(self).wf(),
            final(self).source == old(self).source,
            final(self).byte_len == old(self).byte_len,
            match item_head(old(self).source@, old(self).pos as int) {
                Ok((vt, vn, da)) => res matches Ok((v, after)) && {
                    let s = old(self).source@;
                    let p = old(self).pos as int;
                    &&& node_text(v) == vt
                    &&& after@ == s.subrange(p + vn, p + vn + da)
                    &&& final(self).pos == p + vn + da
                    &&& p + vn + da <= s.len()
                },
                Err(f) => res matches Err(e) && reports(e, f),
            },
        decreases old(self).source@.len() - old(self).pos, 4int,
    {
        let ghost s = self.source@;
        let value = match self.parse_value() {
            Err(e) => {
                return Err(e);
            },
            Ok(v) => v,
        };
        proof {
            lemma_trivia_end(s, self.pos as int);
        }
        let after = match self.parse_trivia() {
            Err(e) => {
                return Err(e);
            },
            Ok(t) => t,
        };
        Ok((value, after))
    }

    /// Reads the array under the cursor; its items keep their order.
    pub fn parse_array(&mut self) -> (res: Result<ArrayNode, SortError>)
        requires
            old(self).wf(),
        ensures
            final(self).wf(),
            final(self).source == old(self).source,
            final(self).byte_len == old(self).byte_len,
            match array(old(self).source@, old(self).pos as int) {
                Ok((t, n)) => res matches Ok(a) && array_text(a) == t && final(self).pos
                    == old(self).pos + n && array_shape(old(self).source@, old(self).pos as int, a),
                Err(f) => res matches Err(e) && reports(e, f),
            },
        decreases old(self).source@.len() - old(self).pos, 2int,
    {
        let ghost s = self.source@;
        let ghost p0 = self.pos as int;
        match self.expect_byte('[') {
            Err(e) => {
                return Err(e);
            },
            Ok(()) => {},
        }
        proof {
            lemma_trivia_end(s, p0 + 1);
        }
        let mut next_leading = match self.parse_trivia() {
            Err(e) => {
                return Err(e);
            },
            Ok(t) => t,
        };
        if self.peek_byte() == Some(']') {
            self.pos += 1;
            let a = ArrayNode { body: ArrayBody::Empty(next_leading) };
            assert(array_text(a) =~= seq!['['] + s.subrange(p0 + 1, self.pos - 1) + seq![']']);
            return Ok(a);
        }
        let ghost q = self.pos as int;
        let ghost mut lead: int = p0 + 1;
        let mut items: Vec<ArrayItem> = Vec::new();
        assert(item_parts(items@) =~= Seq::<Part>::empty());
        loop
            invariant_except_break
                next_leading@ == s.subrange(lead, self.pos as int),
                array_items(s, lead, self.pos as int) matches Ok((rest, m)) ==> array_items(
                    s,
                    p0 + 1,
                    q,
                ) == Ok::<(Seq<Part>, nat), Fault>(
                    (item_parts(items@) + rest, (self.pos + m - q) as nat),
                ),
                array_items(s, lead, self.pos as int) matches Err(f) ==> array_items(
                    s,
                    p0 + 1,
                    q,
                ) == Err::<(Seq<Part>, nat), Fault>(f),
            invariant
                self.wf(),
                self.source@ == s,
                self.source == old(self).source,
                self.byte_len == old(self).byte_len,
                0 <= p0 < s.len(),
                p0 + 1 <= lead <= self.pos <= s.len(),
                p0 + 1 <= q <= self.pos,
                trivia_end(s, p0 + 1) == Some(q),
                at(s, q) != Some(']'),
                at(s, p0) == Some('['),
                p0 == old(self).pos,
            ensures
                self.wf(),
                self.source@ == s,
                self.source == old(self).source,
                self.byte_len == old(self).byte_len,
                0 <= p0 < s.len(),
                q <= self.pos <= s.len(),
                trivia_end(s, p0 + 1) == Some(q),
                at(s, q) != Some(']'),
                array_items(s, p0 + 1, q) == Ok::<(Seq<Part>, nat), Fault>(
                    (item_parts(items@), (self.pos - q) as nat),
                ),
            decreases s.len() - self.pos,
        {
                let item_pos = self.pos;
            let (value, after) = match self.parse_item() {
                Err(e) => {
                    return Err(e);
                },
                Ok(it) => it,
            };
            let ghost a = self.pos as int;
            assert(item_head(s, item_pos as int) is Ok);
            let item = ArrayItem { leading: next_leading, value, after };
            let ghost part = item_part(item);
            let ghost before = items@;
            items.push(item);
            assert(item_parts(items@) =~= item_parts(before).push(part));
            proof {
                let (vt, vn, da) = item_head(s, item_pos as int)->Ok_0;
                assert(part == Part {
                    leading: s.subrange(lead, item_pos as int),
                    key: Seq::empty(),
                    body: vt,
                    after: s.subrange(item_pos + vn, a),
                });
            }
            match self.peek_byte() {
                Some(c) => {
                    if c == ',' {
                        self.pos += 1;
                        proof {
                            lemma_trivia_end(s, a + 1);
                        }
                        next_leading = match self.parse_trivia() {
                            Err(e) => {
                                return Err(e);
                            },
                            Ok(t) => t,
                        };
                        proof {
                            lead = a + 1;
                        }
                        assert(item_parts(before) + (seq![part] + array_items(
                            s,
                            lead,
                            self.pos as int,
                        )->Ok_0.0) =~= item_parts(items@) + array_items(
                            s,
                            lead,
                            self.pos as int,
                        )->Ok_0.0);
                    } else if c == ']' {
                        self.pos += 1;
                        assert(item_parts(before) + seq![part] =~= item_parts(items@));
                        break;
                    } else {
                        let at = self.offset(self.pos);
                        return Err(fault_error(Fault::ExpectedCommaOrBracket { at }));
                    }
                },
                None => {
                    let at = self.offset(self.pos);
                    return Err(fault_error(Fault::ExpectedCommaOrBracket { at }));
                },
            }
        }

        proof {
            lemma_items_text(items@);
        }
        let a = ArrayNode { body: ArrayBody::Items(items) };
        assert(array_text(a) =~= seq!['['] + render_parts(item_parts(items@)) + seq![']']);
        Ok(a)
    }

    /// Reads a whole document: trivia, a value, trivia, and nothing more.
    pub fn parse_document(&mut self) -> (res: Result<Document, SortError>)
        requires
            old(self).wf(),
        ensures
            final(self).wf(),
            final(self).source == old(self).source,
            final(self).byte_len == old(self).byte_len,
            match document_from(old(self).source@, old(self).pos as int) {
                Ok(t) => res matches Ok(d) && document_text(d) == t && {
                    let s = old(self).source@;
                    let p = old(self).pos as int;
                    let a = trivia_end(s, p)->Some_0;
                    let (vt, n) = value(s, a)->Ok_0;
                    &&& d.leading@ == s.subrange(p, a)
                    &&& node_text(d.root) == vt
                    &&& d.trailing@ == s.subrange(a + n, s.len() as int)
                    &&& d.source_len == old(self).byte_len
                    &&& final(self).pos == s.len()
                },
                Err(f) => res matches Err(e) && reports(e, f),
            },
    {
        let ghost s = self.source@;
        let leading = match self.parse_trivia() {
            Err(e) => {
                return Err(e);
            },
            Ok(t) => t,
        };
        let root = match self.parse_value() {
            Err(e) => {
                return Err(e);
            },
            Ok(v) => v,
        };
        let trailing = match self.parse_trivia() {
            Err(e) => {
                return Err(e);
            },
            Ok(t) => t,
        };

        if self.pos != self.source.len() {
            let at = self.offset(self.pos);
            return Err(fault_error(Fault::UnexpectedContent { at }));
        }

        let d = Document { source_len: self.byte_len, leading, root, trailing };
        assert(document_text(d) =~= document_from(s, old(self).pos as int)->Ok_0);
        Ok(d)
    }
}

/// Whether `c` is whitespace (`char::is_ascii_whitespace`).
fn is_space_char(c: char) -> (space: bool)
    ensures
        space == is_space(c),
{
    c == ' ' || c == '\t' || c == '\n' || c == '\r' || c == '\x0C'
}

/// How `literal` is spelled.
fn literal_chars(literal: Literal) -> (text: Vec<char>)
    ensures
        text@ == literal_text(literal),
{
    let text = match literal {
        Literal::True => vec!['t', 'r', 'u', 'e'],
        Literal::False => vec!['f', 'a', 'l', 's', 'e'],
        Literal::Null => vec!['n', 'u', 'l', 'l'],
    };
    assert(text@ =~= literal_text(literal));
    text
}

} // verus!
