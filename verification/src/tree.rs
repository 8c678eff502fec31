//! The parsed document: every piece of the source text that the sorted text
//! is made of, held as characters, and the rendering of it.

use vstd::prelude::*;
use crate::grammar::{Part, render_parts};
use crate::text::{push_one, push_range};

verus! {

/// A whole document: trivia, the root value, trivia.
pub struct Document {
    /// How many bytes the source text takes, a hint for the rendered text.
    pub source_len: usize,
    pub leading: Vec<char>,
    pub root: JsonNode,
    pub trailing: Vec<char>,
}

/// A value.
pub enum JsonNode {
    Object(ObjectNode),
    Array(ArrayNode),
    /// A string, number or literal, as written.
    Primitive(Vec<char>),
}

pub struct ObjectNode {
    pub body: ObjectBody,
}

pub enum ObjectBody {
    /// No member; the trivia between the braces.
    Empty(Vec<char>),
    Entries(Vec<ObjectEntry>),
}

/// A key as written, and the string it denotes.
pub struct ParsedKey {
    pub raw_span: Vec<char>,
    pub decoded: Vec<char>,
}

/// A member of an object: the trivia before it, its key, the colon with the
/// trivia around it, its value, and the trivia before the next `,` or `}`.
pub struct ObjectEntry {
    pub leading: Vec<char>,
    pub key: ParsedKey,
    pub between: Vec<char>,
    pub value: JsonNode,
    pub after: Vec<char>,
}

pub struct ArrayNode {
    pub body: ArrayBody,
}

pub enum ArrayBody {
    /// No item; the trivia between the brackets.
    Empty(Vec<char>),
    Items(Vec<ArrayItem>),
}

/// An item of an array with the trivia before and after it.
pub struct ArrayItem {
    pub leading: Vec<char>,
    pub value: JsonNode,
    pub after: Vec<char>,
}

/// A string literal as written, and, where it holds escapes, the string that
/// the decoder made of it.
pub struct RawString {
    pub raw: Vec<char>,
    pub decoded: Option<Vec<char>>,
}

/// The text of a value.
pub open spec fn node_text(n: JsonNode) -> Seq<char>
    decreases n,
{
    match n {
        JsonNode::Object(o) => object_text(o),
        JsonNode::Array(a) => array_text(a),
        JsonNode::Primitive(t) => t@,
    }
}

/// The text of an object.
pub open spec fn object_text(o: ObjectNode) -> Seq<char>
    decreases o,
{
    match o.body {
        ObjectBody::Empty(t) => seq!['{'] + t@ + seq!['}'],
        ObjectBody::Entries(es) => seq!['{'] + entries_text(es@) + seq!['}'],
    }
}

/// The text of an array.
pub open spec fn array_text(a: ArrayNode) -> Seq<char>
    decreases a,
{
    match a.body {
        ArrayBody::Empty(t) => seq!['['] + t@ + seq![']'],
        ArrayBody::Items(is) => seq!['['] + items_text(is@) + seq![']'],
    }
}

/// The members, in order, separated by commas.
pub open spec fn entries_text(es: Seq<ObjectEntry>) -> Seq<char>
    decreases es,
{
    if es.len() == 0 {
        Seq::empty()
    } else {
        let e = es.last();
        let piece = e.leading@ + (e.key.raw_span@ + e.between@ + node_text(e.value)) + e.after@;
        if es.len() == 1 {
            piece
        } else {
            entries_text(es.drop_last()).push(',') + piece
        }
    }
}

/// The items, in order, separated by commas.
pub open spec fn items_text(is: Seq<ArrayItem>) -> Seq<char>
    decreases is,
{
    if is.len() == 0 {
        Seq::empty()
    } else {
        let it = is.last();
        let piece = it.leading@ + node_text(it.value) + it.after@;
        if is.len() == 1 {
            piece
        } else {
            items_text(is.drop_last()).push(',') + piece
        }
    }
}

/// The text of a document.
pub open spec fn document_text(d: Document) -> Seq<char> {
    d.leading@ + node_text(d.root) + d.trailing@
}

/// A member as a part of the sorted text.
pub open spec fn entry_part(e: ObjectEntry) -> Part {
    Part {
        leading: e.leading@,
        key: e.key.decoded@,
        body: e.key.raw_span@ + e.between@ + node_text(e.value),
        after: e.after@,
    }
}

/// An item as a part of the sorted text.
pub open spec fn item_part(it: ArrayItem) -> Part {
    Part { leading: it.leading@, key: Seq::empty(), body: node_text(it.value), after: it.after@ }
}

/// The parts of a sequence of members.
pub open spec fn entry_parts(es: Seq<ObjectEntry>) -> Seq<Part> {
    es.map_values(|e: ObjectEntry| entry_part(e))
}

/// The parts of a sequence of items.
pub open spec fn item_parts(is: Seq<ArrayItem>) -> Seq<Part> {
    is.map_values(|it: ArrayItem| item_part(it))
}

pub proof fn lemma_entries_text(es: Seq<ObjectEntry>)
    ensures
        entries_text(es) == render_parts(entry_parts(es)),
    decreases es.len(),
{
    if es.len() > 1 {
        lemma_entries_text(es.drop_last());
        assert(entry_parts(es.drop_last()) =~= entry_parts(es).drop_last());
    }
}

pub proof fn lemma_items_text(is: Seq<ArrayItem>)
    ensures
        items_text(is) == render_parts(item_parts(is)),
    decreases is.len(),
{
    if is.len() > 1 {
        lemma_items_text(is.drop_last());
        assert(item_parts(is.drop_last()) =~= item_parts(is).drop_last());
    }
}

/// `String::with_capacity`: an empty string with room for `capacity` bytes.
#[verifier::external_body]
fn string_with_capacity(capacity: usize) -> (s: String)
    ensures
        s@ == Seq::<char>::empty(),
{
    String::with_capacity(capacity)
}

/// Appends a whole piece of text.
fn push_all(out: &mut String, piece: &Vec<char>)
    ensures
        final(out)@ == old(out)@ + piece@,
{
    push_range(out, piece, 0, piece.len());
    assert(piece@.subrange(0, piece@.len() as int) =~= piece@);
}

impl Document {
    /// The sorted text: the document's pieces in their current order.
    pub fn render(&self) -> (rendered: String)
        ensures
            rendered@ == document_text(*self),
    {
        let mut rendered = string_with_capacity(self.source_len);
        push_all(&mut rendered, &self.leading);
        self.root.render(&mut rendered);
        push_all(&mut rendered, &self.trailing);
        assert(rendered@ =~= document_text(*self));
        rendered
    }
}

impl JsonNode {
    /// Appends the text of this value to `out`.
    pub fn render(&self, out: &mut String)
        ensures
            final(out)@ == old(out)@ + node_text(*self),
        decreases self,
    {
        match self {
            JsonNode::Object(object) => object.render(out),
            JsonNode::Array(array) => array.render(out),
            JsonNode::Primitive(slice) => push_all(out, slice),
        }
    }
}

impl ObjectNode {
    /// Appends the text of this object to `out`.
    pub fn render(&self, out: &mut String)
        ensures
            final(out)@ == old(out)@ + object_text(*self),
        decreases self,
    {
        push_one(out, '{');
        match &self.body {
            ObjectBody::Empty(trivia) => push_all(out, trivia),
            ObjectBody::Entries(entries) => {
                let ghost start = out@;
                let mut index: usize = 0;
                while index < entries.len()
                    invariant
                        index <= entries@.len(),
                        self.body == ObjectBody::Entries(*entries),
                        out@ == start + entries_text(entries@.take(index as int)) + (
                        if 0 < index < entries@.len() {
                            seq![',']
                        } else {
                            Seq::empty()
                        }),
                    decreases entries@.len() - index,
                {
                    let entry = &entries[index];
                    let ghost before = out@;
                    push_all(out, &entry.leading);
                    push_all(out, &entry.key.raw_span);
                    push_all(out, &entry.between);
                    proof {
                        let e = entries@[index as int];
                        assert(decreases_to!(self => self.body));
                        assert(decreases_to!(self.body => self.body->Entries_0));
                        assert(decreases_to!(*entries => entries@));
                        assert(decreases_to!(entries@ => e));
                        assert(decreases_to!(e => e.value));
                        assert(decreases_to!(self => e.value));
                    }
                    entry.value.render(out);
                    push_all(out, &entry.after);
                    proof {
                        let es = entries@.take(index + 1);
                        assert(es.drop_last() =~= entries@.take(index as int));
                        assert(es.last() == *entry);
                    }
                    if index + 1 < entries.len() {
                        push_one(out, ',');
                    }
                    index += 1;
                    assert(out@ =~= start + entries_text(entries@.take(index as int)) + (
                    if 0 < index < entries@.len() {
                        seq![',']
                    } else {
                        Seq::empty()
                    }));
                }
                assert(entries@.take(entries@.len() as int) =~= entries@);
            },
        }
        push_one(out, '}');
        assert(out@ =~= old(out)@ + object_text(*self));
    }
}

impl ArrayNode {
    /// Appends the text of this array to `out`.
    pub fn render(&self, out: &mut String)
        ensures
            final(out)@ == old(out)@ + array_text(*self),
        decreases self,
    {
        push_one(out, '[');
        match &self.body {
            ArrayBody::Empty(trivia) => push_all(out, trivia),
            ArrayBody::Items(items) => {
                let ghost start = out@;
                let mut index: usize = 0;
                while index < items.len()
                    invariant
                        index <= items@.len(),
                        self.body == ArrayBody::Items(*items),
                        out@ == start + items_text(items@.take(index as int)) + (
                        if 0 < index < items@.len() {
                            seq![',']
                        } else {
                            Seq::empty()
                        }),
                    decreases items@.len() - index,
                {
                    let item = &items[index];
                    push_all(out, &item.leading);
                    proof {
                        let it = items@[index as int];
                        assert(decreases_to!(self => self.body));
                        assert(decreases_to!(self.body => self.body->Items_0));
                        assert(decreases_to!(*items => items@));
                        assert(decreases_to!(items@ => it));
                        assert(decreases_to!(it => it.value));
                        assert(decreases_to!(self => it.value));
                    }
                    item.value.render(out);
                    push_all(out, &item.after);
                    proof {
                        let is = items@.take(index + 1);
                        assert(is.drop_last() =~= items@.take(index as int));
                        assert(is.last() == *item);
                    }
                    if index + 1 < items.len() {
                        push_one(out, ',');
                    }
                    index += 1;
                    assert(out@ =~= start + items_text(items@.take(index as int)) + (
                    if 0 < index < items@.len() {
                        seq![',']
                    } else {
                        Seq::empty()
                    }));
                }
                assert(items@.take(items@.len() as int) =~= items@);
            },
        }
        push_one(out, ']');
        assert(out@ =~= old(out)@ + array_text(*self));
    }
}

} // verus!
