//! What a logged event says: which contexts it names, its message, and its
//! other fields.

use crate::text;
use vstd::prelude::*;
use vstd::string::*;

verus! {

/// The fields of an event, collected one by one.
pub struct EventVisitor {
    pub context_ids: Vec<String>,
    pub message: String,
    pub fields: Vec<(String, String)>,
}

/// The fields of an event.
pub struct EventView {
    pub context_ids: Seq<Seq<char>>,
    pub message: Seq<char>,
    pub fields: Seq<(Seq<char>, Seq<char>)>,
}

/// The names and values of a list of fields.
pub open spec fn fields_view(fields: Seq<(String, String)>) -> Seq<(Seq<char>, Seq<char>)> {
    fields.map_values(|field: (String, String)| (field.0@, field.1@))
}

impl View for EventVisitor {
    type V = EventView;

    open spec fn view(&self) -> EventView {
        EventView {
            context_ids: self.context_ids@.map_values(|id: String| id@),
            message: self.message@,
            fields: fields_view(self.fields@),
        }
    }
}

/// A field name without one leading `self.`.
pub open spec fn normalized(name: Seq<char>) -> Seq<char> {
    if name.len() >= 5 && name.take(5) == seq!['s', 'e', 'l', 'f', '.'] {
        name.skip(5)
    } else {
        name
    }
}

/// The field that holds the message of an event.
pub open spec fn is_message_field(name: Seq<char>) -> bool {
    name == "message"@
}

/// The fields whose values are context ids.
pub open spec fn is_ctx_field(name: Seq<char>) -> bool {
    name == "ctx"@ || name == "context_id"@ || name == "func_ctx"@ || name == "fctx"@
}

impl EventView {
    /// An event without fields.
    pub open spec fn empty() -> EventView {
        EventView {
            context_ids: Seq::empty(),
            message: Seq::empty(),
            fields: Seq::empty(),
        }
    }

    /// The event with one more field: under its normalized name, it is a context
    /// id or one of the other fields.
    pub open spec fn with_field(self, name: Seq<char>, value: Seq<char>) -> EventView {
        let name = normalized(name);
        if is_ctx_field(name) {
            EventView { context_ids: self.context_ids.push(value), ..self }
        } else {
            EventView { fields: self.fields.push((name, value)), ..self }
        }
    }

    /// The event with one more text field: it may be the message as well.
    pub open spec fn with_text(self, name: Seq<char>, value: Seq<char>) -> EventView {
        if is_message_field(normalized(name)) {
            EventView { message: value, ..self }
        } else {
            self.with_field(name, value)
        }
    }
}

/// A field name without one leading `self.`.
pub fn normalize_field_name(name: &str) -> (r: &str)
    ensures
        r@ == normalized(name@),
{
    let len = name.unicode_len();
    proof {
        reveal_strlit("self.");
        assert("self."@ == seq!['s', 'e', 'l', 'f', '.']);
    }
    if len >= 5 && text::same_text(name.substring_char(0, 5), "self.") {
        name.substring_char(5, len)
    } else {
        name
    }
}

/// Whether the values of a field are context ids.
fn names_context(name: &str) -> (r: bool)
    ensures
        r == is_ctx_field(name@),
{
    text::same_text(name, "ctx") || text::same_text(name, "context_id") || text::same_text(
        name,
        "func_ctx",
    ) || text::same_text(name, "fctx")
}

impl EventVisitor {
    /// An event without fields.
    pub fn new() -> (r: EventVisitor)
        ensures
            r@ == EventView::empty(),
    {
        let r = EventVisitor {
            context_ids: Vec::new(),
            message: String::new(),
            fields: Vec::new(),
        };
        assert(r@.context_ids == Seq::<Seq<char>>::empty());
        assert(r@.fields == Seq::<(Seq<char>, Seq<char>)>::empty());
        r
    }

    /// Take in a field whose value is written out.
    fn add_field(&mut self, name: &str, value: String)
        ensures
            final(self)@ == old(self)@.with_field(name@, value@),
    {
        let name = normalize_field_name(name);
        if names_context(name) {
            self.context_ids.push(value);
            proof {
                assert(self@.context_ids == old(self)@.context_ids.push(value@));
                assert(self@.fields == old(self)@.fields);
            }
        } else {
            self.fields.push((name.to_owned(), value));
            proof {
                assert(self@.fields == old(self)@.fields.push((name@, value@)));
                assert(self@.context_ids == old(self)@.context_ids);
            }
        }
    }

    /// A field whose value was formatted with `{:?}`.
    pub fn record_debug(&mut self, name: &str, formatted: String)
        ensures
            final(self)@ == old(self)@.with_text(name@, formatted@),
    {
        if text::same_text(normalize_field_name(name), "message") {
            self.message = formatted;
            assert(self@ == EventView { message: formatted@, ..old(self)@ });
        } else {
            self.add_field(name, formatted);
        }
    }

    /// A field whose value is text.
    pub fn record_str(&mut self, name: &str, value: &str)
        ensures
            final(self)@ == old(self)@.with_text(name@, value@),
    {
        self.record_debug(name, value.to_owned());
    }

    /// A field whose value is a number.
    pub fn record_u64(&mut self, name: &str, value: u64)
        ensures
            final(self)@ == old(self)@.with_field(name@, text::decimal(value as nat)),
    {
        self.add_field(name, text::decimal_text(value));
    }

    /// A field whose value is a number with a sign.
    pub fn record_i64(&mut self, name: &str, value: i64)
        ensures
            final(self)@ == old(self)@.with_field(name@, text::signed_decimal(value as int)),
    {
        self.add_field(name, text::signed_decimal_text(value));
    }

    /// A field whose value is a truth value.
    pub fn record_bool(&mut self, name: &str, value: bool)
        ensures
            final(self)@ == old(self)@.with_field(
                name@,
                if value {
                    "true"@
                } else {
                    "false"@
                },
            ),
    {
        let value_text = if value {
            "true"
        } else {
            "false"
        };
        self.add_field(name, value_text.to_owned());
    }

    /// A field whose value is a fraction, already written out.
    pub fn record_f64(&mut self, name: &str, formatted: String)
        ensures
            final(self)@ == old(self)@.with_field(name@, formatted@),
    {
        self.add_field(name, formatted);
    }

    /// A field whose value is a list of bytes. It is written as the numbers in
    /// brackets, with a comma and a blank between them.
    pub fn record_bytes(&mut self, name: &str, value: &[u8])
        ensures
            final(self)@ == old(self)@.with_field(name@, bytes_text(value@)),
    {
        proof {
            reveal_strlit("[");
            reveal_strlit("]");
            reveal_strlit(", ");
            assert("["@ == seq!['[']);
            assert("]"@ == seq![']']);
            assert(", "@ == seq![',', ' ']);
        }
        let mut numbers: Vec<u64> = Vec::new();
        let mut i: usize = 0;
        while i < value.len()
            invariant
                i <= value@.len(),
                numbers@.len() == i,
                forall|k: int| 0 <= k < i ==> numbers@[k] == value@[k],
            decreases value.len() - i,
        {
            numbers.push(value[i] as u64);
            i = i + 1;
        }
        assert(numbers@.map_values(|n: u64| n as nat) == value@.map_values(|b: u8| b as nat));
        let list = text::joined_text(&numbers, ", ");
        self.add_field(name, "[".to_owned().concat(list.as_str()).concat("]"));
    }
}

/// A list of bytes in brackets, with a comma and a blank between them.
pub open spec fn bytes_text(bytes: Seq<u8>) -> Seq<char> {
    seq!['['] + text::joined(bytes.map_values(|b: u8| b as nat), seq![',', ' ']) + seq![']']
}

/// Every field that is named like a context id counts as one, with or without the
/// prefix, be it text or not, and is no other field.
pub proof fn lemma_context_fields_are_context_ids(
    event: EventView,
    name: Seq<char>,
    value: Seq<char>,
)
    requires
        is_ctx_field(name),
    ensures
        event.with_field(name, value) == (EventView {
            context_ids: event.context_ids.push(value),
            ..event
        }),
        event.with_field(seq!['s', 'e', 'l', 'f', '.'] + name, value) == event.with_field(
            name,
            value,
        ),
        event.with_text(name, value) == event.with_field(name, value),
        event.with_text(seq!['s', 'e', 'l', 'f', '.'] + name, value) == event.with_field(
            name,
            value,
        ),
{
    reveal_strlit("message");
    reveal_strlit("ctx");
    reveal_strlit("context_id");
    reveal_strlit("func_ctx");
    reveal_strlit("fctx");
    lemma_one_prefix_is_stripped(name);
    assert(name[0] != 's');
    assert(name.len() >= 5 ==> name.take(5)[0] == name[0]);
    assert(name[0] != 'm');
}

/// A name loses one leading `self.` and keeps whatever follows it, be it
/// another one.
pub proof fn lemma_one_prefix_is_stripped(name: Seq<char>)
    ensures
        normalized(seq!['s', 'e', 'l', 'f', '.'] + name) == name,
{
    let whole = seq!['s', 'e', 'l', 'f', '.'] + name;
    assert(whole.take(5) == seq!['s', 'e', 'l', 'f', '.']);
    assert(whole.skip(5) == name);
}

/// A name that does not begin with `self.` is its own normalized name.
pub proof fn lemma_other_names_are_kept(name: Seq<char>)
    requires
        !(name.len() >= 5 && name[0] == 's' && name[1] == 'e' && name[2] == 'l' && name[3] == 'f'
            && name[4] == '.'),
    ensures
        normalized(name) == name,
{
    if name.len() >= 5 && name.take(5) == seq!['s', 'e', 'l', 'f', '.'] {
        let p = name.take(5);
        assert(p[0] == name[0] && p[1] == name[1] && p[2] == name[2] && p[3] == name[3] && p[4]
            == name[4]);
    }
}

/// Four names are those of context ids, and one is that of the message; no other
/// name is.
pub proof fn lemma_special_names(name: Seq<char>)
    ensures
        is_ctx_field(name) <==> {
            ||| name == seq!['c', 't', 'x']
            ||| name == seq!['c', 'o', 'n', 't', 'e', 'x', 't', '_', 'i', 'd']
            ||| name == seq!['f', 'u', 'n', 'c', '_', 'c', 't', 'x']
            ||| name == seq!['f', 'c', 't', 'x']
        },
        is_message_field(name) <==> name == seq!['m', 'e', 's', 's', 'a', 'g', 'e'],
{
    reveal_strlit("message");
    reveal_strlit("ctx");
    reveal_strlit("context_id");
    reveal_strlit("func_ctx");
    reveal_strlit("fctx");
    assert("message"@ == seq!['m', 'e', 's', 's', 'a', 'g', 'e']);
    assert("ctx"@ == seq!['c', 't', 'x']);
    assert("context_id"@ == seq!['c', 'o', 'n', 't', 'e', 'x', 't', '_', 'i', 'd']);
    assert("func_ctx"@ == seq!['f', 'u', 'n', 'c', '_', 'c', 't', 'x']);
    assert("fctx"@ == seq!['f', 'c', 't', 'x']);
}

/// A field that is not named like a context id is kept among the other fields,
/// behind those that are there, under its name without one leading `self.` and
/// with its value; the contexts and the message stay as they are. A text field
/// named like the message is the exception: it replaces the message and nothing
/// else.
pub proof fn lemma_other_fields_are_kept(
    event: EventView,
    name: Seq<char>,
    full: Seq<char>,
    value: Seq<char>,
)
    requires
        full == seq!['s', 'e', 'l', 'f', '.'] + name || (full == name && !(name.len() >= 5
            && name[0] == 's' && name[1] == 'e' && name[2] == 'l' && name[3] == 'f' && name[4]
            == '.')),
        name != seq!['c', 't', 'x'],
        name != seq!['c', 'o', 'n', 't', 'e', 'x', 't', '_', 'i', 'd'],
        name != seq!['f', 'u', 'n', 'c', '_', 'c', 't', 'x'],
        name != seq!['f', 'c', 't', 'x'],
    ensures
        event.with_field(full, value).fields == event.fields.push((name, value)),
        event.with_field(full, value).context_ids == event.context_ids,
        event.with_field(full, value).message == event.message,
        event.with_text(full, value).context_ids == event.context_ids,
        name == seq!['m', 'e', 's', 's', 'a', 'g', 'e'] ==> event.with_text(full, value).message
            == value && event.with_text(full, value).fields == event.fields,
        name != seq!['m', 'e', 's', 's', 'a', 'g', 'e'] ==> event.with_text(full, value).message
            == event.message && event.with_text(full, value).fields == event.fields.push(
            (name, value),
        ),
{
    lemma_special_names(name);
    lemma_one_prefix_is_stripped(name);
    if full == name {
        lemma_other_names_are_kept(name);
    }
}

/// An event without fields names no context and has no message and no fields.
pub proof fn lemma_empty_event_says_nothing()
    ensures
        EventView::empty().context_ids.len() == 0,
        EventView::empty().message.len() == 0,
        EventView::empty().fields.len() == 0,
{
}

/// What a visitor has collected is what its fields hold, piece by piece.
pub proof fn lemma_visitor_says_what_it_holds(visitor: EventVisitor)
    ensures
        visitor@.message == visitor.message@,
        visitor@.context_ids.len() == visitor.context_ids@.len(),
        forall|k: int|
            0 <= k < visitor.context_ids@.len() ==> #[trigger] visitor@.context_ids[k]
                == visitor.context_ids@[k]@,
        visitor@.fields.len() == visitor.fields@.len(),
        forall|k: int|
            0 <= k < visitor.fields@.len() ==> (#[trigger] visitor@.fields[k]).0
                == visitor.fields@[k].0@ && visitor@.fields[k].1 == visitor.fields@[k].1@,
{
}

/// No bytes are a pair of brackets; one byte is its decimal text in brackets; and
/// one more byte adds, before the closing bracket, a comma, a blank and its own
/// decimal text.
pub proof fn lemma_bytes_text_grows(bytes: Seq<u8>, b: u8)
    ensures
        bytes_text(Seq::empty()) == seq!['[', ']'],
        bytes_text(seq![b]) == seq!['['] + text::decimal(b as nat) + seq![']'],
        bytes_text(bytes).len() >= 2,
        bytes_text(bytes).last() == ']',
        bytes.len() > 0 ==> bytes_text(bytes.push(b)) == bytes_text(bytes).drop_last() + seq![
            ',',
            ' ',
        ] + text::decimal(b as nat) + seq![']'],
{
    let numbers = bytes.map_values(|b: u8| b as nat);
    let separator = seq![',', ' '];
    text::lemma_joined_grows(numbers, b as nat, separator);
    assert(seq![b].map_values(|b: u8| b as nat) == seq![b as nat]);
    assert(Seq::<u8>::empty().map_values(|b: u8| b as nat) == Seq::<nat>::empty());
    assert(bytes.push(b).map_values(|b: u8| b as nat) == numbers.push(b as nat));
    assert(bytes_text(Seq::empty()) == seq!['[', ']']);
    assert(bytes_text(bytes).drop_last() == seq!['['] + text::joined(numbers, separator));
}

} // verus!
