//! JSON documents: the tree that a text stands for, read with `serde_json`,
//! and the text that a tree is written as.

use vstd::prelude::*;

verus! {

/// A JSON document.
pub enum Json {
    Null,
    Bool(bool),
    /// A number. A natural number below 2^64 is held as it is; of any other
    /// number only that it is one.
    Number(Option<u64>),
    Text(Vec<char>),
    List(Vec<Json>),
    /// The members of an object, in the order of their keys.
    Object(Vec<(Vec<char>, Json)>),
}

/// What a `Json` stands for.
pub enum Document {
    Null,
    Bool(bool),
    Number(Option<u64>),
    Text(Seq<char>),
    List(Seq<Document>),
    Object(Seq<(Seq<char>, Document)>),
}

impl Json {
    /// The document that the value stands for.
    pub open spec fn view(&self) -> Document
        decreases self,
    {
        match self {
            Json::Null => Document::Null,
            Json::Bool(b) => Document::Bool(*b),
            Json::Number(n) => Document::Number(*n),
            Json::Text(t) => Document::Text(t@),
            Json::List(items) => Document::List(
                Seq::new(
                    items@.len(),
                    |i: int|
                        if 0 <= i < items@.len() {
                            items@[i].view()
                        } else {
                            Document::Null
                        },
                ),
            ),
            Json::Object(members) => Document::Object(
                Seq::new(
                    members@.len(),
                    |i: int|
                        if 0 <= i < members@.len() {
                            (members@[i].0@, members@[i].1.view())
                        } else {
                            (Seq::empty(), Document::Null)
                        },
                ),
            ),
        }
    }
}

/// `serde_json::Value`: a parsed JSON text, as `serde_json` holds it.
#[verifier::external_type_specification]
#[verifier::external_body]
pub struct ExValue(serde_json::Value);

/// `serde_json::Error`: why a text could not be parsed.
#[verifier::external_type_specification]
#[verifier::external_body]
pub struct ExError(serde_json::Error);

/// The document that `serde_json::from_str` reads from a text, if the text
/// is JSON.
pub uninterp spec fn json_document(text: Seq<char>) -> Option<Document>;

/// The document that a `serde_json::Value` holds.
pub uninterp spec fn value_document(value: serde_json::Value) -> Document;

/// `serde_json::from_str` for `serde_json::Value`: parses a text. Whether it
/// succeeds and what tree it gives depends on the text alone: it gives the
/// value that holds the document of the text, and fails where the text has
/// none.
#[verifier::external_body]
fn parse_value(text: &str) -> (parsed: Result<serde_json::Value, serde_json::Error>)
    ensures
        match parsed {
            Ok(value) => json_document(text@) == Some(value_document(value)),
            Err(_) => json_document(text@).is_none(),
        },
{
    serde_json::from_str::<serde_json::Value>(text)
}

/// Takes a `serde_json::Value` apart, variant by variant, into the `Json`
/// that holds the same document: `Number::as_u64` gives the number, the
/// members of an object come in the order in which `Map::iter` walks them.
#[verifier::external_body]
fn json_of(value: &serde_json::Value) -> (json: Json)
    ensures
        json@ == value_document(*value),
{
    match value {
        serde_json::Value::Null => Json::Null,
        serde_json::Value::Bool(b) => Json::Bool(*b),
        serde_json::Value::Number(n) => Json::Number(n.as_u64()),
        serde_json::Value::String(s) => Json::Text(s.chars().collect()),
        serde_json::Value::Array(a) => Json::List(a.iter().map(json_of).collect()),
        serde_json::Value::Object(o) => Json::Object(
            o.iter().map(|(k, v)| (k.chars().collect(), json_of(v))).collect(),
        ),
    }
}

/// `String::from_iter` over the characters of `chars`: the string that is
/// made of these characters.
#[verifier::external_body]
fn text_of(chars: &Vec<char>) -> (text: String)
    ensures
        text@ == chars@,
{
    chars.iter().collect()
}

/// The characters that the text is made of.
fn chars_of(text: &str) -> (chars: Vec<char>)
    ensures
        chars@ == text@,
{
    let count = text.unicode_len();
    let mut chars: Vec<char> = Vec::new();
    let mut k: usize = 0;
    while k < count
        invariant
            k <= count,
            count == text@.len(),
            chars@ == text@.take(k as int),
        decreases count - k,
    {
        chars.push(text.get_char(k));
        assert(chars@ =~= text@.take(k + 1));
        k += 1;
    }
    assert(text@.take(count as int) =~= text@);
    chars
}

/// The member of an object with the given key: the first one, if there are
/// several. Nothing for a document that is no object or has no such member.
pub open spec fn member_spec(doc: Document, key: Seq<char>) -> Option<Document> {
    match doc {
        Document::Object(members) => first_member(members, key, 0),
        _ => None,
    }
}

/// The first member from position `from` on with the given key.
pub open spec fn first_member(members: Seq<(Seq<char>, Document)>, key: Seq<char>, from: int) -> Option<
    Document,
>
    decreases members.len() - from,
{
    if from < 0 || from >= members.len() {
        None
    } else if members[from].0 == key {
        Some(members[from].1)
    } else {
        first_member(members, key, from + 1)
    }
}

/// The decimal digit for `d`.
pub open spec fn digit_spec(d: int) -> char {
    if d == 0 {
        '0'
    } else if d == 1 {
        '1'
    } else if d == 2 {
        '2'
    } else if d == 3 {
        '3'
    } else if d == 4 {
        '4'
    } else if d == 5 {
        '5'
    } else if d == 6 {
        '6'
    } else if d == 7 {
        '7'
    } else if d == 8 {
        '8'
    } else {
        '9'
    }
}

/// The decimal digits of `n`, without leading zeros.
pub open spec fn decimal_spec(n: nat) -> Seq<char>
    decreases n,
{
    if n < 10 {
        seq![digit_spec(n as int)]
    } else {
        decimal_spec(n / 10).push(digit_spec((n % 10) as int))
    }
}

/// The characters of a text between its quotes: a backslash is put before
/// every quote and every backslash.
pub open spec fn escaped_spec(text: Seq<char>) -> Seq<char>
    decreases text.len(),
{
    if text.len() == 0 {
        Seq::empty()
    } else if text.last() == '"' || text.last() == '\\' {
        escaped_spec(text.drop_last()).push('\\').push(text.last())
    } else {
        escaped_spec(text.drop_last()).push(text.last())
    }
}

/// A text in its quotes.
pub open spec fn quoted_spec(text: Seq<char>) -> Seq<char> {
    seq!['"'] + escaped_spec(text) + seq!['"']
}

/// What stands between two items of a list: a comma and a line break
/// between objects, a comma and a blank between other items.
pub open spec fn separator_spec(items: Seq<Document>) -> Seq<char> {
    if items.len() > 0 && items[0] is Object {
        seq![',', '\n']
    } else {
        seq![',', ' ']
    }
}

/// The text of a document: objects as `{ "key": value, .. }`, lists as
/// `[item, ..]`, a number that is not known as `null`.
pub open spec fn render_spec(doc: Document) -> Seq<char>
    decreases doc, 0nat,
{
    match doc {
        Document::Null => seq!['n', 'u', 'l', 'l'],
        Document::Bool(b) => if b {
            seq!['t', 'r', 'u', 'e']
        } else {
            seq!['f', 'a', 'l', 's', 'e']
        },
        Document::Number(n) => match n {
            Some(v) => decimal_spec(v as nat),
            None => seq!['n', 'u', 'l', 'l'],
        },
        Document::Text(t) => quoted_spec(t),
        Document::List(items) => seq!['['] + render_items(items, items.len()) + seq![']'],
        Document::Object(members) => seq!['{', ' '] + render_members(members, members.len())
            + seq![' ', '}'],
    }
}

/// The texts of the first `upto` items of a list, with what stands between
/// them.
pub open spec fn render_items(items: Seq<Document>, upto: nat) -> Seq<char>
    decreases items, upto,
{
    if upto == 0 || upto > items.len() {
        Seq::empty()
    } else if upto == 1 {
        render_spec(items[0])
    } else {
        render_items(items, (upto - 1) as nat) + separator_spec(items) + render_spec(
            items[upto - 1],
        )
    }
}

/// The texts of the first `upto` members of an object, each as its key in
/// quotes, a colon, a blank and its value, with a comma and a blank between
/// them.
pub open spec fn render_members(members: Seq<(Seq<char>, Document)>, upto: nat) -> Seq<char>
    decreases members, upto,
{
    if upto == 0 || upto > members.len() {
        Seq::empty()
    } else {
        let before = if upto == 1 {
            Seq::empty()
        } else {
            render_members(members, (upto - 1) as nat) + seq![',', ' ']
        };
        before + quoted_spec(members[upto - 1].0) + seq![':', ' '] + render_spec(
            members[upto - 1].1,
        )
    }
}

fn digit(d: u64) -> (c: char)
    requires
        d < 10,
    ensures
        c == digit_spec(d as int),
{
    if d == 0 {
        '0'
    } else if d == 1 {
        '1'
    } else if d == 2 {
        '2'
    } else if d == 3 {
        '3'
    } else if d == 4 {
        '4'
    } else if d == 5 {
        '5'
    } else if d == 6 {
        '6'
    } else if d == 7 {
        '7'
    } else if d == 8 {
        '8'
    } else {
        '9'
    }
}

fn write_decimal(n: u64, out: &mut Vec<char>)
    ensures
        final(out)@ == old(out)@ + decimal_spec(n as nat),
    decreases n,
{
    if n >= 10 {
        write_decimal(n / 10, out);
    }
    out.push(digit(n % 10));
    assert(out@ =~= old(out)@ + decimal_spec(n as nat));
}

fn write_quoted(text: &Vec<char>, out: &mut Vec<char>)
    ensures
        final(out)@ == old(out)@ + quoted_spec(text@),
{
    out.push('"');
    let mut i: usize = 0;
    while i < text.len()
        invariant
            i <= text@.len(),
            out@ == old(out)@ + seq!['"'] + escaped_spec(text@.take(i as int)),
        decreases text@.len() - i,
    {
        let c = text[i];
        assert(text@.take(i + 1).drop_last() =~= text@.take(i as int));
        if c == '"' || c == '\\' {
            out.push('\\');
        }
        out.push(c);
        assert(out@ =~= old(out)@ + seq!['"'] + escaped_spec(text@.take(i + 1)));
        i += 1;
    }
    assert(text@.take(text@.len() as int) =~= text@);
    out.push('"');
    assert(out@ =~= old(out)@ + quoted_spec(text@));
}

impl Json {
    /// The member of an object with the given key.
    pub fn member(&self, key: &Vec<char>) -> (found: Option<&Json>)
        ensures
            match found {
                Some(json) => member_spec(self@, key@) == Some(json@),
                None => member_spec(self@, key@).is_none(),
            },
    {
        match self {
            Json::Object(members) => {
                let mut i: usize = 0;
                while i < members.len()
                    invariant
                        i <= members@.len(),
                        self@ matches Document::Object(all) && all.len() == members@.len()
                            && first_member(all, key@, 0) == first_member(all, key@, i as int)
                            && forall|j: int|
                            0 <= j < all.len() ==> #[trigger] all[j] == (
                                members@[j].0@,
                                members@[j].1@,
                            ),
                    decreases members@.len() - i,
                {
                    if same_text(&members[i].0, key) {
                        return Some(&members[i].1);
                    }
                    i += 1;
                }
                None
            },
            _ => None,
        }
    }

    /// The number that the document is, if it is a natural number below
    /// 2^64.
    pub fn as_number(&self) -> (number: Option<u64>)
        ensures
            number == match self@ {
                Document::Number(n) => n,
                _ => None,
            },
    {
        match self {
            Json::Number(n) => *n,
            _ => None,
        }
    }

    /// The items of the document, if it is a list.
    pub fn as_list(&self) -> (items: Option<&Vec<Json>>)
        ensures
            match items {
                Some(list) => self@ == Document::List(documents(list@)),
                None => !(self@ is List),
            },
    {
        match self {
            Json::List(items) => {
                assert(self@ =~= Document::List(documents(items@))) by {
                    assert(self@->List_0 =~= documents(items@));
                }
                Some(items)
            },
            _ => None,
        }
    }

    /// The document that is the given text.
    pub fn text(text: &str) -> (json: Json)
        ensures
            json@ == Document::Text(text@),
    {
        Json::Text(chars_of(text))
    }

    /// Reads a document from a text.
    pub fn parse(text: &str) -> (parsed: Option<Json>)
        ensures
            match parsed {
                Some(json) => json_document(text@) == Some(json@),
                None => json_document(text@).is_none(),
            },
    {
        match parse_value(text) {
            Ok(value) => Some(json_of(&value)),
            Err(_) => None,
        }
    }

    /// Writes the document as a text.
    pub fn render(&self) -> (text: String)
        ensures
            text@ == render_spec(self@),
    {
        let mut out: Vec<char> = Vec::new();
        self.write(&mut out);
        text_of(&out)
    }

    fn write(&self, out: &mut Vec<char>)
        ensures
            final(out)@ == old(out)@ + render_spec(self@),
        decreases self,
    {
        match self {
            Json::Null => {
                out.push('n');
                out.push('u');
                out.push('l');
                out.push('l');
            },
            Json::Bool(b) => {
                if *b {
                    out.push('t');
                    out.push('r');
                    out.push('u');
                    out.push('e');
                } else {
                    out.push('f');
                    out.push('a');
                    out.push('l');
                    out.push('s');
                    out.push('e');
                }
            },
            Json::Number(n) => {
                match n {
                    Some(v) => {
                        write_decimal(*v, out);
                    },
                    None => {
                        out.push('n');
                        out.push('u');
                        out.push('l');
                        out.push('l');
                    },
                }
            },
            Json::Text(t) => {
                write_quoted(t, out);
            },
            Json::List(items) => {
                let ghost all = documents(items@);
                assert(self@->List_0 =~= all);
                out.push('[');
                let objects = items.len() > 0 && match &items[0] {
                    Json::Object(_) => true,
                    _ => false,
                };
                let mut i: usize = 0;
                while i < items.len()
                    invariant
                        i <= items@.len(),
                        all == documents(items@),
                        objects == (all.len() > 0 && all[0] is Object),
                        *self == Json::List(*items),
                        out@ == old(out)@ + seq!['['] + render_items(all, i as nat),
                    decreases items@.len() - i,
                {
                    if i > 0 {
                        out.push(',');
                        if objects {
                            out.push('\n');
                        } else {
                            out.push(' ');
                        }
                    }
                    proof {
                        vstd::std_specs::vec::axiom_vec_index_decreases(*items, i as int);
                        assert(self->List_0 == *items);
                        assert(decreases_to!(*self => self->List_0));
                        assert(decreases_to!(self->List_0 => self->List_0[i as int]));
                    }
                    items[i].write(out);
                    proof {
                        assert(all[i as int] == items@[i as int]@);
                        assert(out@ =~= old(out)@ + seq!['['] + render_items(all, (i + 1) as nat));
                    }
                    i += 1;
                }
                out.push(']');
            },
            Json::Object(members) => {
                let ghost all = entries(members@);
                assert(self@->Object_0 =~= all);
                out.push('{');
                out.push(' ');
                let mut i: usize = 0;
                while i < members.len()
                    invariant
                        i <= members@.len(),
                        all == entries(members@),
                        *self == Json::Object(*members),
                        out@ == old(out)@ + seq!['{', ' '] + render_members(all, i as nat),
                    decreases members@.len() - i,
                {
                    if i > 0 {
                        out.push(',');
                        out.push(' ');
                    }
                    write_quoted(&members[i].0, out);
                    out.push(':');
                    out.push(' ');
                    proof {
                        vstd::std_specs::vec::axiom_vec_index_decreases(*members, i as int);
                        assert(self->Object_0 == *members);
                        assert(decreases_to!(*self => self->Object_0));
                        assert(decreases_to!(self->Object_0 => self->Object_0[i as int]));
                        assert(decreases_to!(self->Object_0[i as int] => self->Object_0[i as int].1));
                    }
                    members[i].1.write(out);
                    proof {
                        assert(all[i as int] == (members@[i as int].0@, members@[i as int].1@));
                        assert(out@ =~= old(out)@ + seq!['{', ' '] + render_members(
                            all,
                            (i + 1) as nat,
                        ));
                    }
                    i += 1;
                }
                out.push(' ');
                out.push('}');
            },
        }
        assert(out@ =~= old(out)@ + render_spec(self@));
    }
}

/// The documents that the items of a list stand for.
pub open spec fn documents(items: Seq<Json>) -> Seq<Document> {
    Seq::new(items.len(), |i: int| items[i]@)
}

/// The keys and documents that the members of an object stand for.
pub open spec fn entries(members: Seq<(Vec<char>, Json)>) -> Seq<(Seq<char>, Document)> {
    Seq::new(members.len(), |i: int| (members[i].0@, members[i].1@))
}

fn same_text(a: &Vec<char>, b: &Vec<char>) -> (same: bool)
    ensures
        same == (a@ == b@),
{
    if a.len() != b.len() {
        return false;
    }
    let mut i: usize = 0;
    while i < a.len()
        invariant
            i <= a@.len(),
            a@.len() == b@.len(),
            forall|j: int| 0 <= j < i ==> a@[j] == b@[j],
        decreases a@.len() - i,
    {
        if a[i] != b[i] {
            return false;
        }
        i += 1;
    }
    assert(a@ =~= b@);
    true
}

} // verus!
