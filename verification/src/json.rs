//! JSON5 values, and the places of the errors in them.

use crate::text;
use json5_nodes::JsonNode;
use vstd::prelude::*;
use vstd::string::*;

verus! {

/// Why a text is not the wanted JSON5 value: the message, the line and the column of the error
/// where they are known, both counted from 0, and the kind of the error where it is one of the
/// parser's own.
#[derive(Debug, PartialEq, Eq, Hash)]
pub struct Json5Error<Text = String> {
    pub message: Text,
    pub position: Option<(usize, usize)>,
    pub code: Option<Text>,
}

impl View for Json5Error<String> {
    type V = Json5Error<Seq<u8>>;

    open spec fn view(&self) -> Json5Error<Seq<u8>> {
        Json5Error {
            message: text::bytes_of(self.message),
            position: self.position,
            code: match self.code {
                None => None,
                Some(code) => Some(text::bytes_of(code)),
            },
        }
    }
}

/// What `json5::from_str` makes of a text that should hold a string: the string, or the message,
/// the position and the kind of the error.
pub uninterp spec fn json5_string(text: Seq<u8>) -> Result<Seq<u8>, Json5Error<Seq<u8>>>;

pub open spec fn result_view(r: Result<String, Json5Error>) -> Result<
    Seq<u8>,
    Json5Error<Seq<u8>>,
> {
    match r {
        Ok(s) => Ok(text::bytes_of(s)),
        Err(e) => Err(e@),
    }
}

/// `json5::from_str` for a string. Its result is a function of the text: the string that the text
/// holds, or the error, with its display text, the line and column of its position, and the
/// display text of its code.
#[verifier::external_body]
pub(crate) fn json5_from_str(text: &str) -> (r: Result<String, Json5Error>)
    ensures
        result_view(r) == json5_string(text.spec_bytes()),
{
    match json5::from_str::<String>(text) {
        Ok(s) => Ok(s),
        Err(e) => Err(Json5Error {
            message: e.to_string(),
            position: e.position().map(|p| (p.line, p.column)),
            code: e.code().map(|c| c.to_string()),
        }),
    }
}

/// The offset of a line and a column, both counted from 0, from `i` on, where line `line` and
/// column `col` stand; the end of the text where it does not reach so far.
pub open spec fn location(b: Seq<u8>, i: int, line: int, col: int, to: (usize, usize)) -> int
    decreases b.len() - i,
{
    if i < 0 || i >= b.len() || (line >= to.0 && col >= to.1) {
        i
    } else if b[i] == 0x0a {
        location(b, i + 1, line + 1, 0, to)
    } else if text::char_end(b, i) > i {
        location(b, text::char_end(b, i), line, col + 1, to)
    } else {
        i
    }
}

/// The kinds of error that the parser reports at the end of the text.
pub open spec fn is_end_code(code: Seq<u8>) -> bool {
    ||| code == "EOF parsing array".spec_bytes()
    ||| code == "EOF parsing bool".spec_bytes()
    ||| code == "EOF parsing comment".spec_bytes()
    ||| code == "EOF parsing escape sequence".spec_bytes()
    ||| code == "EOF parsing identifier".spec_bytes()
    ||| code == "EOF parsing null".spec_bytes()
    ||| code == "EOF parsing number".spec_bytes()
    ||| code == "EOF parsing object".spec_bytes()
    ||| code == "EOF parsing string".spec_bytes()
    ||| code == "EOF parsing value".spec_bytes()
}

/// The offset in the source of an error in a text at `base`.
pub open spec fn error_offset(e: Json5Error<Seq<u8>>, b: Seq<u8>, base: usize) -> int {
    match (e.position, e.code) {
        (Some(to), _) => base + location(b, 0, 0, 0, to),
        (None, Some(code)) => if is_end_code(code) {
            base + b.len()
        } else {
            base as int
        },
        (None, None) => base as int,
    }
}

pub(crate) fn find_location(b: &[u8], to: (usize, usize)) -> (r: usize)
    ensures
        r == location(b@, 0, 0, 0, to),
        r <= b@.len(),
{
    let len: usize = b.len();
    let mut i: usize = 0;
    let mut line: usize = 0;
    let mut col: usize = 0;
    while i < len && !(line >= to.0 && col >= to.1)
        invariant
            len == b@.len(),
            line <= i,
            col <= i,
            i <= len,
            location(b@, 0, 0, 0, to) == location(b@, i as int, line as int, col as int, to),
        decreases len - i,
    {
        if b[i] == 0x0a {
            i += 1;
            line += 1;
            col = 0;
        } else {
            i = text::after_char(b, i);
            col += 1;
        }
    }
    i
}

fn end_code(code: &str) -> (r: bool)
    ensures
        r == is_end_code(code.spec_bytes()),
{
    let b = code.as_bytes();
    text::bytes_eq(b, "EOF parsing array".as_bytes())
        || text::bytes_eq(b, "EOF parsing bool".as_bytes())
        || text::bytes_eq(b, "EOF parsing comment".as_bytes())
        || text::bytes_eq(b, "EOF parsing escape sequence".as_bytes())
        || text::bytes_eq(b, "EOF parsing identifier".as_bytes())
        || text::bytes_eq(b, "EOF parsing null".as_bytes())
        || text::bytes_eq(b, "EOF parsing number".as_bytes())
        || text::bytes_eq(b, "EOF parsing object".as_bytes())
        || text::bytes_eq(b, "EOF parsing string".as_bytes())
        || text::bytes_eq(b, "EOF parsing value".as_bytes())
}

pub proof fn lemma_location(b: Seq<u8>, i: int, line: int, col: int, to: (usize, usize))
    requires
        0 <= i <= b.len(),
    ensures
        i <= location(b, i, line, col, to) <= b.len(),
    decreases b.len() - i,
{
    if i < b.len() && !(line >= to.0 && col >= to.1) {
        if b[i] == 0x0a {
            lemma_location(b, i + 1, line + 1, 0, to);
        } else {
            lemma_location(b, text::char_end(b, i), line, col + 1, to);
        }
    }
}

/// The offset in the source of an error in a text that stands at `base_offset`: where the error
/// has a position, the one of that position; at the end of the text where the text ends too
/// early; at its start otherwise.
pub fn json5_error_to_offset(error: &Json5Error, source_string: &str, base_offset: usize) -> (r:
    usize)
    requires
        base_offset + source_string.spec_bytes().len() <= usize::MAX,
    ensures
        r == error_offset(error@, source_string.spec_bytes(), base_offset),
        base_offset <= r <= base_offset + source_string.spec_bytes().len(),
{
    let b = source_string.as_bytes();
    match (error.position, &error.code) {
        (Some(to), _) => base_offset + find_location(b, to),
        (None, Some(code)) => if end_code(code.as_str()) {
            base_offset + b.len()
        } else {
            base_offset
        },
        (None, None) => base_offset,
    }
}

// ---------------------------------------------------------------------------------------------
// The places of strings

/// What an element of an array holds under a name.
#[derive(Debug)]
pub enum Member<List = Vec<Option<Option<(usize, usize)>>>> {
    /// The element is no object.
    NoObject,
    /// The object has no member of that name.
    Missing,
    /// The member is an array. For each of its elements that is a string there is its line and
    /// its column, both counted from 1, where they are known.
    List(List),
    /// The member is something else.
    Other,
}

pub type MemberModel = Member<Seq<Option<Option<(usize, usize)>>>>;

impl View for Member<Vec<Option<Option<(usize, usize)>>>> {
    type V = Member<Seq<Option<Option<(usize, usize)>>>>;

    open spec fn view(&self) -> Member<Seq<Option<Option<(usize, usize)>>>> {
        match *self {
            Member::NoObject => Member::NoObject,
            Member::Missing => Member::Missing,
            Member::List(v) => Member::List(v@),
            Member::Other => Member::Other,
        }
    }
}

pub open spec fn member_models(v: Seq<Member>) -> Seq<MemberModel> {
    Seq::new(v.len(), |i: int| v[i]@)
}

pub open spec fn members_view(r: Option<Vec<Member>>) -> Option<Seq<MemberModel>> {
    match r {
        None => None,
        Some(v) => Some(member_models(v@)),
    }
}

/// What stands under a name in an object. Of an array the line and the column of each string are
/// kept, both counted from 1, where they are known.
#[derive(Debug)]
pub enum Value<List = Vec<Option<Option<(usize, usize)>>>> {
    List(List),
    Other,
}

/// An element of an array: of an object the names and what stands under them are kept.
#[derive(Debug)]
pub enum Element<Members = Vec<(String, Value)>> {
    Object(Members),
    Other,
}

/// The value that a text holds: of an array the elements are kept.
#[derive(Debug)]
pub enum Nodes<List = Vec<Element>> {
    Array(List),
    Other,
}

pub type ValueModel = Value<Seq<Option<Option<(usize, usize)>>>>;

pub type ElementModel = Element<Seq<(Seq<u8>, ValueModel)>>;

pub type NodesModel = Nodes<Seq<ElementModel>>;

impl View for Value<Vec<Option<Option<(usize, usize)>>>> {
    type V = Value<Seq<Option<Option<(usize, usize)>>>>;

    open spec fn view(&self) -> Value<Seq<Option<Option<(usize, usize)>>>> {
        match *self {
            Value::List(v) => Value::List(v@),
            Value::Other => Value::Other,
        }
    }
}

pub open spec fn element_view(e: Element) -> ElementModel {
    match e {
        Element::Object(v) => Element::Object(
            Seq::new(v@.len(), |i: int| (text::bytes_of(v@[i].0), v@[i].1@)),
        ),
        Element::Other => Element::Other,
    }
}

pub open spec fn nodes_view(r: Option<Nodes>) -> Option<NodesModel> {
    match r {
        None => None,
        Some(Nodes::Array(v)) => Some(
            Nodes::Array(Seq::new(v@.len(), |i: int| element_view(v@[i]))),
        ),
        Some(Nodes::Other) => Some(Nodes::Other),
    }
}

/// What `json5_nodes::parse` makes of a text; `None` where it finds an error.
pub uninterp spec fn json5_value(text: Seq<u8>) -> Option<
    Nodes<Seq<Element<Seq<(Seq<u8>, Value<Seq<Option<Option<(usize, usize)>>>>)>>>>,
>;

/// `json5_nodes::parse`: the nodes that it finds, with the members of an object in the order in
/// which the object keeps them, are a function of the text. Below the members of the elements of
/// an array only the places of strings are kept.
#[verifier::external_body]
fn parse_nodes(text: &str) -> (r: Option<Nodes>)
    ensures
        nodes_view(r) == json5_value(text.spec_bytes()),
{
    let JsonNode::Array(items, _) = json5_nodes::parse(text).ok()? else {
        return Some(Nodes::Other);
    };
    Some(Nodes::Array(items.into_iter().map(|item| match item {
        JsonNode::Object(members, _) => Element::Object(members.into_iter().map(|(k, v)| match v {
            JsonNode::Array(values, _) => (k, Value::List(values.into_iter().map(|v| match v {
                JsonNode::String(_, at) => Some(at.map(|l| (l.line, l.column))),
                _ => None,
            }).collect())),
            _ => (k, Value::Other),
        }).collect()),
        _ => Element::Other,
    }).collect()))
}

/// What an object holds under a name, from its member `i` on.
pub open spec fn member_from(members: Seq<(Seq<u8>, ValueModel)>, key: Seq<u8>, i: int) -> MemberModel
    decreases members.len() - i,
{
    if i < 0 || i >= members.len() {
        Member::Missing
    } else if members[i].0 == key {
        match members[i].1 {
            Value::List(places) => Member::List(places),
            Value::Other => Member::Other,
        }
    } else {
        member_from(members, key, i + 1)
    }
}

pub open spec fn member_of(e: ElementModel, key: Seq<u8>) -> MemberModel {
    match e {
        Element::Object(members) => member_from(members, key, 0),
        Element::Other => Member::NoObject,
    }
}

/// What each element of an array holds under a name; `None` where there is no array.
pub open spec fn members_named(value: Option<NodesModel>, key: Seq<u8>) -> Option<
    Seq<MemberModel>,
> {
    match value {
        Some(Nodes::Array(elements)) => Some(
            Seq::new(elements.len(), |i: int| member_of(elements[i], key)),
        ),
        _ => None,
    }
}

/// What is found under a name in each element of the array that a text holds; `None` where the
/// text holds no array.
pub open spec fn json5_members(text: Seq<u8>, key: Seq<u8>) -> Option<Seq<MemberModel>> {
    members_named(json5_value(text), key)
}

fn pick_member(element: Element, key: &str) -> (r: Member)
    ensures
        r@ == member_of(element_view(element), key.spec_bytes()),
{
    let ghost whole = element_view(element);
    let mut members = match element {
        Element::Object(members) => members,
        Element::Other => {
            return Member::NoObject;
        },
    };
    let ghost all = element_view(Element::Object(members))->Object_0;
    let mut i: usize = 0;
    while i < members.len()
        invariant
            i <= members@.len(),
            whole == element_view(element),
            whole == ElementModel::Object(all),
            all.len() == members@.len(),
            forall|k: int|
                0 <= k < members@.len() ==> #[trigger] all[k] == (
                    text::bytes_of(members@[k].0),
                    members@[k].1@,
                ),
            member_from(all, key.spec_bytes(), 0) == member_from(all, key.spec_bytes(), i as int),
        decreases members@.len() - i,
    {
        assert(all[i as int].0 == text::bytes_of(members@[i as int].0));
        if text::bytes_eq(members[i].0.as_str().as_bytes(), key.as_bytes()) {
            let (_, value) = members.swap_remove(i);
            assert(all[i as int].1 == value@);
            return match value {
                Value::List(places) => Member::List(places),
                Value::Other => Member::Other,
            };
        }
        i += 1;
    }
    Member::Missing
}

/// What each element of an array holds under a name; `None` where there is no array.
pub fn pick_members(value: Option<Nodes>, key: &str) -> (r: Option<Vec<Member>>)
    ensures
        members_view(r) == members_named(nodes_view(value), key.spec_bytes()),
{
    let mut elements = match value {
        Some(Nodes::Array(elements)) => elements,
        _ => {
            return None;
        },
    };
    let ghost all = elements@;
    let mut r: Vec<Member> = Vec::new();
    while elements.len() > 0
        invariant
            r@.len() + elements@.len() == all.len(),
            elements@ == all.subrange(0, elements@.len() as int),
            forall|k: int|
                0 <= k < r@.len() ==> (#[trigger] r@[k])@ == member_of(
                    element_view(all[all.len() - 1 - k]),
                    key.spec_bytes(),
                ),
        decreases elements@.len(),
    {
        let ghost left = elements@.len() as int;
        if let Some(element) = elements.pop() {
            assert(element == all[left - 1]);
            r.push(pick_member(element, key));
            assert(elements@ =~= all.subrange(0, left - 1));
        }
    }
    let members = reversed(r);
    let ghost model = member_models(members@);
    proof {
        assert(model =~= Seq::new(
            all.len(),
            |i: int| member_of(element_view(all[i]), key.spec_bytes()),
        ));
        let elements = Seq::new(all.len(), |i: int| element_view(all[i]));
        assert(model =~= Seq::new(
            elements.len(),
            |i: int| member_of(elements[i], key.spec_bytes()),
        ));
    }
    Some(members)
}

fn reversed(v: Vec<Member>) -> (r: Vec<Member>)
    ensures
        r@ == v@.reverse(),
{
    let mut v = v;
    let ghost all = v@;
    let mut r: Vec<Member> = Vec::new();
    while v.len() > 0
        invariant
            v@ == all.subrange(0, v@.len() as int),
            v@.len() + r@.len() == all.len(),
            forall|k: int| 0 <= k < r@.len() ==> #[trigger] r@[k] == all[all.len() - 1 - k],
        decreases v@.len(),
    {
        let ghost left = v@.len() as int;
        if let Some(x) = v.pop() {
            assert(x == all[left - 1]);
            r.push(x);
            assert(v@ =~= all.subrange(0, left - 1));
        }
    }
    assert(r@ =~= all.reverse());
    r
}

/// What is found under a name in each element of the array that a text holds; `None` where the
/// text holds no array.
pub(crate) fn find_members(text: &str, key: &str) -> (r: Option<Vec<Member>>)
    ensures
        members_view(r) == json5_members(text.spec_bytes(), key.spec_bytes()),
{
    pick_members(parse_nodes(text), key)
}

} // verus!
