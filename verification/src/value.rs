//! Property values and their canonical tagged encoding.
//!
//! A value is written as a pair of a type name and a representation, so that
//! a reader never has to guess the type from the shape of the data: three
//! numbers may be a vector or a color, and the tag says which.

use vstd::prelude::*;
use crate::json::{is_number, is_number_text, Json, JsonModel, lemma_integer_is_number, Member};
use crate::reader::is_sound;
use crate::text::{
    copy_strings,
    decimal,
    integer_of,
    integer_text,
    is_natural,
    lemma_integer_of_text,
    lemma_natural_of_decimal,
    natural_of,
    same_strings,
    same_text,
    string_views,
};

verus! {

/// The value of a property. Numbers that are not whole are held as decimal
/// numerals.
#[derive(Debug, PartialEq, Eq)]
pub enum Value {
    /// A truth value.
    Bool(bool),
    /// A whole number of 32 bits.
    Int32(i32),
    /// A whole number of 64 bits.
    Int64(i64),
    /// A member of an enumeration, by its number.
    Enum(u32),
    /// A number of single precision, as its decimal numeral.
    Float32(String),
    /// A number of double precision, as its decimal numeral.
    Float64(String),
    /// A text.
    Text(String),
    /// The address of a piece of content.
    ContentId(String),
    /// A binary blob.
    Binary(Vec<u8>),
    /// A binary blob that several properties may share.
    SharedString(Vec<u8>),
    /// A vector of two numbers.
    Vector2(String, String),
    /// A vector of three numbers.
    Vector3(String, String, String),
    /// A color of three channels.
    Color3(String, String, String),
    /// A reference to another node by its identity, or to none. It is a
    /// cross-link that owns nothing and is never followed.
    Ref(Option<u128>),
    /// The tags attached to a node.
    Tags(Vec<String>),
    /// A value of a type that has no canonical encoding, by the type's name.
    Unsupported(String),
}

/// The mathematical value of a property value.
pub enum ValueModel {
    Bool(bool),
    Int32(int),
    Int64(int),
    Enum(int),
    Float32(Seq<char>),
    Float64(Seq<char>),
    Text(Seq<char>),
    ContentId(Seq<char>),
    Binary(Seq<u8>),
    SharedString(Seq<u8>),
    Vector2(Seq<char>, Seq<char>),
    Vector3(Seq<char>, Seq<char>, Seq<char>),
    Color3(Seq<char>, Seq<char>, Seq<char>),
    Ref(Option<int>),
    Tags(Seq<Seq<char>>),
    Unsupported(Seq<char>),
}

impl View for Value {
    type V = ValueModel;

    open spec fn view(&self) -> ValueModel {
        match self {
            Value::Bool(b) => ValueModel::Bool(*b),
            Value::Int32(n) => ValueModel::Int32(*n as int),
            Value::Int64(n) => ValueModel::Int64(*n as int),
            Value::Enum(n) => ValueModel::Enum(*n as int),
            Value::Float32(t) => ValueModel::Float32(t@),
            Value::Float64(t) => ValueModel::Float64(t@),
            Value::Text(s) => ValueModel::Text(s@),
            Value::ContentId(s) => ValueModel::ContentId(s@),
            Value::Binary(bytes) => ValueModel::Binary(bytes@),
            Value::SharedString(bytes) => ValueModel::SharedString(bytes@),
            Value::Vector2(x, y) => ValueModel::Vector2(x@, y@),
            Value::Vector3(x, y, z) => ValueModel::Vector3(x@, y@, z@),
            Value::Color3(r, g, b) => ValueModel::Color3(r@, g@, b@),
            Value::Ref(target) => ValueModel::Ref(
                match target {
                    Some(id) => Some(*id as int),
                    None => None,
                },
            ),
            Value::Tags(tags) => ValueModel::Tags(string_views(tags@)),
            Value::Unsupported(name) => ValueModel::Unsupported(name@),
        }
    }
}

/// Whether a value has a canonical encoding: every number in it is a decimal
/// numeral, and its type is not an unsupported one.
pub open spec fn is_encodable(v: ValueModel) -> bool {
    match v {
        ValueModel::Float32(t) => is_number(t),
        ValueModel::Float64(t) => is_number(t),
        ValueModel::Vector2(x, y) => is_number(x) && is_number(y),
        ValueModel::Vector3(x, y, z) => is_number(x) && is_number(y) && is_number(z),
        ValueModel::Color3(r, g, b) => is_number(r) && is_number(g) && is_number(b),
        ValueModel::Unsupported(_) => false,
        _ => true,
    }
}

/// The type name under which a value is written.
pub open spec fn tag_of(v: ValueModel) -> Seq<char> {
    match v {
        ValueModel::Bool(_) => "bool"@,
        ValueModel::Int32(_) => "int32"@,
        ValueModel::Int64(_) => "int64"@,
        ValueModel::Enum(_) => "enum"@,
        ValueModel::Float32(_) => "float32"@,
        ValueModel::Float64(_) => "float64"@,
        ValueModel::Text(_) => "string"@,
        ValueModel::ContentId(_) => "content"@,
        ValueModel::Binary(_) => "binary"@,
        ValueModel::SharedString(_) => "sharedstring"@,
        ValueModel::Vector2(_, _) => "vector2"@,
        ValueModel::Vector3(_, _, _) => "vector3"@,
        ValueModel::Color3(_, _, _) => "color3"@,
        ValueModel::Ref(_) => "ref"@,
        ValueModel::Tags(_) => "tags"@,
        ValueModel::Unsupported(name) => name,
    }
}

/// A blob as the array of the numerals of its bytes.
pub open spec fn byte_items(bytes: Seq<u8>) -> JsonModel {
    JsonModel::Array(Seq::new(bytes.len(), |i: int| JsonModel::Number(decimal(bytes[i] as nat))))
}

/// The blob that an array of numerals of bytes stands for.
pub open spec fn bytes_of(p: JsonModel) -> Option<Seq<u8>> {
    match p {
        JsonModel::Array(items) => if forall|i: int|
            0 <= i < items.len() ==> is_byte(#[trigger] items[i]) {
            Some(Seq::new(items.len(), |i: int| natural_of(items[i]->Number_0) as u8))
        } else {
            None
        },
        _ => None,
    }
}

/// The whole number that a numeral stands for.
pub open spec fn whole_of(p: JsonModel) -> Option<int> {
    match p {
        JsonModel::Number(t) => integer_of(t),
        _ => None,
    }
}

/// The representation of a value, without its tag: truth values, whole
/// numbers, numerals and texts as themselves, a blob as the array of its
/// bytes, vectors and colors as arrays of numerals, a reference as the
/// identity or `null`, tags as an array of texts.
pub open spec fn payload(v: ValueModel) -> JsonModel {
    match v {
        ValueModel::Bool(b) => JsonModel::Bool(b),
        ValueModel::Int32(n) => JsonModel::Number(integer_text(n)),
        ValueModel::Int64(n) => JsonModel::Number(integer_text(n)),
        ValueModel::Enum(n) => JsonModel::Number(integer_text(n)),
        ValueModel::Float32(t) => JsonModel::Number(t),
        ValueModel::Float64(t) => JsonModel::Number(t),
        ValueModel::Text(s) => JsonModel::Str(s),
        ValueModel::ContentId(s) => JsonModel::Str(s),
        ValueModel::Binary(bytes) => byte_items(bytes),
        ValueModel::SharedString(bytes) => byte_items(bytes),
        ValueModel::Vector2(x, y) => JsonModel::Array(
            seq![JsonModel::Number(x), JsonModel::Number(y)],
        ),
        ValueModel::Vector3(x, y, z) => JsonModel::Array(
            seq![JsonModel::Number(x), JsonModel::Number(y), JsonModel::Number(z)],
        ),
        ValueModel::Color3(r, g, b) => JsonModel::Array(
            seq![JsonModel::Number(r), JsonModel::Number(g), JsonModel::Number(b)],
        ),
        ValueModel::Ref(target) => match target {
            Some(id) => JsonModel::Number(integer_text(id)),
            None => JsonModel::Null,
        },
        ValueModel::Tags(tags) => JsonModel::Array(
            Seq::new(tags.len(), |i: int| JsonModel::Str(tags[i])),
        ),
        ValueModel::Unsupported(_) => JsonModel::Null,
    }
}

/// The canonical tagged encoding of a value: an object of two members, the
/// type name under `type` and the representation under `value`.
pub open spec fn encoding(v: ValueModel) -> JsonModel {
    JsonModel::Object(seq![("type"@, JsonModel::Str(tag_of(v))), ("value"@, payload(v))])
}


/// Whether a document is the numeral of a byte.
pub open spec fn is_byte(j: JsonModel) -> bool {
    j is Number && is_natural(j->Number_0) && natural_of(j->Number_0) < 256
}

/// The value that a representation stands for under a type name, if it is
/// one that the encoding produces.
pub open spec fn decode_payload(tag: Seq<char>, p: JsonModel) -> Option<ValueModel> {
    if tag == "bool"@ {
        match p {
            JsonModel::Bool(b) => Some(ValueModel::Bool(b)),
            _ => None,
        }
    } else if tag == "int32"@ {
        match whole_of(p) {
            Some(n) => Some(ValueModel::Int32(n)),
            None => None,
        }
    } else if tag == "int64"@ {
        match whole_of(p) {
            Some(n) => Some(ValueModel::Int64(n)),
            None => None,
        }
    } else if tag == "enum"@ {
        match whole_of(p) {
            Some(n) => Some(ValueModel::Enum(n)),
            None => None,
        }
    } else if tag == "float32"@ {
        match p {
            JsonModel::Number(t) => Some(ValueModel::Float32(t)),
            _ => None,
        }
    } else if tag == "float64"@ {
        match p {
            JsonModel::Number(t) => Some(ValueModel::Float64(t)),
            _ => None,
        }
    } else if tag == "string"@ {
        match p {
            JsonModel::Str(t) => Some(ValueModel::Text(t)),
            _ => None,
        }
    } else if tag == "content"@ {
        match p {
            JsonModel::Str(t) => Some(ValueModel::ContentId(t)),
            _ => None,
        }
    } else if tag == "binary"@ {
        match bytes_of(p) {
            Some(bytes) => Some(ValueModel::Binary(bytes)),
            None => None,
        }
    } else if tag == "sharedstring"@ {
        match bytes_of(p) {
            Some(bytes) => Some(ValueModel::SharedString(bytes)),
            None => None,
        }
    } else if tag == "vector2"@ {
        match p {
            JsonModel::Array(items) => if items.len() == 2 && items[0] is Number
                && items[1] is Number {
                Some(ValueModel::Vector2(items[0]->Number_0, items[1]->Number_0))
            } else {
                None
            },
            _ => None,
        }
    } else if tag == "vector3"@ {
        match p {
            JsonModel::Array(items) => if items.len() == 3 && items[0] is Number
                && items[1] is Number && items[2] is Number {
                Some(
                    ValueModel::Vector3(
                        items[0]->Number_0,
                        items[1]->Number_0,
                        items[2]->Number_0,
                    ),
                )
            } else {
                None
            },
            _ => None,
        }
    } else if tag == "color3"@ {
        match p {
            JsonModel::Array(items) => if items.len() == 3 && items[0] is Number
                && items[1] is Number && items[2] is Number {
                Some(
                    ValueModel::Color3(items[0]->Number_0, items[1]->Number_0, items[2]->Number_0),
                )
            } else {
                None
            },
            _ => None,
        }
    } else if tag == "ref"@ {
        match p {
            JsonModel::Null => Some(ValueModel::Ref(None)),
            JsonModel::Number(t) => match integer_of(t) {
                Some(id) => Some(ValueModel::Ref(Some(id))),
                None => None,
            },
            _ => None,
        }
    } else if tag == "tags"@ {
        match p {
            JsonModel::Array(items) => if forall|i: int|
                0 <= i < items.len() ==> (#[trigger] items[i]) is Str {
                Some(ValueModel::Tags(Seq::new(items.len(), |i: int| items[i]->Str_0)))
            } else {
                None
            },
            _ => None,
        }
    } else {
        None
    }
}

/// The value that a tagged encoding stands for: the inverse of `encoding`.
pub open spec fn decoding(j: JsonModel) -> Option<ValueModel> {
    match j {
        JsonModel::Object(members) => if members.len() == 2 && members[0].0 == "type"@
            && members[0].1 is Str && members[1].0 == "value"@ {
            decode_payload(members[0].1->Str_0, members[1].1)
        } else {
            None
        },
        _ => None,
    }
}

/// The type names are pairwise distinct.
proof fn lemma_tags_distinct()
    ensures
        "bool"@ != "int32"@,
        "bool"@ != "int64"@,
        "bool"@ != "enum"@,
        "bool"@ != "float32"@,
        "bool"@ != "float64"@,
        "bool"@ != "string"@,
        "bool"@ != "content"@,
        "bool"@ != "binary"@,
        "bool"@ != "sharedstring"@,
        "bool"@ != "vector2"@,
        "bool"@ != "vector3"@,
        "bool"@ != "color3"@,
        "bool"@ != "ref"@,
        "bool"@ != "tags"@,
        "int32"@ != "int64"@,
        "int32"@ != "enum"@,
        "int32"@ != "float32"@,
        "int32"@ != "float64"@,
        "int32"@ != "string"@,
        "int32"@ != "content"@,
        "int32"@ != "binary"@,
        "int32"@ != "sharedstring"@,
        "int32"@ != "vector2"@,
        "int32"@ != "vector3"@,
        "int32"@ != "color3"@,
        "int32"@ != "ref"@,
        "int32"@ != "tags"@,
        "int64"@ != "enum"@,
        "int64"@ != "float32"@,
        "int64"@ != "float64"@,
        "int64"@ != "string"@,
        "int64"@ != "content"@,
        "int64"@ != "binary"@,
        "int64"@ != "sharedstring"@,
        "int64"@ != "vector2"@,
        "int64"@ != "vector3"@,
        "int64"@ != "color3"@,
        "int64"@ != "ref"@,
        "int64"@ != "tags"@,
        "enum"@ != "float32"@,
        "enum"@ != "float64"@,
        "enum"@ != "string"@,
        "enum"@ != "content"@,
        "enum"@ != "binary"@,
        "enum"@ != "sharedstring"@,
        "enum"@ != "vector2"@,
        "enum"@ != "vector3"@,
        "enum"@ != "color3"@,
        "enum"@ != "ref"@,
        "enum"@ != "tags"@,
        "float32"@ != "float64"@,
        "float32"@ != "string"@,
        "float32"@ != "content"@,
        "float32"@ != "binary"@,
        "float32"@ != "sharedstring"@,
        "float32"@ != "vector2"@,
        "float32"@ != "vector3"@,
        "float32"@ != "color3"@,
        "float32"@ != "ref"@,
        "float32"@ != "tags"@,
        "float64"@ != "string"@,
        "float64"@ != "content"@,
        "float64"@ != "binary"@,
        "float64"@ != "sharedstring"@,
        "float64"@ != "vector2"@,
        "float64"@ != "vector3"@,
        "float64"@ != "color3"@,
        "float64"@ != "ref"@,
        "float64"@ != "tags"@,
        "string"@ != "content"@,
        "string"@ != "binary"@,
        "string"@ != "sharedstring"@,
        "string"@ != "vector2"@,
        "string"@ != "vector3"@,
        "string"@ != "color3"@,
        "string"@ != "ref"@,
        "string"@ != "tags"@,
        "content"@ != "binary"@,
        "content"@ != "sharedstring"@,
        "content"@ != "vector2"@,
        "content"@ != "vector3"@,
        "content"@ != "color3"@,
        "content"@ != "ref"@,
        "content"@ != "tags"@,
        "binary"@ != "sharedstring"@,
        "binary"@ != "vector2"@,
        "binary"@ != "vector3"@,
        "binary"@ != "color3"@,
        "binary"@ != "ref"@,
        "binary"@ != "tags"@,
        "sharedstring"@ != "vector2"@,
        "sharedstring"@ != "vector3"@,
        "sharedstring"@ != "color3"@,
        "sharedstring"@ != "ref"@,
        "sharedstring"@ != "tags"@,
        "vector2"@ != "vector3"@,
        "vector2"@ != "color3"@,
        "vector2"@ != "ref"@,
        "vector2"@ != "tags"@,
        "vector3"@ != "color3"@,
        "vector3"@ != "ref"@,
        "vector3"@ != "tags"@,
        "color3"@ != "ref"@,
        "color3"@ != "tags"@,
        "ref"@ != "tags"@,
{
    reveal_strlit("bool");
    reveal_strlit("int32");
    reveal_strlit("int64");
    reveal_strlit("enum");
    reveal_strlit("float32");
    reveal_strlit("float64");
    reveal_strlit("string");
    reveal_strlit("content");
    reveal_strlit("binary");
    reveal_strlit("sharedstring");
    reveal_strlit("vector2");
    reveal_strlit("vector3");
    reveal_strlit("color3");
    reveal_strlit("ref");
    reveal_strlit("tags");
    assert("bool"@.len() == 4);
    assert("int32"@.len() == 5);
    assert("int64"@.len() == 5);
    assert("enum"@.len() == 4);
    assert("float32"@.len() == 7);
    assert("float64"@.len() == 7);
    assert("string"@.len() == 6);
    assert("content"@.len() == 7);
    assert("binary"@.len() == 6);
    assert("sharedstring"@.len() == 12);
    assert("vector2"@.len() == 7);
    assert("vector3"@.len() == 7);
    assert("color3"@.len() == 6);
    assert("ref"@.len() == 3);
    assert("tags"@.len() == 4);
    assert("bool"@[0] == 'b' && "enum"@[0] == 'e' && "tags"@[0] == 't');
    assert("int32"@[3] == '3' && "int64"@[3] == '6');
    assert("string"@[0] == 's' && "binary"@[0] == 'b' && "color3"@[0] == 'c');
    assert("float32"@[0] == 'f' && "float64"@[0] == 'f' && "content"@[0] == 'c');
    assert("vector2"@[0] == 'v' && "vector3"@[0] == 'v');
    assert("float32"@[5] == '3' && "float64"@[5] == '6');
    assert("vector2"@[6] == '2' && "vector3"@[6] == '3');
}

/// Reading the array that was written for a blob gives the blob back.
pub proof fn lemma_bytes_round_trip(bytes: Seq<u8>)
    ensures
        bytes_of(byte_items(bytes)) == Some(bytes),
{
    let items = byte_items(bytes)->Array_0;
    assert forall|i: int| 0 <= i < items.len() implies is_byte(#[trigger] items[i]) && natural_of(
        items[i]->Number_0,
    ) as u8 == bytes[i] by {
        lemma_natural_of_decimal(bytes[i] as nat);
    }
    assert(Seq::new(items.len(), |i: int| natural_of(items[i]->Number_0) as u8) =~= bytes);
}

/// Round trip of the tagged encoding: decoding the encoding of a value that
/// has one gives the value back, whatever its type. In particular the type of
/// a value is never lost or mistaken for another.
pub proof fn lemma_decoding_inverts_encoding(v: ValueModel)
    requires
        is_encodable(v),
    ensures
        decoding(encoding(v)) == Some(v),
{
    lemma_tags_distinct();
    let members = encoding(v)->Object_0;
    assert(members[0].0 == "type"@);
    assert(members[1].0 == "value"@);
    match v {
        ValueModel::Int32(n) => {
            lemma_integer_of_text(n);
        },
        ValueModel::Int64(n) => {
            lemma_integer_of_text(n);
        },
        ValueModel::Enum(n) => {
            lemma_integer_of_text(n);
        },
        ValueModel::Ref(Some(id)) => {
            lemma_integer_of_text(id);
        },
        ValueModel::Binary(bytes) => {
            lemma_bytes_round_trip(bytes);
        },
        ValueModel::SharedString(bytes) => {
            lemma_bytes_round_trip(bytes);
        },
        ValueModel::Tags(tags) => {
            let items = payload(v)->Array_0;
            assert(Seq::new(items.len(), |i: int| items[i]->Str_0) =~= tags);
        },
        _ => {},
    }
}


/// Every number in the encoding of a value is a numeral that JSON accepts.
pub proof fn lemma_encoding_sound(v: ValueModel)
    requires
        is_encodable(v),
    ensures
        is_sound(encoding(v)),
{
    let members = encoding(v)->Object_0;
    assert(is_sound(members[0].1));
    match v {
        ValueModel::Int32(n) => {
            lemma_integer_is_number(n);
        },
        ValueModel::Int64(n) => {
            lemma_integer_is_number(n);
        },
        ValueModel::Enum(n) => {
            lemma_integer_is_number(n);
        },
        ValueModel::Ref(Some(id)) => {
            lemma_integer_is_number(id);
        },
        ValueModel::Binary(bytes) => {
            let items = payload(v)->Array_0;
            assert forall|i: int| 0 <= i < items.len() implies is_sound(#[trigger] items[i]) by {
                lemma_integer_is_number(bytes[i] as int);
            }
        },
        ValueModel::SharedString(bytes) => {
            let items = payload(v)->Array_0;
            assert forall|i: int| 0 <= i < items.len() implies is_sound(#[trigger] items[i]) by {
                lemma_integer_is_number(bytes[i] as int);
            }
        },
        ValueModel::Tags(tags) => {
            let items = payload(v)->Array_0;
            assert forall|i: int| 0 <= i < items.len() implies is_sound(#[trigger] items[i]) by {}
        },
        ValueModel::Vector2(x, y) => {
            let items = payload(v)->Array_0;
            assert forall|i: int| 0 <= i < items.len() implies is_sound(#[trigger] items[i]) by {}
        },
        ValueModel::Vector3(x, y, z) => {
            let items = payload(v)->Array_0;
            assert forall|i: int| 0 <= i < items.len() implies is_sound(#[trigger] items[i]) by {}
        },
        ValueModel::Color3(r, g, b) => {
            let items = payload(v)->Array_0;
            assert forall|i: int| 0 <= i < items.len() implies is_sound(#[trigger] items[i]) by {}
        },
        _ => {},
    }
    assert(is_sound(members[1].1));
    assert forall|i: int| 0 <= i < members.len() implies is_sound((#[trigger] members[i]).1) by {}
}

fn tagged(tag: &str, value: Json) -> (j: Json)
    ensures
        j@ == JsonModel::Object(seq![("type"@, JsonModel::Str(tag@)), ("value"@, value@)]),
{
    let mut members: Vec<Member> = Vec::new();
    let ghost inner = value@;
    let name = Json::Str(tag.to_owned());
    assert(name@ == JsonModel::Str(tag@));
    members.push(Member { key: "type".to_owned(), value: name });
    members.push(Member { key: "value".to_owned(), value });
    assert(members@[0]@ == ("type"@, JsonModel::Str(tag@)));
    assert(members@[1]@ == ("value"@, inner));
    let j = Json::Object(members);
    assert(j@->Object_0 =~= seq![("type"@, JsonModel::Str(tag@)), ("value"@, inner)]);
    j
}

fn numerals2(x: &String, y: &String) -> (j: Json)
    ensures
        j@ == JsonModel::Array(seq![JsonModel::Number(x@), JsonModel::Number(y@)]),
{
    let mut items: Vec<Json> = Vec::new();
    items.push(Json::Number(x.clone()));
    items.push(Json::Number(y.clone()));
    assert(items@[0]@ == JsonModel::Number(x@));
    assert(items@[1]@ == JsonModel::Number(y@));
    let j = Json::Array(items);
    assert(j@->Array_0 =~= seq![JsonModel::Number(x@), JsonModel::Number(y@)]);
    j
}

fn numerals3(x: &String, y: &String, z: &String) -> (j: Json)
    ensures
        j@ == JsonModel::Array(
            seq![JsonModel::Number(x@), JsonModel::Number(y@), JsonModel::Number(z@)],
        ),
{
    let mut items: Vec<Json> = Vec::new();
    items.push(Json::Number(x.clone()));
    items.push(Json::Number(y.clone()));
    items.push(Json::Number(z.clone()));
    assert(items@[0]@ == JsonModel::Number(x@));
    assert(items@[1]@ == JsonModel::Number(y@));
    assert(items@[2]@ == JsonModel::Number(z@));
    let j = Json::Array(items);
    assert(j@->Array_0 =~= seq![
        JsonModel::Number(x@),
        JsonModel::Number(y@),
        JsonModel::Number(z@),
    ]);
    j
}

fn byte_array(bytes: &Vec<u8>) -> (j: Json)
    ensures
        j@ == byte_items(bytes@),
{
    let mut items: Vec<Json> = Vec::new();
    let mut i: usize = 0;
    while i < bytes.len()
        invariant
            i <= bytes.len(),
            items@.len() == i,
            forall|k: int|
                0 <= k < i ==> (#[trigger] items@[k])@ == JsonModel::Number(
                    decimal(bytes@[k] as nat),
                ),
        decreases bytes.len() - i,
    {
        items.push(Json::Uint(bytes[i] as u128));
        i += 1;
    }
    let j = Json::Array(items);
    assert(j@->Array_0 =~= Seq::new(
        bytes@.len(),
        |i: int| JsonModel::Number(decimal(bytes@[i] as nat)),
    ));
    j
}

fn text_array(tags: &Vec<String>) -> (j: Json)
    ensures
        j@ == payload(ValueModel::Tags(string_views(tags@))),
{
    let mut items: Vec<Json> = Vec::new();
    let mut i: usize = 0;
    while i < tags.len()
        invariant
            i <= tags.len(),
            items@.len() == i,
            forall|k: int| 0 <= k < i ==> (#[trigger] items@[k])@ == JsonModel::Str(tags@[k]@),
        decreases tags.len() - i,
    {
        items.push(Json::Str(tags[i].clone()));
        i += 1;
    }
    let j = Json::Array(items);
    let ghost views = string_views(tags@);
    assert(j@->Array_0 =~= Seq::new(views.len(), |i: int| JsonModel::Str(views[i])));
    j
}

fn copy_bytes(bytes: &Vec<u8>) -> (copy: Vec<u8>)
    ensures
        copy@ == bytes@,
{
    let mut copy: Vec<u8> = Vec::new();
    let mut i: usize = 0;
    while i < bytes.len()
        invariant
            i <= bytes.len(),
            copy@ == bytes@.take(i as int),
        decreases bytes.len() - i,
    {
        copy.push(bytes[i]);
        i += 1;
        assert(bytes@.take(i as int) == bytes@.take(i - 1).push(bytes@[i - 1]));
    }
    assert(bytes@.take(bytes.len() as int) == bytes@);
    copy
}

fn same_bytes(a: &Vec<u8>, b: &Vec<u8>) -> (r: bool)
    ensures
        r == (a@ == b@),
{
    if a.len() != b.len() {
        return false;
    }
    let mut i: usize = 0;
    while i < a.len()
        invariant
            i <= a.len(),
            a.len() == b.len(),
            forall|k: int| 0 <= k < i ==> a@[k] == b@[k],
        decreases a.len() - i,
    {
        if a[i] != b[i] {
            return false;
        }
        i += 1;
    }
    assert(a@ =~= b@);
    true
}

impl Value {
    /// Whether the value has a canonical encoding.
    pub fn is_encodable(&self) -> (r: bool)
        ensures
            r == is_encodable(self@),
    {
        match self {
            Value::Float32(t) => is_number_text(t.as_str()),
            Value::Float64(t) => is_number_text(t.as_str()),
            Value::Vector2(x, y) => is_number_text(x.as_str()) && is_number_text(y.as_str()),
            Value::Vector3(x, y, z) => is_number_text(x.as_str()) && is_number_text(y.as_str())
                && is_number_text(z.as_str()),
            Value::Color3(r, g, b) => is_number_text(r.as_str()) && is_number_text(g.as_str())
                && is_number_text(b.as_str()),
            Value::Unsupported(_) => false,
            _ => true,
        }
    }

    /// The canonical tagged encoding of the value. A value has one unless its
    /// type is unsupported or one of its numbers is no decimal numeral.
    pub fn encode(&self) -> (r: Option<Json>)
        ensures
            r is Some <==> is_encodable(self@),
            r matches Some(j) ==> j@ == encoding(self@) && decoding(j@) == Some(self@) && is_sound(
                j@,
            ),
    {
        if !self.is_encodable() {
            return None;
        }
        proof {
            lemma_decoding_inverts_encoding(self@);
            lemma_encoding_sound(self@);
        }
        let j = match self {
            Value::Bool(b) => tagged("bool", Json::Bool(*b)),
            Value::Int32(n) => tagged("int32", Json::Int(*n as i64)),
            Value::Int64(n) => tagged("int64", Json::Int(*n)),
            Value::Enum(n) => tagged("enum", Json::Uint(*n as u128)),
            Value::Float32(t) => tagged("float32", Json::Number(t.clone())),
            Value::Float64(t) => tagged("float64", Json::Number(t.clone())),
            Value::Text(t) => tagged("string", Json::Str(t.clone())),
            Value::ContentId(t) => tagged("content", Json::Str(t.clone())),
            Value::Binary(bytes) => tagged("binary", byte_array(bytes)),
            Value::SharedString(bytes) => tagged("sharedstring", byte_array(bytes)),
            Value::Vector2(x, y) => tagged("vector2", numerals2(x, y)),
            Value::Vector3(x, y, z) => tagged("vector3", numerals3(x, y, z)),
            Value::Color3(r, g, b) => tagged("color3", numerals3(r, g, b)),
            Value::Ref(target) => tagged(
                "ref",
                match target {
                    Some(id) => Json::Uint(*id),
                    None => Json::Null,
                },
            ),
            Value::Tags(tags) => tagged("tags", text_array(tags)),
            Value::Unsupported(_) => Json::Null,
        };
        Some(j)
    }

    /// A copy of the value.
    pub fn duplicate(&self) -> (copy: Value)
        ensures
            copy@ == self@,
    {
        match self {
            Value::Bool(b) => Value::Bool(*b),
            Value::Int32(n) => Value::Int32(*n),
            Value::Int64(n) => Value::Int64(*n),
            Value::Enum(n) => Value::Enum(*n),
            Value::Float32(t) => Value::Float32(t.clone()),
            Value::Float64(t) => Value::Float64(t.clone()),
            Value::Text(t) => Value::Text(t.clone()),
            Value::ContentId(t) => Value::ContentId(t.clone()),
            Value::Binary(bytes) => Value::Binary(copy_bytes(bytes)),
            Value::SharedString(bytes) => Value::SharedString(copy_bytes(bytes)),
            Value::Vector2(x, y) => Value::Vector2(x.clone(), y.clone()),
            Value::Vector3(x, y, z) => Value::Vector3(x.clone(), y.clone(), z.clone()),
            Value::Color3(r, g, b) => Value::Color3(r.clone(), g.clone(), b.clone()),
            Value::Ref(target) => Value::Ref(*target),
            Value::Tags(tags) => Value::Tags(copy_strings(tags)),
            Value::Unsupported(name) => Value::Unsupported(name.clone()),
        }
    }

    /// Whether two values are the same value of the same type.
    pub fn same_as(&self, other: &Value) -> (r: bool)
        ensures
            r == (self@ == other@),
    {
        match (self, other) {
            (Value::Bool(a), Value::Bool(b)) => *a == *b,
            (Value::Int32(a), Value::Int32(b)) => *a == *b,
            (Value::Int64(a), Value::Int64(b)) => *a == *b,
            (Value::Enum(a), Value::Enum(b)) => *a == *b,
            (Value::Float32(a), Value::Float32(b)) => same_text(a.as_str(), b.as_str()),
            (Value::Float64(a), Value::Float64(b)) => same_text(a.as_str(), b.as_str()),
            (Value::Text(a), Value::Text(b)) => same_text(a.as_str(), b.as_str()),
            (Value::ContentId(a), Value::ContentId(b)) => same_text(a.as_str(), b.as_str()),
            (Value::Binary(a), Value::Binary(b)) => same_bytes(a, b),
            (Value::SharedString(a), Value::SharedString(b)) => same_bytes(a, b),
            (Value::Vector2(a, b), Value::Vector2(c, d)) => same_text(a.as_str(), c.as_str())
                && same_text(b.as_str(), d.as_str()),
            (Value::Vector3(a, b, c), Value::Vector3(d, e, f)) => same_text(
                a.as_str(),
                d.as_str(),
            ) && same_text(b.as_str(), e.as_str()) && same_text(c.as_str(), f.as_str()),
            (Value::Color3(a, b, c), Value::Color3(d, e, f)) => same_text(a.as_str(), d.as_str())
                && same_text(b.as_str(), e.as_str()) && same_text(c.as_str(), f.as_str()),
            (Value::Ref(a), Value::Ref(b)) => match (a, b) {
                (Some(x), Some(y)) => *x == *y,
                (None, None) => true,
                _ => false,
            },
            (Value::Tags(a), Value::Tags(b)) => same_strings(a, b),
            (Value::Unsupported(a), Value::Unsupported(b)) => same_text(a.as_str(), b.as_str()),
            _ => false,
        }
    }
}

} // verus!
