//! Reading the text of a tree-format bookmark document into a [`Json`] value.

use vstd::prelude::*;
use vstd::string::StringSliceAdditionalSpecFns;

use crate::error::ExportError;
use crate::tree::{items_view, json_view, lemma_items_view, lemma_members_view, members_view, Json, JsonView, Member, MemberView};

verus! {

#[verifier::external_type_specification]
#[verifier::external_body]
pub struct ExJsonValue(json::JsonValue);

#[verifier::external_type_specification]
#[verifier::external_body]
pub struct ExJsonError(json::Error);

/// What a value of the json crate holds, as a [`JsonView`].
pub uninterp spec fn json_content(v: json::JsonValue) -> JsonView;

/// The document that the json crate reads from a text; `None` where it
/// refuses the text.
pub uninterp spec fn parsed_document(text: Seq<char>) -> Option<JsonView>;

/// The most digits after a decimal point that the json crate reads: it
/// lowers a 16-bit exponent by one for each such digit it keeps, and would
/// overflow it past this many.
pub const MAX_FRACTION_DIGITS: usize = 32768;

/// Whether a byte is an ASCII digit.
pub open spec fn is_digit(b: u8) -> bool {
    48 <= b <= 57
}

/// The length of the run of ASCII digits that starts at byte `i`.
pub open spec fn digit_run(bytes: Seq<u8>, i: int) -> nat
    decreases bytes.len() - i,
{
    if 0 <= i < bytes.len() && is_digit(bytes[i]) {
        1 + digit_run(bytes, i + 1)
    } else {
        0
    }
}

/// Whether no decimal point is followed by more than
/// [`MAX_FRACTION_DIGITS`] digits.
pub open spec fn fractions_fit(bytes: Seq<u8>) -> bool {
    forall|i: int| 0 <= i < bytes.len() && #[trigger] bytes[i] == 46 ==> digit_run(bytes, i + 1) <= MAX_FRACTION_DIGITS
}

/// Whether no decimal point in the text is followed by more than
/// [`MAX_FRACTION_DIGITS`] digits.
pub fn fractions_fit_in(text: &str) -> (r: bool)
    ensures
        r == fractions_fit(text.spec_bytes()),
{
    let bytes = text.as_bytes();
    let ghost bs = bytes@;
    let mut i: usize = bytes.len();
    let mut run: usize = 0;
    while i > 0
        invariant
            i <= bytes@.len(),
            bs == bytes@,
            bs == text.spec_bytes(),
            run == digit_run(bs, i as int),
            run <= bs.len() - i,
            forall|j: int| i <= j < bs.len() && #[trigger] bs[j] == 46 ==> digit_run(bs, j + 1) <= MAX_FRACTION_DIGITS,
        decreases i,
    {
        let b = bytes[i - 1];
        if b == 46u8 && run > MAX_FRACTION_DIGITS {
            assert(bs[i - 1] == 46);
            return false;
        }
        if 48u8 <= b && b <= 57u8 {
            run = run + 1;
        } else {
            run = 0;
        }
        i = i - 1;
    }
    true
}

/// Relies on json::parse: it reads a JSON document, and what it returns
/// depends on the text alone. It panics where a decimal point is followed by
/// more digits than its exponent can count, so such texts are left out.
#[verifier::external_body]
fn parse_json(text: &str) -> (r: Result<json::JsonValue, json::Error>)
    requires
        fractions_fit(text.spec_bytes()),
    ensures
        r is Ok <==> parsed_document(text@) is Some,
        r matches Ok(v) ==> parsed_document(text@) == Some(json_content(v)),
{
    json::parse(text)
}

/// Relies on the `Display` of json::Error for a readable message.
#[verifier::external_body]
fn json_error_text(e: &json::Error) -> String {
    e.to_string()
}

/// One level of a parsed value: its kind, with scalars as plain values and
/// the children of arrays and objects still in the parser's form.
enum Shape<'a> {
    Null,
    Bool(bool),
    Number(String),
    Str(String),
    Array(Vec<&'a json::JsonValue>),
    Object(Vec<(String, &'a json::JsonValue)>),
}

/// Relies on the variants of json::JsonValue (`Short` and `String` both hold
/// a string), on `Vec::iter` for an array's items in order, and on
/// json::object::Object::iter, which hands out an object's members in the
/// order they are stored.
#[verifier::external_body]
fn shape_of<'a>(v: &'a json::JsonValue) -> (r: Shape<'a>)
    ensures
        match r {
            Shape::Null => json_content(*v) == JsonView::Null,
            Shape::Bool(b) => json_content(*v) == JsonView::Bool(b),
            Shape::Number(_) => json_content(*v) == JsonView::Number,
            Shape::Str(s) => json_content(*v) == JsonView::Str(s@),
            Shape::Array(items) => json_content(*v) matches JsonView::Array(xs) && xs.len() == items@.len()
                && forall|i: int| 0 <= i < xs.len() ==> #[trigger] xs[i] == json_content(*items@[i]),
            Shape::Object(entries) => json_content(*v) matches JsonView::Object(ms) && ms.len()
                == entries@.len() && forall|i: int|
                0 <= i < ms.len() ==> #[trigger] ms[i] == (MemberView {
                    key: entries@[i].0@,
                    value: json_content(*entries@[i].1),
                }),
        },
{
    match v {
        json::JsonValue::Null => Shape::Null,
        json::JsonValue::Short(s) => Shape::Str(s.as_str().to_string()),
        json::JsonValue::String(s) => Shape::Str(s.clone()),
        json::JsonValue::Number(n) => Shape::Number(n.to_string()),
        json::JsonValue::Boolean(b) => Shape::Bool(*b),
        json::JsonValue::Object(o) => Shape::Object(o.iter().map(|(k, x)| (k.to_string(), x)).collect()),
        json::JsonValue::Array(a) => Shape::Array(a.iter().collect()),
    }
}

/// The parsed value as a [`Json`], one for one.
fn to_model(v: &json::JsonValue) -> (r: Json)
    ensures
        r@ == json_content(*v),
    decreases json_content(*v),
{
    match shape_of(v) {
        Shape::Null => Json::Null,
        Shape::Bool(b) => Json::Bool(b),
        Shape::Number(n) => Json::Number(n),
        Shape::Str(s) => Json::Str(s),
        Shape::Array(items) => {
            let ghost xs = json_content(*v)->Array_0;
            let mut out: Vec<Json> = Vec::new();
            let mut i: usize = 0;
            while i < items.len()
                invariant
                    i <= items.len(),
                    json_content(*v) == JsonView::Array(xs),
                    xs.len() == items@.len(),
                    forall|k: int| 0 <= k < xs.len() ==> #[trigger] xs[k] == json_content(*items@[k]),
                    out@.len() == i,
                    forall|k: int| 0 <= k < i ==> #[trigger] json_view(out@[k]) == xs[k],
                decreases items.len() - i,
            {
                proof {
                    assert(decreases_to!(json_content(*v) => json_content(*v)->Array_0));
                    assert(decreases_to!(xs => xs[i as int]));
                }
                let x = to_model(items[i]);
                out.push(x);
                i += 1;
            }
            proof {
                lemma_items_view(out@);
                assert(items_view(out@) =~= xs);
            }
            Json::Array(out)
        },
        Shape::Object(entries) => {
            let ghost ms = json_content(*v)->Object_0;
            let mut out: Vec<Member> = Vec::new();
            let mut i: usize = 0;
            while i < entries.len()
                invariant
                    i <= entries.len(),
                    json_content(*v) == JsonView::Object(ms),
                    ms.len() == entries@.len(),
                    forall|k: int|
                        0 <= k < ms.len() ==> #[trigger] ms[k] == (MemberView {
                            key: entries@[k].0@,
                            value: json_content(*entries@[k].1),
                        }),
                    out@.len() == i,
                    forall|k: int|
                        0 <= k < i ==> #[trigger] ms[k] == (MemberView {
                            key: out@[k].key@,
                            value: json_view(out@[k].value),
                        }),
                decreases entries.len() - i,
            {
                let (key, value) = &entries[i];
                proof {
                    assert(ms[i as int].value == json_content(**value));
                    assert(decreases_to!(json_content(*v) => json_content(*v)->Object_0));
                    assert(decreases_to!(ms => ms[i as int]));
                    assert(decreases_to!(ms[i as int] => ms[i as int].value));
                }
                let x = to_model(*value);
                out.push(Member { key: key.clone(), value: x });
                i += 1;
            }
            proof {
                lemma_members_view(out@);
                assert(members_view(out@) =~= ms);
            }
            Json::Object(out)
        },
    }
}

/// Reads a JSON document: the document the json crate reads from the text,
/// or a parse error where it refuses the text. A decimal point followed by
/// more than [`MAX_FRACTION_DIGITS`] digits is a parse error as well.
pub fn parse_document(text: &str) -> (r: Result<Json, ExportError>)
    ensures
        !fractions_fit(text.spec_bytes()) ==> r matches Err(ExportError::Parse(_)),
        fractions_fit(text.spec_bytes()) ==> match parsed_document(text@) {
            Some(d) => r matches Ok(doc) && doc@ == d,
            None => r matches Err(ExportError::Parse(_)),
        },
{
    if !fractions_fit_in(text) {
        return Err(ExportError::Parse(String::from_str("a number has too many digits after its decimal point")));
    }
    match parse_json(text) {
        Ok(value) => Ok(to_model(&value)),
        Err(e) => Err(ExportError::Parse(json_error_text(&e))),
    }
}

} // verus!
