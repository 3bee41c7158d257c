//! Reading raw text as JSON, and what the engine keeps of the result.

use vstd::prelude::*;
use crate::record::{Field, FieldContent, FieldValue, FieldView, Record, RecordView};

verus! {

/// What the JSON reader reports of one member of an object: its key,
/// its text if the value is a string, the bits of its IEEE 754 double
/// if the value is a number, and its serialized text if the value is
/// an object.
#[derive(Clone, Debug)]
pub struct Member {
    pub key: String,
    pub text: Option<String>,
    pub bits: Option<u64>,
    pub nested: Option<String>,
}

/// Mathematical model of a [`Member`].
pub struct MemberView {
    pub key: Seq<char>,
    pub text: Option<Seq<char>>,
    pub bits: Option<u64>,
    pub nested: Option<Seq<char>>,
}

/// The model of an optional text.
pub open spec fn text_view(text: Option<String>) -> Option<Seq<char>> {
    match text {
        Some(s) => Some(s@),
        None => None,
    }
}

impl View for Member {
    type V = MemberView;

    open spec fn view(&self) -> MemberView {
        MemberView {
            key: self.key@,
            text: text_view(self.text),
            bits: self.bits,
            nested: text_view(self.nested),
        }
    }
}

/// The models of an optional list of members, in order.
pub open spec fn member_views(members: Option<Vec<Member>>) -> Option<Seq<MemberView>> {
    match members {
        Some(ms) => Some(Seq::new(ms@.len(), |i: int| ms@[i]@)),
        None => None,
    }
}

/// What the JSON reader makes of a text: nothing where the text is
/// not well-formed JSON; else the members of the object that the text
/// denotes, in the reader's order, and no members where the text
/// denotes anything but an object.
pub uninterp spec fn json_members(text: Seq<char>) -> Option<Seq<MemberView>>;

/// Trusted: `serde_json::from_str` at type `Value`, then
/// `Value::as_object`, and for each member `Value::as_str`,
/// `Value::as_f64` and `serde_json::to_string`. The result is what the
/// reader makes of the text, member by member; it depends on the text
/// alone.
#[verifier::external_body]
fn read_members(text: &str) -> (r: Option<Vec<Member>>)
    ensures
        member_views(r) == json_members(text@),
{
    let value: serde_json::Value = serde_json::from_str(text).ok()?;
    let object = match value.as_object() {
        Some(map) => map,
        None => return Some(Vec::new()),
    };
    Some(object.iter().map(|(key, v)| Member {
        key: key.clone(),
        text: v.as_str().map(String::from),
        bits: v.as_f64().map(|x| x.to_bits()),
        nested: v.as_object().and_then(|_| serde_json::to_string(v).ok()),
    }).collect())
}

/// The rank of the finite double with the given bits. The bits are a
/// sign and a magnitude, so the rank is the magnitude with that sign;
/// both zeros rank 0.
pub open spec fn rank_of_bits(bits: u64) -> int {
    if bits < 0x8000_0000_0000_0000u64 {
        bits as int
    } else {
        -(bits - 0x8000_0000_0000_0000u64)
    }
}

/// Computes the rank of a finite double from its bits.
pub fn number_rank(bits: u64) -> (r: i64)
    ensures
        r == rank_of_bits(bits),
{
    if bits < 0x8000_0000_0000_0000u64 {
        bits as i64
    } else {
        let magnitude: u64 = bits - 0x8000_0000_0000_0000u64;
        -(magnitude as i64)
    }
}

/// What the engine keeps of a value, given what the reader reports
/// of it: its text if it is a string, else its rank if it is a
/// number, else its serialized text if it is an object.
pub open spec fn classified(text: Option<Seq<char>>, bits: Option<u64>, nested: Option<Seq<char>>) -> FieldContent {
    match text {
        Some(s) => FieldContent::Text(s),
        None => match bits {
            Some(b) => FieldContent::Number(rank_of_bits(b)),
            None => match nested {
                Some(s) => FieldContent::Nested(s),
                None => FieldContent::Other,
            },
        },
    }
}

/// The record that a text gives, given what the reader makes of the
/// text: the text itself, and one field per member reported.
pub open spec fn record_of(text: Seq<char>, members: Option<Seq<MemberView>>) -> RecordView {
    RecordView {
        text,
        fields: match members {
            Some(ms) => Seq::new(
                ms.len(),
                |i: int| FieldView { key: ms[i].key, value: classified(ms[i].text, ms[i].bits, ms[i].nested) },
            ),
            None => Seq::empty(),
        },
    }
}

/// The record that a raw text gives.
pub open spec fn read(text: Seq<char>) -> RecordView {
    record_of(text, json_members(text))
}

/// The records that a list of raw texts gives, in order.
pub open spec fn read_all(texts: Seq<String>) -> Seq<RecordView> {
    Seq::new(texts.len(), |i: int| read(texts[i]@))
}

/// Decides what the engine keeps of a value from what the reader
/// reports of it.
pub fn classify(text: Option<String>, bits: Option<u64>, nested: Option<String>) -> (r: FieldValue)
    ensures
        r@ == classified(text_view(text), bits, text_view(nested)),
{
    match text {
        Some(s) => FieldValue::Text(s),
        None => match bits {
            Some(b) => FieldValue::Number(number_rank(b)),
            None => match nested {
                Some(s) => FieldValue::Nested(s),
                None => FieldValue::Other,
            },
        },
    }
}

impl Record {
    /// Builds the record for `text` from what the reader made of it.
    pub fn from_members(text: &str, members: Option<Vec<Member>>) -> (r: Record)
        ensures
            r@ == record_of(text@, member_views(members)),
    {
        let mut fields: Vec<Field> = Vec::new();
        match members {
            Some(ms) => {
                let ghost all = member_views(Some(ms)).unwrap();
                let ghost given = ms@;
                for m in it: ms
                    invariant
                        it.seq() == given,
                        all.len() == given.len(),
                        forall|j: int| 0 <= j < given.len() ==> (#[trigger] given[j])@ == all[j],
                        fields@.len() == it.index(),
                        forall|j: int|
                            0 <= j < fields@.len() ==> (#[trigger] fields@[j])@ == (FieldView {
                                key: all[j].key,
                                value: classified(all[j].text, all[j].bits, all[j].nested),
                            }),
                {
                    fields.push(Field { key: m.key, value: classify(m.text, m.bits, m.nested) });
                }
                let r = Record { text: text.to_owned(), fields };
                proof {
                    assert(r@.fields =~= record_of(text@, member_views(members)).fields);
                }
                r
            },
            None => {
                let r = Record { text: text.to_owned(), fields };
                proof {
                    assert(r@.fields =~= record_of(text@, member_views(members)).fields);
                }
                r
            },
        }
    }

    /// Reads one raw text. The record keeps the text as it came. Text
    /// that is well-formed JSON for an object gives one field per
    /// member; any other text, malformed text included, gives a
    /// record without fields.
    pub fn parse(text: &str) -> (r: Record)
        ensures
            r@ == read(text@),
            r@.text == text@,
            json_members(text@) is None ==> r@.fields.len() == 0,
    {
        Record::from_members(text, read_members(text))
    }
}

} // verus!
