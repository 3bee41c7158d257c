//! Records: what the engine reads of one stored log entry.

use vstd::prelude::*;
use crate::text::same_text;

verus! {

/// What one member of a record holds, as far as the engine reads it.
#[derive(Clone, Debug)]
pub enum FieldValue {
    /// A string.
    Text(String),
    /// A number, by its rank: ranks order as the numbers do.
    Number(i64),
    /// A nested object, by its serialized text.
    Nested(String),
    /// Anything else: null, a boolean, an array.
    Other,
}

/// Mathematical model of a [`FieldValue`].
pub enum FieldContent {
    Text(Seq<char>),
    Number(int),
    Nested(Seq<char>),
    Other,
}

impl View for FieldValue {
    type V = FieldContent;

    open spec fn view(&self) -> FieldContent {
        match self {
            FieldValue::Text(s) => FieldContent::Text(s@),
            FieldValue::Number(n) => FieldContent::Number(*n as int),
            FieldValue::Nested(s) => FieldContent::Nested(s@),
            FieldValue::Other => FieldContent::Other,
        }
    }
}

/// One member of an object record.
#[derive(Clone, Debug)]
pub struct Field {
    pub key: String,
    pub value: FieldValue,
}

/// Mathematical model of a [`Field`].
pub struct FieldView {
    pub key: Seq<char>,
    pub value: FieldContent,
}

impl View for Field {
    type V = FieldView;

    open spec fn view(&self) -> FieldView {
        FieldView { key: self.key@, value: self.value@ }
    }
}

/// One stored log entry: the text it arrived as, and the members of
/// the object that the text denotes. An entry that is no object has
/// no members.
#[derive(Clone, Debug)]
pub struct Record {
    pub text: String,
    pub fields: Vec<Field>,
}

/// Mathematical model of a [`Record`].
pub struct RecordView {
    pub text: Seq<char>,
    pub fields: Seq<FieldView>,
}

impl View for Record {
    type V = RecordView;

    open spec fn view(&self) -> RecordView {
        RecordView {
            text: self.text@,
            fields: Seq::new(self.fields@.len(), |i: int| self.fields@[i]@),
        }
    }
}

/// The models of a sequence of records, in order.
pub open spec fn record_views(records: Seq<Record>) -> Seq<RecordView> {
    Seq::new(records.len(), |i: int| records[i]@)
}

impl RecordView {
    /// The value of the first member named `key` at or after position
    /// `from`.
    pub open spec fn lookup_from(self, key: Seq<char>, from: int) -> Option<FieldContent>
        decreases self.fields.len() - from,
    {
        if from < 0 || from >= self.fields.len() {
            None
        } else if self.fields[from].key == key {
            Some(self.fields[from].value)
        } else {
            self.lookup_from(key, from + 1)
        }
    }

    /// The value of the first member named `key`.
    pub open spec fn lookup(self, key: Seq<char>) -> Option<FieldContent> {
        self.lookup_from(key, 0)
    }

    /// The string that the record holds under `key`, if it holds one.
    pub open spec fn text_at(self, key: Seq<char>) -> Option<Seq<char>> {
        match self.lookup(key) {
            Some(FieldContent::Text(s)) => Some(s),
            _ => None,
        }
    }
}

impl FieldValue {
    /// A copy of this value.
    pub fn duplicate(&self) -> (r: FieldValue)
        ensures
            r@ == self@,
    {
        match self {
            FieldValue::Text(s) => FieldValue::Text(s.clone()),
            FieldValue::Number(n) => FieldValue::Number(*n),
            FieldValue::Nested(s) => FieldValue::Nested(s.clone()),
            FieldValue::Other => FieldValue::Other,
        }
    }
}

impl Record {
    /// The position of the first member named `key`.
    pub fn position_of(&self, key: &str) -> (r: Option<usize>)
        ensures
            match r {
                Some(i) => i < self.fields@.len() && self@.fields[i as int].key == key@
                    && self@.lookup(key@) == Some(self@.fields[i as int].value),
                None => self@.lookup(key@) is None,
            },
    {
        let mut i: usize = 0;
        while i < self.fields.len()
            invariant
                i <= self.fields@.len(),
                self@.lookup(key@) == self@.lookup_from(key@, i as int),
            decreases self.fields@.len() - i,
        {
            if same_text(self.fields[i].key.as_str(), key) {
                return Some(i);
            }
            i += 1;
        }
        None
    }

    /// The string held under `key`; `None` where the record has no
    /// such member or the member is no string.
    pub fn text_of(&self, key: &str) -> (r: Option<&String>)
        ensures
            match r {
                Some(s) => self@.text_at(key@) == Some(s@),
                None => self@.text_at(key@) is None,
            },
    {
        match self.position_of(key) {
            Some(i) => match &self.fields[i].value {
                FieldValue::Text(s) => Some(s),
                _ => None,
            },
            None => None,
        }
    }

    /// A copy of this record.
    pub fn duplicate(&self) -> (r: Record)
        ensures
            r@ == self@,
    {
        let mut fields: Vec<Field> = Vec::new();
        let mut i: usize = 0;
        while i < self.fields.len()
            invariant
                i <= self.fields@.len(),
                fields@.len() == i,
                forall|k: int| 0 <= k < i ==> fields@[k]@ == self.fields@[k]@,
            decreases self.fields@.len() - i,
        {
            let f = &self.fields[i];
            fields.push(Field { key: f.key.clone(), value: f.value.duplicate() });
            i += 1;
        }
        let r = Record { text: self.text.clone(), fields };
        proof {
            assert(r@.fields =~= self@.fields);
        }
        r
    }
}

} // verus!
