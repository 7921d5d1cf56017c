//! Values and records: what a log line holds and what a query computes.
//!
//! A record maps field names to values and keeps its fields in the order in
//! which they were first written.

use crate::num::{whole_int, Num};
use crate::text::same_text;
use vstd::prelude::*;

verus! {

/// A number of a log line: a whole one that fits 64 bits, or a floating one.
#[derive(Clone, Copy, Debug, PartialEq, Eq, Structural)]
pub enum Number {
    PosInt(u64),
    NegInt(i64),
    Float(Num),
}

impl Number {
    /// The number in the arithmetic of queries.
    pub open spec fn num(self) -> Num {
        match self {
            Number::PosInt(n) => whole_int(n as int),
            Number::NegInt(n) => whole_int(n as int),
            Number::Float(x) => x,
        }
    }

    pub fn to_num(self) -> (r: Num)
        ensures
            r == self.num(),
    {
        match self {
            Number::PosInt(n) => Num::from_u64(n),
            Number::NegInt(n) => Num::from_i64(n),
            Number::Float(x) => x,
        }
    }

    /// The whole number as a number of a log line.
    pub open spec fn of_int(n: i64) -> Number {
        if n < 0 {
            Number::NegInt(n)
        } else {
            Number::PosInt(n as u64)
        }
    }

    pub fn from_i64(n: i64) -> (r: Number)
        ensures
            r == Number::of_int(n),
    {
        if n < 0 {
            Number::NegInt(n)
        } else {
            Number::PosInt(n as u64)
        }
    }
}

/// A value of a field, or of an expression over fields.
#[derive(Debug, PartialEq)]
pub enum Value {
    Null,
    Bool(bool),
    Number(Number),
    Str(String),
    Array(Vec<Value>),
    Object(Record),
}

/// Fields by name, in the order in which they were first written. No name stands
/// twice in a record that the library makes: what it makes is [`sound_fields`].
#[derive(Debug, PartialEq)]
pub struct Record {
    pub entries: Vec<(String, Value)>,
}

/// What a record holds: its fields in order.
pub type Fields = Seq<(Seq<char>, Tree)>;

/// What a value holds.
#[verifier::ext_equal]
pub enum Tree {
    Null,
    Bool(bool),
    Number(Number),
    Str(Seq<char>),
    Array(Seq<Tree>),
    Object(Seq<(Seq<char>, Tree)>),
}

/// What a value holds, texts taken as their characters.
pub open spec fn tree_of(v: Value) -> Tree
    decreases v,
{
    match v {
        Value::Null => Tree::Null,
        Value::Bool(b) => Tree::Bool(b),
        Value::Number(n) => Tree::Number(n),
        Value::Str(s) => Tree::Str(s@),
        Value::Array(items) => Tree::Array(
            Seq::new(
                items@.len(),
                |i: int|
                    if 0 <= i < items@.len() {
                        tree_of(items@[i])
                    } else {
                        Tree::Null
                    },
            ),
        ),
        Value::Object(record) => Tree::Object(
            Seq::new(
                record.entries@.len(),
                |i: int|
                    if 0 <= i < record.entries@.len() {
                        (record.entries@[i].0@, tree_of(record.entries@[i].1))
                    } else {
                        (Seq::empty(), Tree::Null)
                    },
            ),
        ),
    }
}

impl View for Value {
    type V = Tree;

    open spec fn view(&self) -> Tree {
        tree_of(*self)
    }
}

/// What a row of entries holds.
pub open spec fn fields_of(entries: Seq<(String, Value)>) -> Fields {
    Seq::new(entries.len(), |i: int| (entries[i].0@, tree_of(entries[i].1)))
}

/// What a row of values holds.
pub open spec fn trees_of(items: Seq<Value>) -> Seq<Tree> {
    Seq::new(items.len(), |i: int| tree_of(items[i]))
}

impl View for Record {
    type V = Fields;

    open spec fn view(&self) -> Fields {
        fields_of(self.entries@)
    }
}

/// The view of an optional value.
pub open spec fn tree_opt(v: Option<Value>) -> Option<Tree> {
    match v {
        Some(x) => Some(x@),
        None => None,
    }
}

/// Where a field stands, from `i` on.
pub open spec fn field_from(fields: Fields, key: Seq<char>, i: int) -> Option<int>
    decreases fields.len() - i,
{
    if i < 0 || i >= fields.len() {
        None
    } else if fields[i].0 == key {
        Some(i)
    } else {
        field_from(fields, key, i + 1)
    }
}

/// The value of a field.
pub open spec fn field(fields: Fields, key: Seq<char>) -> Option<Tree> {
    match field_from(fields, key, 0) {
        Some(i) => Some(fields[i].1),
        None => None,
    }
}

/// The fields with one more, or with a new value where the name is there.
pub open spec fn with_field(fields: Fields, key: Seq<char>, value: Tree) -> Fields {
    match field_from(fields, key, 0) {
        Some(i) => fields.update(i, (key, value)),
        None => fields.push((key, value)),
    }
}

/// No name stands twice.
pub open spec fn distinct_names(fields: Fields) -> bool {
    forall|i: int, j: int| 0 <= i < j < fields.len() ==> fields[i].0 != fields[j].0
}

/// Whether a number is of the kind that its amount calls for: only one below zero
/// is of the negative kind, and a floating one is finite.
pub open spec fn sound_number(n: Number) -> bool {
    match n {
        Number::PosInt(_) => true,
        Number::NegInt(i) => i < 0,
        Number::Float(x) => x.finite(),
    }
}

/// Whether a value is sound: its numbers are, and no object in it has a name
/// twice, however deep they stand.
pub open spec fn sound(t: Tree) -> bool
    decreases t,
{
    match t {
        Tree::Number(n) => sound_number(n),
        Tree::Array(items) => forall|i: int| 0 <= i < items.len() ==> sound(#[trigger] items[i]),
        Tree::Object(fields) => distinct_names(fields) && forall|i: int|
            0 <= i < fields.len() ==> sound((#[trigger] fields[i]).1),
        _ => true,
    }
}

/// Whether a record is sound: no name stands twice, and the values are sound.
pub open spec fn sound_fields(fields: Fields) -> bool {
    &&& distinct_names(fields)
    &&& forall|i: int| 0 <= i < fields.len() ==> sound((#[trigger] fields[i]).1)
}

/// Whether a value, where there is one, is sound.
pub open spec fn sound_opt(v: Option<Tree>) -> bool {
    v matches Some(t) ==> sound(t)
}

proof fn lemma_field_from(fields: Fields, key: Seq<char>, i: int)
    requires
        0 <= i,
    ensures
        match field_from(fields, key, i) {
            Some(k) => i <= k < fields.len() && fields[k].0 == key && forall|j: int|
                i <= j < k ==> fields[j].0 != key,
            None => forall|j: int| i <= j < fields.len() ==> fields[j].0 != key,
        },
    decreases fields.len() - i,
{
    if i < fields.len() && fields[i].0 != key {
        lemma_field_from(fields, key, i + 1);
    }
}

proof fn lemma_field_at(fields: Fields, key: Seq<char>, from: int, at: int)
    requires
        0 <= from <= at < fields.len(),
        fields[at].0 == key,
        forall|j: int| from <= j < at ==> fields[j].0 != key,
    ensures
        field_from(fields, key, from) == Some(at),
    decreases at - from,
{
    if from < at {
        lemma_field_at(fields, key, from + 1, at);
    }
}

proof fn lemma_no_field(fields: Fields, key: Seq<char>, from: int)
    requires
        0 <= from,
        forall|j: int| from <= j < fields.len() ==> fields[j].0 != key,
    ensures
        field_from(fields, key, from) == None::<int>,
    decreases fields.len() - from,
{
    if from < fields.len() {
        lemma_no_field(fields, key, from + 1);
    }
}

/// Where a name stands in a record that has it.
pub proof fn lemma_field_stands(fields: Fields, key: Seq<char>) -> (at: int)
    requires
        field(fields, key) is Some,
    ensures
        0 <= at < fields.len(),
        fields[at].0 == key,
{
    lemma_field_from(fields, key, 0);
    field_from(fields, key, 0)->0
}

/// A field whose name stands nowhere else is found.
pub proof fn lemma_field_found(fields: Fields, at: int)
    requires
        distinct_names(fields),
        0 <= at < fields.len(),
    ensures
        field(fields, fields[at].0) == Some(fields[at].1),
{
    lemma_field_at(fields, fields[at].0, 0, at);
}

/// Writing a field keeps the names distinct.
pub proof fn law_write_keeps_names_distinct(fields: Fields, key: Seq<char>, value: Tree)
    requires
        distinct_names(fields),
    ensures
        distinct_names(with_field(fields, key, value)),
{
    lemma_field_from(fields, key, 0);
}

/// Writing a sound value keeps a record sound.
pub proof fn law_write_keeps_a_record_sound(fields: Fields, key: Seq<char>, value: Tree)
    requires
        sound_fields(fields),
        sound(value),
    ensures
        sound_fields(with_field(fields, key, value)),
{
    lemma_field_from(fields, key, 0);
    law_write_keeps_names_distinct(fields, key, value);
    let now = with_field(fields, key, value);
    assert forall|i: int| 0 <= i < now.len() implies sound((#[trigger] now[i]).1) by {
        if i < fields.len() {
            assert(sound(fields[i].1));
        }
    }
}

/// What is read of a sound record is sound.
pub proof fn law_fields_of_a_sound_record_are_sound(fields: Fields, key: Seq<char>)
    requires
        sound_fields(fields),
    ensures
        sound_opt(field(fields, key)),
{
    lemma_field_from(fields, key, 0);
}

/// What is read of a field is what was last written to it, and writing one field
/// leaves the others as they are.
pub proof fn law_read_gives_back_write(
    fields: Fields,
    key: Seq<char>,
    value: Tree,
    other: Seq<char>,
)
    ensures
        field(with_field(fields, key, value), key) == Some(value),
        other != key ==> field(with_field(fields, key, value), other) == field(fields, other),
{
    let now = with_field(fields, key, value);
    lemma_field_from(fields, key, 0);
    match field_from(fields, key, 0) {
        Some(i) => {
            lemma_field_at(now, key, 0, i);
        },
        None => {
            lemma_field_at(now, key, 0, fields.len() as int);
        },
    }
    if other != key {
        lemma_field_from(fields, other, 0);
        match field_from(fields, other, 0) {
            Some(k) => {
                lemma_field_at(now, other, 0, k);
            },
            None => {
                lemma_no_field(now, other, 0);
            },
        }
    }
}

/// A field keeps its place when it is written again, and a new one comes last.
pub proof fn law_first_write_fixes_the_place(fields: Fields, key: Seq<char>, value: Tree)
    ensures
        forall|i: int|
            0 <= i < fields.len() ==> (#[trigger] with_field(fields, key, value)[i]).0
                == fields[i].0,
        field(fields, key) is None ==> with_field(fields, key, value) == fields.push((key, value)),
{
    lemma_field_from(fields, key, 0);
}

impl Record {
    pub fn new() -> (r: Record)
        ensures
            r@ == Fields::empty(),
            sound_fields(r@),
    {
        let r = Record { entries: Vec::new() };
        assert(r@ =~= Fields::empty());
        r
    }

    /// Where the field stands.
    pub fn position(&self, key: &str) -> (r: Option<usize>)
        ensures
            match r {
                Some(i) => field_from(self@, key@, 0) == Some(i as int) && i < self.entries@.len(),
                None => field_from(self@, key@, 0) is None,
            },
    {
        let mut i: usize = 0;
        while i < self.entries.len()
            invariant
                i <= self.entries@.len(),
                field_from(self@, key@, 0) == field_from(self@, key@, i as int),
            decreases self.entries.len() - i,
        {
            if same_text(self.entries[i].0.as_str(), key) {
                return Some(i);
            }
            i += 1;
        }
        None
    }

    /// The value of the field.
    pub fn get(&self, key: &str) -> (r: Option<&Value>)
        ensures
            match r {
                Some(v) => field(self@, key@) == Some(v@),
                None => field(self@, key@) is None,
            },
            r matches Some(v) ==> exists|i: int|
                0 <= i < self.entries@.len() && *v == #[trigger] self.entries@[i].1,
    {
        match self.position(key) {
            Some(i) => Some(&self.entries[i].1),
            None => None,
        }
    }

    /// Writes the field.
    pub fn insert(&mut self, key: String, value: Value)
        ensures
            final(self)@ == with_field(old(self)@, key@, value@),
            sound_fields(old(self)@) && sound(value@) ==> sound_fields(final(self)@),
    {
        match self.position(key.as_str()) {
            Some(i) => {
                self.entries[i] = (key, value);
            },
            None => {
                self.entries.push((key, value));
            },
        }
        assert(self@ =~= with_field(old(self)@, key@, value@));
        proof {
            if sound_fields(old(self)@) && sound(value@) {
                law_write_keeps_a_record_sound(old(self)@, key@, value@);
            }
        }
    }

    /// How many fields there are.
    pub fn len(&self) -> (r: usize)
        ensures
            r == self@.len(),
    {
        self.entries.len()
    }

    pub fn copy(&self) -> (r: Record)
        ensures
            r@ == self@,
        decreases self, 1nat,
    {
        let r = Record { entries: copy_entries(&self.entries) };
        assert(r@ =~= self@);
        r
    }
}

fn copy_entries(entries: &Vec<(String, Value)>) -> (r: Vec<(String, Value)>)
    ensures
        fields_of(r@) == fields_of(entries@),
    decreases entries, 0nat,
{
    let mut out: Vec<(String, Value)> = Vec::new();
    let mut i: usize = 0;
    while i < entries.len()
        invariant
            i <= entries@.len(),
            out@.len() == i,
            forall|j: int|
                0 <= j < i ==> (#[trigger] out@[j]).0@ == entries@[j].0@ && out@[j].1@
                    == entries@[j].1@,
        decreases entries.len() - i,
    {
        assert(decreases_to!(entries => entries@[i as int]));
        assert(decreases_to!(entries => entries@[i as int].1));
        let item = (entries[i].0.clone(), entries[i].1.copy());
        out.push(item);
        i += 1;
    }
    assert(fields_of(out@) =~= fields_of(entries@));
    out
}

fn copy_items(items: &Vec<Value>) -> (r: Vec<Value>)
    ensures
        trees_of(r@) == trees_of(items@),
    decreases items, 0nat,
{
    let mut out: Vec<Value> = Vec::new();
    let mut i: usize = 0;
    while i < items.len()
        invariant
            i <= items@.len(),
            out@.len() == i,
            forall|j: int| 0 <= j < i ==> (#[trigger] out@[j])@ == items@[j]@,
        decreases items.len() - i,
    {
        assert(decreases_to!(items => items@[i as int]));
        out.push(items[i].copy());
        i += 1;
    }
    assert(trees_of(out@) =~= trees_of(items@));
    out
}

impl Value {
    pub fn copy(&self) -> (r: Value)
        ensures
            r@ == self@,
        decreases self, 0nat,
    {
        match self {
            Value::Null => Value::Null,
            Value::Bool(b) => Value::Bool(*b),
            Value::Number(n) => Value::Number(*n),
            Value::Str(s) => Value::Str(s.clone()),
            Value::Array(items) => {
                let out = copy_items(items);
                let r = Value::Array(out);
                assert(r@->Array_0 =~= trees_of(out@));
                assert(self@->Array_0 =~= trees_of(items@));
                r
            },
            Value::Object(record) => {
                let copied = record.copy();
                let r = Value::Object(copied);
                assert(r@->Object_0 =~= copied@);
                assert(self@->Object_0 =~= record@);
                r
            },
        }
    }
}

impl Clone for Value {
    fn clone(&self) -> (r: Value)
        ensures
            r@ == self@,
    {
        self.copy()
    }
}

impl Clone for Record {
    fn clone(&self) -> (r: Record)
        ensures
            r@ == self@,
    {
        self.copy()
    }
}

} // verus!
