use crate::felt::{decimal_felt, literal_felt, Felt, LiteralError};
use crate::json::{
    array_view, json_content, json_document, json_error_text, json_from_str, json_tree_of,
    lemma_array_view, lemma_members_view, members_view, JsonTree, JsonValue,
};
use vstd::prelude::*;

verus! {

/// A program input: a field element, a boolean, a record of named inputs in
/// their declared order, or a list.
///
/// A record holds its fields in a vector, and a list its items: values nest
/// through both, and the verifier follows the nesting only through a
/// container whose items it can see. That a record holds each name once is
/// [`well_formed`].
#[derive(Debug, PartialEq, Eq)]
pub enum Value {
    ValueFelt(Felt),
    ValueBool(bool),
    ValueRecord(Vec<(String, Value)>),
    ValueList(Vec<Value>),
}

/// What a [`Value`] stands for.
pub enum ValueView {
    Felt(nat),
    Bool(bool),
    Record(Seq<(Seq<char>, ValueView)>),
    List(Seq<ValueView>),
}

/// What a [`Value`] stands for.
pub open spec fn value_view(v: Value) -> ValueView
    decreases v, 0nat,
{
    match v {
        Value::ValueFelt(f) => ValueView::Felt(f@),
        Value::ValueBool(b) => ValueView::Bool(b),
        Value::ValueRecord(fields) => ValueView::Record(fields_view(fields@, fields@.len())),
        Value::ValueList(items) => ValueView::List(items_view(items@, items@.len())),
    }
}

/// What the first `n` fields of a record stand for, in their order.
pub open spec fn fields_view(fields: Seq<(String, Value)>, n: nat) -> Seq<(Seq<char>, ValueView)>
    decreases fields, n,
{
    if n == 0 || n > fields.len() {
        Seq::empty()
    } else {
        fields_view(fields, (n - 1) as nat).push((fields[n - 1].0@, value_view(fields[n - 1].1)))
    }
}

/// What the first `n` items of a list stand for, in their order.
pub open spec fn items_view(items: Seq<Value>, n: nat) -> Seq<ValueView>
    decreases items, n,
{
    if n == 0 || n > items.len() {
        Seq::empty()
    } else {
        items_view(items, (n - 1) as nat).push(value_view(items[n - 1]))
    }
}

impl View for Value {
    type V = ValueView;

    open spec fn view(&self) -> ValueView {
        value_view(*self)
    }
}

impl Clone for Value {
    fn clone(&self) -> (r: Self)
        ensures
            r@ == self@,
    {
        copy_of(self)
    }
}

/// A copy of a value.
fn copy_of(v: &Value) -> (r: Value)
    ensures
        r@ == v@,
    decreases v,
{
    match v {
        Value::ValueFelt(f) => Value::ValueFelt(*f),
        Value::ValueBool(b) => Value::ValueBool(*b),
        Value::ValueRecord(fields) => {
            let mut copy: Vec<(String, Value)> = Vec::new();
            let mut i: usize = 0;
            while i < fields.len()
                invariant
                    i <= fields.len(),
                    decreases_to!(v => fields),
                    copy@.len() == i,
                    forall|k: int|
                        0 <= k < i ==> (#[trigger] copy@[k]).0@ == fields@[k].0@ && copy@[k].1@
                            == fields@[k].1@,
                decreases fields.len() - i,
            {
                let value = copy_of(&fields[i].1);
                copy.push((fields[i].0.clone(), value));
                i += 1;
            }
            proof {
                lemma_fields_view(fields@, fields@.len());
                lemma_fields_view(copy@, copy@.len());
                assert(fields_view(copy@, copy@.len()) =~= fields_view(
                    fields@,
                    fields@.len(),
                ));
            }
            Value::ValueRecord(copy)
        },
        Value::ValueList(items) => {
            let mut copy: Vec<Value> = Vec::new();
            let mut i: usize = 0;
            while i < items.len()
                invariant
                    i <= items.len(),
                    decreases_to!(v => items),
                    copy@.len() == i,
                    forall|k: int| 0 <= k < i ==> (#[trigger] copy@[k])@ == items@[k]@,
                decreases items.len() - i,
            {
                let item = copy_of(&items[i]);
                copy.push(item);
                i += 1;
            }
            proof {
                lemma_items_view(items@, items@.len());
                lemma_items_view(copy@, copy@.len());
                assert(items_view(copy@, copy@.len()) =~= items_view(items@, items@.len()));
            }
            Value::ValueList(copy)
        },
    }
}

/// The view of the fields has one entry for each field, at the field's place.
pub proof fn lemma_fields_view(fields: Seq<(String, Value)>, n: nat)
    requires
        n <= fields.len(),
    ensures
        fields_view(fields, n).len() == n,
        forall|i: int|
            0 <= i < n ==> (#[trigger] fields_view(fields, n)[i]) == (fields[i].0@, fields[i].1@),
    decreases n,
{
    if n > 0 {
        lemma_fields_view(fields, (n - 1) as nat);
    }
}

/// The view of the items has one entry for each item, at the item's place.
pub proof fn lemma_items_view(items: Seq<Value>, n: nat)
    requires
        n <= items.len(),
    ensures
        items_view(items, n).len() == n,
        forall|i: int| 0 <= i < n ==> (#[trigger] items_view(items, n)[i]) == items[i]@,
    decreases n,
{
    if n > 0 {
        lemma_items_view(items, (n - 1) as nat);
    }
}

/// Why a JSON document is no program input.
#[derive(Debug)]
pub enum DecodeError {
    /// The text is not JSON; the parser's own error.
    Json(serde_json::Error),
    /// The document is not an object.
    InvalidProgramInput,
    /// A number, as such or in a string, that the field does not hold.
    InvalidFieldElement,
    /// A `null`, or a string that writes no number.
    InvalidValue,
}

/// The place of the first field of that name, or the number of fields where
/// none has it.
pub open spec fn name_index(fields: Seq<(Seq<char>, ValueView)>, name: Seq<char>) -> int
    decreases fields.len(),
{
    if fields.len() == 0 {
        0
    } else if fields[0].0 == name {
        0
    } else {
        1 + name_index(fields.drop_first(), name)
    }
}

/// The fields with one more member of an object taken in: a name that is
/// there already keeps its place and gets the new value, a new name goes last.
pub open spec fn insert_field(
    fields: Seq<(Seq<char>, ValueView)>,
    name: Seq<char>,
    value: ValueView,
) -> Seq<(Seq<char>, ValueView)> {
    let i = name_index(fields, name);
    if 0 <= i < fields.len() {
        fields.update(i, (name, value))
    } else {
        fields.push((name, value))
    }
}

/// What a JSON value decodes to: a number to the field element that its
/// decimal literal writes, a string to the one that its decimal or
/// hexadecimal literal writes, a boolean to itself, an object to a record and
/// an array to a list, member by member. A number, in a string too, that the
/// field does not hold is an invalid field element; a string that writes no
/// number, and `null`, is an invalid value. The first member that does not
/// decode decides the error.
pub open spec fn decode_value(j: JsonTree) -> Result<ValueView, DecodeError>
    decreases j, 0nat,
{
    match j {
        JsonTree::Number(text) => match decimal_felt(text) {
            Ok(n) => Ok(ValueView::Felt(n)),
            Err(_) => Err(DecodeError::InvalidFieldElement),
        },
        JsonTree::String(text) => match literal_felt(text) {
            Ok(n) => Ok(ValueView::Felt(n)),
            Err(LiteralError::Malformed) => Err(DecodeError::InvalidValue),
            Err(_) => Err(DecodeError::InvalidFieldElement),
        },
        JsonTree::Bool(b) => Ok(ValueView::Bool(b)),
        JsonTree::Object(members) => match decode_members(members, members.len()) {
            Ok(fields) => Ok(ValueView::Record(fields)),
            Err(e) => Err(e),
        },
        JsonTree::Array(items) => match decode_items(items, items.len()) {
            Ok(values) => Ok(ValueView::List(values)),
            Err(e) => Err(e),
        },
        JsonTree::Null => Err(DecodeError::InvalidValue),
    }
}

/// What the first `n` items of an array decode to.
pub open spec fn decode_items(items: Seq<JsonTree>, n: nat) -> Result<Seq<ValueView>, DecodeError>
    decreases items, n,
{
    if n == 0 || n > items.len() {
        Ok(Seq::empty())
    } else {
        match decode_items(items, (n - 1) as nat) {
            Err(e) => Err(e),
            Ok(done) => match decode_value(items[n - 1]) {
                Err(e) => Err(e),
                Ok(v) => Ok(done.push(v)),
            },
        }
    }
}

/// What the first `n` members of an object decode to.
pub open spec fn decode_members(members: Seq<(Seq<char>, JsonTree)>, n: nat) -> Result<
    Seq<(Seq<char>, ValueView)>,
    DecodeError,
>
    decreases members, n,
{
    if n == 0 || n > members.len() {
        Ok(Seq::empty())
    } else {
        match decode_members(members, (n - 1) as nat) {
            Err(e) => Err(e),
            Ok(done) => match decode_value(members[n - 1].1) {
                Err(e) => Err(e),
                Ok(v) => Ok(insert_field(done, members[n - 1].0, v)),
            },
        }
    }
}

/// The first field of a name is found by going through the fields in order.
pub proof fn lemma_name_index(fields: Seq<(Seq<char>, ValueView)>, name: Seq<char>, i: int)
    requires
        0 <= i <= fields.len(),
        forall|k: int| 0 <= k < i ==> (#[trigger] fields[k]).0 != name,
        i < fields.len() ==> fields[i].0 == name,
    ensures
        name_index(fields, name) == i,
    decreases i,
{
    if i > 0 {
        let rest = fields.drop_first();
        assert forall|k: int| 0 <= k < i - 1 implies (#[trigger] rest[k]).0 != name by {
            assert(rest[k] == fields[k + 1]);
        }
        lemma_name_index(rest, name, i - 1);
    }
}

/// Once an item has failed to decode, so has every longer run of items, with
/// the same error.
pub proof fn lemma_decode_items_error(items: Seq<JsonTree>, k: nat, n: nat)
    requires
        k <= n <= items.len(),
        decode_items(items, k) is Err,
    ensures
        decode_items(items, n) == decode_items(items, k),
    decreases n,
{
    if n > k {
        lemma_decode_items_error(items, k, (n - 1) as nat);
    }
}

/// Once a member has failed to decode, so has every longer run of members,
/// with the same error.
pub proof fn lemma_decode_members_error(members: Seq<(Seq<char>, JsonTree)>, k: nat, n: nat)
    requires
        k <= n <= members.len(),
        decode_members(members, k) is Err,
    ensures
        decode_members(members, n) == decode_members(members, k),
    decreases n,
{
    if n > k {
        lemma_decode_members_error(members, k, (n - 1) as nat);
    }
}

/// Takes one more member into the fields of a record: a name that is there
/// already keeps its place and gets the new value, a new name goes last.
fn insert_into(fields: &mut Vec<(String, Value)>, name: String, value: Value)
    ensures
        fields_view(final(fields)@, final(fields)@.len()) == insert_field(
            fields_view(old(fields)@, old(fields)@.len()),
            name@,
            value@,
        ),
{
    let ghost before = fields@;
    let ghost views = fields_view(before, before.len());
    proof {
        lemma_fields_view(before, before.len());
    }
    let mut i: usize = 0;
    while i < fields.len()
        invariant
            i <= fields.len(),
            fields@ == before,
            before == old(fields)@,
            views == fields_view(before, before.len()),
            views.len() == before.len(),
            forall|k: int| 0 <= k < before.len() ==> (#[trigger] views[k]) == (before[k].0@, before[k].1@),
            forall|k: int| 0 <= k < i ==> (#[trigger] views[k]).0 != name@,
        decreases fields.len() - i,
    {
        if fields[i].0 == name {
            proof {
                assert(views[i as int].0 == name@);
                lemma_name_index(views, name@, i as int);
                assert(insert_field(views, name@, value@) == views.update(
                    i as int,
                    (name@, value@),
                ));
            }
            fields.set(i, (name, value));
            proof {
                lemma_fields_view(fields@, fields@.len());
                assert(fields_view(fields@, fields@.len()) =~= views.update(
                    i as int,
                    (name@, value@),
                ));
            }
            return ;
        }
        i += 1;
    }
    proof {
        lemma_name_index(views, name@, i as int);
    }
    fields.push((name, value));
    proof {
        lemma_fields_view(fields@, fields@.len());
        assert(fields_view(fields@, fields@.len()) =~= views.push((name@, value@)));
    }
}

/// Decodes a JSON value into a program input, in which every record holds
/// each of its names once.
pub fn value_from_json(val: JsonValue) -> (r: Result<Value, DecodeError>)
    ensures
        match r {
            Ok(v) => decode_value(val@) == Ok::<ValueView, DecodeError>(v@) && well_formed(v@),
            Err(e) => decode_value(val@) == Err::<ValueView, DecodeError>(e) && !(e is Json),
        },
{
    proof {
        lemma_decode_well_formed(val@);
    }
    decode(&val)
}

fn decode(val: &JsonValue) -> (r: Result<Value, DecodeError>)
    ensures
        match r {
            Ok(v) => decode_value(val@) == Ok::<ValueView, DecodeError>(v@),
            Err(e) => decode_value(val@) == Err::<ValueView, DecodeError>(e) && !(e is Json),
        },
    decreases val,
{
    match val {
        JsonValue::Number(text) => match Felt::from_decimal(text.as_str()) {
            Ok(f) => Ok(Value::ValueFelt(f)),
            Err(_) => Err(DecodeError::InvalidFieldElement),
        },
        JsonValue::String(text) => match Felt::from_literal(text.as_str()) {
            Ok(f) => Ok(Value::ValueFelt(f)),
            Err(LiteralError::Malformed) => Err(DecodeError::InvalidValue),
            Err(_) => Err(DecodeError::InvalidFieldElement),
        },
        JsonValue::Bool(b) => Ok(Value::ValueBool(*b)),
        JsonValue::Object(members) => {
            let ghost trees = members_view(members@, members@.len());
            proof {
                lemma_members_view(members@, members@.len());
            }
            let mut fields: Vec<(String, Value)> = Vec::new();
            let mut i: usize = 0;
            while i < members.len()
                invariant
                    i <= members.len(),
                    val == JsonValue::Object(*members),
                    trees == members_view(members@, members@.len()),
                    trees.len() == members@.len(),
                    forall|k: int|
                        0 <= k < members@.len() ==> (#[trigger] trees[k]) == (
                            members@[k].0@,
                            members@[k].1@,
                        ),
                    decode_members(trees, i as nat) == Ok::<
                        Seq<(Seq<char>, ValueView)>,
                        DecodeError,
                    >(fields_view(fields@, fields@.len())),
                decreases members.len() - i,
            {
                match decode(&members[i].1) {
                    Ok(v) => {
                        insert_into(&mut fields, members[i].0.clone(), v);
                    },
                    Err(e) => {
                        proof {
                            assert(decode_members(trees, (i + 1) as nat) == Err::<
                                Seq<(Seq<char>, ValueView)>,
                                DecodeError,
                            >(e));
                            lemma_decode_members_error(trees, (i + 1) as nat, trees.len());
                        }
                        return Err(e);
                    },
                }
                i += 1;
            }
            Ok(Value::ValueRecord(fields))
        },
        JsonValue::Array(items) => {
            let ghost trees = array_view(items@, items@.len());
            proof {
                lemma_array_view(items@, items@.len());
            }
            let mut values: Vec<Value> = Vec::new();
            let mut i: usize = 0;
            while i < items.len()
                invariant
                    i <= items.len(),
                    val == JsonValue::Array(*items),
                    trees == array_view(items@, items@.len()),
                    trees.len() == items@.len(),
                    forall|k: int| 0 <= k < items@.len() ==> (#[trigger] trees[k]) == items@[k]@,
                    decode_items(trees, i as nat) == Ok::<Seq<ValueView>, DecodeError>(
                        items_view(values@, values@.len()),
                    ),
                decreases items.len() - i,
            {
                match decode(&items[i]) {
                    Ok(v) => {
                        let ghost before = values@;
                        values.push(v);
                        proof {
                            lemma_items_view(before, before.len());
                            lemma_items_view(values@, values@.len());
                            assert(items_view(values@, values@.len()) =~= items_view(
                                before,
                                before.len(),
                            ).push(v@));
                        }
                    },
                    Err(e) => {
                        proof {
                            assert(decode_items(trees, (i + 1) as nat) == Err::<
                                Seq<ValueView>,
                                DecodeError,
                            >(e));
                            lemma_decode_items_error(trees, (i + 1) as nat, trees.len());
                        }
                        return Err(e);
                    },
                }
                i += 1;
            }
            Ok(Value::ValueList(values))
        },
        JsonValue::Null => Err(DecodeError::InvalidValue),
    }
}

/// The map that a run of named inputs stands for: a later entry of a name
/// takes the place of an earlier one.
pub open spec fn entries_map(entries: Seq<(Seq<char>, ValueView)>, n: nat) -> Map<
    Seq<char>,
    ValueView,
>
    decreases n,
{
    if n == 0 || n > entries.len() {
        Map::empty()
    } else {
        entries_map(entries, (n - 1) as nat).insert(entries[n - 1].0, entries[n - 1].1)
    }
}

/// Entries of other names do not change what a name is bound to.
pub proof fn lemma_entries_map_skip(
    entries: Seq<(Seq<char>, ValueView)>,
    i: nat,
    n: nat,
    name: Seq<char>,
)
    requires
        i <= n <= entries.len(),
        forall|k: int| i <= k < n ==> (#[trigger] entries[k]).0 != name,
    ensures
        entries_map(entries, n).dom().contains(name) == entries_map(entries, i).dom().contains(
            name,
        ),
        entries_map(entries, n)[name] == entries_map(entries, i)[name],
    decreases n,
{
    if n > i {
        lemma_entries_map_skip(entries, i, (n - 1) as nat, name);
    }
}

/// What a JSON document decodes to as the inputs of a program: the document
/// is an object, and each member decodes.
pub open spec fn decode_program_input(doc: JsonTree) -> Result<Map<Seq<char>, ValueView>, DecodeError> {
    match doc {
        JsonTree::Object(members) => match decode_members(members, members.len()) {
            Ok(fields) => Ok(entries_map(fields, fields.len())),
            Err(e) => Err(e),
        },
        _ => Err(DecodeError::InvalidProgramInput),
    }
}

/// The inputs of a program, by name.
#[derive(Debug)]
pub struct ProgramInput {
    input_values: Vec<(String, Value)>,
}

impl ProgramInput {
    /// The entries, in the order in which they were given.
    pub closed spec fn entries(&self) -> Seq<(Seq<char>, ValueView)> {
        fields_view(self.input_values@, self.input_values@.len())
    }
}

impl Clone for ProgramInput {
    fn clone(&self) -> (r: Self)
        ensures
            r.entries() == self.entries(),
    {
        let mut copy: Vec<(String, Value)> = Vec::new();
        let mut i: usize = 0;
        while i < self.input_values.len()
            invariant
                i <= self.input_values.len(),
                copy@.len() == i,
                forall|k: int|
                    0 <= k < i ==> (#[trigger] copy@[k]).0@ == self.input_values@[k].0@
                        && copy@[k].1@ == self.input_values@[k].1@,
            decreases self.input_values.len() - i,
        {
            copy.push((self.input_values[i].0.clone(), self.input_values[i].1.clone()));
            i += 1;
        }
        proof {
            lemma_fields_view(self.input_values@, self.input_values@.len());
            lemma_fields_view(copy@, copy@.len());
            assert(fields_view(copy@, copy@.len()) =~= fields_view(
                self.input_values@,
                self.input_values@.len(),
            ));
        }
        ProgramInput { input_values: copy }
    }
}

impl View for ProgramInput {
    type V = Map<Seq<char>, ValueView>;

    open spec fn view(&self) -> Map<Seq<char>, ValueView> {
        entries_map(self.entries(), self.entries().len())
    }
}

impl ProgramInput {
    /// The inputs that the given entries name; a later entry of a name takes
    /// the place of an earlier one.
    pub fn new(input_values: Vec<(String, Value)>) -> (r: Self)
        ensures
            r.entries() == fields_view(input_values@, input_values@.len()),
    {
        ProgramInput { input_values }
    }

    /// Decodes the text of a JSON document into the inputs of a program. A
    /// text that is no JSON gives the parser's own error, as it stands.
    pub fn from_json(input: &str) -> (r: Result<Self, DecodeError>)
        ensures
            match r {
                Ok(p) => json_document(input@) matches Ok(doc) && decode_program_input(doc)
                    == Ok::<Map<Seq<char>, ValueView>, DecodeError>(p@),
                Err(DecodeError::Json(e)) => json_document(input@) == Err::<JsonTree, Seq<char>>(
                    json_error_text(e),
                ),
                Err(e) => json_document(input@) matches Ok(doc) && decode_program_input(doc)
                    == Err::<Map<Seq<char>, ValueView>, DecodeError>(e),
            },
    {
        match json_from_str(input) {
            Ok(doc) => Self::from_json_value(json_tree_of(doc)),
            Err(e) => Err(DecodeError::Json(e)),
        }
    }

    /// Decodes a JSON document into the inputs of a program.
    pub fn from_json_value(doc: JsonValue) -> (r: Result<Self, DecodeError>)
        ensures
            match r {
                Ok(p) => decode_program_input(doc@) == Ok::<Map<Seq<char>, ValueView>, DecodeError>(
                    p@,
                ),
                Err(e) => decode_program_input(doc@) == Err::<
                    Map<Seq<char>, ValueView>,
                    DecodeError,
                >(e) && !(e is Json),
            },
    {
        match doc {
            JsonValue::Object(_) => match decode(&doc) {
                Ok(v) => {
                    assert(v@ is Record);
                    match v {
                        Value::ValueRecord(fields) => {
                            let p = ProgramInput::new(fields);
                            assert(v@->Record_0 == p.entries());
                            Ok(p)
                        },
                        _ => Err(DecodeError::InvalidProgramInput),
                    }
                },
                Err(e) => Err(e),
            },
            _ => Err(DecodeError::InvalidProgramInput),
        }
    }

    /// The input of the given name, if there is one.
    pub fn get(&self, var: &str) -> (r: Option<&Value>)
        ensures
            match r {
                Some(v) => self@.dom().contains(var@) && self@[var@] == v@,
                None => !self@.dom().contains(var@),
            },
    {
        let name = var.to_owned();
        let ghost entries = self.entries();
        proof {
            lemma_fields_view(self.input_values@, self.input_values@.len());
        }
        let mut i: usize = self.input_values.len();
        while i > 0
            invariant
                i <= self.input_values.len(),
                name@ == var@,
                entries == self.entries(),
                entries.len() == self.input_values@.len(),
                forall|k: int|
                    0 <= k < entries.len() ==> (#[trigger] entries[k]) == (
                        self.input_values@[k].0@,
                        self.input_values@[k].1@,
                    ),
                forall|k: int| i <= k < entries.len() ==> (#[trigger] entries[k]).0 != var@,
            decreases i,
        {
            i -= 1;
            if self.input_values[i].0 == name {
                proof {
                    assert(entries[i as int].0 == var@);
                    lemma_entries_map_skip(entries, (i + 1) as nat, entries.len(), var@);
                }
                return Some(&self.input_values[i].1);
            }
        }
        proof {
            lemma_entries_map_skip(entries, 0, entries.len(), var@);
        }
        None
    }
}

/// Whether no two of the fields have the same name.
pub open spec fn distinct_names(fields: Seq<(Seq<char>, ValueView)>) -> bool {
    forall|i: int, j: int|
        0 <= i < j < fields.len() ==> (#[trigger] fields[i]).0 != (#[trigger] fields[j]).0
}

/// Whether every record in a value holds each of its names once.
pub open spec fn well_formed(v: ValueView) -> bool
    decreases v,
{
    match v {
        ValueView::Felt(_) => true,
        ValueView::Bool(_) => true,
        ValueView::Record(fields) => distinct_names(fields) && forall|i: int|
            0 <= i < fields.len() ==> well_formed((#[trigger] fields[i]).1),
        ValueView::List(items) => forall|i: int|
            0 <= i < items.len() ==> well_formed(#[trigger] items[i]),
    }
}

/// The first field of a name has that name, and no field before it has.
pub proof fn lemma_name_index_finds(fields: Seq<(Seq<char>, ValueView)>, name: Seq<char>)
    ensures
        0 <= name_index(fields, name) <= fields.len(),
        name_index(fields, name) < fields.len() ==> fields[name_index(fields, name)].0 == name,
        forall|k: int| 0 <= k < name_index(fields, name) ==> (#[trigger] fields[k]).0 != name,
    decreases fields.len(),
{
    if fields.len() > 0 && fields[0].0 != name {
        let rest = fields.drop_first();
        lemma_name_index_finds(rest, name);
        assert forall|k: int| 0 <= k < name_index(fields, name) implies (#[trigger] fields[k]).0
            != name by {
            if k > 0 {
                assert(rest[k - 1] == fields[k]);
            }
        }
    }
}

/// Taking a member into fields of distinct names leaves the names distinct,
/// and the values those that were there and the new one.
pub proof fn lemma_insert_field(
    fields: Seq<(Seq<char>, ValueView)>,
    name: Seq<char>,
    value: ValueView,
)
    requires
        distinct_names(fields),
        well_formed(value),
        forall|i: int| 0 <= i < fields.len() ==> well_formed((#[trigger] fields[i]).1),
    ensures
        distinct_names(insert_field(fields, name, value)),
        forall|i: int|
            0 <= i < insert_field(fields, name, value).len() ==> well_formed(
                (#[trigger] insert_field(fields, name, value)[i]).1,
            ),
{
    lemma_name_index_finds(fields, name);
    let at = name_index(fields, name);
    let after = insert_field(fields, name, value);
    assert forall|i: int, j: int| 0 <= i < j < after.len() implies (#[trigger] after[i]).0 != (
    #[trigger] after[j]).0 by {
        if at < fields.len() {
            if i != at && j != at {
                assert(after[i] == fields[i] && after[j] == fields[j]);
            } else if i == at {
                assert(after[j] == fields[j]);
                assert(fields[at].0 != fields[j].0);
            } else {
                assert(after[i] == fields[i]);
                assert(fields[i].0 != fields[at].0);
            }
        } else {
            if j < fields.len() {
                assert(after[i] == fields[i] && after[j] == fields[j]);
            } else {
                assert(after[i] == fields[i]);
            }
        }
    }
    assert forall|i: int| 0 <= i < after.len() implies well_formed((#[trigger] after[i]).1) by {
        if i < fields.len() && i != at {
            assert(after[i] == fields[i]);
        }
    }
}

/// What a JSON value decodes to holds each name of a record once.
pub proof fn lemma_decode_well_formed(j: JsonTree)
    ensures
        decode_value(j) matches Ok(v) ==> well_formed(v),
    decreases j, 0nat,
{
    match j {
        JsonTree::Object(members) => {
            lemma_decode_members_well_formed(members, members.len());
        },
        JsonTree::Array(items) => {
            lemma_decode_items_well_formed(items, items.len());
        },
        _ => {},
    }
}

/// What the items of an array decode to hold each name of a record once.
pub proof fn lemma_decode_items_well_formed(items: Seq<JsonTree>, n: nat)
    ensures
        decode_items(items, n) matches Ok(values) ==> forall|i: int|
            0 <= i < values.len() ==> well_formed(#[trigger] values[i]),
    decreases items, n,
{
    if !(n == 0 || n > items.len()) {
        lemma_decode_items_well_formed(items, (n - 1) as nat);
        lemma_decode_well_formed(items[n - 1]);
    }
}

/// The fields that the members of an object decode to have distinct names,
/// and their values hold each name of a record once.
pub proof fn lemma_decode_members_well_formed(members: Seq<(Seq<char>, JsonTree)>, n: nat)
    ensures
        decode_members(members, n) matches Ok(fields) ==> distinct_names(fields) && forall|
            i: int,
        | 0 <= i < fields.len() ==> well_formed((#[trigger] fields[i]).1),
    decreases members, n,
{
    if !(n == 0 || n > members.len()) {
        lemma_decode_members_well_formed(members, (n - 1) as nat);
        lemma_decode_well_formed(members[n - 1].1);
        match decode_members(members, (n - 1) as nat) {
            Ok(done) => match decode_value(members[n - 1].1) {
                Ok(v) => {
                    lemma_insert_field(done, members[n - 1].0, v);
                },
                Err(_) => {},
            },
            Err(_) => {},
        }
    }
}

/// The values that entries name are among those of the entries.
pub proof fn lemma_entries_map_well_formed(entries: Seq<(Seq<char>, ValueView)>, n: nat)
    requires
        n <= entries.len(),
        forall|i: int| 0 <= i < entries.len() ==> well_formed((#[trigger] entries[i]).1),
    ensures
        forall|name: Seq<char>| #[trigger]
            entries_map(entries, n).dom().contains(name) ==> well_formed(
                entries_map(entries, n)[name],
            ),
    decreases n,
{
    if n > 0 {
        lemma_entries_map_well_formed(entries, (n - 1) as nat);
        let before = entries_map(entries, (n - 1) as nat);
        let last = entries[n - 1];
        assert forall|name: Seq<char>| #[trigger]
            entries_map(entries, n).dom().contains(name) implies well_formed(
            entries_map(entries, n)[name],
        ) by {
            if name == last.0 {
                assert(entries_map(entries, n)[name] == last.1);
            } else {
                assert(before.dom().contains(name));
                assert(entries_map(entries, n)[name] == before[name]);
            }
        }
    }
}

/// Every input that a JSON document decodes to holds each name of a record
/// once.
pub proof fn lemma_decode_program_input_well_formed(doc: JsonTree)
    ensures
        decode_program_input(doc) matches Ok(inputs) ==> forall|name: Seq<char>| #[trigger]
            inputs.dom().contains(name) ==> well_formed(inputs[name]),
{
    match doc {
        JsonTree::Object(members) => {
            lemma_decode_members_well_formed(members, members.len());
            match decode_members(members, members.len()) {
                Ok(fields) => {
                    lemma_entries_map_well_formed(fields, fields.len());
                },
                Err(_) => {},
            }
        },
        _ => {},
    }
}

} // verus!
