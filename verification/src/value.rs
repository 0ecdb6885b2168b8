//! GID values: cells, byte blobs, position-keyed lists and cell-keyed records.
//! `Data` is the mathematical model of a value; records keep their fields in
//! strictly increasing key order, as an ordered map does.
use vstd::prelude::*;

verus! {

/// The identity of a cell.
pub type CellId = u128;

/// A list position. Positions order the elements of a list.
pub type Position = u64;

/// A stored value.
#[derive(Debug, PartialEq, Eq)]
pub enum Value {
    Cell(CellId),
    Blob(Vec<u8>),
    List(Vec<(Position, Value)>),
    Record(Vec<(CellId, Value)>),
}

/// The model of a `Value`.
pub enum Data {
    Cell(CellId),
    Blob(Seq<u8>),
    List(Seq<(Position, Data)>),
    Record(Seq<(CellId, Data)>),
}

/// The model of a list's elements.
pub open spec fn items_data(items: Seq<(Position, Value)>) -> Seq<(Position, Data)>
    decreases items,
{
    Seq::new(
        items.len(),
        |i: int|
            if 0 <= i < items.len() {
                proof {
                    assert(decreases_to!(items => items[i]));
                }
                (items[i].0, items[i].1.data())
            } else {
                (0, Data::Cell(0))
            },
    )
}

/// The model of a record's fields.
pub open spec fn fields_data(fields: Seq<(CellId, Value)>) -> Seq<(CellId, Data)>
    decreases fields,
{
    Seq::new(
        fields.len(),
        |i: int|
            if 0 <= i < fields.len() {
                proof {
                    assert(decreases_to!(fields => fields[i]));
                }
                (fields[i].0, fields[i].1.data())
            } else {
                (0, Data::Cell(0))
            },
    )
}

impl Value {
    pub open spec fn data(&self) -> Data
        decreases self,
    {
        match self {
            Value::Cell(c) => Data::Cell(*c),
            Value::Blob(b) => Data::Blob(b@),
            Value::List(items) => {
                proof {
                    assert(decreases_to!(*self => self->List_0));
                    assert(decreases_to!(self->List_0 => self->List_0@));
                }
                Data::List(items_data(items@))
            },
            Value::Record(fields) => {
                proof {
                    assert(decreases_to!(*self => self->Record_0));
                    assert(decreases_to!(self->Record_0 => self->Record_0@));
                }
                Data::Record(fields_data(fields@))
            },
        }
    }
}

impl View for Value {
    type V = Data;

    open spec fn view(&self) -> Data {
        self.data()
    }
}

/// The value of the first entry with `key`.
pub open spec fn field<K, V>(entries: Seq<(K, V)>, key: K) -> Option<V>
    decreases entries.len(),
{
    if entries.len() == 0 {
        None
    } else if entries[0].0 == key {
        Some(entries[0].1)
    } else {
        field(entries.drop_first(), key)
    }
}

/// Keys strictly increase, so each key occurs once.
pub open spec fn sorted(fields: Seq<(CellId, Data)>) -> bool {
    forall|i: int, j: int| 0 <= i < j < fields.len() ==> fields[i].0 < fields[j].0
}

/// The index of the first field whose key is not below `key`.
pub open spec fn lower_bound(fields: Seq<(CellId, Data)>, key: CellId) -> int
    decreases fields.len(),
{
    if fields.len() == 0 {
        0
    } else if fields.last().0 < key {
        fields.len() as int
    } else {
        lower_bound(fields.drop_last(), key)
    }
}

/// The fields with `key` bound to `value`, in key order.
pub open spec fn insert_field(fields: Seq<(CellId, Data)>, key: CellId, value: Data) -> Seq<
    (CellId, Data),
> {
    let p = lower_bound(fields, key);
    if p < fields.len() && fields[p].0 == key {
        fields.update(p, (key, value))
    } else {
        fields.insert(p, (key, value))
    }
}

/// The fields without `key`.
pub open spec fn remove_field(fields: Seq<(CellId, Data)>, key: CellId) -> Seq<(CellId, Data)> {
    let p = lower_bound(fields, key);
    if p < fields.len() && fields[p].0 == key {
        fields.remove(p)
    } else {
        fields
    }
}

/// A record built from `pairs` in order: a later pair replaces an earlier one.
pub open spec fn build_fields(pairs: Seq<(CellId, Data)>) -> Seq<(CellId, Data)>
    decreases pairs.len(),
{
    if pairs.len() == 0 {
        Seq::empty()
    } else {
        insert_field(build_fields(pairs.drop_last()), pairs.last().0, pairs.last().1)
    }
}

/// The value that the last pair with `key` assigns.
pub open spec fn assigned(pairs: Seq<(CellId, Data)>, key: CellId) -> Option<Data>
    decreases pairs.len(),
{
    if pairs.len() == 0 {
        None
    } else if pairs.last().0 == key {
        Some(pairs.last().1)
    } else {
        assigned(pairs.drop_last(), key)
    }
}

/// Every element of a list is a cell.
pub open spec fn all_cells(items: Seq<(Position, Data)>) -> bool {
    forall|i: int| 0 <= i < items.len() ==> (#[trigger] items[i]).1 is Cell
}

/// The cells of a list of cells, in order.
pub open spec fn cells_of(items: Seq<(Position, Data)>) -> Seq<CellId> {
    Seq::new(items.len(), |i: int| items[i].1->Cell_0)
}

/// The elements of a list built from `values`: positions count up from zero.
pub open spec fn numbered(values: Seq<Data>) -> Seq<(Position, Data)> {
    Seq::new(values.len(), |i: int| (i as Position, values[i]))
}

impl Data {
    pub open spec fn cell(self) -> Option<CellId> {
        match self {
            Data::Cell(c) => Some(c),
            _ => None,
        }
    }

    pub open spec fn blob(self) -> Option<Seq<u8>> {
        match self {
            Data::Blob(b) => Some(b),
            _ => None,
        }
    }

    pub open spec fn list(self) -> Option<Seq<(Position, Data)>> {
        match self {
            Data::List(items) => Some(items),
            _ => None,
        }
    }

    pub open spec fn record(self) -> Option<Seq<(CellId, Data)>> {
        match self {
            Data::Record(fields) => Some(fields),
            _ => None,
        }
    }

    /// The field `key` of a record; nothing for any other value.
    pub open spec fn get(self, key: CellId) -> Option<Data> {
        match self {
            Data::Record(fields) => field(fields, key),
            _ => None,
        }
    }

    /// A record with its fields in key order.
    pub open spec fn is_sorted_record(self) -> bool {
        self is Record && sorted(self->Record_0)
    }

    /// Any value but a record whose fields are out of key order: the form
    /// that an ordered map gives every record.
    pub open spec fn ordered(self) -> bool {
        self is Record ==> sorted(self->Record_0)
    }
}

/// The record that `Value::record` builds from `pairs`.
pub open spec fn record_of(pairs: Seq<(CellId, Data)>) -> Data {
    Data::Record(build_fields(pairs))
}

/// The list that `Value::list` builds from `values`.
pub open spec fn list_of(values: Seq<Data>) -> Data {
    Data::List(numbered(values))
}

pub proof fn lemma_field_at<K, V>(entries: Seq<(K, V)>, key: K, i: int)
    requires
        0 <= i < entries.len(),
        entries[i].0 == key,
        forall|j: int| 0 <= j < i ==> entries[j].0 != key,
    ensures
        field(entries, key) == Some(entries[i].1),
    decreases i,
{
    if i > 0 {
        let rest = entries.drop_first();
        assert forall|j: int| 0 <= j < i - 1 implies rest[j].0 != key by {
            assert(rest[j] == entries[j + 1]);
        }
        lemma_field_at(rest, key, i - 1);
    }
}

pub proof fn lemma_field_none<K, V>(entries: Seq<(K, V)>, key: K)
    requires
        forall|j: int| 0 <= j < entries.len() ==> entries[j].0 != key,
    ensures
        field(entries, key) is None,
    decreases entries.len(),
{
    if entries.len() > 0 {
        let rest = entries.drop_first();
        assert forall|j: int| 0 <= j < rest.len() implies rest[j].0 != key by {
            assert(rest[j] == entries[j + 1]);
        }
        lemma_field_none(rest, key);
    }
}

/// In key order, a field is found exactly where its key stands.
pub proof fn lemma_sorted_field(fields: Seq<(CellId, Data)>, key: CellId)
    requires
        sorted(fields),
    ensures
        forall|i: int|
            0 <= i < fields.len() && fields[i].0 == key ==> field(fields, key) == Some(
                #[trigger] fields[i].1,
            ),
        (forall|i: int| 0 <= i < fields.len() ==> fields[i].0 != key) ==> field(fields, key) is None,
{
    assert forall|i: int|
        0 <= i < fields.len() && fields[i].0 == key implies field(fields, key) == Some(
        #[trigger] fields[i].1,
    ) by {
        lemma_field_at(fields, key, i);
    }
    if forall|i: int| 0 <= i < fields.len() ==> fields[i].0 != key {
        lemma_field_none(fields, key);
    }
}

/// `lower_bound` separates the keys below `key` from the rest.
pub proof fn lemma_lower_bound(fields: Seq<(CellId, Data)>, key: CellId)
    requires
        sorted(fields),
    ensures
        0 <= lower_bound(fields, key) <= fields.len(),
        forall|j: int| 0 <= j < lower_bound(fields, key) ==> fields[j].0 < key,
        forall|j: int| lower_bound(fields, key) <= j < fields.len() ==> fields[j].0 >= key,
    decreases fields.len(),
{
    if fields.len() > 0 && !(fields.last().0 < key) {
        let rest = fields.drop_last();
        assert(sorted(rest));
        lemma_lower_bound(rest, key);
        let lb = lower_bound(fields, key);
        assert forall|j: int| 0 <= j < lb implies fields[j].0 < key by {
            assert(fields[j] == rest[j]);
        }
        assert forall|j: int| lb <= j < fields.len() implies fields[j].0 >= key by {
            if j < fields.len() - 1 {
                assert(fields[j] == rest[j]);
            }
        }
    } else if fields.len() > 0 {
        assert forall|j: int| 0 <= j < fields.len() implies fields[j].0 < key by {
            if j < fields.len() - 1 {
                assert(fields[j].0 < fields[fields.len() - 1].0);
            }
        }
    }
}

/// Any index that separates lower keys from the rest is `lower_bound`.
pub proof fn lemma_lower_bound_unique(fields: Seq<(CellId, Data)>, key: CellId, p: int)
    requires
        sorted(fields),
        0 <= p <= fields.len(),
        forall|j: int| 0 <= j < p ==> fields[j].0 < key,
        forall|j: int| p <= j < fields.len() ==> fields[j].0 >= key,
    ensures
        lower_bound(fields, key) == p,
{
    lemma_lower_bound(fields, key);
    let q = lower_bound(fields, key);
    if q < p {
        assert(fields[q].0 >= key);
    }
    if p < q {
        assert(fields[p].0 < key);
    }
}

/// Binding a key keeps key order, binds that key and leaves the others.
pub proof fn lemma_insert_field(fields: Seq<(CellId, Data)>, key: CellId, value: Data)
    requires
        sorted(fields),
    ensures
        sorted(insert_field(fields, key, value)),
        field(insert_field(fields, key, value), key) == Some(value),
        forall|other: CellId|
            other != key ==> field(#[trigger] insert_field(fields, key, value), other) == field(
                fields,
                other,
            ),
{
    lemma_lower_bound(fields, key);
    let p = lower_bound(fields, key);
    let r = insert_field(fields, key, value);
    if p < fields.len() && fields[p].0 == key {
        assert(sorted(r));
        lemma_sorted_field(r, key);
        assert(r[p] == (key, value));
        assert(r[p].1 == value);
        assert forall|other: CellId| other != key implies field(
            #[trigger] insert_field(fields, key, value),
            other,
        ) == field(fields, other) by {
            lemma_sorted_field(r, other);
            lemma_sorted_field(fields, other);
            if exists|i: int| 0 <= i < fields.len() && fields[i].0 == other {
                let i = choose|i: int| 0 <= i < fields.len() && fields[i].0 == other;
                assert(r[i] == fields[i]);
                assert(r[i].1 == fields[i].1);
            } else {
                assert forall|i: int| 0 <= i < r.len() implies r[i].0 != other by {
                    if i != p {
                        assert(r[i] == fields[i]);
                    }
                }
            }
        }
    } else {
        assert forall|i: int, j: int| 0 <= i < j < r.len() implies r[i].0 < r[j].0 by {
            if j < p {
                assert(r[i] == fields[i] && r[j] == fields[j]);
            } else if j == p {
                assert(r[i] == fields[i]);
            } else if i < p {
                assert(r[j] == fields[j - 1]);
                if i < p {
                    assert(r[i] == fields[i]);
                }
            } else if i == p {
                assert(r[j] == fields[j - 1]);
                assert(fields[j - 1].0 >= key);
                assert(fields[j - 1].0 != key) by {
                    if p < fields.len() {
                        assert(fields[p].0 > key);
                        assert(fields[j - 1].0 >= fields[p].0);
                    }
                }
            } else {
                assert(r[i] == fields[i - 1] && r[j] == fields[j - 1]);
            }
        }
        lemma_sorted_field(r, key);
        assert(r[p] == (key, value));
        assert(r[p].1 == value);
        assert forall|other: CellId| other != key implies field(
            #[trigger] insert_field(fields, key, value),
            other,
        ) == field(fields, other) by {
            lemma_sorted_field(r, other);
            lemma_sorted_field(fields, other);
            if exists|i: int| 0 <= i < fields.len() && fields[i].0 == other {
                let i = choose|i: int| 0 <= i < fields.len() && fields[i].0 == other;
                if i < p {
                    assert(r[i] == fields[i]);
                    assert(r[i].1 == fields[i].1);
                } else {
                    assert(r[i + 1] == fields[i]);
                    assert(r[i + 1].1 == fields[i].1);
                }
            } else {
                assert forall|i: int| 0 <= i < r.len() implies r[i].0 != other by {
                    if i < p {
                        assert(r[i] == fields[i]);
                    } else if i > p {
                        assert(r[i] == fields[i - 1]);
                    }
                }
            }
        }
    }
}

/// Removing a key keeps key order, unbinds that key and leaves the others.
pub proof fn lemma_remove_field(fields: Seq<(CellId, Data)>, key: CellId)
    requires
        sorted(fields),
    ensures
        sorted(remove_field(fields, key)),
        field(remove_field(fields, key), key) is None,
        forall|other: CellId|
            other != key ==> field(#[trigger] remove_field(fields, key), other) == field(
                fields,
                other,
            ),
{
    lemma_lower_bound(fields, key);
    let p = lower_bound(fields, key);
    let r = remove_field(fields, key);
    if p < fields.len() && fields[p].0 == key {
        assert forall|i: int, j: int| 0 <= i < j < r.len() implies r[i].0 < r[j].0 by {
            if j < p {
                assert(r[i] == fields[i] && r[j] == fields[j]);
            } else if i < p {
                assert(r[i] == fields[i] && r[j] == fields[j + 1]);
            } else {
                assert(r[i] == fields[i + 1] && r[j] == fields[j + 1]);
            }
        }
        lemma_sorted_field(r, key);
        assert forall|i: int| 0 <= i < r.len() implies r[i].0 != key by {
            if i < p {
                assert(r[i] == fields[i]);
            } else {
                assert(r[i] == fields[i + 1]);
            }
        }
        assert forall|other: CellId| other != key implies field(
            #[trigger] remove_field(fields, key),
            other,
        ) == field(fields, other) by {
            lemma_sorted_field(r, other);
            lemma_sorted_field(fields, other);
            if exists|i: int| 0 <= i < fields.len() && fields[i].0 == other {
                let i = choose|i: int| 0 <= i < fields.len() && fields[i].0 == other;
                if i < p {
                    assert(r[i] == fields[i]);
                    assert(r[i].1 == fields[i].1);
                } else {
                    assert(r[i - 1] == fields[i]);
                    assert(r[i - 1].1 == fields[i].1);
                }
            } else {
                assert forall|i: int| 0 <= i < r.len() implies r[i].0 != other by {
                    if i < p {
                        assert(r[i] == fields[i]);
                    } else {
                        assert(r[i] == fields[i + 1]);
                    }
                }
            }
        }
    } else {
        lemma_sorted_field(fields, key);
        assert forall|i: int| 0 <= i < fields.len() implies fields[i].0 != key by {
            if i < p {
            } else if i == p {
            } else {
                assert(fields[i].0 > fields[p].0);
            }
        }
    }
}

/// A built record is in key order and holds what the last pair for each key assigns.
pub proof fn lemma_build_fields(pairs: Seq<(CellId, Data)>)
    ensures
        sorted(build_fields(pairs)),
        forall|key: CellId| field(#[trigger] build_fields(pairs), key) == assigned(pairs, key),
    decreases pairs.len(),
{
    if pairs.len() == 0 {
        assert forall|key: CellId| field(#[trigger] build_fields(pairs), key) == assigned(
            pairs,
            key,
        ) by {}
    } else {
        let rest = pairs.drop_last();
        lemma_build_fields(rest);
        lemma_insert_field(build_fields(rest), pairs.last().0, pairs.last().1);
        assert forall|key: CellId| field(#[trigger] build_fields(pairs), key) == assigned(
            pairs,
            key,
        ) by {
            if key != pairs.last().0 {
                assert(field(build_fields(rest), key) == assigned(rest, key));
            }
        }
    }
}

proof fn lemma_fields_data_update(fields: Seq<(CellId, Value)>, p: int, key: CellId, value: Value)
    requires
        0 <= p < fields.len(),
    ensures
        fields_data(fields.update(p, (key, value))) =~= fields_data(fields).update(
            p,
            (key, value.data()),
        ),
{
}

proof fn lemma_fields_data_insert(fields: Seq<(CellId, Value)>, p: int, key: CellId, value: Value)
    requires
        0 <= p <= fields.len(),
    ensures
        fields_data(fields.insert(p, (key, value))) =~= fields_data(fields).insert(
            p,
            (key, value.data()),
        ),
{
}

proof fn lemma_fields_data_remove(fields: Seq<(CellId, Value)>, p: int)
    requires
        0 <= p < fields.len(),
    ensures
        fields_data(fields.remove(p)) =~= fields_data(fields).remove(p),
{
}

impl Value {
    /// An independent copy with the same model.
    pub fn duplicate(&self) -> (r: Value)
        ensures
            r@ == self@,
        decreases self,
    {
        match self {
            Value::Cell(c) => Value::Cell(*c),
            Value::Blob(b) => {
                let copy = b.clone();
                assert(copy@ =~= b@);
                Value::Blob(copy)
            },
            Value::List(items) => {
                let mut out: Vec<(Position, Value)> = Vec::new();
                let mut i: usize = 0;
                while i < items.len()
                    invariant
                        i <= items@.len(),
                        self is List,
                        self->List_0 == *items,
                        out@.len() == i,
                        forall|j: int|
                            0 <= j < i ==> out@[j].0 == items@[j].0 && #[trigger] out@[j].1.data()
                                == items@[j].1.data(),
                    decreases items@.len() - i,
                {
                    proof {
                        assert(decreases_to!(*self => self->List_0));
                        assert(decreases_to!(self->List_0 => self->List_0@));
                        assert(decreases_to!(self->List_0@ => self->List_0@[i as int]));
                    }
                    let v = items[i].1.duplicate();
                    out.push((items[i].0, v));
                    i = i + 1;
                }
                let r = Value::List(out);
                assert(items_data(out@) =~= items_data(items@)) by {
                    assert forall|j: int| 0 <= j < out@.len() implies #[trigger] items_data(
                        out@,
                    )[j] == items_data(items@)[j] by {
                        assert(out@[j].1.data() == items@[j].1.data());
                    }
                }
                r
            },
            Value::Record(fields) => {
                let mut out: Vec<(CellId, Value)> = Vec::new();
                let mut i: usize = 0;
                while i < fields.len()
                    invariant
                        i <= fields@.len(),
                        self is Record,
                        self->Record_0 == *fields,
                        out@.len() == i,
                        forall|j: int|
                            0 <= j < i ==> out@[j].0 == fields@[j].0 && #[trigger] out@[j].1.data()
                                == fields@[j].1.data(),
                    decreases fields@.len() - i,
                {
                    proof {
                        assert(decreases_to!(*self => self->Record_0));
                        assert(decreases_to!(self->Record_0 => self->Record_0@));
                        assert(decreases_to!(self->Record_0@ => self->Record_0@[i as int]));
                    }
                    let v = fields[i].1.duplicate();
                    out.push((fields[i].0, v));
                    i = i + 1;
                }
                let r = Value::Record(out);
                assert(fields_data(out@) =~= fields_data(fields@)) by {
                    assert forall|j: int| 0 <= j < out@.len() implies #[trigger] fields_data(
                        out@,
                    )[j] == fields_data(fields@)[j] by {
                        assert(out@[j].1.data() == fields@[j].1.data());
                    }
                }
                r
            },
        }
    }

    pub fn as_cell(&self) -> (r: Option<CellId>)
        ensures
            r == self@.cell(),
    {
        match self {
            Value::Cell(c) => Some(*c),
            _ => None,
        }
    }

    pub fn as_blob(&self) -> (r: Option<&Vec<u8>>)
        ensures
            match r {
                Some(b) => self@.blob() == Some(b@),
                None => self@.blob() is None,
            },
    {
        match self {
            Value::Blob(b) => Some(b),
            _ => None,
        }
    }

    pub fn as_list(&self) -> (r: Option<&Vec<(Position, Value)>>)
        ensures
            match r {
                Some(items) => self@.list() == Some(items_data(items@)),
                None => self@.list() is None,
            },
    {
        match self {
            Value::List(items) => Some(items),
            _ => None,
        }
    }

    pub fn as_record(&self) -> (r: Option<&Vec<(CellId, Value)>>)
        ensures
            match r {
                Some(fields) => self@.record() == Some(fields_data(fields@)),
                None => self@.record() is None,
            },
    {
        match self {
            Value::Record(fields) => Some(fields),
            _ => None,
        }
    }

    /// A record from `pairs`; a later pair for a key replaces an earlier one.
    pub fn record(pairs: Vec<(CellId, Value)>) -> (r: Value)
        ensures
            r@ == record_of(fields_data(pairs@)),
            r@.is_sorted_record(),
            forall|key: CellId| #[trigger] r@.get(key) == assigned(fields_data(pairs@), key),
    {
        let ghost source = fields_data(pairs@);
        let ghost given = pairs@;
        let mut fields: Vec<(CellId, Value)> = Vec::new();
        let count: usize = pairs.len();
        assert(given.len() == count);
        let mut rest = pairs;
        assert(fields_data(fields@) =~= build_fields(source.take(0)));
        let mut i: usize = 0;
        while rest.len() > 0
            invariant
                source == fields_data(given),
                given.len() <= usize::MAX,
                i + rest@.len() == given.len(),
                rest@ =~= given.skip(i as int),
                fields_data(fields@) == build_fields(source.take(i as int)),
                sorted(fields_data(fields@)),
            decreases rest@.len(),
        {
            let (key, value) = rest.remove(0);
            let ghost before = fields_data(fields@);
            proof {
                lemma_insert_field(before, key, value@);
                assert(source.take(i + 1).drop_last() =~= source.take(i as int));
                assert(given[i as int] == (key, value));
                assert(source[i as int] == (key, value@));
            }
            insert(&mut fields, key, value);
            i = i + 1;
        }
        assert(source.take(i as int) =~= source);
        proof {
            lemma_build_fields(source);
        }
        Value::Record(fields)
    }

    /// A list of `values` in order, at positions counting up from zero.
    pub fn list(values: Vec<Value>) -> (r: Value)
        ensures
            r@ == list_of(values@.map_values(|v: Value| v@)),
    {
        let ghost source = values@;
        let mut items: Vec<(Position, Value)> = Vec::new();
        let count: usize = values.len();
        assert(source.len() == count);
        let mut rest = values;
        let mut i: usize = 0;
        while rest.len() > 0
            invariant
                source.len() <= usize::MAX,
                i + rest@.len() == source.len(),
                rest@ =~= source.skip(i as int),
                items@.len() == i,
                forall|j: int|
                    0 <= j < i ==> (#[trigger] items@[j]).0 == j as Position && items@[j].1
                        == source[j],
            decreases rest@.len(),
        {
            let value = rest.remove(0);
            assert(value == source[i as int]);
            items.push((i as Position, value));
            i = i + 1;
        }
        let r = Value::List(items);
        assert(items_data(items@) =~= numbered(source.map_values(|v: Value| v@)));
        r
    }
}

impl Clone for Value {
    fn clone(&self) -> (r: Self)
        ensures
            r@ == self@,
    {
        self.duplicate()
    }
}

/// Whether two values are the same data.
pub fn same(a: &Value, b: &Value) -> (r: bool)
    ensures
        r == (a@ == b@),
    decreases a,
{
    match (a, b) {
        (Value::Cell(x), Value::Cell(y)) => *x == *y,
        (Value::Blob(x), Value::Blob(y)) => {
            proof {
                assert(a@ == Data::Blob(x@) && b@ == Data::Blob(y@));
            }
            if x.len() != y.len() {
                assert(x@.len() != y@.len());
                assert(a@ != b@);
                return false;
            }
            let mut i: usize = 0;
            while i < x.len()
                invariant
                    i <= x@.len(),
                    x@.len() == y@.len(),
                    a@ == Data::Blob(x@),
                    b@ == Data::Blob(y@),
                    forall|j: int| 0 <= j < i ==> x@[j] == y@[j],
                decreases x@.len() - i,
            {
                if x[i] != y[i] {
                    assert(x@[i as int] != y@[i as int]);
                    return false;
                }
                i = i + 1;
            }
            proof {
                assert(x@ =~= y@);
            }
            true
        },
        (Value::List(x), Value::List(y)) => {
            let ghost xs = items_data(x@);
            let ghost ys = items_data(y@);
            proof {
                assert(a@ == Data::List(xs) && b@ == Data::List(ys));
            }
            if x.len() != y.len() {
                assert(xs.len() != ys.len());
                return false;
            }
            let mut i: usize = 0;
            while i < x.len()
                invariant
                    i <= x@.len(),
                    x@.len() == y@.len(),
                    xs == items_data(x@),
                    ys == items_data(y@),
                    *a == Value::List(*x),
                    a@ == Data::List(xs),
                    b@ == Data::List(ys),
                    forall|j: int| 0 <= j < i ==> xs[j] == ys[j],
                decreases x@.len() - i,
            {
                proof {
                    assert(decreases_to!(*a => a->List_0));
                    assert(decreases_to!(a->List_0 => a->List_0@));
                    assert(decreases_to!(a->List_0@ => a->List_0@[i as int]));
                }
                if x[i].0 != y[i].0 || !same(&x[i].1, &y[i].1) {
                    assert(xs[i as int] != ys[i as int]);
                    return false;
                }
                i = i + 1;
            }
            proof {
                assert(xs =~= ys);
            }
            true
        },
        (Value::Record(x), Value::Record(y)) => {
            let ghost xs = fields_data(x@);
            let ghost ys = fields_data(y@);
            proof {
                assert(a@ == Data::Record(xs) && b@ == Data::Record(ys));
            }
            if x.len() != y.len() {
                assert(xs.len() != ys.len());
                return false;
            }
            let mut i: usize = 0;
            while i < x.len()
                invariant
                    i <= x@.len(),
                    x@.len() == y@.len(),
                    xs == fields_data(x@),
                    ys == fields_data(y@),
                    *a == Value::Record(*x),
                    a@ == Data::Record(xs),
                    b@ == Data::Record(ys),
                    forall|j: int| 0 <= j < i ==> xs[j] == ys[j],
                decreases x@.len() - i,
            {
                proof {
                    assert(decreases_to!(*a => a->Record_0));
                    assert(decreases_to!(a->Record_0 => a->Record_0@));
                    assert(decreases_to!(a->Record_0@ => a->Record_0@[i as int]));
                }
                if x[i].0 != y[i].0 || !same(&x[i].1, &y[i].1) {
                    assert(xs[i as int] != ys[i as int]);
                    return false;
                }
                i = i + 1;
            }
            proof {
                assert(xs =~= ys);
            }
            true
        },
        _ => false,
    }
}

/// The first field with `key`.
pub fn get(fields: &Vec<(CellId, Value)>, key: CellId) -> (r: Option<&Value>)
    ensures
        match r {
            Some(v) => field(fields_data(fields@), key) == Some(v@),
            None => field(fields_data(fields@), key) is None,
        },
{
    let ghost data = fields_data(fields@);
    let mut i: usize = 0;
    while i < fields.len()
        invariant
            i <= fields@.len(),
            data == fields_data(fields@),
            forall|j: int| 0 <= j < i ==> data[j].0 != key,
        decreases fields@.len() - i,
    {
        if fields[i].0 == key {
            proof {
                lemma_field_at(data, key, i as int);
            }
            return Some(&fields[i].1);
        }
        i = i + 1;
    }
    proof {
        lemma_field_none(data, key);
    }
    None
}

/// Whether some field has `key`.
pub fn contains_key(fields: &Vec<(CellId, Value)>, key: CellId) -> (r: bool)
    ensures
        r == field(fields_data(fields@), key) is Some,
{
    get(fields, key).is_some()
}

/// The element at `position`.
pub fn element(items: &Vec<(Position, Value)>, position: Position) -> (r: Option<&Value>)
    ensures
        match r {
            Some(v) => field(items_data(items@), position) == Some(v@),
            None => field(items_data(items@), position) is None,
        },
{
    let ghost data = items_data(items@);
    let mut i: usize = 0;
    while i < items.len()
        invariant
            i <= items@.len(),
            data == items_data(items@),
            forall|j: int| 0 <= j < i ==> data[j].0 != position,
        decreases items@.len() - i,
    {
        if items[i].0 == position {
            proof {
                lemma_field_at(data, position, i as int);
            }
            return Some(&items[i].1);
        }
        i = i + 1;
    }
    proof {
        lemma_field_none(data, position);
    }
    None
}

/// Finds where `key` belongs among fields in key order.
fn position_of(fields: &Vec<(CellId, Value)>, key: CellId) -> (p: usize)
    requires
        sorted(fields_data(fields@)),
    ensures
        p == lower_bound(fields_data(fields@), key),
        p <= fields@.len(),
{
    let ghost data = fields_data(fields@);
    let mut p: usize = 0;
    while p < fields.len() && fields[p].0 < key
        invariant
            p <= fields@.len(),
            data == fields_data(fields@),
            forall|j: int| 0 <= j < p ==> data[j].0 < key,
        decreases fields@.len() - p,
    {
        p = p + 1;
    }
    proof {
        if p < fields@.len() {
            assert(data[p as int].0 >= key);
            assert forall|j: int| p <= j < data.len() implies data[j].0 >= key by {
                if j > p {
                    assert(data[j].0 > data[p as int].0);
                }
            }
        }
        lemma_lower_bound_unique(data, key, p as int);
    }
    p
}

/// Binds `key` to `value`, keeping key order.
pub fn insert(fields: &mut Vec<(CellId, Value)>, key: CellId, value: Value)
    requires
        sorted(fields_data(old(fields)@)),
    ensures
        fields_data(final(fields)@) == insert_field(fields_data(old(fields)@), key, value@),
        sorted(fields_data(final(fields)@)),
        field(fields_data(final(fields)@), key) == Some(value@),
        forall|other: CellId|
            other != key ==> #[trigger] field(fields_data(final(fields)@), other) == field(
                fields_data(old(fields)@),
                other,
            ),
{
    let ghost before = fields@;
    proof {
        lemma_insert_field(fields_data(before), key, value@);
    }
    let p = position_of(fields, key);
    if p < fields.len() && fields[p].0 == key {
        proof {
            lemma_fields_data_update(before, p as int, key, value);
        }
        fields.set(p, (key, value));
    } else {
        proof {
            lemma_fields_data_insert(before, p as int, key, value);
        }
        fields.insert(p, (key, value));
    }
}

/// Unbinds `key`, keeping key order; returns what it was bound to.
pub fn remove(fields: &mut Vec<(CellId, Value)>, key: CellId) -> (r: Option<Value>)
    requires
        sorted(fields_data(old(fields)@)),
    ensures
        fields_data(final(fields)@) == remove_field(fields_data(old(fields)@), key),
        sorted(fields_data(final(fields)@)),
        field(fields_data(final(fields)@), key) is None,
        forall|other: CellId|
            other != key ==> #[trigger] field(fields_data(final(fields)@), other) == field(
                fields_data(old(fields)@),
                other,
            ),
        match r {
            Some(v) => field(fields_data(old(fields)@), key) == Some(v@),
            None => field(fields_data(old(fields)@), key) is None,
        },
{
    let ghost before = fields@;
    proof {
        lemma_remove_field(fields_data(before), key);
        lemma_lower_bound(fields_data(before), key);
        lemma_sorted_field(fields_data(before), key);
    }
    let p = position_of(fields, key);
    if p < fields.len() && fields[p].0 == key {
        proof {
            lemma_fields_data_remove(before, p as int);
            assert(fields_data(before)[p as int].1 == before[p as int].1@);
        }
        let (_, value) = fields.remove(p);
        Some(value)
    } else {
        proof {
            assert forall|i: int| 0 <= i < before.len() implies fields_data(before)[i].0 != key by {
                if i > p {
                    assert(fields_data(before)[i].0 > fields_data(before)[p as int].0);
                }
            }
        }
        None
    }
}

} // verus!
