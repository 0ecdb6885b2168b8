//! The Fidget library's data apart from geometry: expression forms (a
//! record holding exactly one operator marker), the grouping that infix
//! notation needs, mesh depth requests and byte fingerprints for reports.
use crate::color::{hex_char, spec_hex_char};
use crate::number::{LEFT, OPERAND, RIGHT};
use crate::value::{field, get, CellId, Data, Value};
use crate::vocabulary::NAME;
use vstd::prelude::*;
use vstd::string::*;

verus! {

/// A stand-in for the mesh library's cell of this name: values that the mesh
/// library itself builds carry that cell's identity, not this one.
pub const MESH_DEPTH: CellId = 0x7b9d1f3a5c7e49b2d4f6a8c0e2b4d6f8;

/// A stand-in for the mesh library's cell of this name: values that the mesh
/// library itself builds carry that cell's identity, not this one.
pub const INVALID_MESH_DEPTH: CellId = 0x2c4e6a8b0d1f43a5c7e9b1d3f5a7c9e0;


pub const FIDGET: CellId = 0x5653d5cc6cf43eb2291f9943c29eeab4;

pub const AXIS: CellId = 0xfb2b3baa73025ae4b7b2aa97d65d1643;

pub const X: CellId = 0x0192bad40c32c951e2237679084528bc;

pub const Y: CellId = 0x213e54dd15ac9c9750308f35a606f56f;

pub const Z: CellId = 0xc93e6bb743a9d90f85f8cdea3aabf5c1;

pub const SUM: CellId = 0x208bf7b0ee1a002c66c86b34cf9eff3d;

pub const SUBTRACT: CellId = 0x90e22494757f01a2ddf9bea409c186ae;

pub const MULTIPLY: CellId = 0xd2b341855e79890fc79bb562b109fcaf;

pub const DIVIDE: CellId = 0xf9b35090433ceb932fb6da18d0dcc9bf;

pub const MIN: CellId = 0x3fa78b77a43b285f26a97e7aaf5f7028;

pub const MAX: CellId = 0x7082a82b3fd6dbc575aa5c85adfacc76;

pub const NEGATE: CellId = 0x06eccebf47fc0faf7e33572d19c0d049;

pub const ABS: CellId = 0x9f71b219018a191fab7b726732645ab1;

pub const SQRT: CellId = 0xf275fe836c9d66fed1e0de4325e134c6;

pub const SQUARE: CellId = 0x6164efe43a126d79bcd252a17a9453c1;

pub const SIN: CellId = 0xd9f6470a88f105fc9a54f65226afd55d;

pub const COS: CellId = 0x68f159b5e393e2f827de486f95c2df6b;

pub const CIRCLE: CellId = 0xe467941b11832c441c98488dbdc5a540;

pub const SPHERE: CellId = 0xc40de238820c3da73ec7780ddd438757;

pub const TRANSLATE: CellId = 0xcc63ad1f4efa15b6f43f36b3cd11f3f6;

pub const UNION: CellId = 0xb1d41a3c4f76c5929db19be204083d02;

pub const INTERSECTION: CellId = 0x737a28cb9bd1a6d28604e8a68a909932;

pub const DIFFERENCE: CellId = 0xc621348e3c35e46e87c1994eb1a50965;

pub const FIELD: CellId = 0x66bad5269b830181b840cf23a391b10e;

pub const DELTA_X: CellId = 0x671936a24eb2d9d6e47ac5915a3e38c4;

pub const DELTA_Y: CellId = 0x3dd683179b807ca200980eeffb90011f;

pub const DELTA_Z: CellId = 0x48c4e6ddda046c53c02452d3d73e4388;

/// The operator markers, in the order in which a record is searched.
pub open spec fn markers() -> Seq<CellId> {
    seq![
        AXIS,
        SUM,
        SUBTRACT,
        MULTIPLY,
        DIVIDE,
        MIN,
        MAX,
        NEGATE,
        ABS,
        SQRT,
        SQUARE,
        SIN,
        COS,
        TRANSLATE,
        UNION,
        INTERSECTION,
        DIFFERENCE,
    ]
}

/// The markers of `candidates` that `fields` holds, in order.
pub open spec fn present(candidates: Seq<CellId>, fields: Seq<(CellId, Data)>) -> Seq<CellId>
    decreases candidates.len(),
{
    if candidates.len() == 0 {
        Seq::empty()
    } else {
        let before = present(candidates.drop_last(), fields);
        if field(fields, candidates.last()) is Some {
            before.push(candidates.last())
        } else {
            before
        }
    }
}

/// The one marker that `fields` holds, if it holds exactly one.
pub open spec fn spec_one_marker(fields: Seq<(CellId, Data)>) -> Option<CellId> {
    let found = present(markers(), fields);
    if found.len() == 1 {
        Some(found[0])
    } else {
        None
    }
}

/// The marker that a record holds, if it holds exactly one.
pub fn one_marker(fields: &Vec<(CellId, Value)>) -> (r: Option<CellId>)
    ensures
        r == spec_one_marker(crate::value::fields_data(fields@)),
{
    let ghost data = crate::value::fields_data(fields@);
    let candidates: [CellId; 17] = [
        AXIS,
        SUM,
        SUBTRACT,
        MULTIPLY,
        DIVIDE,
        MIN,
        MAX,
        NEGATE,
        ABS,
        SQRT,
        SQUARE,
        SIN,
        COS,
        TRANSLATE,
        UNION,
        INTERSECTION,
        DIFFERENCE,
    ];
    proof {
        assert(candidates@ =~= markers());
    }
    let mut found: Option<CellId> = None;
    let mut i: usize = 0;
    while i < 17
        invariant
            i <= 17,
            candidates@ == markers(),
            data == crate::value::fields_data(fields@),
            present(markers().take(i as int), data).len() <= 1,
            found == if present(markers().take(i as int), data).len() == 1 {
                Some(present(markers().take(i as int), data)[0])
            } else {
                None::<CellId>
            },
        decreases 17 - i,
    {
        let marker = candidates[i];
        proof {
            assert(markers().take(i + 1).drop_last() =~= markers().take(i as int));
            assert(markers().take(i + 1).last() == marker);
        }
        if crate::value::contains_key(fields, marker) {
            if found.is_some() {
                proof {
                    assert(present(markers().take(i + 1), data) == present(
                        markers().take(i as int),
                        data,
                    ).push(marker));
                    lemma_present_grows(markers(), data, i + 1, 17);
                    assert(markers().take(17) =~= markers());
                }
                return None;
            }
            found = Some(marker);
        }
        i = i + 1;
    }
    proof {
        assert(markers().take(17) =~= markers());
    }
    found
}

proof fn lemma_present_grows(candidates: Seq<CellId>, fields: Seq<(CellId, Data)>, m: int, n: int)
    requires
        0 <= m <= n <= candidates.len(),
    ensures
        present(candidates.take(m), fields).len() <= present(candidates.take(n), fields).len(),
    decreases n - m,
{
    if m < n {
        lemma_present_grows(candidates, fields, m, n - 1);
        assert(candidates.take(n).drop_last() =~= candidates.take(n - 1));
    }
}

/// The fields that an operator's content holds.
pub open spec fn spec_parameters(marker: CellId) -> Option<Seq<CellId>> {
    if marker == TRANSLATE {
        Some(seq![FIELD, DELTA_X, DELTA_Y, DELTA_Z])
    } else if marker == SUM || marker == SUBTRACT || marker == MULTIPLY || marker == DIVIDE
        || marker == MIN || marker == MAX || marker == UNION || marker == DIFFERENCE || marker
        == INTERSECTION {
        Some(seq![LEFT, RIGHT])
    } else if marker == NEGATE || marker == ABS || marker == SQRT || marker == SQUARE || marker
        == SIN || marker == COS {
        Some(seq![OPERAND])
    } else {
        None
    }
}

/// The fields that an operator's content holds.
pub fn parameters(marker: CellId) -> (r: Option<Vec<CellId>>)
    ensures
        match r {
            Some(keys) => spec_parameters(marker) == Some(keys@),
            None => spec_parameters(marker) is None,
        },
{
    if marker == TRANSLATE {
        let r = vec![FIELD, DELTA_X, DELTA_Y, DELTA_Z];
        assert(r@ =~= seq![FIELD, DELTA_X, DELTA_Y, DELTA_Z]);
        Some(r)
    } else if marker == SUM || marker == SUBTRACT || marker == MULTIPLY || marker == DIVIDE
        || marker == MIN || marker == MAX || marker == UNION || marker == DIFFERENCE || marker
        == INTERSECTION {
        let r = vec![LEFT, RIGHT];
        assert(r@ =~= seq![LEFT, RIGHT]);
        Some(r)
    } else if marker == NEGATE || marker == ABS || marker == SQRT || marker == SQUARE || marker
        == SIN || marker == COS {
        let r = vec![OPERAND];
        assert(r@ =~= seq![OPERAND]);
        Some(r)
    } else {
        None
    }
}

/// Whether `content` has every field in `keys`.
pub open spec fn has_all(content: Seq<(CellId, Data)>, keys: Seq<CellId>) -> bool {
    forall|i: int| 0 <= i < keys.len() ==> (#[trigger] field(content, keys[i])) is Some
}

/// The operator that a value spells and its content: exactly one marker
/// other than a translation; an axis names a cell, and any other operator's
/// content holds every field the operator takes. Other fields, of the value
/// or of the content, do not matter.
pub open spec fn spec_form(value: Data) -> Option<(CellId, Data)> {
    match value {
        Data::Record(fields) => match spec_one_marker(fields) {
            Some(marker) => {
                let content = field(fields, marker)->Some_0;
                if marker == TRANSLATE {
                    None
                } else if marker == AXIS {
                    if content is Cell {
                        Some((marker, content))
                    } else {
                        None
                    }
                } else {
                    match (spec_parameters(marker), content) {
                        (Some(keys), Data::Record(inner)) => if has_all(inner, keys) {
                            Some((marker, content))
                        } else {
                            None
                        },
                        _ => None,
                    }
                }
            },
            None => None,
        },
        _ => None,
    }
}

/// The operator that a value spells, with its content.
pub fn form(value: &Value) -> (r: Option<(CellId, &Value)>)
    ensures
        match r {
            Some((marker, content)) => spec_form(value@) == Some((marker, content@)),
            None => spec_form(value@) is None,
        },
{
    let fields = value.as_record()?;
    let marker = one_marker(fields)?;
    if marker == TRANSLATE {
        return None;
    }
    let ghost data = crate::value::fields_data(fields@);
    proof {
        let found = present(markers(), data);
        assert(found.len() == 1);
        lemma_present_held(markers(), data, 0);
    }
    let content = get(fields, marker)?;
    if marker == AXIS {
        content.as_cell()?;
    } else {
        let expected = parameters(marker)?;
        let inner = content.as_record()?;
        let mut i: usize = 0;
        while i < expected.len()
            invariant
                i <= expected@.len(),
                forall|j: int| 0 <= j < i ==> (#[trigger] field(crate::value::fields_data(inner@), expected@[j])) is Some,
                content@.record() == Some(crate::value::fields_data(inner@)),
                spec_parameters(marker) == Some(expected@),
                spec_one_marker(data) == Some(marker),
                field(data, marker) == Some(content@),
                value@ == Data::Record(data),
                marker != TRANSLATE,
                marker != AXIS,
            decreases expected@.len() - i,
        {
            if !crate::value::contains_key(inner, expected[i]) {
                proof {
                    let keys = expected@;
                    assert(field(crate::value::fields_data(inner@), keys[i as int]) is None);
                    assert(!has_all(crate::value::fields_data(inner@), keys));
                }
                return None;
            }
            i = i + 1;
        }
    }
    Some((marker, content))
}

proof fn lemma_present_held(candidates: Seq<CellId>, fields: Seq<(CellId, Data)>, k: int)
    requires
        0 <= k < present(candidates, fields).len(),
    ensures
        field(fields, present(candidates, fields)[k]) is Some,
    decreases candidates.len(),
{
    let before = present(candidates.drop_last(), fields);
    if k < before.len() {
        lemma_present_held(candidates.drop_last(), fields, k);
    }
}

/// How tightly an infix operator binds.
#[derive(Clone, Copy, Debug, PartialEq, Eq, Structural)]
pub enum Precedence {
    Sum,
    Product,
}

/// Sums and differences bind less tightly than products and quotients.
pub open spec fn rank(precedence: Precedence) -> int {
    match precedence {
        Precedence::Sum => 0,
        Precedence::Product => 1,
    }
}

pub open spec fn spec_precedence(marker: CellId) -> Option<Precedence> {
    if marker == SUM || marker == SUBTRACT {
        Some(Precedence::Sum)
    } else if marker == MULTIPLY || marker == DIVIDE {
        Some(Precedence::Product)
    } else {
        None
    }
}

/// The precedence of an infix operator; other operators have none.
pub fn precedence(marker: CellId) -> (r: Option<Precedence>)
    ensures
        r == spec_precedence(marker),
{
    if marker == SUM || marker == SUBTRACT {
        Some(Precedence::Sum)
    } else if marker == MULTIPLY || marker == DIVIDE {
        Some(Precedence::Product)
    } else {
        None
    }
}

/// Whether the operand at `key` of an infix `marker` needs parentheses: a
/// named operand does, and so does an infix operand that binds less
/// tightly, or as tightly on the right, so that notation never
/// reassociates the expression.
pub open spec fn spec_needs_group(marker: CellId, key: CellId, value: Data) -> bool {
    ||| (value is Record && field(value->Record_0, NAME) is Some)
    ||| match (spec_precedence(marker), spec_form(value)) {
        (Some(parent), Some((nested_marker, _))) => match spec_precedence(nested_marker) {
            Some(nested) => rank(nested) < rank(parent) || (nested == parent && key == RIGHT),
            None => false,
        },
        _ => false,
    }
}

pub fn needs_group(marker: CellId, key: CellId, value: &Value) -> (r: bool)
    ensures
        r == spec_needs_group(marker, key, value@),
{
    if let Some(fields) = value.as_record() {
        if crate::value::contains_key(fields, NAME) {
            return true;
        }
    }
    match (precedence(marker), form(value)) {
        (Some(parent), Some((nested_marker, _))) => match precedence(nested_marker) {
            Some(nested) => {
                let outer = match parent {
                    Precedence::Sum => 0u8,
                    Precedence::Product => 1u8,
                };
                let inner = match nested {
                    Precedence::Sum => 0u8,
                    Precedence::Product => 1u8,
                };
                inner < outer || (nested == parent && key == RIGHT)
            },
            None => false,
        },
        _ => false,
    }
}

/// The record that holds `content` under `marker`.
pub fn node(marker: CellId, content: Value) -> (r: Value)
    ensures
        r@ == crate::value::record_of(seq![(marker, content@)]),
{
    let mut pairs: Vec<(CellId, Value)> = Vec::new();
    pairs.push((marker, content));
    let r = Value::record(pairs);
    proof {
        assert(crate::value::fields_data(pairs@) =~= seq![(marker, content@)]);
    }
    r
}

/// A one-operand expression: `marker` applied to `operand`.
pub fn unary(marker: CellId, operand: Value) -> (r: Value)
    ensures
        r@ == crate::value::record_of(
            seq![(marker, crate::value::record_of(seq![(OPERAND, operand@)]))],
        ),
{
    let mut pairs: Vec<(CellId, Value)> = Vec::new();
    pairs.push((OPERAND, operand));
    let content = Value::record(pairs);
    proof {
        assert(crate::value::fields_data(pairs@) =~= seq![(OPERAND, operand@)]);
    }
    node(marker, content)
}

/// A two-operand expression: `marker` applied to `left` and `right`.
pub fn binary(marker: CellId, left: Value, right: Value) -> (r: Value)
    ensures
        r@ == crate::value::record_of(
            seq![(marker, crate::value::record_of(seq![(LEFT, left@), (RIGHT, right@)]))],
        ),
{
    let mut pairs: Vec<(CellId, Value)> = Vec::new();
    pairs.push((LEFT, left));
    pairs.push((RIGHT, right));
    let content = Value::record(pairs);
    proof {
        assert(crate::value::fields_data(pairs@) =~= seq![(LEFT, left@), (RIGHT, right@)]);
    }
    node(marker, content)
}

/// The octree depth used when a preview requests none.
pub const DEFAULT_DEPTH: u64 = 6;

/// The octree depth a request selects: the default when nothing is
/// requested, the requested number when it lies in `1..=8`, and nothing
/// for anything else. `requested` is the request as the unsigned-integer
/// library reads it: absent, not a number, or a number.
pub open spec fn spec_depth(requested: Option<Option<u64>>) -> Option<u8> {
    let depth = match requested {
        None => Some(DEFAULT_DEPTH),
        Some(read) => read,
    };
    match depth {
        Some(d) => if 1 <= d <= 8 {
            Some(d as u8)
        } else {
            None
        },
        None => None,
    }
}

pub fn depth(requested: Option<Option<u64>>) -> (r: Option<u8>)
    ensures
        r == spec_depth(requested),
{
    let depth = match requested {
        None => DEFAULT_DEPTH,
        Some(Some(d)) => d,
        Some(None) => return None,
    };
    if 1 <= depth && depth <= 8 {
        Some(depth as u8)
    } else {
        None
    }
}

pub const FNV_OFFSET: u64 = 0xcbf29ce484222325;

pub const FNV_PRIME: u64 = 0x100000001b3;

/// The 64-bit FNV-1a hash of a byte sequence.
pub open spec fn fnv1a(bytes: Seq<u8>) -> u64
    decreases bytes.len(),
{
    if bytes.len() == 0 {
        FNV_OFFSET
    } else {
        (((fnv1a(bytes.drop_last()) ^ (bytes.last() as u64)) as nat * FNV_PRIME as nat)
            % 0x1_0000_0000_0000_0000) as u64
    }
}

/// The lowest `count` hexadecimal digits of `value`, most significant first.
pub open spec fn hex_digits(value: nat, count: nat) -> Seq<char>
    decreases count,
{
    if count == 0 {
        Seq::empty()
    } else {
        hex_digits(value / 16, (count - 1) as nat).push(spec_hex_char((value % 16) as u8))
    }
}

/// The FNV-1a hash of `bytes` as sixteen lowercase hexadecimal digits.
pub fn fingerprint(bytes: &[u8]) -> (r: String)
    ensures
        r@ == hex_digits(fnv1a(bytes@) as nat, 16),
{
    let mut hash: u64 = FNV_OFFSET;
    let mut i: usize = 0;
    while i < bytes.len()
        invariant
            i <= bytes@.len(),
            hash == fnv1a(bytes@.take(i as int)),
        decreases bytes@.len() - i,
    {
        assert(bytes@.take(i + 1).drop_last() =~= bytes@.take(i as int));
        hash = (hash ^ (bytes[i] as u64)).wrapping_mul(FNV_PRIME);
        i = i + 1;
    }
    assert(bytes@.take(i as int) =~= bytes@);
    let ghost total = hash as nat;
    let mut digits: Vec<u8> = Vec::new();
    let mut rest: u64 = hash;
    let mut k: usize = 0;
    while k < 16
        invariant
            k <= 16,
            digits@.len() == k,
            forall|j: int| 0 <= j < k ==> #[trigger] digits@[j] < 16,
            hex_digits(total, 16) == hex_digits(rest as nat, (16 - k) as nat) + Seq::new(
                k as nat,
                |j: int| spec_hex_char(digits@[k - 1 - j]),
            ),
        decreases 16 - k,
    {
        let ghost before = Seq::new(k as nat, |j: int| spec_hex_char(digits@[k - 1 - j]));
        assert(hex_digits(rest as nat, (16 - k) as nat) == hex_digits(
            rest as nat / 16,
            (16 - k - 1) as nat,
        ).push(spec_hex_char((rest as nat % 16) as u8)));
        digits.push((rest % 16) as u8);
        rest = rest / 16;
        k = k + 1;
        assert(Seq::new(k as nat, |j: int| spec_hex_char(digits@[k - 1 - j])) =~= seq![
            spec_hex_char(digits@[k - 1]),
        ] + before);
    }
    let mut text = String::new();
    let mut m: usize = 16;
    assert(hex_digits(rest as nat, 0) =~= Seq::<char>::empty());
    while m > 0
        invariant
            m <= 16,
            digits@.len() == 16,
            forall|j: int| 0 <= j < 16 ==> #[trigger] digits@[j] < 16,
            hex_digits(total, 16) == Seq::new(16, |j: int| spec_hex_char(digits@[15 - j])),
            text@ == Seq::new((16 - m) as nat, |j: int| spec_hex_char(digits@[15 - j])),
        decreases m,
    {
        m = m - 1;
        text.append(hex_char(digits[m]));
        assert(text@ =~= Seq::new((16 - m) as nat, |j: int| spec_hex_char(digits@[15 - j])));
    }
    assert(text@ =~= hex_digits(total, 16));
    text
}

} // verus!
