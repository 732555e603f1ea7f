//! Reference rows, from which an index is built.
//!
//! The rows come as one array in a compressed JSON text, each an object with
//! a `vector` of numbers and a `label`.

use crate::specialist::builder::{build_index, index_holds, index_packed, IndexImage};
use crate::specialist::encode::{countable, encode_index, encodes};
use crate::specialist::geometry::{pad_query, padded, DIM};
use crate::specialist::rows::RefRow;
use crate::normalize::{clamp16, clamped};
use std::io::Read;
use vstd::prelude::*;

verus! {

// ---------------------------------------------------------------------------
// JSON values
// ---------------------------------------------------------------------------

/// A JSON value. Numbers are the bits of the floating-point number that they
/// are read as.
pub enum Json {
    Null,
    Bool(bool),
    Number(u64),
    Text(Seq<char>),
    List(Seq<Json>),
    Object(Map<Seq<char>, Json>),
}

/// `serde_json::Value`.
#[verifier::external_type_specification]
#[verifier::external_body]
pub struct ExValue(serde_json::Value);

/// What a `serde_json::Value` holds.
pub uninterp spec fn json_of(v: serde_json::Value) -> Json;

/// What `serde_json::from_str` makes of a text; nothing where the text is no
/// JSON.
pub uninterp spec fn json_in(text: Seq<char>) -> Option<Json>;

/// What `flate2::read::GzDecoder` makes of a compressed text; nothing where it
/// reports an error.
pub uninterp spec fn gunzipped(data: Seq<u8>) -> Option<Seq<char>>;

/// `serde_json::from_str`: the value that a text stands for, and nothing where
/// it reports an error. The same text gives the same value.
#[verifier::external_body]
fn parse_json(text: &str) -> (r: Option<serde_json::Value>)
    ensures
        match r {
            Some(v) => json_in(text@) == Some(json_of(v)),
            None => json_in(text@) is None,
        },
{
    serde_json::from_str(text).ok()
}

/// `serde_json::Value::as_array`: the items of a list, and nothing for any
/// other value.
#[verifier::external_body]
fn items_of<'a>(v: &'a serde_json::Value) -> (r: Option<&'a Vec<serde_json::Value>>)
    ensures
        match r {
            Some(a) => json_of(*v) == Json::List(
                Seq::new(a@.len(), |i: int| json_of(a@[i])),
            ),
            None => !(json_of(*v) is List),
        },
{
    v.as_array()
}

/// `serde_json::Value::get` with a key: the member of an object, and nothing
/// where there is none or the value is no object.
#[verifier::external_body]
fn member_of<'a>(v: &'a serde_json::Value, key: &str) -> (r: Option<&'a serde_json::Value>)
    ensures
        match r {
            Some(x) => json_of(*v) matches Json::Object(m) && m.dom().contains(key@) && json_of(*x)
                == m[key@],
            None => !(json_of(*v) matches Json::Object(m) && m.dom().contains(key@)),
        },
{
    v.get(key)
}

/// `serde_json::Value::as_f64`, as bits: a number, and nothing for any other
/// value.
#[verifier::external_body]
fn number_bits(v: &serde_json::Value) -> (r: Option<u64>)
    ensures
        match r {
            Some(b) => json_of(*v) == Json::Number(b),
            None => !(json_of(*v) is Number),
        },
{
    v.as_f64().map(|x| x.to_bits())
}

/// `serde_json::Value::as_str`: a text, and nothing for any other value.
#[verifier::external_body]
fn text_of<'a>(v: &'a serde_json::Value) -> (r: Option<&'a str>)
    ensures
        match r {
            Some(t) => json_of(*v) == Json::Text(t@),
            None => !(json_of(*v) is Text),
        },
{
    v.as_str()
}

/// `flate2::read::GzDecoder`, read to its end as text: the text that was
/// compressed, and nothing where the decoder reports an error or what comes
/// out is no UTF-8. The same bytes give the same text.
#[verifier::external_body]
fn gunzip(data: &[u8]) -> (r: Option<String>)
    ensures
        match r {
            Some(t) => gunzipped(data@) == Some(t@),
            None => gunzipped(data@) is None,
        },
{
    let mut text = String::new();
    match flate2::read::GzDecoder::new(data).read_to_string(&mut text) {
        Ok(_) => Some(text),
        Err(_) => None,
    }
}

// ---------------------------------------------------------------------------
// Rows
// ---------------------------------------------------------------------------

/// Why a text holds no reference rows.
#[derive(Debug)]
pub enum ReferenceErr {
    /// The compressed text cannot be read.
    Compression,
    /// The text is no JSON.
    Syntax,
    NotAnArray,
    MissingVector,
    /// A vector of another length.
    WrongDims(usize),
    NonFloatDim,
    MissingLabel,
    UnknownLabel(String),
}

/// Why a text holds no reference rows, as a value.
pub enum Fault {
    Compression,
    Syntax,
    NotAnArray,
    MissingVector,
    WrongDims(int),
    NonFloatDim,
    MissingLabel,
    UnknownLabel(Seq<char>),
}

impl View for ReferenceErr {
    type V = Fault;

    open spec fn view(&self) -> Fault {
        match self {
            ReferenceErr::Compression => Fault::Compression,
            ReferenceErr::Syntax => Fault::Syntax,
            ReferenceErr::NotAnArray => Fault::NotAnArray,
            ReferenceErr::MissingVector => Fault::MissingVector,
            ReferenceErr::WrongDims(n) => Fault::WrongDims(*n as int),
            ReferenceErr::NonFloatDim => Fault::NonFloatDim,
            ReferenceErr::MissingLabel => Fault::MissingLabel,
            ReferenceErr::UnknownLabel(t) => Fault::UnknownLabel(t@),
        }
    }
}

/// A reference row as it was read: the bits of its features, and its label.
#[derive(Copy, Clone, Debug)]
pub struct RawRow {
    pub bits: [u64; DIM],
    pub label: u8,
}

/// A reference row as a value.
pub struct RawRowView {
    pub bits: Seq<u64>,
    pub label: u8,
}

impl View for RawRow {
    type V = RawRowView;

    open spec fn view(&self) -> RawRowView {
        RawRowView { bits: self.bits@, label: self.label }
    }
}

/// The member of an object.
pub open spec fn member(v: Json, key: Seq<char>) -> Option<Json> {
    match v {
        Json::Object(m) => if m.dom().contains(key) {
            Some(m[key])
        } else {
            None
        },
        _ => None,
    }
}

/// The features in a list.
pub open spec fn features_in(items: Seq<Json>) -> Result<Seq<u64>, Fault> {
    if items.len() != DIM {
        Err(Fault::WrongDims(items.len() as int))
    } else if exists|i: int| 0 <= i < items.len() && !((#[trigger] items[i]) is Number) {
        Err(Fault::NonFloatDim)
    } else {
        Ok(Seq::new(DIM as nat, |i: int| items[i]->Number_0))
    }
}

/// The label of a row: 1 for fraud, 0 for legitimate.
pub open spec fn label_in(v: Option<Json>) -> Result<u8, Fault> {
    match v {
        Some(Json::Text(t)) => if t == "fraud"@ {
            Ok(1u8)
        } else if t == "legit"@ {
            Ok(0u8)
        } else {
            Err(Fault::UnknownLabel(t))
        },
        _ => Err(Fault::MissingLabel),
    }
}

/// The row that an object stands for. The vector is looked at before the
/// label.
pub open spec fn row_in(item: Json) -> Result<RawRowView, Fault> {
    match member(item, "vector"@) {
        Some(Json::List(items)) => match features_in(items) {
            Ok(bits) => match label_in(member(item, "label"@)) {
                Ok(label) => Ok(RawRowView { bits, label }),
                Err(e) => Err(e),
            },
            Err(e) => Err(e),
        },
        _ => Err(Fault::MissingVector),
    }
}

/// The first `n` rows of a list, or what is wrong with the first one that is
/// no row.
pub open spec fn rows_in(items: Seq<Json>, n: int) -> Result<Seq<RawRowView>, Fault>
    decreases n,
{
    if n <= 0 {
        Ok(seq![])
    } else {
        match rows_in(items, n - 1) {
            Ok(rows) => match row_in(items[n - 1]) {
                Ok(row) => Ok(rows.push(row)),
                Err(e) => Err(e),
            },
            Err(e) => Err(e),
        }
    }
}

/// The rows that a JSON value stands for.
pub open spec fn references_in(v: Json) -> Result<Seq<RawRowView>, Fault> {
    match v {
        Json::List(items) => rows_in(items, items.len() as int),
        _ => Err(Fault::NotAnArray),
    }
}

/// The rows in a text.
pub open spec fn references_in_text(text: Seq<char>) -> Result<Seq<RawRowView>, Fault> {
    match json_in(text) {
        Some(v) => references_in(v),
        None => Err(Fault::Syntax),
    }
}

/// The rows in a compressed text.
pub open spec fn references_in_data(data: Seq<u8>) -> Result<Seq<RawRowView>, Fault> {
    match gunzipped(data) {
        Some(text) => references_in_text(text),
        None => Err(Fault::Compression),
    }
}

/// Whether a value is an object with a row in it: a vector of fourteen numbers,
/// and the label of a fraud or of a legitimate transaction.
pub open spec fn is_row(v: Json) -> bool {
    &&& v is Object
    &&& v->Object_0.dom().contains("vector"@)
    &&& v->Object_0["vector"@] is List
    &&& v->Object_0["vector"@]->List_0.len() == 14
    &&& forall|i: int| 0 <= i < 14 ==> (#[trigger] v->Object_0["vector"@]->List_0[i]) is Number
    &&& v->Object_0.dom().contains("label"@)
    &&& v->Object_0["label"@] == Json::Text("fraud"@) || v->Object_0["label"@] == Json::Text(
        "legit"@,
    )
}

/// A list is read as rows if and only if each of its items is one, and each row
/// then holds the numbers of its item and its label: 1 for a fraud, 0 for a
/// legitimate transaction.
pub proof fn lemma_rows_read(items: Seq<Json>, n: int)
    requires
        0 <= n <= items.len(),
    ensures
        rows_in(items, n) is Ok <==> forall|i: int| 0 <= i < n ==> is_row(#[trigger] items[i]),
        rows_in(items, n) matches Ok(rows) ==> {
            &&& rows.len() == n
            &&& forall|i: int|
                0 <= i < n ==> {
                    let m = (#[trigger] items[i])->Object_0;
                    &&& rows[i].bits.len() == 14
                    &&& forall|d: int|
                        0 <= d < 14 ==> m["vector"@]->List_0[d] == Json::Number(
                            #[trigger] rows[i].bits[d],
                        )
                    &&& m["label"@] == Json::Text("fraud"@) ==> rows[i].label == 1
                    &&& m["label"@] == Json::Text("legit"@) ==> rows[i].label == 0
                }
        },
    decreases n,
{
    if n > 0 {
        lemma_rows_read(items, n - 1);
        let item = items[n - 1];
        lemma_row_read(item);
        if rows_in(items, n) is Ok {
            assert(row_in(item) is Ok);
        } else if forall|i: int| 0 <= i < n ==> is_row(#[trigger] items[i]) {
            assert(is_row(items[n - 1]));
        }
    }
}

proof fn lemma_row_read(item: Json)
    ensures
        row_in(item) is Ok <==> is_row(item),
        row_in(item) matches Ok(row) ==> {
            let m = item->Object_0;
            &&& row.bits.len() == 14
            &&& forall|d: int|
                0 <= d < 14 ==> m["vector"@]->List_0[d] == Json::Number(#[trigger] row.bits[d])
            &&& m["label"@] == Json::Text("fraud"@) ==> row.label == 1
            &&& m["label"@] == Json::Text("legit"@) ==> row.label == 0
        },
{
    reveal_strlit("fraud");
    reveal_strlit("legit");
    assert("fraud"@[0] != "legit"@[0]);
    if let Some(Json::List(items)) = member(item, "vector"@) {
        if items.len() == 14 && forall|i: int| 0 <= i < 14 ==> (#[trigger] items[i]) is Number {
            assert(features_in(items) is Ok);
        }
    }
}

/// What is wrong with a row is told by the first fault: no vector, a vector of
/// another length, something in it that is no number, no label, or a label that
/// is not known.
pub proof fn lemma_row_faults(m: Map<Seq<char>, Json>)
    ensures
        ({
            let r = row_in(Json::Object(m));
            let v = m["vector"@];
            let listed = m.dom().contains("vector"@) && v is List;
            let fault = |f: Fault| r == Err::<RawRowView, Fault>(f);
            &&& !listed ==> fault(Fault::MissingVector)
            &&& listed && v->List_0.len() != 14 ==> fault(Fault::WrongDims(v->List_0.len() as int))
            &&& listed && v->List_0.len() == 14 && (exists|i: int|
                0 <= i < 14 && !((#[trigger] v->List_0[i]) is Number)) ==> fault(Fault::NonFloatDim)
            &&& listed && v->List_0.len() == 14 && (forall|i: int|
                0 <= i < 14 ==> (#[trigger] v->List_0[i]) is Number) ==> {
                &&& !(m.dom().contains("label"@) && m["label"@] is Text) ==> fault(
                    Fault::MissingLabel,
                )
                &&& m.dom().contains("label"@) && m["label"@] is Text && m["label"@]->Text_0
                    != "fraud"@ && m["label"@]->Text_0 != "legit"@ ==> fault(
                    Fault::UnknownLabel(m["label"@]->Text_0),
                )
            }
        }),
{
}

/// The views of some rows.
pub open spec fn raw_views(rows: Seq<RawRow>) -> Seq<RawRowView> {
    rows.map_values(|r: RawRow| r@)
}

/// Whether `r` is what was to be read.
pub open spec fn reads(
    r: Result<Vec<RawRow>, ReferenceErr>,
    goal: Result<Seq<RawRowView>, Fault>,
) -> bool {
    match r {
        Ok(rows) => goal == Ok::<Seq<RawRowView>, Fault>(raw_views(rows@)),
        Err(e) => goal == Err::<Seq<RawRowView>, Fault>(e@),
    }
}

fn read_features(items: &Vec<serde_json::Value>) -> (r: Result<[u64; DIM], ReferenceErr>)
    ensures
        ({
            let goal = features_in(Seq::new(items@.len(), |i: int| json_of(items@[i])));
            match r {
                Ok(bits) => goal == Ok::<Seq<u64>, Fault>(bits@),
                Err(e) => goal == Err::<Seq<u64>, Fault>(e@),
            }
        }),
{
    let ghost list = Seq::new(items@.len(), |i: int| json_of(items@[i]));
    if items.len() != DIM {
        return Err(ReferenceErr::WrongDims(items.len()));
    }
    let mut bits: [u64; DIM] = [0; DIM];
    let mut i: usize = 0;
    while i < DIM
        invariant
            i <= DIM,
            items@.len() == DIM,
            bits@.len() == DIM,
            list == Seq::new(items@.len(), |i: int| json_of(items@[i])),
            forall|k: int| 0 <= k < i ==> #[trigger] list[k] == Json::Number(bits@[k]),
        decreases DIM - i,
    {
        match number_bits(&items[i]) {
            Some(b) => {
                bits[i] = b;
            },
            None => {
                assert(!(list[i as int] is Number));
                return Err(ReferenceErr::NonFloatDim);
            },
        }
        i = i + 1;
    }
    assert(features_in(list)->Ok_0 =~= bits@);
    Ok(bits)
}

fn same_text(a: &str, b: &str) -> (r: bool)
    ensures
        r == (a@ == b@),
{
    let n: usize = a.unicode_len();
    if n != b.unicode_len() {
        return false;
    }
    let mut i: usize = 0;
    while i < n
        invariant
            i <= n,
            n == a@.len(),
            n == b@.len(),
            forall|k: int| 0 <= k < i ==> a@[k] == b@[k],
        decreases n - i,
    {
        if a.get_char(i) != b.get_char(i) {
            assert(a@[i as int] != b@[i as int]);
            return false;
        }
        i = i + 1;
    }
    assert(a@ =~= b@);
    true
}

fn read_label(v: Option<&serde_json::Value>) -> (r: Result<u8, ReferenceErr>)
    ensures
        ({
            let goal = label_in(
                match v {
                    Some(x) => Some(json_of(*x)),
                    None => None,
                },
            );
            match r {
                Ok(label) => goal == Ok::<u8, Fault>(label),
                Err(e) => goal == Err::<u8, Fault>(e@),
            }
        }),
{
    match v {
        Some(x) => match text_of(x) {
            Some(t) => {
                if same_text(t, "fraud") {
                    Ok(1)
                } else if same_text(t, "legit") {
                    Ok(0)
                } else {
                    Err(ReferenceErr::UnknownLabel(t.to_owned()))
                }
            },
            None => Err(ReferenceErr::MissingLabel),
        },
        None => Err(ReferenceErr::MissingLabel),
    }
}

fn read_row(item: &serde_json::Value) -> (r: Result<RawRow, ReferenceErr>)
    ensures
        match r {
            Ok(row) => row_in(json_of(*item)) == Ok::<RawRowView, Fault>(row@),
            Err(e) => row_in(json_of(*item)) == Err::<RawRowView, Fault>(e@),
        },
{
    let items: &Vec<serde_json::Value> = match member_of(item, "vector") {
        Some(v) => match items_of(v) {
            Some(a) => a,
            None => {
                return Err(ReferenceErr::MissingVector);
            },
        },
        None => {
            return Err(ReferenceErr::MissingVector);
        },
    };
    let bits: [u64; DIM] = match read_features(items) {
        Ok(b) => b,
        Err(e) => {
            return Err(e);
        },
    };
    match read_label(member_of(item, "label")) {
        Ok(label) => Ok(RawRow { bits, label }),
        Err(e) => Err(e),
    }
}

/// Reads the rows that a JSON value stands for.
pub fn read_rows(v: &serde_json::Value) -> (r: Result<Vec<RawRow>, ReferenceErr>)
    ensures
        reads(r, references_in(json_of(*v))),
{
    let items: &Vec<serde_json::Value> = match items_of(v) {
        Some(a) => a,
        None => {
            return Err(ReferenceErr::NotAnArray);
        },
    };
    let ghost list = Seq::new(items@.len(), |i: int| json_of(items@[i]));
    let mut rows: Vec<RawRow> = Vec::new();
    let mut i: usize = 0;
    assert(raw_views(rows@) =~= Seq::<RawRowView>::empty());
    while i < items.len()
        invariant
            i <= items@.len(),
            list == Seq::new(items@.len(), |i: int| json_of(items@[i])),
            references_in(json_of(*v)) == rows_in(list, list.len() as int),
            rows_in(list, i as int) == Ok::<Seq<RawRowView>, Fault>(raw_views(rows@)),
        decreases items@.len() - i,
    {
        let ghost before = raw_views(rows@);
        match read_row(&items[i]) {
            Ok(row) => {
                rows.push(row);
                assert(raw_views(rows@) =~= before.push(row@));
            },
            Err(e) => {
                proof {
                    lemma_fault_stays(list, i + 1, list.len() as int);
                }
                return Err(e);
            },
        }
        i = i + 1;
    }
    Ok(rows)
}

proof fn lemma_fault_stays(items: Seq<Json>, n: int, m: int)
    requires
        0 <= n <= m,
        rows_in(items, n) is Err,
    ensures
        rows_in(items, m) == rows_in(items, n),
    decreases m - n,
{
    if n < m {
        lemma_fault_stays(items, n, m - 1);
    }
}

/// Reads the rows in a text.
pub fn read_text(text: &str) -> (r: Result<Vec<RawRow>, ReferenceErr>)
    ensures
        reads(r, references_in_text(text@)),
{
    match parse_json(text) {
        Some(v) => read_rows(&v),
        None => Err(ReferenceErr::Syntax),
    }
}

/// Reads the rows in a compressed text.
pub fn read_references(data: &[u8]) -> (r: Result<Vec<RawRow>, ReferenceErr>)
    ensures
        reads(r, references_in_data(data@)),
{
    match gunzip(data) {
        Some(text) => read_text(text.as_str()),
        None => Err(ReferenceErr::Compression),
    }
}

/// Makes a reference row of features that were scaled to ten-thousandths.
pub fn reference_row(scaled: &[i32; DIM], label: u8) -> (row: RefRow)
    ensures
        row.vec@ == padded(Seq::new(DIM as nat, |d: int| clamped(scaled@[d] as int))),
        row.label == label,
        forall|d: int|
            0 <= d < 14 && -0x8000 <= scaled@[d] <= 0x7fff ==> #[trigger] row.vec@[d] == scaled@[d],
        forall|d: int| 0 <= d < 14 && scaled@[d] > 0x7fff ==> #[trigger] row.vec@[d] == 0x7fff,
        forall|d: int| 0 <= d < 14 && scaled@[d] < -0x8000 ==> #[trigger] row.vec@[d] == -0x8000,
        row.vec@[14] == 0,
        row.vec@[15] == 0,
{
    let mut v: [i16; DIM] = [0; DIM];
    let mut d: usize = 0;
    while d < DIM
        invariant
            d <= DIM,
            v@.len() == DIM,
            scaled@.len() == DIM,
            forall|k: int| 0 <= k < d ==> #[trigger] v@[k] == clamped(scaled@[k] as int),
        decreases DIM - d,
    {
        v[d] = clamp16(scaled[d]);
        d = d + 1;
    }
    assert(v@ =~= Seq::new(DIM as nat, |d: int| clamped(scaled@[d] as int)));
    RefRow { vec: pad_query(&v), label }
}

/// Builds an index file of some rows.
pub fn build_file(rows: &Vec<RefRow>) -> (out: Vec<u8>)
    requires
        rows@.len() <= u32::MAX,
    ensures
        exists|image: IndexImage|
            {
                &&& #[trigger] encodes(out@, image)
                &&& countable(image)
                &&& image.labels@.len() == rows@.len()
                &&& exists|stored: Seq<RefRow>|
                    {
                        &&& stored.to_multiset() == rows@.to_multiset()
                        &&& #[trigger] index_holds(
                            image.partitions@,
                            image.nodes@,
                            image.panels@,
                            image.labels@,
                            stored,
                        )
                        &&& index_packed(image.partitions@, image.nodes@, image.panels@, stored)
                    }
            },
{
    let image: IndexImage = build_index(rows);
    encode_index(&image)
}

} // verus!
