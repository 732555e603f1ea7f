//! JSON documents, and the payloads that they stand for.

use super::grammar::{
    blank_last, blank_payload, is_number, with_fields, with_last_fields, Field, PayloadView,
    Section,
};
use super::laws::{all_space, quotable, quoted};
use super::words::{
    AMOUNT, AVG_AMOUNT, CARD_PRESENT, CUSTOMER, FALSE, ID, INSTALLMENTS, IS_ONLINE, KM_FROM_CURRENT,
    KM_FROM_HOME, KNOWN_MERCHANTS, LAST_TRANSACTION, MCC, MERCHANT, NULL, REQUESTED_AT, TERMINAL,
    TIMESTAMP, TRANSACTION, TRUE, TX_COUNT_24H,
};
use vstd::prelude::*;

verus! {

// ---------------------------------------------------------------------------
// Documents
// ---------------------------------------------------------------------------

/// A JSON document without escape sequences. Numbers are their text.
pub enum Doc {
    Text(Seq<u8>),
    Number(Seq<u8>),
    Flag(bool),
    Null,
    List(Seq<Doc>),
    Object(Seq<Pair>),
}

/// A member of an object.
pub struct Pair {
    pub key: Seq<u8>,
    pub value: Doc,
}

/// Whether a document can be written.
pub open spec fn well_formed(d: Doc) -> bool
    decreases d,
{
    match d {
        Doc::Text(x) => quotable(x),
        Doc::Number(x) => is_number(x),
        Doc::Flag(_) => true,
        Doc::Null => true,
        Doc::List(v) => forall|i: int| 0 <= i < v.len() ==> well_formed(#[trigger] v[i]),
        Doc::Object(m) => forall|i: int|
            0 <= i < m.len() ==> quotable((#[trigger] m[i]).key) && well_formed(m[i].value),
    }
}

/// Whether no object of a document has two members with one key.
pub open spec fn distinct_keys(d: Doc) -> bool
    decreases d,
{
    match d {
        Doc::List(v) => forall|i: int| 0 <= i < v.len() ==> distinct_keys(#[trigger] v[i]),
        Doc::Object(m) => {
            &&& forall|i: int| 0 <= i < m.len() ==> distinct_keys((#[trigger] m[i]).value)
            &&& forall|i: int, j: int|
                0 <= i < j < m.len() ==> (#[trigger] m[i]).key != (#[trigger] m[j]).key
        },
        _ => true,
    }
}

/// Whether two documents are the same but for the order of the members of
/// their objects.
pub open spec fn same(a: Doc, b: Doc) -> bool
    decreases a,
{
    match (a, b) {
        (Doc::List(v), Doc::List(w)) => {
            &&& v.len() == w.len()
            &&& forall|i: int| 0 <= i < v.len() ==> same(#[trigger] v[i], w[i])
        },
        (Doc::Object(m), Doc::Object(n)) => same_members(m, 0, n),
        _ => a == b && !(a is List) && !(a is Object),
    }
}

/// Whether the members of one object from `i` on are those of another in some
/// order.
pub open spec fn same_members(m: Seq<Pair>, i: int, n: Seq<Pair>) -> bool
    decreases m, m.len() - i,
{
    if i < 0 || i >= m.len() {
        n.len() == 0
    } else {
        exists|j: int|
            {
                &&& 0 <= j < n.len()
                &&& (#[trigger] n[j]).key == m[i].key
                &&& same(m[i].value, n[j].value)
                &&& same_members(m, i + 1, n.remove(j))
            }
    }
}

/// The tokens of a document.
pub open spec fn tokens(d: Doc) -> Seq<Seq<u8>>
    decreases d,
{
    match d {
        Doc::Text(x) => seq![quoted(x)],
        Doc::Number(x) => seq![x],
        Doc::Flag(b) => seq![
            if b {
                TRUE@
            } else {
                FALSE@
            },
        ],
        Doc::Null => seq![NULL@],
        Doc::List(v) => seq![seq![0x5bu8]] + items_tokens(v, 0),
        Doc::Object(m) => seq![seq![0x7bu8]] + pairs_tokens(m, 0),
    }
}

/// A comma, if anything is to follow.
pub open spec fn comma_if(more: bool) -> Seq<Seq<u8>> {
    if more {
        seq![seq![0x2cu8]]
    } else {
        seq![]
    }
}

/// The tokens of a list from item `i` on.
pub open spec fn items_tokens(v: Seq<Doc>, i: int) -> Seq<Seq<u8>>
    decreases v, v.len() - i,
{
    if i < 0 || i >= v.len() {
        seq![seq![0x5du8]]
    } else {
        tokens(v[i]) + (comma_if(i + 1 < v.len()) + items_tokens(v, i + 1))
    }
}

/// The tokens of an object from member `i` on.
pub open spec fn pairs_tokens(m: Seq<Pair>, i: int) -> Seq<Seq<u8>>
    decreases m, m.len() - i,
{
    if i < 0 || i >= m.len() {
        seq![seq![0x7du8]]
    } else {
        seq![quoted(m[i].key), seq![0x3au8]] + (tokens(m[i].value) + (comma_if(i + 1 < m.len())
            + pairs_tokens(m, i + 1)))
    }
}

/// Some tokens with white space between them and `end` behind them; `gap(k)` is
/// what stands before the last `k` tokens.
pub open spec fn spaced(tokens: Seq<Seq<u8>>, gap: spec_fn(int) -> Seq<u8>, end: Seq<u8>) -> Seq<u8>
    decreases tokens.len(),
{
    if tokens.len() == 0 {
        end
    } else {
        gap(tokens.len() as int) + (tokens[0] + spaced(tokens.skip(1), gap, end))
    }
}

/// Whether every gap is white space, of whatever length.
pub open spec fn is_gap(gap: spec_fn(int) -> Seq<u8>) -> bool {
    forall|k: int| all_space(#[trigger] gap(k))
}

// ---------------------------------------------------------------------------
// What a document says
// ---------------------------------------------------------------------------

/// What two parts say together.
pub open spec fn join(a: Option<Seq<Field>>, b: Option<Seq<Field>>) -> Option<Seq<Field>> {
    match (a, b) {
        (Some(f), Some(g)) => Some(f + g),
        _ => None,
    }
}

/// One field from a number.
pub open spec fn from_number(d: Doc, field: spec_fn(Seq<u8>) -> Field) -> Option<Seq<Field>> {
    match d {
        Doc::Number(x) => Some(seq![field(x)]),
        _ => None,
    }
}

/// One field from a string.
pub open spec fn from_text(d: Doc, field: spec_fn(Seq<u8>) -> Field) -> Option<Seq<Field>> {
    match d {
        Doc::Text(x) => Some(seq![field(x)]),
        _ => None,
    }
}

/// One field from `true` or `false`.
pub open spec fn from_flag(d: Doc, field: spec_fn(bool) -> Field) -> Option<Seq<Field>> {
    match d {
        Doc::Flag(x) => Some(seq![field(x)]),
        _ => None,
    }
}

/// The strings of a list from item `i` on, if there is nothing else in it.
pub open spec fn strings_of(v: Seq<Doc>, i: int) -> Option<Seq<Seq<u8>>> {
    if forall|k: int| i <= k < v.len() ==> (#[trigger] v[k]) is Text {
        Some(Seq::new((v.len() - i) as nat, |k: int| v[i + k]->Text_0))
    } else {
        None
    }
}

/// The fields of a section.
pub open spec fn section_of(section: Section, d: Doc) -> Option<Seq<Field>>
    decreases d, 0int,
{
    match d {
        Doc::Object(m) => fields_of(section, m, 0),
        _ => None,
    }
}

/// What the value of a member says, by its key: nothing under an unknown key,
/// and `None` where it is of the wrong kind.
pub open spec fn field_of(section: Section, key: Seq<u8>, d: Doc) -> Option<Seq<Field>>
    decreases d, 1int,
{
    match section {
        Section::Top => if key == ID@ {
            if d is Text {
                Some(seq![])
            } else {
                None
            }
        } else if key == TRANSACTION@ {
            section_of(Section::Transaction, d)
        } else if key == CUSTOMER@ {
            section_of(Section::Customer, d)
        } else if key == MERCHANT@ {
            section_of(Section::Merchant, d)
        } else if key == TERMINAL@ {
            section_of(Section::Terminal, d)
        } else if key == LAST_TRANSACTION@ {
            if d is Null {
                Some(seq![Field::LastTransaction(None)])
            } else {
                match section_of(Section::Last, d) {
                    Some(f) => Some(
                        seq![Field::LastTransaction(Some(with_last_fields(blank_last(), f)))],
                    ),
                    None => None,
                }
            }
        } else {
            Some(seq![])
        },
        Section::Transaction => if key == AMOUNT@ {
            from_number(d, |x: Seq<u8>| Field::Amount(x))
        } else if key == INSTALLMENTS@ {
            from_number(d, |x: Seq<u8>| Field::Installments(x))
        } else if key == REQUESTED_AT@ {
            from_text(d, |x: Seq<u8>| Field::RequestedAt(x))
        } else {
            Some(seq![])
        },
        Section::Customer => if key == AVG_AMOUNT@ {
            from_number(d, |x: Seq<u8>| Field::CustomerAvg(x))
        } else if key == TX_COUNT_24H@ {
            from_number(d, |x: Seq<u8>| Field::TxCount(x))
        } else if key == KNOWN_MERCHANTS@ {
            match d {
                Doc::List(v) => match strings_of(v, 0) {
                    Some(s) => Some(seq![Field::KnownMerchants(s)]),
                    None => None,
                },
                _ => None,
            }
        } else {
            Some(seq![])
        },
        Section::Merchant => if key == ID@ {
            from_text(d, |x: Seq<u8>| Field::MerchantId(x))
        } else if key == MCC@ {
            from_text(d, |x: Seq<u8>| Field::MerchantMcc(x))
        } else if key == AVG_AMOUNT@ {
            from_number(d, |x: Seq<u8>| Field::MerchantAvg(x))
        } else {
            Some(seq![])
        },
        Section::Terminal => if key == IS_ONLINE@ {
            from_flag(d, |x: bool| Field::IsOnline(x))
        } else if key == CARD_PRESENT@ {
            from_flag(d, |x: bool| Field::CardPresent(x))
        } else if key == KM_FROM_HOME@ {
            from_number(d, |x: Seq<u8>| Field::KmFromHome(x))
        } else {
            Some(seq![])
        },
        Section::Last => if key == TIMESTAMP@ {
            from_text(d, |x: Seq<u8>| Field::Timestamp(x))
        } else if key == KM_FROM_CURRENT@ {
            from_number(d, |x: Seq<u8>| Field::KmFromCurrent(x))
        } else {
            Some(seq![])
        },
    }
}

/// What the members of an object from `i` on say.
pub open spec fn fields_of(section: Section, m: Seq<Pair>, i: int) -> Option<Seq<Field>>
    decreases m, m.len() - i,
{
    if i < 0 || i >= m.len() {
        Some(seq![])
    } else {
        join(field_of(section, m[i].key, m[i].value), fields_of(section, m, i + 1))
    }
}

/// The payload that a document stands for, if it is one.
pub open spec fn payload_of(d: Doc) -> Option<PayloadView> {
    match section_of(Section::Top, d) {
        Some(f) => Some(with_fields(blank_payload(), f)),
        None => None,
    }
}

} // verus!
