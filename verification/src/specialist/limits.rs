//! When a search may stop early.

use super::search::EARLY_DISTANCE_LIMIT;
use crate::bytes::{ascii_lower, eq_ascii_case, same_bytes, same_letters};
use crate::decimal::{
    decimal, lemma_no_number, lemma_numbers_written, parse_i64, parse_u32, signed_value, unsigned_value,
};
use crate::json::words::TRUE;
use vstd::prelude::*;

verus! {

/// Limits of a search.
#[derive(Copy, Clone, Debug, PartialEq, Eq)]
pub struct Limits {
    /// Whether unanimous neighbours within the strong-decision limit end a
    /// search.
    pub strong_decision: bool,
    /// Largest distance of the last entry that ends a search.
    pub early_distance_limit: i64,
    /// Number of vectors in visited leaves that ends a search.
    pub early_candidates_limit: u32,
}

/// `1`
pub const ONE: [u8; 1] = [0x31];

/// Whether a setting switches something on: `1`, or `true` in any case.
pub open spec fn switches_on(s: Seq<u8>) -> bool {
    s == ONE@ || same_letters(s, TRUE@)
}

/// What the limits are for the given settings; `None` is a setting that was
/// not made. A number that cannot be read counts as not set.
pub open spec fn limits_for(
    strong: Option<Seq<u8>>,
    early: Option<Seq<u8>>,
    candidates: Option<Seq<u8>>,
) -> Limits {
    Limits {
        strong_decision: strong matches Some(s) && switches_on(s),
        early_distance_limit: match early {
            Some(s) => match signed_value(s) {
                Some(v) => if i64::MIN <= v <= i64::MAX {
                    v as i64
                } else {
                    EARLY_DISTANCE_LIMIT
                },
                None => EARLY_DISTANCE_LIMIT,
            },
            None => EARLY_DISTANCE_LIMIT,
        },
        early_candidates_limit: match candidates {
            Some(s) => match unsigned_value(s) {
                Some(v) => if v <= u32::MAX {
                    v as u32
                } else {
                    u32::MAX
                },
                None => u32::MAX,
            },
            None => u32::MAX,
        },
    }
}

/// The bytes of a setting.
pub open spec fn setting(s: Option<&[u8]>) -> Option<Seq<u8>> {
    match s {
        Some(b) => Some(b@),
        None => None,
    }
}

/// A setting switches something on if it is `1`, or `true` in whatever case.
pub proof fn lemma_switches_on(s: Seq<u8>)
    ensures
        switches_on(s) <==> {
            ||| s == seq![0x31u8]
            ||| s.len() == 4 && (s[0] == 0x74 || s[0] == 0x54) && (s[1] == 0x72 || s[1] == 0x52) && (
            s[2] == 0x75 || s[2] == 0x55) && (s[3] == 0x65 || s[3] == 0x45)
        },
{
    assert(ONE@ =~= seq![0x31u8]);
    assert(TRUE@ =~= seq![0x74u8, 0x72, 0x75, 0x65]);
    if same_letters(s, TRUE@) {
        assert(ascii_lower(s[0]) == ascii_lower(TRUE@[0]));
        assert(ascii_lower(s[1]) == ascii_lower(TRUE@[1]));
        assert(ascii_lower(s[2]) == ascii_lower(TRUE@[2]));
        assert(ascii_lower(s[3]) == ascii_lower(TRUE@[3]));
    }
}

fn is_on(s: &[u8]) -> (r: bool)
    ensures
        r == switches_on(s@),
{
    same_bytes(s, &ONE) || eq_ascii_case(s, &TRUE)
}

impl Limits {
    /// The limits for the given settings.
    pub fn from_settings(
        strong: Option<&[u8]>,
        early: Option<&[u8]>,
        candidates: Option<&[u8]>,
    ) -> (r: Limits)
        ensures
            r == limits_for(setting(strong), setting(early), setting(candidates)),
            strong is None ==> !r.strong_decision,
            strong matches Some(s) ==> (r.strong_decision <==> {
                ||| s@ == seq![0x31u8]
                ||| s@.len() == 4 && (s@[0] == 0x74 || s@[0] == 0x54) && (s@[1] == 0x72 || s@[1]
                    == 0x52) && (s@[2] == 0x75 || s@[2] == 0x55) && (s@[3] == 0x65 || s@[3] == 0x45)
            }),
            early is None ==> r.early_distance_limit == 1_960_000,
            forall|n: nat|
                early matches Some(s) && s@ == #[trigger] decimal(n) && n <= i64::MAX
                    ==> r.early_distance_limit == n,
            forall|n: nat|
                early matches Some(s) && s@ == seq![0x2du8] + #[trigger] decimal(n) && n
                    <= 0x8000_0000_0000_0000 ==> r.early_distance_limit == -n,
            candidates is None ==> r.early_candidates_limit == u32::MAX,
            forall|i: int|
                early is Some && 0 < i < early->Some_0@.len() && !(0x30
                    <= #[trigger] early->Some_0@[i] <= 0x39) ==> r.early_distance_limit
                    == 1_960_000,
            forall|i: int|
                candidates is Some && 0 < i < candidates->Some_0@.len() && !(0x30
                    <= #[trigger] candidates->Some_0@[i] <= 0x39) ==> r.early_candidates_limit
                    == u32::MAX,
            forall|n: nat|
                candidates matches Some(s) && s@ == #[trigger] decimal(n) && n <= u32::MAX
                    ==> r.early_candidates_limit == n,
    {
        proof {
            if let Some(s) = strong {
                lemma_switches_on(s@);
            }
            if let Some(s) = early {
                assert forall|n: nat| s@ == #[trigger] decimal(n) implies signed_value(s@) == Some(
                    n as int,
                ) by {
                    lemma_numbers_written(n);
                }
                assert forall|n: nat|
                    s@ == seq![0x2du8] + #[trigger] decimal(n) implies signed_value(s@) == Some(
                    -(n as int),
                ) by {
                    lemma_numbers_written(n);
                }
            }
            assert forall|i: int|
                early is Some && 0 < i < early->Some_0@.len() && !(0x30
                    <= #[trigger] early->Some_0@[i] <= 0x39) implies signed_value(
                early->Some_0@,
            ) is None by {
                lemma_no_number(early->Some_0@, i);
            }
            assert forall|i: int|
                candidates is Some && 0 < i < candidates->Some_0@.len() && !(0x30
                    <= #[trigger] candidates->Some_0@[i] <= 0x39) implies unsigned_value(
                candidates->Some_0@,
            ) is None by {
                lemma_no_number(candidates->Some_0@, i);
            }
            if let Some(s) = candidates {
                assert forall|n: nat| s@ == #[trigger] decimal(n) implies unsigned_value(s@)
                    == Some(n) by {
                    lemma_numbers_written(n);
                }
            }
        }
        let strong_decision: bool = match strong {
            Some(s) => is_on(s),
            None => false,
        };
        let early_distance_limit: i64 = match early {
            Some(s) => match parse_i64(s) {
                Some(v) => v,
                None => EARLY_DISTANCE_LIMIT,
            },
            None => EARLY_DISTANCE_LIMIT,
        };
        let early_candidates_limit: u32 = match candidates {
            Some(s) => match parse_u32(s) {
                Some(v) => v,
                None => u32::MAX,
            },
            None => u32::MAX,
        };
        Limits { strong_decision, early_distance_limit, early_candidates_limit }
    }
}

} // verus!
