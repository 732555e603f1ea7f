//! The words of a payload, as bytes.

use vstd::prelude::*;

verus! {

/// `id`
pub const ID: [u8; 2] = [0x69, 0x64];

/// `transaction`
pub const TRANSACTION: [u8; 11] = [
    0x74, 0x72, 0x61, 0x6e, 0x73, 0x61, 0x63, 0x74, 0x69, 0x6f, 0x6e,
];

/// `customer`
pub const CUSTOMER: [u8; 8] = [0x63, 0x75, 0x73, 0x74, 0x6f, 0x6d, 0x65, 0x72];

/// `merchant`
pub const MERCHANT: [u8; 8] = [0x6d, 0x65, 0x72, 0x63, 0x68, 0x61, 0x6e, 0x74];

/// `terminal`
pub const TERMINAL: [u8; 8] = [0x74, 0x65, 0x72, 0x6d, 0x69, 0x6e, 0x61, 0x6c];

/// `last_transaction`
pub const LAST_TRANSACTION: [u8; 16] = [
    0x6c, 0x61, 0x73, 0x74, 0x5f, 0x74, 0x72, 0x61, 0x6e, 0x73, 0x61, 0x63, 0x74, 0x69, 0x6f, 0x6e,
];

/// `amount`
pub const AMOUNT: [u8; 6] = [0x61, 0x6d, 0x6f, 0x75, 0x6e, 0x74];

/// `installments`
pub const INSTALLMENTS: [u8; 12] = [
    0x69, 0x6e, 0x73, 0x74, 0x61, 0x6c, 0x6c, 0x6d, 0x65, 0x6e, 0x74, 0x73,
];

/// `requested_at`
pub const REQUESTED_AT: [u8; 12] = [
    0x72, 0x65, 0x71, 0x75, 0x65, 0x73, 0x74, 0x65, 0x64, 0x5f, 0x61, 0x74,
];

/// `avg_amount`
pub const AVG_AMOUNT: [u8; 10] = [0x61, 0x76, 0x67, 0x5f, 0x61, 0x6d, 0x6f, 0x75, 0x6e, 0x74];

/// `tx_count_24h`
pub const TX_COUNT_24H: [u8; 12] = [
    0x74, 0x78, 0x5f, 0x63, 0x6f, 0x75, 0x6e, 0x74, 0x5f, 0x32, 0x34, 0x68,
];

/// `known_merchants`
pub const KNOWN_MERCHANTS: [u8; 15] = [
    0x6b, 0x6e, 0x6f, 0x77, 0x6e, 0x5f, 0x6d, 0x65, 0x72, 0x63, 0x68, 0x61, 0x6e, 0x74, 0x73,
];

/// `mcc`
pub const MCC: [u8; 3] = [0x6d, 0x63, 0x63];

/// `is_online`
pub const IS_ONLINE: [u8; 9] = [0x69, 0x73, 0x5f, 0x6f, 0x6e, 0x6c, 0x69, 0x6e, 0x65];

/// `card_present`
pub const CARD_PRESENT: [u8; 12] = [
    0x63, 0x61, 0x72, 0x64, 0x5f, 0x70, 0x72, 0x65, 0x73, 0x65, 0x6e, 0x74,
];

/// `km_from_home`
pub const KM_FROM_HOME: [u8; 12] = [
    0x6b, 0x6d, 0x5f, 0x66, 0x72, 0x6f, 0x6d, 0x5f, 0x68, 0x6f, 0x6d, 0x65,
];

/// `timestamp`
pub const TIMESTAMP: [u8; 9] = [0x74, 0x69, 0x6d, 0x65, 0x73, 0x74, 0x61, 0x6d, 0x70];

/// `km_from_current`
pub const KM_FROM_CURRENT: [u8; 15] = [
    0x6b, 0x6d, 0x5f, 0x66, 0x72, 0x6f, 0x6d, 0x5f, 0x63, 0x75, 0x72, 0x72, 0x65, 0x6e, 0x74,
];

/// `true`
pub const TRUE: [u8; 4] = [0x74, 0x72, 0x75, 0x65];

/// `false`
pub const FALSE: [u8; 5] = [0x66, 0x61, 0x6c, 0x73, 0x65];

/// `null`
pub const NULL: [u8; 4] = [0x6e, 0x75, 0x6c, 0x6c];

} // verus!
