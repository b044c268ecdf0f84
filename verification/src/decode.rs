//! The status decoder: one raw JSON status document in, one typed
//! `FastdStatus` out, or a `DecodeError`.
//!
//! The grammar is given by total specification functions over the document
//! bytes (`spec_decode` at the top); the executable reader mirrors them and
//! is proved to return exactly what they describe. The schema is closed: a
//! field outside the data model is a decode failure, never silently
//! ignored. A missing `connection` and an explicit `null` both decode to a
//! disconnected peer.

use vstd::prelude::*;

use crate::status::{Connection, ConnectionView, Decimal, FastdStatus, Peer, PeerView, Statistics,
    StatusView, Traffic, macs_view, peers_view, wf_status};
use crate::tokens::{COLON, COMMA, DOT, LBRACE, LBRACKET, QUOTE, RBRACE, RBRACKET, is_digit,
    is_string_byte, is_ws, kw_address, kw_bytes, kw_connection, kw_established, kw_interface,
    kw_mac_addresses, kw_method, kw_name, kw_packets, kw_peers, kw_rx, kw_rx_reordered,
    kw_statistics, kw_tx, kw_tx_dropped, kw_tx_error, kw_uptime, bytes_eq, digit_byte,
    string_byte, ws_byte, kw_packets_v, kw_bytes_v, kw_rx_v, kw_rx_reordered_v, kw_tx_v,
    kw_tx_dropped_v, kw_tx_error_v, kw_uptime_v, kw_interface_v, kw_statistics_v, kw_peers_v,
    kw_name_v, kw_address_v, kw_connection_v, kw_established_v, kw_method_v, kw_mac_addresses_v};

verus! {

/// Why a status document was rejected.
#[derive(Debug, Clone, Copy, PartialEq, Eq, Structural)]
pub enum DecodeError {
    /// The document ended inside a construct.
    Truncated,
    /// A byte other than what the grammar calls for at its position.
    Unexpected,
    /// An object key outside the closed schema.
    UnknownField,
    /// An object key, or a peer public key, given twice.
    DuplicateField,
    /// A required field absent from an object.
    MissingField,
    /// A malformed or out-of-range numeric value.
    BadNumber,
}

/// The most fraction digits a number may carry; beyond this the exact
/// decimal representation would no longer fit the mantissa.
pub const MAX_FRAC: u8 = 19;

/// First position at or after `i` whose byte is not insignificant
/// whitespace (or the end of the document).
pub open spec fn skip_ws(s: Seq<u8>, i: int) -> int
    decreases s.len() - i,
{
    if 0 <= i && i < s.len() && is_ws(s[i]) {
        skip_ws(s, i + 1)
    } else {
        i
    }
}

/// Demand the single byte `b` at position `i`.
pub open spec fn expect(s: Seq<u8>, i: int, b: u8) -> Result<int, DecodeError> {
    if !(0 <= i < s.len()) {
        Err(DecodeError::Truncated)
    } else if s[i] == b {
        Ok(i + 1)
    } else {
        Err(DecodeError::Unexpected)
    }
}

/// The body of a string after its opening quote: unescaped bytes up to the
/// closing quote, accumulated in `acc`.
pub open spec fn scan_string(s: Seq<u8>, i: int, acc: Seq<u8>) -> Result<(Seq<u8>, int), DecodeError>
    decreases s.len() - i,
{
    if !(0 <= i < s.len()) {
        Err(DecodeError::Truncated)
    } else if s[i] == QUOTE {
        Ok((acc, i + 1))
    } else if is_string_byte(s[i]) {
        scan_string(s, i + 1, acc.push(s[i]))
    } else {
        Err(DecodeError::Unexpected)
    }
}

/// A quoted string starting at `i`.
pub open spec fn parse_string(s: Seq<u8>, i: int) -> Result<(Seq<u8>, int), DecodeError> {
    match expect(s, i, QUOTE) {
        Err(e) => Err(e),
        Ok(j) => scan_string(s, j, Seq::empty()),
    }
}

/// Fold one more digit byte into an accumulated mantissa; `None` once the
/// mantissa has outgrown its type.
pub open spec fn acc_digit(acc: Option<u64>, b: u8) -> Option<u64> {
    match acc {
        Some(a) => {
            let v = (a as int) * 10 + (b as int) - 0x30;
            if v <= u64::MAX as int {
                Some(v as u64)
            } else {
                None
            }
        },
        None => None,
    }
}

/// Consume a run of digit bytes, folding them into `acc`; stops at the
/// first non-digit.
pub open spec fn scan_digits(s: Seq<u8>, i: int, acc: Option<u64>) -> (Option<u64>, int)
    decreases s.len() - i,
{
    if 0 <= i && i < s.len() && is_digit(s[i]) {
        scan_digits(s, i + 1, acc_digit(acc, s[i]))
    } else {
        (acc, i)
    }
}

/// A non-negative decimal number: digits with no superfluous leading zero,
/// optionally a point and at least one fraction digit. The mantissa
/// accumulates over all digits; the fraction length becomes `frac`.
pub open spec fn parse_number(s: Seq<u8>, i: int) -> Result<(Decimal, int), DecodeError> {
    if !(0 <= i < s.len()) {
        Err(DecodeError::Truncated)
    } else if !is_digit(s[i]) {
        Err(DecodeError::Unexpected)
    } else if s[i] == 0x30 && i + 1 < s.len() && is_digit(s[i + 1]) {
        Err(DecodeError::BadNumber)
    } else {
        let (acc, j) = scan_digits(s, i, Some(0u64));
        match acc {
            None => Err(DecodeError::BadNumber),
            Some(_) => {
                if 0 <= j < s.len() && s[j] == DOT {
                    let (acc2, k) = scan_digits(s, j + 1, acc);
                    match acc2 {
                        None => Err(DecodeError::BadNumber),
                        Some(m) => {
                            if k == j + 1 {
                                Err(DecodeError::BadNumber)
                            } else if k - (j + 1) > MAX_FRAC as int {
                                Err(DecodeError::BadNumber)
                            } else {
                                Ok((Decimal { mantissa: m, frac: (k - (j + 1)) as u8 }, k))
                            }
                        },
                    }
                } else {
                    Ok((Decimal { mantissa: acc->Some_0, frac: 0 }, j))
                }
            },
        }
    }
}

/// The fields of a `Traffic` object, after its opening brace; `packets`
/// and `bytes` hold the values seen so far.
pub open spec fn parse_traffic_fields(
    s: Seq<u8>,
    i: int,
    packets: Option<Decimal>,
    bytes: Option<Decimal>,
) -> Result<(Traffic, int), DecodeError>
    decreases s.len() - i,
{
    match parse_string(s, i) {
        Err(e) => Err(e),
        Ok((key, j)) => match expect(s, skip_ws(s, j), COLON) {
            Err(e) => Err(e),
            Ok(j2) => {
                let jv = skip_ws(s, j2);
                let stepped: Result<(Option<Decimal>, Option<Decimal>, int), DecodeError> = if key
                    == kw_packets() {
                    if packets is Some {
                        Err(DecodeError::DuplicateField)
                    } else {
                        match parse_number(s, jv) {
                            Err(e) => Err(e),
                            Ok((d, k)) => Ok((Some(d), bytes, k)),
                        }
                    }
                } else if key == kw_bytes() {
                    if bytes is Some {
                        Err(DecodeError::DuplicateField)
                    } else {
                        match parse_number(s, jv) {
                            Err(e) => Err(e),
                            Ok((d, k)) => Ok((packets, Some(d), k)),
                        }
                    }
                } else {
                    Err(DecodeError::UnknownField)
                };
                match stepped {
                    Err(e) => Err(e),
                    Ok((p2, b2, k)) => {
                        let k1 = skip_ws(s, k);
                        if !(0 <= k1 < s.len()) {
                            Err(DecodeError::Truncated)
                        } else if s[k1] == COMMA {
                            let k2 = skip_ws(s, k1 + 1);
                            if !(i < k2 <= s.len()) {
                                Err(DecodeError::Truncated)
                            } else {
                                parse_traffic_fields(s, k2, p2, b2)
                            }
                        } else if s[k1] == RBRACE {
                            match (p2, b2) {
                                (Some(p), Some(b)) => Ok((Traffic { packets: p, bytes: b }, k1 + 1)),
                                _ => Err(DecodeError::MissingField),
                            }
                        } else {
                            Err(DecodeError::Unexpected)
                        }
                    },
                }
            },
        },
    }
}

/// A `Traffic` object starting at its opening brace.
pub open spec fn parse_traffic(s: Seq<u8>, i: int) -> Result<(Traffic, int), DecodeError> {
    match expect(s, i, LBRACE) {
        Err(e) => Err(e),
        Ok(j) => {
            let j1 = skip_ws(s, j);
            if 0 <= j1 < s.len() && s[j1] == RBRACE {
                Err(DecodeError::MissingField)
            } else {
                parse_traffic_fields(s, j1, None, None)
            }
        },
    }
}

/// The fields of a `Statistics` object: exactly the five counters of the
/// closed vocabulary, each exactly once.
pub open spec fn parse_stats_fields(
    s: Seq<u8>,
    i: int,
    rx: Option<Traffic>,
    rx_reordered: Option<Traffic>,
    tx: Option<Traffic>,
    tx_dropped: Option<Traffic>,
    tx_error: Option<Traffic>,
) -> Result<(Statistics, int), DecodeError>
    decreases s.len() - i,
{
    match parse_string(s, i) {
        Err(e) => Err(e),
        Ok((key, j)) => match expect(s, skip_ws(s, j), COLON) {
            Err(e) => Err(e),
            Ok(j2) => {
                let jv = skip_ws(s, j2);
                let stepped: Result<
                    (Option<Traffic>, Option<Traffic>, Option<Traffic>, Option<Traffic>, Option<
                        Traffic,
                    >, int),
                    DecodeError,
                > = if key == kw_rx() {
                    if rx is Some {
                        Err(DecodeError::DuplicateField)
                    } else {
                        match parse_traffic(s, jv) {
                            Err(e) => Err(e),
                            Ok((t, k)) => Ok((Some(t), rx_reordered, tx, tx_dropped, tx_error, k)),
                        }
                    }
                } else if key == kw_rx_reordered() {
                    if rx_reordered is Some {
                        Err(DecodeError::DuplicateField)
                    } else {
                        match parse_traffic(s, jv) {
                            Err(e) => Err(e),
                            Ok((t, k)) => Ok((rx, Some(t), tx, tx_dropped, tx_error, k)),
                        }
                    }
                } else if key == kw_tx() {
                    if tx is Some {
                        Err(DecodeError::DuplicateField)
                    } else {
                        match parse_traffic(s, jv) {
                            Err(e) => Err(e),
                            Ok((t, k)) => Ok((rx, rx_reordered, Some(t), tx_dropped, tx_error, k)),
                        }
                    }
                } else if key == kw_tx_dropped() {
                    if tx_dropped is Some {
                        Err(DecodeError::DuplicateField)
                    } else {
                        match parse_traffic(s, jv) {
                            Err(e) => Err(e),
                            Ok((t, k)) => Ok((rx, rx_reordered, tx, Some(t), tx_error, k)),
                        }
                    }
                } else if key == kw_tx_error() {
                    if tx_error is Some {
                        Err(DecodeError::DuplicateField)
                    } else {
                        match parse_traffic(s, jv) {
                            Err(e) => Err(e),
                            Ok((t, k)) => Ok((rx, rx_reordered, tx, tx_dropped, Some(t), k)),
                        }
                    }
                } else {
                    Err(DecodeError::UnknownField)
                };
                match stepped {
                    Err(e) => Err(e),
                    Ok((f1, f2, f3, f4, f5, k)) => {
                        let k1 = skip_ws(s, k);
                        if !(0 <= k1 < s.len()) {
                            Err(DecodeError::Truncated)
                        } else if s[k1] == COMMA {
                            let k2 = skip_ws(s, k1 + 1);
                            if !(i < k2 <= s.len()) {
                                Err(DecodeError::Truncated)
                            } else {
                                parse_stats_fields(s, k2, f1, f2, f3, f4, f5)
                            }
                        } else if s[k1] == RBRACE {
                            match (f1, f2, f3, f4, f5) {
                                (Some(a), Some(b), Some(c), Some(d), Some(e)) => Ok(
                                    (
                                        Statistics {
                                            rx: a,
                                            rx_reordered: b,
                                            tx: c,
                                            tx_dropped: d,
                                            tx_error: e,
                                        },
                                        k1 + 1,
                                    ),
                                ),
                                _ => Err(DecodeError::MissingField),
                            }
                        } else {
                            Err(DecodeError::Unexpected)
                        }
                    },
                }
            },
        },
    }
}

/// A `Statistics` object starting at its opening brace.
pub open spec fn parse_stats(s: Seq<u8>, i: int) -> Result<(Statistics, int), DecodeError> {
    match expect(s, i, LBRACE) {
        Err(e) => Err(e),
        Ok(j) => {
            let j1 = skip_ws(s, j);
            if 0 <= j1 < s.len() && s[j1] == RBRACE {
                Err(DecodeError::MissingField)
            } else {
                parse_stats_fields(s, j1, None, None, None, None, None)
            }
        },
    }
}

/// The elements of a `mac_addresses` array after its first element's
/// position: strings separated by commas.
pub open spec fn parse_macs_items(s: Seq<u8>, i: int, acc: Seq<Seq<u8>>) -> Result<
    (Seq<Seq<u8>>, int),
    DecodeError,
>
    decreases s.len() - i,
{
    match parse_string(s, i) {
        Err(e) => Err(e),
        Ok((m, j)) => {
            let acc2 = acc.push(m);
            let k1 = skip_ws(s, j);
            if !(0 <= k1 < s.len()) {
                Err(DecodeError::Truncated)
            } else if s[k1] == COMMA {
                let k2 = skip_ws(s, k1 + 1);
                if !(i < k2 <= s.len()) {
                    Err(DecodeError::Truncated)
                } else {
                    parse_macs_items(s, k2, acc2)
                }
            } else if s[k1] == RBRACKET {
                Ok((acc2, k1 + 1))
            } else {
                Err(DecodeError::Unexpected)
            }
        },
    }
}

/// A `mac_addresses` array starting at its opening bracket.
pub open spec fn parse_macs(s: Seq<u8>, i: int) -> Result<(Seq<Seq<u8>>, int), DecodeError> {
    match expect(s, i, LBRACKET) {
        Err(e) => Err(e),
        Ok(j) => {
            let j1 = skip_ws(s, j);
            if 0 <= j1 < s.len() && s[j1] == RBRACKET {
                Ok((Seq::empty(), j1 + 1))
            } else {
                parse_macs_items(s, j1, Seq::empty())
            }
        },
    }
}

/// The fields of a `Connection` object.
pub open spec fn parse_connection_fields(
    s: Seq<u8>,
    i: int,
    established: Option<Decimal>,
    method: Option<Seq<u8>>,
    statistics: Option<Statistics>,
    mac_addresses: Option<Seq<Seq<u8>>>,
) -> Result<(ConnectionView, int), DecodeError>
    decreases s.len() - i,
{
    match parse_string(s, i) {
        Err(e) => Err(e),
        Ok((key, j)) => match expect(s, skip_ws(s, j), COLON) {
            Err(e) => Err(e),
            Ok(j2) => {
                let jv = skip_ws(s, j2);
                let stepped: Result<
                    (Option<Decimal>, Option<Seq<u8>>, Option<Statistics>, Option<Seq<Seq<u8>>>, int),
                    DecodeError,
                > = if key == kw_established() {
                    if established is Some {
                        Err(DecodeError::DuplicateField)
                    } else {
                        match parse_number(s, jv) {
                            Err(e) => Err(e),
                            Ok((d, k)) => Ok((Some(d), method, statistics, mac_addresses, k)),
                        }
                    }
                } else if key == kw_method() {
                    if method is Some {
                        Err(DecodeError::DuplicateField)
                    } else {
                        match parse_string(s, jv) {
                            Err(e) => Err(e),
                            Ok((m, k)) => Ok((established, Some(m), statistics, mac_addresses, k)),
                        }
                    }
                } else if key == kw_statistics() {
                    if statistics is Some {
                        Err(DecodeError::DuplicateField)
                    } else {
                        match parse_stats(s, jv) {
                            Err(e) => Err(e),
                            Ok((st, k)) => Ok((established, method, Some(st), mac_addresses, k)),
                        }
                    }
                } else if key == kw_mac_addresses() {
                    if mac_addresses is Some {
                        Err(DecodeError::DuplicateField)
                    } else {
                        match parse_macs(s, jv) {
                            Err(e) => Err(e),
                            Ok((ms, k)) => Ok((established, method, statistics, Some(ms), k)),
                        }
                    }
                } else {
                    Err(DecodeError::UnknownField)
                };
                match stepped {
                    Err(e) => Err(e),
                    Ok((f1, f2, f3, f4, k)) => {
                        let k1 = skip_ws(s, k);
                        if !(0 <= k1 < s.len()) {
                            Err(DecodeError::Truncated)
                        } else if s[k1] == COMMA {
                            let k2 = skip_ws(s, k1 + 1);
                            if !(i < k2 <= s.len()) {
                                Err(DecodeError::Truncated)
                            } else {
                                parse_connection_fields(s, k2, f1, f2, f3, f4)
                            }
                        } else if s[k1] == RBRACE {
                            match (f1, f2, f3, f4) {
                                (Some(a), Some(b), Some(c), Some(d)) => Ok(
                                    (
                                        ConnectionView {
                                            established: a,
                                            method: b,
                                            statistics: c,
                                            mac_addresses: d,
                                        },
                                        k1 + 1,
                                    ),
                                ),
                                _ => Err(DecodeError::MissingField),
                            }
                        } else {
                            Err(DecodeError::Unexpected)
                        }
                    },
                }
            },
        },
    }
}

/// A `Connection` object starting at its opening brace.
pub open spec fn parse_connection(s: Seq<u8>, i: int) -> Result<(ConnectionView, int), DecodeError> {
    match expect(s, i, LBRACE) {
        Err(e) => Err(e),
        Ok(j) => {
            let j1 = skip_ws(s, j);
            if 0 <= j1 < s.len() && s[j1] == RBRACE {
                Err(DecodeError::MissingField)
            } else {
                parse_connection_fields(s, j1, None, None, None, None)
            }
        },
    }
}

/// The value of a `connection` field: an explicit `null` (a disconnected
/// peer) or a `Connection` object.
pub open spec fn parse_opt_connection(s: Seq<u8>, i: int) -> Result<
    (Option<ConnectionView>, int),
    DecodeError,
> {
    if !(0 <= i < s.len()) {
        Err(DecodeError::Truncated)
    } else if s[i] == 0x6e {
        if i + 4 <= s.len() && s[i + 1] == 0x75 && s[i + 2] == 0x6c && s[i + 3] == 0x6c {
            Ok((None, i + 4))
        } else {
            Err(DecodeError::Unexpected)
        }
    } else {
        match parse_connection(s, i) {
            Err(e) => Err(e),
            Ok((c, j)) => Ok((Some(c), j)),
        }
    }
}

/// The fields of a `Peer` object. `connection` may be absent: the slot
/// distinguishes "not seen" from "seen, possibly null".
pub open spec fn parse_peer_fields(
    s: Seq<u8>,
    i: int,
    name: Option<Seq<u8>>,
    address: Option<Seq<u8>>,
    connection: Option<Option<ConnectionView>>,
) -> Result<(PeerView, int), DecodeError>
    decreases s.len() - i,
{
    match parse_string(s, i) {
        Err(e) => Err(e),
        Ok((key, j)) => match expect(s, skip_ws(s, j), COLON) {
            Err(e) => Err(e),
            Ok(j2) => {
                let jv = skip_ws(s, j2);
                let stepped: Result<
                    (Option<Seq<u8>>, Option<Seq<u8>>, Option<Option<ConnectionView>>, int),
                    DecodeError,
                > = if key == kw_name() {
                    if name is Some {
                        Err(DecodeError::DuplicateField)
                    } else {
                        match parse_string(s, jv) {
                            Err(e) => Err(e),
                            Ok((n, k)) => Ok((Some(n), address, connection, k)),
                        }
                    }
                } else if key == kw_address() {
                    if address is Some {
                        Err(DecodeError::DuplicateField)
                    } else {
                        match parse_string(s, jv) {
                            Err(e) => Err(e),
                            Ok((a, k)) => Ok((name, Some(a), connection, k)),
                        }
                    }
                } else if key == kw_connection() {
                    if connection is Some {
                        Err(DecodeError::DuplicateField)
                    } else {
                        match parse_opt_connection(s, jv) {
                            Err(e) => Err(e),
                            Ok((c, k)) => Ok((name, address, Some(c), k)),
                        }
                    }
                } else {
                    Err(DecodeError::UnknownField)
                };
                match stepped {
                    Err(e) => Err(e),
                    Ok((f1, f2, f3, k)) => {
                        let k1 = skip_ws(s, k);
                        if !(0 <= k1 < s.len()) {
                            Err(DecodeError::Truncated)
                        } else if s[k1] == COMMA {
                            let k2 = skip_ws(s, k1 + 1);
                            if !(i < k2 <= s.len()) {
                                Err(DecodeError::Truncated)
                            } else {
                                parse_peer_fields(s, k2, f1, f2, f3)
                            }
                        } else if s[k1] == RBRACE {
                            match (f1, f2) {
                                (Some(n), Some(a)) => Ok(
                                    (
                                        PeerView {
                                            name: n,
                                            address: a,
                                            connection: match f3 {
                                                Some(c) => c,
                                                None => None,
                                            },
                                        },
                                        k1 + 1,
                                    ),
                                ),
                                _ => Err(DecodeError::MissingField),
                            }
                        } else {
                            Err(DecodeError::Unexpected)
                        }
                    },
                }
            },
        },
    }
}

/// A `Peer` object starting at its opening brace.
pub open spec fn parse_peer(s: Seq<u8>, i: int) -> Result<(PeerView, int), DecodeError> {
    match expect(s, i, LBRACE) {
        Err(e) => Err(e),
        Ok(j) => {
            let j1 = skip_ws(s, j);
            if 0 <= j1 < s.len() && s[j1] == RBRACE {
                Err(DecodeError::MissingField)
            } else {
                parse_peer_fields(s, j1, None, None, None)
            }
        },
    }
}

/// Whether `acc` already holds an entry under `key`.
pub open spec fn peers_contain(acc: Seq<(Seq<u8>, PeerView)>, key: Seq<u8>) -> bool {
    exists|t: int| 0 <= t < acc.len() && acc[t].0 == key
}

/// The members of the `peers` map after its opening brace: public keys to
/// peers, each key at most once, in document order.
pub open spec fn parse_peers_fields(s: Seq<u8>, i: int, acc: Seq<(Seq<u8>, PeerView)>) -> Result<
    (Seq<(Seq<u8>, PeerView)>, int),
    DecodeError,
>
    decreases s.len() - i,
{
    match parse_string(s, i) {
        Err(e) => Err(e),
        Ok((key, j)) => {
            if peers_contain(acc, key) {
                Err(DecodeError::DuplicateField)
            } else {
                match expect(s, skip_ws(s, j), COLON) {
                    Err(e) => Err(e),
                    Ok(j2) => {
                        let jv = skip_ws(s, j2);
                        match parse_peer(s, jv) {
                            Err(e) => Err(e),
                            Ok((p, k)) => {
                                let acc2 = acc.push((key, p));
                                let k1 = skip_ws(s, k);
                                if !(0 <= k1 < s.len()) {
                                    Err(DecodeError::Truncated)
                                } else if s[k1] == COMMA {
                                    let k2 = skip_ws(s, k1 + 1);
                                    if !(i < k2 <= s.len()) {
                                        Err(DecodeError::Truncated)
                                    } else {
                                        parse_peers_fields(s, k2, acc2)
                                    }
                                } else if s[k1] == RBRACE {
                                    Ok((acc2, k1 + 1))
                                } else {
                                    Err(DecodeError::Unexpected)
                                }
                            },
                        }
                    },
                }
            }
        },
    }
}

/// The `peers` map starting at its opening brace; it may be empty.
pub open spec fn parse_peers(s: Seq<u8>, i: int) -> Result<(Seq<(Seq<u8>, PeerView)>, int), DecodeError> {
    match expect(s, i, LBRACE) {
        Err(e) => Err(e),
        Ok(j) => {
            let j1 = skip_ws(s, j);
            if 0 <= j1 < s.len() && s[j1] == RBRACE {
                Ok((Seq::empty(), j1 + 1))
            } else {
                parse_peers_fields(s, j1, Seq::empty())
            }
        },
    }
}

/// One key of the top-level status object, dispatched to its field's
/// parser; yields the updated field slots and the position after the value.
pub open spec fn spec_status_step(
    s: Seq<u8>,
    jv: int,
    key: Seq<u8>,
    uptime: Option<Decimal>,
    interface: Option<Seq<u8>>,
    statistics: Option<Statistics>,
    peers: Option<Seq<(Seq<u8>, PeerView)>>,
) -> Result<
    (Option<Decimal>, Option<Seq<u8>>, Option<Statistics>, Option<Seq<(Seq<u8>, PeerView)>>, int),
    DecodeError,
> {
    if key == kw_uptime() {
                    if uptime is Some {
                        Err(DecodeError::DuplicateField)
                    } else {
                        match parse_number(s, jv) {
                            Err(e) => Err(e),
                            Ok((d, k)) => Ok((Some(d), interface, statistics, peers, k)),
                        }
                    }
                } else if key == kw_interface() {
                    if interface is Some {
                        Err(DecodeError::DuplicateField)
                    } else {
                        match parse_string(s, jv) {
                            Err(e) => Err(e),
                            Ok((n, k)) => Ok((uptime, Some(n), statistics, peers, k)),
                        }
                    }
                } else if key == kw_statistics() {
                    if statistics is Some {
                        Err(DecodeError::DuplicateField)
                    } else {
                        match parse_stats(s, jv) {
                            Err(e) => Err(e),
                            Ok((st, k)) => Ok((uptime, interface, Some(st), peers, k)),
                        }
                    }
    } else if key == kw_peers() {
        if peers is Some {
            Err(DecodeError::DuplicateField)
        } else {
            match parse_peers(s, jv) {
                Err(e) => Err(e),
                Ok((ps, k)) => Ok((uptime, interface, statistics, Some(ps), k)),
            }
        }
    } else {
        Err(DecodeError::UnknownField)
    }
}

/// The fields of the top-level status object.
pub open spec fn parse_status_fields(
    s: Seq<u8>,
    i: int,
    uptime: Option<Decimal>,
    interface: Option<Seq<u8>>,
    statistics: Option<Statistics>,
    peers: Option<Seq<(Seq<u8>, PeerView)>>,
) -> Result<(StatusView, int), DecodeError>
    decreases s.len() - i,
{
    match parse_string(s, i) {
        Err(e) => Err(e),
        Ok((key, j)) => match expect(s, skip_ws(s, j), COLON) {
            Err(e) => Err(e),
            Ok(j2) => {
                let jv = skip_ws(s, j2);
                match spec_status_step(s, jv, key, uptime, interface, statistics, peers) {
                    Err(e) => Err(e),
                    Ok((f1, f2, f3, f4, k)) => {
                        let k1 = skip_ws(s, k);
                        if !(0 <= k1 < s.len()) {
                            Err(DecodeError::Truncated)
                        } else if s[k1] == COMMA {
                            let k2 = skip_ws(s, k1 + 1);
                            if !(i < k2 <= s.len()) {
                                Err(DecodeError::Truncated)
                            } else {
                                parse_status_fields(s, k2, f1, f2, f3, f4)
                            }
                        } else if s[k1] == RBRACE {
                            match (f1, f2, f3, f4) {
                                (Some(a), Some(b), Some(c), Some(d)) => Ok(
                                    (
                                        StatusView {
                                            uptime: a,
                                            interface: b,
                                            statistics: c,
                                            peers: d,
                                        },
                                        k1 + 1,
                                    ),
                                ),
                                _ => Err(DecodeError::MissingField),
                            }
                        } else {
                            Err(DecodeError::Unexpected)
                        }
                    },
                }
            },
        },
    }
}

/// The top-level status object starting at its opening brace.
pub open spec fn parse_status(s: Seq<u8>, i: int) -> Result<(StatusView, int), DecodeError> {
    match expect(s, i, LBRACE) {
        Err(e) => Err(e),
        Ok(j) => {
            let j1 = skip_ws(s, j);
            if 0 <= j1 < s.len() && s[j1] == RBRACE {
                Err(DecodeError::MissingField)
            } else {
                parse_status_fields(s, j1, None, None, None, None)
            }
        },
    }
}

/// What decoding a whole document yields: the status object with nothing
/// but whitespace around it, or the first error.
pub open spec fn spec_decode(s: Seq<u8>) -> Result<StatusView, DecodeError> {
    match parse_status(s, skip_ws(s, 0)) {
        Err(e) => Err(e),
        Ok((v, j)) => {
            if skip_ws(s, j) == s.len() {
                Ok(v)
            } else {
                Err(DecodeError::Unexpected)
            }
        },
    }
}


/// Exec mirror of `skip_ws`.
fn read_skip_ws(s: &Vec<u8>, i: usize) -> (j: usize)
    requires
        i <= s@.len(),
    ensures
        i <= j <= s@.len(),
        j as int == skip_ws(s@, i as int),
{
    let mut j: usize = i;
    while j < s.len() && ws_byte(s[j])
        invariant
            i <= j <= s@.len(),
            skip_ws(s@, i as int) == skip_ws(s@, j as int),
        decreases s@.len() - j,
    {
        proof {
            assert(skip_ws(s@, j as int) == skip_ws(s@, j + 1 as int));
        }
        j = j + 1;
    }
    proof {
        assert(skip_ws(s@, j as int) == j as int);
    }
    j
}

/// Exec mirror of `expect`.
fn read_expect(s: &Vec<u8>, i: usize, b: u8) -> (r: Result<usize, DecodeError>)
    requires
        i <= s@.len(),
    ensures
        match (r, expect(s@, i as int, b)) {
            (Ok(j), Ok(jj)) => j as int == jj && j <= s@.len(),
            (Err(e), Err(ee)) => e == ee,
            _ => false,
        },
{
    if i == s.len() {
        Err(DecodeError::Truncated)
    } else if s[i] == b {
        Ok(i + 1)
    } else {
        Err(DecodeError::Unexpected)
    }
}

/// Exec mirror of `parse_string`.
fn read_string(s: &Vec<u8>, i: usize) -> (r: Result<(Vec<u8>, usize), DecodeError>)
    requires
        i <= s@.len(),
    ensures
        match (r, parse_string(s@, i as int)) {
            (Ok((v, j)), Ok((vv, jj))) => v@ == vv && j as int == jj && j <= s@.len(),
            (Err(e), Err(ee)) => e == ee,
            _ => false,
        },
{
    if i == s.len() {
        return Err(DecodeError::Truncated);
    }
    if s[i] != QUOTE {
        return Err(DecodeError::Unexpected);
    }
    let mut acc: Vec<u8> = Vec::new();
    let mut j: usize = i + 1;
    loop
        invariant
            i < s@.len(),
            s@[i as int] == QUOTE,
            i + 1 <= j <= s@.len(),
            scan_string(s@, i + 1 as int, Seq::empty()) == scan_string(s@, j as int, acc@),
        decreases s@.len() - j,
    {
        if j == s.len() {
            return Err(DecodeError::Truncated);
        }
        let b = s[j];
        if b == QUOTE {
            return Ok((acc, j + 1));
        }
        if string_byte(b) {
            proof {
                assert(scan_string(s@, j as int, acc@) == scan_string(
                    s@,
                    j + 1 as int,
                    acc@.push(b),
                ));
            }
            acc.push(b);
            j = j + 1;
        } else {
            return Err(DecodeError::Unexpected);
        }
    }
}

/// Exec mirror of `acc_digit`.
fn fold_digit(acc: Option<u64>, b: u8) -> (r: Option<u64>)
    requires
        is_digit(b),
    ensures
        r == acc_digit(acc, b),
{
    match acc {
        Some(a) => {
            let d: u64 = (b - 0x30) as u64;
            match a.checked_mul(10) {
                None => None,
                Some(p) => p.checked_add(d),
            }
        },
        None => None,
    }
}

/// Exec mirror of `scan_digits`.
fn read_digits(s: &Vec<u8>, i: usize, acc: Option<u64>) -> (r: (Option<u64>, usize))
    requires
        i <= s@.len(),
    ensures
        i <= r.1 <= s@.len(),
        (r.0, r.1 as int) == scan_digits(s@, i as int, acc),
{
    let mut cur = acc;
    let mut j: usize = i;
    while j < s.len() && digit_byte(s[j])
        invariant
            i <= j <= s@.len(),
            scan_digits(s@, i as int, acc) == scan_digits(s@, j as int, cur),
        decreases s@.len() - j,
    {
        proof {
            assert(scan_digits(s@, j as int, cur) == scan_digits(
                s@,
                j + 1 as int,
                acc_digit(cur, s@[j as int]),
            ));
        }
        cur = fold_digit(cur, s[j]);
        j = j + 1;
    }
    proof {
        assert(scan_digits(s@, j as int, cur) == (cur, j as int));
    }
    (cur, j)
}

/// Exec mirror of `parse_number`.
fn read_number(s: &Vec<u8>, i: usize) -> (r: Result<(Decimal, usize), DecodeError>)
    requires
        i <= s@.len(),
    ensures
        match (r, parse_number(s@, i as int)) {
            (Ok((d, j)), Ok((dd, jj))) => d == dd && j as int == jj && j <= s@.len(),
            (Err(e), Err(ee)) => e == ee,
            _ => false,
        },
{
    if i == s.len() {
        return Err(DecodeError::Truncated);
    }
    if !digit_byte(s[i]) {
        return Err(DecodeError::Unexpected);
    }
    if s[i] == 0x30 && i + 1 < s.len() && digit_byte(s[i + 1]) {
        return Err(DecodeError::BadNumber);
    }
    let (acc, j) = read_digits(s, i, Some(0u64));
    if acc.is_none() {
        return Err(DecodeError::BadNumber);
    }
    if j < s.len() && s[j] == DOT {
        let (acc2, k) = read_digits(s, j + 1, acc);
        match acc2 {
            None => Err(DecodeError::BadNumber),
            Some(m) => {
                if k == j + 1 {
                    Err(DecodeError::BadNumber)
                } else if k - (j + 1) > MAX_FRAC as usize {
                    Err(DecodeError::BadNumber)
                } else {
                    Ok((Decimal { mantissa: m, frac: (k - (j + 1)) as u8 }, k))
                }
            },
        }
    } else {
        match acc {
            Some(m) => Ok((Decimal { mantissa: m, frac: 0 }, j)),
            None => Err(DecodeError::BadNumber),
        }
    }
}
/// Exec mirror of `parse_traffic_fields`.
fn read_traffic_fields(
    s: &Vec<u8>,
    i: usize,
    packets: Option<Decimal>,
    bytes: Option<Decimal>,
) -> (r: Result<(Traffic, usize), DecodeError>)
    requires
        i <= s@.len(),
    ensures
        match (r, parse_traffic_fields(s@, i as int, packets, bytes)) {
            (Ok((t, j)), Ok((tt, jj))) => t == tt && j as int == jj && j <= s@.len(),
            (Err(e), Err(ee)) => e == ee,
            _ => false,
        },
    decreases s@.len() - i,
{
    let key: Vec<u8>;
    let j: usize;
    match read_string(s, i) {
        Err(e) => {
            return Err(e);
        },
        Ok((k0, j0)) => {
            key = k0;
            j = j0;
        },
    }
    let j1 = read_skip_ws(s, j);
    let j2: usize;
    match read_expect(s, j1, COLON) {
        Err(e) => {
            return Err(e);
        },
        Ok(x) => {
            j2 = x;
        },
    }
    let jv = read_skip_ws(s, j2);
    let p2: Option<Decimal>;
    let b2: Option<Decimal>;
    let k: usize;
    if bytes_eq(&key, &kw_packets_v()) {
        if packets.is_some() {
            return Err(DecodeError::DuplicateField);
        }
        match read_number(s, jv) {
            Err(e) => {
                return Err(e);
            },
            Ok((d, kk)) => {
                p2 = Some(d);
                b2 = bytes;
                k = kk;
            },
        }
    } else if bytes_eq(&key, &kw_bytes_v()) {
        if bytes.is_some() {
            return Err(DecodeError::DuplicateField);
        }
        match read_number(s, jv) {
            Err(e) => {
                return Err(e);
            },
            Ok((d, kk)) => {
                p2 = packets;
                b2 = Some(d);
                k = kk;
            },
        }
    } else {
        return Err(DecodeError::UnknownField);
    }
    let k1 = read_skip_ws(s, k);
    if k1 == s.len() {
        return Err(DecodeError::Truncated);
    }
    if s[k1] == COMMA {
        let k2 = read_skip_ws(s, k1 + 1);
        if !(i < k2) {
            return Err(DecodeError::Truncated);
        }
        read_traffic_fields(s, k2, p2, b2)
    } else if s[k1] == RBRACE {
        match (p2, b2) {
            (Some(p), Some(b)) => Ok((Traffic { packets: p, bytes: b }, k1 + 1)),
            _ => Err(DecodeError::MissingField),
        }
    } else {
        Err(DecodeError::Unexpected)
    }
}

/// Exec mirror of `parse_traffic`.
fn read_traffic(s: &Vec<u8>, i: usize) -> (r: Result<(Traffic, usize), DecodeError>)
    requires
        i <= s@.len(),
    ensures
        match (r, parse_traffic(s@, i as int)) {
            (Ok((t, j)), Ok((tt, jj))) => t == tt && j as int == jj && j <= s@.len(),
            (Err(e), Err(ee)) => e == ee,
            _ => false,
        },
{
    let j: usize;
    match read_expect(s, i, LBRACE) {
        Err(e) => {
            return Err(e);
        },
        Ok(x) => {
            j = x;
        },
    }
    let j1 = read_skip_ws(s, j);
    if j1 < s.len() && s[j1] == RBRACE {
        Err(DecodeError::MissingField)
    } else {
        read_traffic_fields(s, j1, None, None)
    }
}

/// Exec mirror of `parse_stats_fields`.
#[verifier::rlimit(60)]
fn read_stats_fields(
    s: &Vec<u8>,
    i: usize,
    rx: Option<Traffic>,
    rx_reordered: Option<Traffic>,
    tx: Option<Traffic>,
    tx_dropped: Option<Traffic>,
    tx_error: Option<Traffic>,
) -> (r: Result<(Statistics, usize), DecodeError>)
    requires
        i <= s@.len(),
    ensures
        match (r, parse_stats_fields(s@, i as int, rx, rx_reordered, tx, tx_dropped, tx_error)) {
            (Ok((st, j)), Ok((tt, jj))) => st == tt && j as int == jj && j <= s@.len(),
            (Err(e), Err(ee)) => e == ee,
            _ => false,
        },
    decreases s@.len() - i,
{
    let key: Vec<u8>;
    let j: usize;
    match read_string(s, i) {
        Err(e) => {
            return Err(e);
        },
        Ok((k0, j0)) => {
            key = k0;
            j = j0;
        },
    }
    let j1 = read_skip_ws(s, j);
    let j2: usize;
    match read_expect(s, j1, COLON) {
        Err(e) => {
            return Err(e);
        },
        Ok(x) => {
            j2 = x;
        },
    }
    let jv = read_skip_ws(s, j2);
    let f1: Option<Traffic>;
    let f2: Option<Traffic>;
    let f3: Option<Traffic>;
    let f4: Option<Traffic>;
    let f5: Option<Traffic>;
    let k: usize;
    if bytes_eq(&key, &kw_rx_v()) {
        if rx.is_some() {
            return Err(DecodeError::DuplicateField);
        }
        match read_traffic(s, jv) {
            Err(e) => {
                return Err(e);
            },
            Ok((t, kk)) => {
                f1 = Some(t);
                f2 = rx_reordered;
                f3 = tx;
                f4 = tx_dropped;
                f5 = tx_error;
                k = kk;
            },
        }
    } else if bytes_eq(&key, &kw_rx_reordered_v()) {
        if rx_reordered.is_some() {
            return Err(DecodeError::DuplicateField);
        }
        match read_traffic(s, jv) {
            Err(e) => {
                return Err(e);
            },
            Ok((t, kk)) => {
                f1 = rx;
                f2 = Some(t);
                f3 = tx;
                f4 = tx_dropped;
                f5 = tx_error;
                k = kk;
            },
        }
    } else if bytes_eq(&key, &kw_tx_v()) {
        if tx.is_some() {
            return Err(DecodeError::DuplicateField);
        }
        match read_traffic(s, jv) {
            Err(e) => {
                return Err(e);
            },
            Ok((t, kk)) => {
                f1 = rx;
                f2 = rx_reordered;
                f3 = Some(t);
                f4 = tx_dropped;
                f5 = tx_error;
                k = kk;
            },
        }
    } else if bytes_eq(&key, &kw_tx_dropped_v()) {
        if tx_dropped.is_some() {
            return Err(DecodeError::DuplicateField);
        }
        match read_traffic(s, jv) {
            Err(e) => {
                return Err(e);
            },
            Ok((t, kk)) => {
                f1 = rx;
                f2 = rx_reordered;
                f3 = tx;
                f4 = Some(t);
                f5 = tx_error;
                k = kk;
            },
        }
    } else if bytes_eq(&key, &kw_tx_error_v()) {
        if tx_error.is_some() {
            return Err(DecodeError::DuplicateField);
        }
        match read_traffic(s, jv) {
            Err(e) => {
                return Err(e);
            },
            Ok((t, kk)) => {
                f1 = rx;
                f2 = rx_reordered;
                f3 = tx;
                f4 = tx_dropped;
                f5 = Some(t);
                k = kk;
            },
        }
    } else {
        return Err(DecodeError::UnknownField);
    }
    let k1 = read_skip_ws(s, k);
    if k1 == s.len() {
        return Err(DecodeError::Truncated);
    }
    if s[k1] == COMMA {
        let k2 = read_skip_ws(s, k1 + 1);
        if !(i < k2) {
            return Err(DecodeError::Truncated);
        }
        read_stats_fields(s, k2, f1, f2, f3, f4, f5)
    } else if s[k1] == RBRACE {
        match (f1, f2, f3, f4, f5) {
            (Some(a), Some(b), Some(c), Some(d), Some(e)) => Ok(
                (Statistics { rx: a, rx_reordered: b, tx: c, tx_dropped: d, tx_error: e }, k1 + 1),
            ),
            _ => Err(DecodeError::MissingField),
        }
    } else {
        Err(DecodeError::Unexpected)
    }
}

/// Exec mirror of `parse_stats`.
fn read_stats(s: &Vec<u8>, i: usize) -> (r: Result<(Statistics, usize), DecodeError>)
    requires
        i <= s@.len(),
    ensures
        match (r, parse_stats(s@, i as int)) {
            (Ok((st, j)), Ok((tt, jj))) => st == tt && j as int == jj && j <= s@.len(),
            (Err(e), Err(ee)) => e == ee,
            _ => false,
        },
{
    let j: usize;
    match read_expect(s, i, LBRACE) {
        Err(e) => {
            return Err(e);
        },
        Ok(x) => {
            j = x;
        },
    }
    let j1 = read_skip_ws(s, j);
    if j1 < s.len() && s[j1] == RBRACE {
        Err(DecodeError::MissingField)
    } else {
        read_stats_fields(s, j1, None, None, None, None, None)
    }
}
/// Slot view: a byte-string field seen so far.
pub open spec fn opt_bytes_view(o: Option<Vec<u8>>) -> Option<Seq<u8>> {
    match o {
        Some(v) => Some(v@),
        None => None,
    }
}

/// Slot view: a `mac_addresses` field seen so far.
pub open spec fn opt_macs_view(o: Option<Vec<Vec<u8>>>) -> Option<Seq<Seq<u8>>> {
    match o {
        Some(v) => Some(macs_view(v@)),
        None => None,
    }
}

/// Slot view: a `connection` field seen so far (seen and null is
/// `Some(None)`).
pub open spec fn opt_conn_view(o: Option<Option<Connection>>) -> Option<Option<ConnectionView>> {
    match o {
        Some(Some(c)) => Some(Some(c@)),
        Some(None) => Some(None),
        None => None,
    }
}

/// Slot view: a `peers` field seen so far.
pub open spec fn opt_peers_view(o: Option<Vec<(Vec<u8>, Peer)>>) -> Option<
    Seq<(Seq<u8>, PeerView)>,
> {
    match o {
        Some(v) => Some(peers_view(v@)),
        None => None,
    }
}

/// Exec mirror of `parse_macs_items`.
fn read_macs_items(s: &Vec<u8>, i: usize, acc: Vec<Vec<u8>>) -> (r: Result<
    (Vec<Vec<u8>>, usize),
    DecodeError,
>)
    requires
        i <= s@.len(),
    ensures
        match (r, parse_macs_items(s@, i as int, macs_view(acc@))) {
            (Ok((v, j)), Ok((vv, jj))) => macs_view(v@) == vv && j as int == jj && j <= s@.len(),
            (Err(e), Err(ee)) => e == ee,
            _ => false,
        },
    decreases s@.len() - i,
{
    let ghost acc0 = macs_view(acc@);
    let mut acc = acc;
    let m: Vec<u8>;
    let j: usize;
    match read_string(s, i) {
        Err(e) => {
            return Err(e);
        },
        Ok((m0, j0)) => {
            m = m0;
            j = j0;
        },
    }
    proof {
        assert(macs_view(acc@.push(m)) =~= acc0.push(m@));
    }
    acc.push(m);
    let k1 = read_skip_ws(s, j);
    if k1 == s.len() {
        return Err(DecodeError::Truncated);
    }
    if s[k1] == COMMA {
        let k2 = read_skip_ws(s, k1 + 1);
        if !(i < k2) {
            return Err(DecodeError::Truncated);
        }
        read_macs_items(s, k2, acc)
    } else if s[k1] == RBRACKET {
        Ok((acc, k1 + 1))
    } else {
        Err(DecodeError::Unexpected)
    }
}

/// Exec mirror of `parse_macs`.
fn read_macs(s: &Vec<u8>, i: usize) -> (r: Result<(Vec<Vec<u8>>, usize), DecodeError>)
    requires
        i <= s@.len(),
    ensures
        match (r, parse_macs(s@, i as int)) {
            (Ok((v, j)), Ok((vv, jj))) => macs_view(v@) == vv && j as int == jj && j <= s@.len(),
            (Err(e), Err(ee)) => e == ee,
            _ => false,
        },
{
    let j: usize;
    match read_expect(s, i, LBRACKET) {
        Err(e) => {
            return Err(e);
        },
        Ok(x) => {
            j = x;
        },
    }
    let j1 = read_skip_ws(s, j);
    let empty: Vec<Vec<u8>> = Vec::new();
    proof {
        assert(macs_view(empty@) =~= Seq::<Seq<u8>>::empty());
    }
    if j1 < s.len() && s[j1] == RBRACKET {
        Ok((empty, j1 + 1))
    } else {
        read_macs_items(s, j1, empty)
    }
}

/// Exec mirror of `parse_connection_fields`.
fn read_connection_fields(
    s: &Vec<u8>,
    i: usize,
    established: Option<Decimal>,
    method: Option<Vec<u8>>,
    statistics: Option<Statistics>,
    mac_addresses: Option<Vec<Vec<u8>>>,
) -> (r: Result<(Connection, usize), DecodeError>)
    requires
        i <= s@.len(),
    ensures
        match (r,
            parse_connection_fields(
                s@,
                i as int,
                established,
                opt_bytes_view(method),
                statistics,
                opt_macs_view(mac_addresses),
            )) {
            (Ok((c, j)), Ok((cc, jj))) => c@ == cc && j as int == jj && j <= s@.len(),
            (Err(e), Err(ee)) => e == ee,
            _ => false,
        },
    decreases s@.len() - i,
{
    let key: Vec<u8>;
    let j: usize;
    match read_string(s, i) {
        Err(e) => {
            return Err(e);
        },
        Ok((k0, j0)) => {
            key = k0;
            j = j0;
        },
    }
    let j1 = read_skip_ws(s, j);
    let j2: usize;
    match read_expect(s, j1, COLON) {
        Err(e) => {
            return Err(e);
        },
        Ok(x) => {
            j2 = x;
        },
    }
    let jv = read_skip_ws(s, j2);
    let f1: Option<Decimal>;
    let f2: Option<Vec<u8>>;
    let f3: Option<Statistics>;
    let f4: Option<Vec<Vec<u8>>>;
    let k: usize;
    if bytes_eq(&key, &kw_established_v()) {
        if established.is_some() {
            return Err(DecodeError::DuplicateField);
        }
        match read_number(s, jv) {
            Err(e) => {
                return Err(e);
            },
            Ok((d, kk)) => {
                f1 = Some(d);
                f2 = method;
                f3 = statistics;
                f4 = mac_addresses;
                k = kk;
            },
        }
    } else if bytes_eq(&key, &kw_method_v()) {
        if method.is_some() {
            return Err(DecodeError::DuplicateField);
        }
        match read_string(s, jv) {
            Err(e) => {
                return Err(e);
            },
            Ok((m, kk)) => {
                f1 = established;
                f2 = Some(m);
                f3 = statistics;
                f4 = mac_addresses;
                k = kk;
            },
        }
    } else if bytes_eq(&key, &kw_statistics_v()) {
        if statistics.is_some() {
            return Err(DecodeError::DuplicateField);
        }
        match read_stats(s, jv) {
            Err(e) => {
                return Err(e);
            },
            Ok((st, kk)) => {
                f1 = established;
                f2 = method;
                f3 = Some(st);
                f4 = mac_addresses;
                k = kk;
            },
        }
    } else if bytes_eq(&key, &kw_mac_addresses_v()) {
        if mac_addresses.is_some() {
            return Err(DecodeError::DuplicateField);
        }
        match read_macs(s, jv) {
            Err(e) => {
                return Err(e);
            },
            Ok((ms, kk)) => {
                f1 = established;
                f2 = method;
                f3 = statistics;
                f4 = Some(ms);
                k = kk;
            },
        }
    } else {
        return Err(DecodeError::UnknownField);
    }
    let k1 = read_skip_ws(s, k);
    if k1 == s.len() {
        return Err(DecodeError::Truncated);
    }
    if s[k1] == COMMA {
        let k2 = read_skip_ws(s, k1 + 1);
        if !(i < k2) {
            return Err(DecodeError::Truncated);
        }
        read_connection_fields(s, k2, f1, f2, f3, f4)
    } else if s[k1] == RBRACE {
        match (f1, f2, f3, f4) {
            (Some(a), Some(b), Some(c), Some(d)) => Ok(
                (Connection { established: a, method: b, statistics: c, mac_addresses: d }, k1 + 1),
            ),
            _ => Err(DecodeError::MissingField),
        }
    } else {
        Err(DecodeError::Unexpected)
    }
}

/// Exec mirror of `parse_connection`.
fn read_connection(s: &Vec<u8>, i: usize) -> (r: Result<(Connection, usize), DecodeError>)
    requires
        i <= s@.len(),
    ensures
        match (r, parse_connection(s@, i as int)) {
            (Ok((c, j)), Ok((cc, jj))) => c@ == cc && j as int == jj && j <= s@.len(),
            (Err(e), Err(ee)) => e == ee,
            _ => false,
        },
{
    let j: usize;
    match read_expect(s, i, LBRACE) {
        Err(e) => {
            return Err(e);
        },
        Ok(x) => {
            j = x;
        },
    }
    let j1 = read_skip_ws(s, j);
    if j1 < s.len() && s[j1] == RBRACE {
        Err(DecodeError::MissingField)
    } else {
        read_connection_fields(s, j1, None, None, None, None)
    }
}

/// Exec mirror of `parse_opt_connection`.
fn read_opt_connection(s: &Vec<u8>, i: usize) -> (r: Result<
    (Option<Connection>, usize),
    DecodeError,
>)
    requires
        i <= s@.len(),
    ensures
        match (r, parse_opt_connection(s@, i as int)) {
            (Ok((c, j)), Ok((cc, jj))) => opt_conn_view(Some(c)) == Some(cc) && j as int == jj && j
                <= s@.len(),
            (Err(e), Err(ee)) => e == ee,
            _ => false,
        },
{
    if i == s.len() {
        return Err(DecodeError::Truncated);
    }
    if s[i] == 0x6e {
        if s.len() - i >= 4 && s[i + 1] == 0x75 && s[i + 2] == 0x6c && s[i + 3] == 0x6c {
            Ok((None, i + 4))
        } else {
            Err(DecodeError::Unexpected)
        }
    } else {
        match read_connection(s, i) {
            Err(e) => Err(e),
            Ok((c, j)) => Ok((Some(c), j)),
        }
    }
}

/// Exec mirror of `parse_peer_fields`.
fn read_peer_fields(
    s: &Vec<u8>,
    i: usize,
    name: Option<Vec<u8>>,
    address: Option<Vec<u8>>,
    connection: Option<Option<Connection>>,
) -> (r: Result<(Peer, usize), DecodeError>)
    requires
        i <= s@.len(),
    ensures
        match (r,
            parse_peer_fields(
                s@,
                i as int,
                opt_bytes_view(name),
                opt_bytes_view(address),
                opt_conn_view(connection),
            )) {
            (Ok((p, j)), Ok((pp, jj))) => p@ == pp && j as int == jj && j <= s@.len(),
            (Err(e), Err(ee)) => e == ee,
            _ => false,
        },
    decreases s@.len() - i,
{
    let key: Vec<u8>;
    let j: usize;
    match read_string(s, i) {
        Err(e) => {
            return Err(e);
        },
        Ok((k0, j0)) => {
            key = k0;
            j = j0;
        },
    }
    let j1 = read_skip_ws(s, j);
    let j2: usize;
    match read_expect(s, j1, COLON) {
        Err(e) => {
            return Err(e);
        },
        Ok(x) => {
            j2 = x;
        },
    }
    let jv = read_skip_ws(s, j2);
    let f1: Option<Vec<u8>>;
    let f2: Option<Vec<u8>>;
    let f3: Option<Option<Connection>>;
    let k: usize;
    if bytes_eq(&key, &kw_name_v()) {
        if name.is_some() {
            return Err(DecodeError::DuplicateField);
        }
        match read_string(s, jv) {
            Err(e) => {
                return Err(e);
            },
            Ok((n, kk)) => {
                f1 = Some(n);
                f2 = address;
                f3 = connection;
                k = kk;
            },
        }
    } else if bytes_eq(&key, &kw_address_v()) {
        if address.is_some() {
            return Err(DecodeError::DuplicateField);
        }
        match read_string(s, jv) {
            Err(e) => {
                return Err(e);
            },
            Ok((a, kk)) => {
                f1 = name;
                f2 = Some(a);
                f3 = connection;
                k = kk;
            },
        }
    } else if bytes_eq(&key, &kw_connection_v()) {
        if connection.is_some() {
            return Err(DecodeError::DuplicateField);
        }
        match read_opt_connection(s, jv) {
            Err(e) => {
                return Err(e);
            },
            Ok((c, kk)) => {
                f1 = name;
                f2 = address;
                f3 = Some(c);
                k = kk;
            },
        }
    } else {
        return Err(DecodeError::UnknownField);
    }
    let k1 = read_skip_ws(s, k);
    if k1 == s.len() {
        return Err(DecodeError::Truncated);
    }
    if s[k1] == COMMA {
        let k2 = read_skip_ws(s, k1 + 1);
        if !(i < k2) {
            return Err(DecodeError::Truncated);
        }
        read_peer_fields(s, k2, f1, f2, f3)
    } else if s[k1] == RBRACE {
        match (f1, f2) {
            (Some(n), Some(a)) => {
                let conn: Option<Connection> = match f3 {
                    Some(c) => c,
                    None => None,
                };
                Ok((Peer { name: n, address: a, connection: conn }, k1 + 1))
            },
            _ => Err(DecodeError::MissingField),
        }
    } else {
        Err(DecodeError::Unexpected)
    }
}

/// Exec mirror of `parse_peer`.
fn read_peer(s: &Vec<u8>, i: usize) -> (r: Result<(Peer, usize), DecodeError>)
    requires
        i <= s@.len(),
    ensures
        match (r, parse_peer(s@, i as int)) {
            (Ok((p, j)), Ok((pp, jj))) => p@ == pp && j as int == jj && j <= s@.len(),
            (Err(e), Err(ee)) => e == ee,
            _ => false,
        },
{
    let j: usize;
    match read_expect(s, i, LBRACE) {
        Err(e) => {
            return Err(e);
        },
        Ok(x) => {
            j = x;
        },
    }
    let j1 = read_skip_ws(s, j);
    if j1 < s.len() && s[j1] == RBRACE {
        Err(DecodeError::MissingField)
    } else {
        read_peer_fields(s, j1, None, None, None)
    }
}

/// Whether the table read so far already holds `key`.
fn contains_key(acc: &Vec<(Vec<u8>, Peer)>, key: &Vec<u8>) -> (r: bool)
    ensures
        r == peers_contain(peers_view(acc@), key@),
{
    let mut t: usize = 0;
    while t < acc.len()
        invariant
            0 <= t <= acc@.len(),
            forall|q: int| 0 <= q < t ==> acc@[q].0@ != key@,
        decreases acc@.len() - t,
    {
        let pair = &acc[t];
        if bytes_eq(&pair.0, key) {
            proof {
                assert(peers_view(acc@)[t as int].0 == acc@[t as int].0@);
            }
            return true;
        }
        t = t + 1;
    }
    proof {
        assert forall|q: int| 0 <= q < peers_view(acc@).len() implies peers_view(acc@)[q].0
            != key@ by {
            assert(peers_view(acc@)[q].0 == acc@[q].0@);
        }
    }
    false
}

/// Exec mirror of `parse_peers_fields`.
fn read_peers_fields(s: &Vec<u8>, i: usize, acc: Vec<(Vec<u8>, Peer)>) -> (r: Result<
    (Vec<(Vec<u8>, Peer)>, usize),
    DecodeError,
>)
    requires
        i <= s@.len(),
    ensures
        match (r, parse_peers_fields(s@, i as int, peers_view(acc@))) {
            (Ok((v, j)), Ok((vv, jj))) => peers_view(v@) == vv && j as int == jj && j <= s@.len(),
            (Err(e), Err(ee)) => e == ee,
            _ => false,
        },
    decreases s@.len() - i,
{
    let ghost acc0 = peers_view(acc@);
    let mut acc = acc;
    let key: Vec<u8>;
    let j: usize;
    match read_string(s, i) {
        Err(e) => {
            return Err(e);
        },
        Ok((k0, j0)) => {
            key = k0;
            j = j0;
        },
    }
    if contains_key(&acc, &key) {
        return Err(DecodeError::DuplicateField);
    }
    let j1 = read_skip_ws(s, j);
    let j2: usize;
    match read_expect(s, j1, COLON) {
        Err(e) => {
            return Err(e);
        },
        Ok(x) => {
            j2 = x;
        },
    }
    let jv = read_skip_ws(s, j2);
    let p: Peer;
    let k: usize;
    match read_peer(s, jv) {
        Err(e) => {
            return Err(e);
        },
        Ok((p0, k0)) => {
            p = p0;
            k = k0;
        },
    }
    proof {
        assert(peers_view(acc@.push((key, p))) =~= acc0.push((key@, p@)));
    }
    acc.push((key, p));
    let k1 = read_skip_ws(s, k);
    if k1 == s.len() {
        return Err(DecodeError::Truncated);
    }
    if s[k1] == COMMA {
        let k2 = read_skip_ws(s, k1 + 1);
        if !(i < k2) {
            return Err(DecodeError::Truncated);
        }
        read_peers_fields(s, k2, acc)
    } else if s[k1] == RBRACE {
        Ok((acc, k1 + 1))
    } else {
        Err(DecodeError::Unexpected)
    }
}

/// Exec mirror of `parse_peers`.
fn read_peers(s: &Vec<u8>, i: usize) -> (r: Result<(Vec<(Vec<u8>, Peer)>, usize), DecodeError>)
    requires
        i <= s@.len(),
    ensures
        match (r, parse_peers(s@, i as int)) {
            (Ok((v, j)), Ok((vv, jj))) => peers_view(v@) == vv && j as int == jj && j <= s@.len(),
            (Err(e), Err(ee)) => e == ee,
            _ => false,
        },
{
    let j: usize;
    match read_expect(s, i, LBRACE) {
        Err(e) => {
            return Err(e);
        },
        Ok(x) => {
            j = x;
        },
    }
    let j1 = read_skip_ws(s, j);
    let empty: Vec<(Vec<u8>, Peer)> = Vec::new();
    proof {
        assert(peers_view(empty@) =~= Seq::<(Seq<u8>, PeerView)>::empty());
    }
    if j1 < s.len() && s[j1] == RBRACE {
        Ok((empty, j1 + 1))
    } else {
        read_peers_fields(s, j1, empty)
    }
}

/// Exec mirror of `parse_status_fields`.
fn read_status_fields(
    s: &Vec<u8>,
    i: usize,
    uptime: Option<Decimal>,
    interface: Option<Vec<u8>>,
    statistics: Option<Statistics>,
    peers: Option<Vec<(Vec<u8>, Peer)>>,
) -> (r: Result<(FastdStatus, usize), DecodeError>)
    requires
        i <= s@.len(),
    ensures
        match (r,
            parse_status_fields(
                s@,
                i as int,
                uptime,
                opt_bytes_view(interface),
                statistics,
                opt_peers_view(peers),
            )) {
            (Ok((st, j)), Ok((tt, jj))) => st@ == tt && j as int == jj && j <= s@.len(),
            (Err(e), Err(ee)) => e == ee,
            _ => false,
        },
    decreases s@.len() - i,
{
    let key: Vec<u8>;
    let j: usize;
    match read_string(s, i) {
        Err(e) => {
            return Err(e);
        },
        Ok((k0, j0)) => {
            key = k0;
            j = j0;
        },
    }
    let j1 = read_skip_ws(s, j);
    let j2: usize;
    match read_expect(s, j1, COLON) {
        Err(e) => {
            return Err(e);
        },
        Ok(x) => {
            j2 = x;
        },
    }
    let jv = read_skip_ws(s, j2);
    let f1: Option<Decimal>;
    let f2: Option<Vec<u8>>;
    let f3: Option<Statistics>;
    let f4: Option<Vec<(Vec<u8>, Peer)>>;
    let k: usize;
    if bytes_eq(&key, &kw_uptime_v()) {
        if uptime.is_some() {
            return Err(DecodeError::DuplicateField);
        }
        match read_number(s, jv) {
            Err(e) => {
                return Err(e);
            },
            Ok((d, kk)) => {
                f1 = Some(d);
                f2 = interface;
                f3 = statistics;
                f4 = peers;
                k = kk;
            },
        }
    } else if bytes_eq(&key, &kw_interface_v()) {
        if interface.is_some() {
            return Err(DecodeError::DuplicateField);
        }
        match read_string(s, jv) {
            Err(e) => {
                return Err(e);
            },
            Ok((n, kk)) => {
                f1 = uptime;
                f2 = Some(n);
                f3 = statistics;
                f4 = peers;
                k = kk;
            },
        }
    } else if bytes_eq(&key, &kw_statistics_v()) {
        if statistics.is_some() {
            return Err(DecodeError::DuplicateField);
        }
        match read_stats(s, jv) {
            Err(e) => {
                return Err(e);
            },
            Ok((st, kk)) => {
                f1 = uptime;
                f2 = interface;
                f3 = Some(st);
                f4 = peers;
                k = kk;
            },
        }
    } else if bytes_eq(&key, &kw_peers_v()) {
        if peers.is_some() {
            return Err(DecodeError::DuplicateField);
        }
        match read_peers(s, jv) {
            Err(e) => {
                return Err(e);
            },
            Ok((ps, kk)) => {
                f1 = uptime;
                f2 = interface;
                f3 = statistics;
                f4 = Some(ps);
                k = kk;
            },
        }
    } else {
        return Err(DecodeError::UnknownField);
    }
    let k1 = read_skip_ws(s, k);
    if k1 == s.len() {
        return Err(DecodeError::Truncated);
    }
    if s[k1] == COMMA {
        let k2 = read_skip_ws(s, k1 + 1);
        if !(i < k2) {
            return Err(DecodeError::Truncated);
        }
        read_status_fields(s, k2, f1, f2, f3, f4)
    } else if s[k1] == RBRACE {
        match (f1, f2, f3, f4) {
            (Some(a), Some(b), Some(c), Some(d)) => Ok(
                (FastdStatus { uptime: a, interface: b, statistics: c, peers: d }, k1 + 1),
            ),
            _ => Err(DecodeError::MissingField),
        }
    } else {
        Err(DecodeError::Unexpected)
    }
}

/// Exec mirror of `parse_status`.
fn read_status(s: &Vec<u8>, i: usize) -> (r: Result<(FastdStatus, usize), DecodeError>)
    requires
        i <= s@.len(),
    ensures
        match (r, parse_status(s@, i as int)) {
            (Ok((st, j)), Ok((tt, jj))) => st@ == tt && j as int == jj && j <= s@.len(),
            (Err(e), Err(ee)) => e == ee,
            _ => false,
        },
{
    let j: usize;
    match read_expect(s, i, LBRACE) {
        Err(e) => {
            return Err(e);
        },
        Ok(x) => {
            j = x;
        },
    }
    let j1 = read_skip_ws(s, j);
    if j1 < s.len() && s[j1] == RBRACE {
        Err(DecodeError::MissingField)
    } else {
        read_status_fields(s, j1, None, None, None, None)
    }
}
/// The peer-table parser keeps keys pairwise distinct: it refuses a key it
/// has already collected.
proof fn lemma_peers_fields_distinct(s: Seq<u8>, i: int, acc: Seq<(Seq<u8>, PeerView)>)
    requires
        forall|a: int, b: int| 0 <= a < b < acc.len() ==> acc[a].0 != acc[b].0,
    ensures
        parse_peers_fields(s, i, acc) matches Ok((ps, j)) ==> forall|a: int, b: int|
            0 <= a < b < ps.len() ==> ps[a].0 != ps[b].0,
    decreases s.len() - i,
{
    match parse_string(s, i) {
        Err(_) => {},
        Ok((key, j)) => {
            if !peers_contain(acc, key) {
                match expect(s, skip_ws(s, j), COLON) {
                    Err(_) => {},
                    Ok(j2) => {
                        let jv = skip_ws(s, j2);
                        match parse_peer(s, jv) {
                            Err(_) => {},
                            Ok((p, k)) => {
                                let acc2 = acc.push((key, p));
                                assert forall|a: int, b: int|
                                    0 <= a < b < acc2.len() implies acc2[a].0 != acc2[b].0 by {
                                    if b < acc.len() {
                                    } else {
                                        assert(acc2[a].0 == acc[a].0);
                                    }
                                }
                                let k1 = skip_ws(s, k);
                                if 0 <= k1 < s.len() && s[k1] == COMMA {
                                    let k2 = skip_ws(s, k1 + 1);
                                    if i < k2 <= s.len() {
                                        lemma_peers_fields_distinct(s, k2, acc2);
                                    }
                                }
                            },
                        }
                    },
                }
            }
        },
    }
}

/// A parsed peer table has pairwise distinct keys.
proof fn lemma_parse_peers_distinct(s: Seq<u8>, i: int)
    ensures
        parse_peers(s, i) matches Ok((ps, j)) ==> forall|a: int, b: int|
            0 <= a < b < ps.len() ==> ps[a].0 != ps[b].0,
{
    match expect(s, i, LBRACE) {
        Err(_) => {},
        Ok(j) => {
            let j1 = skip_ws(s, j);
            if !(0 <= j1 < s.len() && s[j1] == RBRACE) {
                lemma_peers_fields_distinct(s, j1, Seq::empty());
            }
        },
    }
}

/// A parsed status object is well-formed: its peer table came out of the
/// peer-table parser.
proof fn lemma_status_fields_wf(
    s: Seq<u8>,
    i: int,
    uptime: Option<Decimal>,
    interface: Option<Seq<u8>>,
    statistics: Option<Statistics>,
    peers: Option<Seq<(Seq<u8>, PeerView)>>,
)
    requires
        peers matches Some(ps) ==> forall|a: int, b: int|
            0 <= a < b < ps.len() ==> ps[a].0 != ps[b].0,
    ensures
        parse_status_fields(s, i, uptime, interface, statistics, peers) matches Ok((v, j))
            ==> wf_status(v),
    decreases s.len() - i,
{
    match parse_string(s, i) {
        Err(_) => {},
        Ok((key, j)) => match expect(s, skip_ws(s, j), COLON) {
            Err(_) => {},
            Ok(j2) => {
                let jv = skip_ws(s, j2);
                if key == kw_peers() && peers is None {
                    lemma_parse_peers_distinct(s, jv);
                }
                let stepped = spec_status_step(s, jv, key, uptime, interface, statistics, peers);
                match stepped {
                    Err(_) => {},
                    Ok((f1, f2, f3, f4, k)) => {
                        let k1 = skip_ws(s, k);
                        if 0 <= k1 < s.len() && s[k1] == COMMA {
                            let k2 = skip_ws(s, k1 + 1);
                            if i < k2 <= s.len() {
                                lemma_status_fields_wf(s, k2, f1, f2, f3, f4);
                            }
                        }
                    },
                }
            },
        },
    }
}

/// Decoding yields only well-formed snapshots.
pub proof fn lemma_decode_wf(s: Seq<u8>)
    ensures
        spec_decode(s) matches Ok(v) ==> wf_status(v),
{
    match expect(s, skip_ws(s, 0), LBRACE) {
        Err(_) => {},
        Ok(j) => {
            let j1 = skip_ws(s, j);
            if !(0 <= j1 < s.len() && s[j1] == RBRACE) {
                lemma_status_fields_wf(s, j1, None, None, None, None);
            }
        },
    }
}

/// Decode one raw status document. The result is exactly what
/// `spec_decode` describes of the bytes; a decoded snapshot is always
/// well-formed.
pub fn decode(bytes: &Vec<u8>) -> (r: Result<FastdStatus, DecodeError>)
    ensures
        match (r, spec_decode(bytes@)) {
            (Ok(st), Ok(v)) => st@ == v,
            (Err(e), Err(ee)) => e == ee,
            _ => false,
        },
        r matches Ok(st) ==> wf_status(st@),
{
    proof {
        lemma_decode_wf(bytes@);
    }
    let i = read_skip_ws(bytes, 0);
    match read_status(bytes, i) {
        Err(e) => Err(e),
        Ok((st, j)) => {
            let k = read_skip_ws(bytes, j);
            if k == bytes.len() {
                Ok(st)
            } else {
                Err(DecodeError::Unexpected)
            }
        },
    }
}

} // verus!
