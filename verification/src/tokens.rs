//! Byte-level vocabulary of the status-document grammar: significant
//! bytes, byte classes, and the field names of the closed schema.

use vstd::prelude::*;

verus! {

pub const QUOTE: u8 = 0x22;
pub const BACKSLASH: u8 = 0x5c;
pub const LBRACE: u8 = 0x7b;
pub const RBRACE: u8 = 0x7d;
pub const LBRACKET: u8 = 0x5b;
pub const RBRACKET: u8 = 0x5d;
pub const COLON: u8 = 0x3a;
pub const COMMA: u8 = 0x2c;
pub const DOT: u8 = 0x2e;

/// Insignificant whitespace between tokens.
pub open spec fn is_ws(b: u8) -> bool {
    b == 0x20 || b == 0x09 || b == 0x0a || b == 0x0d
}

/// An ASCII decimal digit.
pub open spec fn is_digit(b: u8) -> bool {
    0x30 <= b <= 0x39
}

/// A byte that may stand unescaped inside a string: anything but a control
/// byte, the closing quote, and the escape character. Multi-byte characters
/// pass through verbatim.
pub open spec fn is_string_byte(b: u8) -> bool {
    0x20 <= b && b != QUOTE && b != BACKSLASH
}

/// Exec mirror of `is_ws`.
pub fn ws_byte(b: u8) -> (r: bool)
    ensures
        r == is_ws(b),
{
    b == 0x20 || b == 0x09 || b == 0x0a || b == 0x0d
}

/// Exec mirror of `is_digit`.
pub fn digit_byte(b: u8) -> (r: bool)
    ensures
        r == is_digit(b),
{
    0x30 <= b && b <= 0x39
}

/// Exec mirror of `is_string_byte`.
pub fn string_byte(b: u8) -> (r: bool)
    ensures
        r == is_string_byte(b),
{
    0x20 <= b && b != QUOTE && b != BACKSLASH
}

/// Byte-wise equality of two byte strings.
pub fn bytes_eq(a: &Vec<u8>, b: &Vec<u8>) -> (r: bool)
    ensures
        r == (a@ == b@),
{
    if a.len() != b.len() {
        assert(a@ != b@) by {
            assert(a@.len() != b@.len());
        }
        return false;
    }
    let n = a.len();
    let mut i: usize = 0;
    while i < n
        invariant
            n == a@.len() == b@.len(),
            0 <= i <= n,
            forall|k: int| 0 <= k < i ==> a@[k] == b@[k],
        decreases n - i,
    {
        if a[i] != b[i] {
            return false;
        }
        i = i + 1;
    }
    proof {
        assert(a@ =~= b@);
    }
    true
}

/// The field name `uptime` as document bytes.
pub open spec fn kw_uptime() -> Seq<u8> {
    seq![0x75u8, 0x70, 0x74, 0x69, 0x6d, 0x65]
}

/// Exec copy of `kw_uptime`.
pub fn kw_uptime_v() -> (r: Vec<u8>)
    ensures
        r@ == kw_uptime(),
{
    let mut r: Vec<u8> = Vec::new();
    r.push(0x75);
    r.push(0x70);
    r.push(0x74);
    r.push(0x69);
    r.push(0x6d);
    r.push(0x65);
    proof {
        assert(r@ =~= kw_uptime());
    }
    r
}

/// The field name `interface` as document bytes.
pub open spec fn kw_interface() -> Seq<u8> {
    seq![0x69u8, 0x6e, 0x74, 0x65, 0x72, 0x66, 0x61, 0x63, 0x65]
}

/// Exec copy of `kw_interface`.
pub fn kw_interface_v() -> (r: Vec<u8>)
    ensures
        r@ == kw_interface(),
{
    let mut r: Vec<u8> = Vec::new();
    r.push(0x69);
    r.push(0x6e);
    r.push(0x74);
    r.push(0x65);
    r.push(0x72);
    r.push(0x66);
    r.push(0x61);
    r.push(0x63);
    r.push(0x65);
    proof {
        assert(r@ =~= kw_interface());
    }
    r
}

/// The field name `statistics` as document bytes.
pub open spec fn kw_statistics() -> Seq<u8> {
    seq![0x73u8, 0x74, 0x61, 0x74, 0x69, 0x73, 0x74, 0x69, 0x63, 0x73]
}

/// Exec copy of `kw_statistics`.
pub fn kw_statistics_v() -> (r: Vec<u8>)
    ensures
        r@ == kw_statistics(),
{
    let mut r: Vec<u8> = Vec::new();
    r.push(0x73);
    r.push(0x74);
    r.push(0x61);
    r.push(0x74);
    r.push(0x69);
    r.push(0x73);
    r.push(0x74);
    r.push(0x69);
    r.push(0x63);
    r.push(0x73);
    proof {
        assert(r@ =~= kw_statistics());
    }
    r
}

/// The field name `peers` as document bytes.
pub open spec fn kw_peers() -> Seq<u8> {
    seq![0x70u8, 0x65, 0x65, 0x72, 0x73]
}

/// Exec copy of `kw_peers`.
pub fn kw_peers_v() -> (r: Vec<u8>)
    ensures
        r@ == kw_peers(),
{
    let mut r: Vec<u8> = Vec::new();
    r.push(0x70);
    r.push(0x65);
    r.push(0x65);
    r.push(0x72);
    r.push(0x73);
    proof {
        assert(r@ =~= kw_peers());
    }
    r
}

/// The field name `name` as document bytes.
pub open spec fn kw_name() -> Seq<u8> {
    seq![0x6eu8, 0x61, 0x6d, 0x65]
}

/// Exec copy of `kw_name`.
pub fn kw_name_v() -> (r: Vec<u8>)
    ensures
        r@ == kw_name(),
{
    let mut r: Vec<u8> = Vec::new();
    r.push(0x6e);
    r.push(0x61);
    r.push(0x6d);
    r.push(0x65);
    proof {
        assert(r@ =~= kw_name());
    }
    r
}

/// The field name `address` as document bytes.
pub open spec fn kw_address() -> Seq<u8> {
    seq![0x61u8, 0x64, 0x64, 0x72, 0x65, 0x73, 0x73]
}

/// Exec copy of `kw_address`.
pub fn kw_address_v() -> (r: Vec<u8>)
    ensures
        r@ == kw_address(),
{
    let mut r: Vec<u8> = Vec::new();
    r.push(0x61);
    r.push(0x64);
    r.push(0x64);
    r.push(0x72);
    r.push(0x65);
    r.push(0x73);
    r.push(0x73);
    proof {
        assert(r@ =~= kw_address());
    }
    r
}

/// The field name `connection` as document bytes.
pub open spec fn kw_connection() -> Seq<u8> {
    seq![0x63u8, 0x6f, 0x6e, 0x6e, 0x65, 0x63, 0x74, 0x69, 0x6f, 0x6e]
}

/// Exec copy of `kw_connection`.
pub fn kw_connection_v() -> (r: Vec<u8>)
    ensures
        r@ == kw_connection(),
{
    let mut r: Vec<u8> = Vec::new();
    r.push(0x63);
    r.push(0x6f);
    r.push(0x6e);
    r.push(0x6e);
    r.push(0x65);
    r.push(0x63);
    r.push(0x74);
    r.push(0x69);
    r.push(0x6f);
    r.push(0x6e);
    proof {
        assert(r@ =~= kw_connection());
    }
    r
}

/// The field name `established` as document bytes.
pub open spec fn kw_established() -> Seq<u8> {
    seq![0x65u8, 0x73, 0x74, 0x61, 0x62, 0x6c, 0x69, 0x73, 0x68, 0x65, 0x64]
}

/// Exec copy of `kw_established`.
pub fn kw_established_v() -> (r: Vec<u8>)
    ensures
        r@ == kw_established(),
{
    let mut r: Vec<u8> = Vec::new();
    r.push(0x65);
    r.push(0x73);
    r.push(0x74);
    r.push(0x61);
    r.push(0x62);
    r.push(0x6c);
    r.push(0x69);
    r.push(0x73);
    r.push(0x68);
    r.push(0x65);
    r.push(0x64);
    proof {
        assert(r@ =~= kw_established());
    }
    r
}

/// The field name `method` as document bytes.
pub open spec fn kw_method() -> Seq<u8> {
    seq![0x6du8, 0x65, 0x74, 0x68, 0x6f, 0x64]
}

/// Exec copy of `kw_method`.
pub fn kw_method_v() -> (r: Vec<u8>)
    ensures
        r@ == kw_method(),
{
    let mut r: Vec<u8> = Vec::new();
    r.push(0x6d);
    r.push(0x65);
    r.push(0x74);
    r.push(0x68);
    r.push(0x6f);
    r.push(0x64);
    proof {
        assert(r@ =~= kw_method());
    }
    r
}

/// The field name `mac_addresses` as document bytes.
pub open spec fn kw_mac_addresses() -> Seq<u8> {
    seq![0x6du8, 0x61, 0x63, 0x5f, 0x61, 0x64, 0x64, 0x72, 0x65, 0x73, 0x73, 0x65, 0x73]
}

/// Exec copy of `kw_mac_addresses`.
pub fn kw_mac_addresses_v() -> (r: Vec<u8>)
    ensures
        r@ == kw_mac_addresses(),
{
    let mut r: Vec<u8> = Vec::new();
    r.push(0x6d);
    r.push(0x61);
    r.push(0x63);
    r.push(0x5f);
    r.push(0x61);
    r.push(0x64);
    r.push(0x64);
    r.push(0x72);
    r.push(0x65);
    r.push(0x73);
    r.push(0x73);
    r.push(0x65);
    r.push(0x73);
    proof {
        assert(r@ =~= kw_mac_addresses());
    }
    r
}

/// The field name `packets` as document bytes.
pub open spec fn kw_packets() -> Seq<u8> {
    seq![0x70u8, 0x61, 0x63, 0x6b, 0x65, 0x74, 0x73]
}

/// Exec copy of `kw_packets`.
pub fn kw_packets_v() -> (r: Vec<u8>)
    ensures
        r@ == kw_packets(),
{
    let mut r: Vec<u8> = Vec::new();
    r.push(0x70);
    r.push(0x61);
    r.push(0x63);
    r.push(0x6b);
    r.push(0x65);
    r.push(0x74);
    r.push(0x73);
    proof {
        assert(r@ =~= kw_packets());
    }
    r
}

/// The field name `bytes` as document bytes.
pub open spec fn kw_bytes() -> Seq<u8> {
    seq![0x62u8, 0x79, 0x74, 0x65, 0x73]
}

/// Exec copy of `kw_bytes`.
pub fn kw_bytes_v() -> (r: Vec<u8>)
    ensures
        r@ == kw_bytes(),
{
    let mut r: Vec<u8> = Vec::new();
    r.push(0x62);
    r.push(0x79);
    r.push(0x74);
    r.push(0x65);
    r.push(0x73);
    proof {
        assert(r@ =~= kw_bytes());
    }
    r
}

/// The field name `rx` as document bytes.
pub open spec fn kw_rx() -> Seq<u8> {
    seq![0x72u8, 0x78]
}

/// Exec copy of `kw_rx`.
pub fn kw_rx_v() -> (r: Vec<u8>)
    ensures
        r@ == kw_rx(),
{
    let mut r: Vec<u8> = Vec::new();
    r.push(0x72);
    r.push(0x78);
    proof {
        assert(r@ =~= kw_rx());
    }
    r
}

/// The field name `rx_reordered` as document bytes.
pub open spec fn kw_rx_reordered() -> Seq<u8> {
    seq![0x72u8, 0x78, 0x5f, 0x72, 0x65, 0x6f, 0x72, 0x64, 0x65, 0x72, 0x65, 0x64]
}

/// Exec copy of `kw_rx_reordered`.
pub fn kw_rx_reordered_v() -> (r: Vec<u8>)
    ensures
        r@ == kw_rx_reordered(),
{
    let mut r: Vec<u8> = Vec::new();
    r.push(0x72);
    r.push(0x78);
    r.push(0x5f);
    r.push(0x72);
    r.push(0x65);
    r.push(0x6f);
    r.push(0x72);
    r.push(0x64);
    r.push(0x65);
    r.push(0x72);
    r.push(0x65);
    r.push(0x64);
    proof {
        assert(r@ =~= kw_rx_reordered());
    }
    r
}

/// The field name `tx` as document bytes.
pub open spec fn kw_tx() -> Seq<u8> {
    seq![0x74u8, 0x78]
}

/// Exec copy of `kw_tx`.
pub fn kw_tx_v() -> (r: Vec<u8>)
    ensures
        r@ == kw_tx(),
{
    let mut r: Vec<u8> = Vec::new();
    r.push(0x74);
    r.push(0x78);
    proof {
        assert(r@ =~= kw_tx());
    }
    r
}

/// The field name `tx_dropped` as document bytes.
pub open spec fn kw_tx_dropped() -> Seq<u8> {
    seq![0x74u8, 0x78, 0x5f, 0x64, 0x72, 0x6f, 0x70, 0x70, 0x65, 0x64]
}

/// Exec copy of `kw_tx_dropped`.
pub fn kw_tx_dropped_v() -> (r: Vec<u8>)
    ensures
        r@ == kw_tx_dropped(),
{
    let mut r: Vec<u8> = Vec::new();
    r.push(0x74);
    r.push(0x78);
    r.push(0x5f);
    r.push(0x64);
    r.push(0x72);
    r.push(0x6f);
    r.push(0x70);
    r.push(0x70);
    r.push(0x65);
    r.push(0x64);
    proof {
        assert(r@ =~= kw_tx_dropped());
    }
    r
}

/// The field name `tx_error` as document bytes.
pub open spec fn kw_tx_error() -> Seq<u8> {
    seq![0x74u8, 0x78, 0x5f, 0x65, 0x72, 0x72, 0x6f, 0x72]
}

/// Exec copy of `kw_tx_error`.
pub fn kw_tx_error_v() -> (r: Vec<u8>)
    ensures
        r@ == kw_tx_error(),
{
    let mut r: Vec<u8> = Vec::new();
    r.push(0x74);
    r.push(0x78);
    r.push(0x5f);
    r.push(0x65);
    r.push(0x72);
    r.push(0x72);
    r.push(0x6f);
    r.push(0x72);
    proof {
        assert(r@ =~= kw_tx_error());
    }
    r
}

} // verus!
