//! A canonical writer for status documents, at the specification level,
//! and the proof that decoding it restores the snapshot exactly.
//!
//! `spec_decode(spec_encode(v)) == Ok(v)` for every encodable snapshot:
//! decoding loses nothing, and on the canonical documents it is injective.
//! Encodable means: strings hold no byte that would need an escape, and
//! numbers carry at most `MAX_FRAC` fraction digits — exactly the values
//! the decoder itself can produce.

use vstd::prelude::*;

use crate::status::{ConnectionView, Decimal, PeerView, Statistics, StatusView, Traffic,
    wf_status};
use crate::tokens::{COLON, COMMA, DOT, LBRACE, LBRACKET, QUOTE, RBRACE, RBRACKET, is_digit,
    is_string_byte, is_ws, kw_address, kw_bytes, kw_connection, kw_established, kw_interface,
    kw_mac_addresses, kw_method, kw_name, kw_packets, kw_peers, kw_rx, kw_rx_reordered,
    kw_statistics, kw_tx, kw_tx_dropped, kw_tx_error, kw_uptime};
use crate::decode::{DecodeError, MAX_FRAC, acc_digit, expect, parse_number, parse_string,
    scan_digits, scan_string, skip_ws};

verus! {

/// Ten to the `e`.
pub open spec fn pow10(e: nat) -> nat
    decreases e,
{
    if e == 0 {
        1
    } else {
        10 * pow10((e - 1) as nat)
    }
}

/// The number a digit string denotes.
pub open spec fn digits_val(ds: Seq<u8>) -> nat
    decreases ds.len(),
{
    if ds.len() == 0 {
        0
    } else {
        digits_val(ds.drop_last()) * 10 + (ds.last() - 0x30) as nat
    }
}

/// The digits of `m`, most significant first, no superfluous leading zero.
pub open spec fn dec_digits(m: nat) -> Seq<u8>
    decreases m,
{
    if m < 10 {
        seq![(0x30 + m) as u8]
    } else {
        dec_digits(m / 10) + seq![(0x30 + m % 10) as u8]
    }
}

/// The last `width` digits of `m`, zero-padded.
pub open spec fn padded_digits(m: nat, width: nat) -> Seq<u8>
    decreases width,
{
    if width == 0 {
        Seq::empty()
    } else {
        padded_digits(m / 10, (width - 1) as nat) + seq![(0x30 + m % 10) as u8]
    }
}

/// A decimal as document bytes: the integer digits, and for a fractional
/// value the point and exactly `frac` fraction digits.
pub open spec fn enc_decimal(d: Decimal) -> Seq<u8> {
    if d.frac == 0 {
        dec_digits(d.mantissa as nat)
    } else {
        dec_digits((d.mantissa as nat) / pow10(d.frac as nat)) + seq![DOT] + padded_digits(
            (d.mantissa as nat) % pow10(d.frac as nat),
            d.frac as nat,
        )
    }
}

/// A decimal the encoder can write: at most `MAX_FRAC` fraction digits.
pub open spec fn dec_ok(d: Decimal) -> bool {
    d.frac <= MAX_FRAC
}

#[verifier::spinoff_prover]
#[verifier::rlimit(100)]
proof fn lemma_pow10_pos(e: nat)
    ensures
        pow10(e) >= 1,
    decreases e,
{
    if e > 0 {
        lemma_pow10_pos((e - 1) as nat);
    }
}

/// Every byte of `dec_digits(m)` is a digit; there is at least one; the
/// first is `0` only for the single digit of zero-to-nine.
#[verifier::spinoff_prover]
#[verifier::rlimit(100)]
proof fn lemma_dec_digits_shape(m: nat)
    ensures
        dec_digits(m).len() >= 1,
        forall|t: int| 0 <= t < dec_digits(m).len() ==> is_digit(#[trigger] dec_digits(m)[t]),
        m >= 10 ==> dec_digits(m)[0] != 0x30,
        m < 10 ==> dec_digits(m).len() == 1,
        digits_val(dec_digits(m)) == m,
    decreases m,
{
    if m < 10 {
        let ds = dec_digits(m);
        assert(ds.drop_last() =~= Seq::<u8>::empty());
        assert(digits_val(Seq::<u8>::empty()) == 0);
        assert(ds.last() == (0x30 + m) as u8);
        assert(digits_val(ds) == digits_val(ds.drop_last()) * 10 + (ds.last() - 0x30) as nat);
        assert(digits_val(ds) == m);
    } else {
        lemma_dec_digits_shape(m / 10);
        let ds = dec_digits(m);
        let dl = dec_digits(m / 10);
        assert(ds == dl + seq![(0x30 + m % 10) as u8]);
        assert(ds.drop_last() =~= dl);
        assert(ds.last() == (0x30 + m % 10) as u8);
        assert(digits_val(ds) == digits_val(dl) * 10 + m % 10);
        assert(digits_val(ds) == (m / 10) * 10 + m % 10);
        assert((m / 10) * 10 + m % 10 == m) by (nonlinear_arith);
        assert(ds[0] == dl[0]);
        if m / 10 >= 10 {
        } else {
            assert(m / 10 >= 1) by (nonlinear_arith)
                requires
                    m >= 10,
            ;
        }
    }
}

/// `padded_digits(m, w)` has width `w`, all digits, and denotes `m` when
/// `m` fits the width.
#[verifier::spinoff_prover]
#[verifier::rlimit(100)]
proof fn lemma_padded_digits_shape(m: nat, width: nat)
    requires
        m < pow10(width),
    ensures
        padded_digits(m, width).len() == width,
        forall|t: int| 0 <= t < width ==> is_digit(#[trigger] padded_digits(m, width)[t]),
        digits_val(padded_digits(m, width)) == m,
    decreases width,
{
    if width == 0 {
    } else {
        assert(pow10(width) == 10 * pow10((width - 1) as nat));
        assert(m / 10 < pow10((width - 1) as nat)) by (nonlinear_arith)
            requires
                m < 10 * pow10((width - 1) as nat),
        ;
        lemma_padded_digits_shape(m / 10, (width - 1) as nat);
        let ds = padded_digits(m, width);
        let dl = padded_digits(m / 10, (width - 1) as nat);
        assert(ds.drop_last() =~= dl);
        assert(ds.last() == (0x30 + m % 10) as u8);
        assert(digits_val(ds) == (m / 10) * 10 + m % 10);
        assert((m / 10) * 10 + m % 10 == m) by (nonlinear_arith);
    }
}

/// Scanning the digits `ds` from position `i` folds them onto `acc`
/// without overflow, stopping right after them.
#[verifier::spinoff_prover]
#[verifier::rlimit(100)]
proof fn lemma_scan_digits_enc(s: Seq<u8>, i: int, ds: Seq<u8>, acc: u64)
    requires
        0 <= i,
        i + ds.len() <= s.len(),
        ds.len() >= 1,
        forall|t: int| 0 <= t < ds.len() ==> s[i + t] == ds[t],
        forall|t: int| 0 <= t < ds.len() ==> is_digit(#[trigger] ds[t]),
        i + ds.len() == s.len() || !is_digit(s[i + ds.len()]),
        (acc as nat) * pow10(ds.len() as nat) + digits_val(ds) <= u64::MAX,
    ensures
        scan_digits(s, i, Some(acc)) == (
            Some((((acc as nat) * pow10(ds.len() as nat) + digits_val(ds)) as u64)),
            i + ds.len(),
        ),
    decreases ds.len(),
{
    let d0 = ds[0];
    assert(s[i] == d0 && is_digit(d0));
    let rest = ds.subrange(1, ds.len() as int);
    lemma_digits_val_split(ds);
    lemma_pow10_pos((ds.len() - 1) as nat);
    let acc2val = (acc as nat) * 10 + (d0 - 0x30) as nat;
    assert((acc as nat) * pow10(ds.len() as nat) == acc2val * pow10((ds.len() - 1) as nat)
        - ((d0 - 0x30) as nat) * pow10((ds.len() - 1) as nat)) by (nonlinear_arith)
        requires
            pow10(ds.len() as nat) == 10 * pow10((ds.len() - 1) as nat),
            acc2val == (acc as nat) * 10 + (d0 - 0x30) as nat,
    ;
    assert(acc2val * pow10((ds.len() - 1) as nat) + digits_val(rest) == (acc as nat) * pow10(
        ds.len() as nat,
    ) + digits_val(ds));
    assert(acc2val <= acc2val * pow10((ds.len() - 1) as nat)) by (nonlinear_arith)
        requires
            pow10((ds.len() - 1) as nat) >= 1,
            acc2val >= 0,
    ;
    assert(acc2val <= u64::MAX);
    assert(acc_digit(Some(acc), d0) == Some(acc2val as u64));
    if ds.len() == 1 {
        assert(scan_digits(s, i, Some(acc)) == scan_digits(s, i + 1, Some(acc2val as u64)));
        assert(scan_digits(s, i + 1, Some(acc2val as u64)) == (Some(acc2val as u64), i + 1));
        assert(digits_val(ds) == digits_val(ds.drop_last()) * 10 + (d0 - 0x30) as nat);
        assert(ds.drop_last() =~= Seq::<u8>::empty());
    } else {
        assert forall|t: int| 0 <= t < rest.len() implies s[i + 1 + t] == rest[t] && is_digit(
            #[trigger] rest[t],
        ) by {
            assert(rest[t] == ds[t + 1]);
        }
        lemma_scan_digits_enc(s, i + 1, rest, acc2val as u64);
    }
}

/// A digit string's value, split at its first digit.
#[verifier::rlimit(100)]
#[verifier::spinoff_prover]
proof fn lemma_digits_val_split(ds: Seq<u8>)
    requires
        ds.len() >= 1,
        forall|t: int| 0 <= t < ds.len() ==> is_digit(#[trigger] ds[t]),
    ensures
        digits_val(ds) == ((ds[0] - 0x30) as nat) * pow10((ds.len() - 1) as nat) + digits_val(
            ds.subrange(1, ds.len() as int),
        ),
        digits_val(ds) < pow10(ds.len() as nat),
    decreases ds.len(),
{
    let rest = ds.subrange(1, ds.len() as int);
    if ds.len() == 1 {
        assert(ds.drop_last() =~= Seq::<u8>::empty());
        assert(rest =~= Seq::<u8>::empty());
        assert(digits_val(Seq::<u8>::empty()) == 0);
        assert(digits_val(rest) == 0);
        assert(digits_val(ds) == (ds[0] - 0x30) as nat);
        assert(pow10(0) == 1);
        assert(digits_val(ds) == ((ds[0] - 0x30) as nat) * pow10((ds.len() - 1) as nat)
            + digits_val(rest));
        assert(digits_val(ds) < 10);
        assert(pow10(1) == 10);
    } else {
        let dl = ds.drop_last();
        assert forall|t: int| 0 <= t < dl.len() implies is_digit(#[trigger] dl[t]) by {
            assert(dl[t] == ds[t]);
        }
        lemma_digits_val_split(dl);
        let dlrest = dl.subrange(1, dl.len() as int);
        assert(rest.drop_last() =~= dlrest);
        assert(rest.last() == ds.last());
        assert(digits_val(rest) == digits_val(dlrest) * 10 + (ds.last() - 0x30) as nat);
        assert(dl[0] == ds[0]);
        let k = (dl.len() - 1) as nat;
        assert(digits_val(ds) == digits_val(dl) * 10 + (ds.last() - 0x30) as nat);
        assert(digits_val(dl) == ((ds[0] - 0x30) as nat) * pow10(k) + digits_val(dlrest));
        assert((((ds[0] - 0x30) as nat) * pow10(k) + digits_val(dlrest)) * 10 == ((ds[0]
            - 0x30) as nat) * (10 * pow10(k)) + digits_val(dlrest) * 10) by (nonlinear_arith);
        assert(pow10((ds.len() - 1) as nat) == 10 * pow10(k));
        assert(digits_val(ds) == ((ds[0] - 0x30) as nat) * pow10((ds.len() - 1) as nat)
            + digits_val(rest));
        assert(digits_val(dl) < pow10(dl.len() as nat));
        assert(digits_val(ds) < pow10(ds.len() as nat)) by (nonlinear_arith)
            requires
                digits_val(ds) == digits_val(dl) * 10 + (ds.last() - 0x30) as nat,
                digits_val(dl) < pow10(dl.len() as nat),
                ((ds.last() - 0x30) as nat) < 10,
                pow10(ds.len() as nat) == 10 * pow10(dl.len() as nat),
        ;
        assert(pow10(ds.len() as nat) == 10 * pow10(dl.len() as nat));
    }
}

/// Parsing the encoding of a decimal, with a non-numeric byte after it,
/// restores the decimal.
#[verifier::spinoff_prover]
#[verifier::rlimit(100)]
proof fn lemma_parse_number_enc(s: Seq<u8>, i: int, d: Decimal)
    requires
        dec_ok(d),
        0 <= i,
        i + enc_decimal(d).len() <= s.len(),
        s.subrange(i, i + enc_decimal(d).len()) == enc_decimal(d),
        i + enc_decimal(d).len() == s.len() || (!is_digit(s[i + enc_decimal(d).len()]) && s[i
            + enc_decimal(d).len()] != DOT),
    ensures
        parse_number(s, i) == Ok::<_, DecodeError>((d, i + enc_decimal(d).len())),
{
    let enc = enc_decimal(d);
    let m = d.mantissa as nat;
    assert forall|t: int| 0 <= t < enc.len() implies s[i + t] == enc[t] by {
        assert(s.subrange(i, i + enc.len())[t] == s[i + t]);
    }
    if d.frac == 0 {
        let ds = dec_digits(m);
        lemma_dec_digits_shape(m);
        lemma_pow10_pos(ds.len() as nat);
        assert(s[i] == ds[0] && is_digit(s[i]));
        if s[i] == 0x30 {
            assert(m < 10 && ds.len() == 1);
        }
        lemma_scan_digits_enc(s, i, ds, 0u64);
        assert((0 as nat) * pow10(ds.len() as nat) + digits_val(ds) == m) by (nonlinear_arith)
            requires
                digits_val(ds) == m,
        ;
        assert(scan_digits(s, i, Some(0u64)) == (Some(d.mantissa), i + ds.len()));
    } else {
        let f = d.frac as nat;
        let q = m / pow10(f);
        let r = m % pow10(f);
        let ds1 = dec_digits(q);
        lemma_pow10_pos(f);
        assert(r < pow10(f));
        let ds2 = padded_digits(r, f);
        lemma_dec_digits_shape(q);
        lemma_padded_digits_shape(r, f);
        assert(enc == ds1 + seq![DOT] + ds2);
        assert(enc.len() == ds1.len() + 1 + f);
        assert forall|t: int| 0 <= t < ds1.len() implies s[i + t] == ds1[t] by {
            assert(enc[t] == ds1[t]);
        }
        assert(enc[ds1.len() as int] == DOT);
        assert(s[i + ds1.len()] == DOT);
        assert(!is_digit(DOT));
        assert(s[i] == ds1[0] && is_digit(s[i]));
        if s[i] == 0x30 {
            assert(q < 10 && ds1.len() == 1);
        }
        lemma_scan_digits_enc(s, i, ds1, 0u64);
        assert((0 as nat) * pow10(ds1.len() as nat) + digits_val(ds1) == q) by (nonlinear_arith)
            requires
                digits_val(ds1) == q,
        ;
        assert(scan_digits(s, i, Some(0u64)) == (Some(q as u64), i + ds1.len()));
        let j = i + ds1.len();
        assert forall|t: int| 0 <= t < ds2.len() implies s[j + 1 + t] == ds2[t] by {
            assert(enc[ds1.len() + 1 + t] == ds2[t]);
        }
        assert(q * pow10(f) + r == m) by (nonlinear_arith)
            requires
                q == m / pow10(f),
                r == m % pow10(f),
                pow10(f) >= 1,
        ;
        lemma_scan_digits_enc(s, j + 1, ds2, q as u64);
        assert((q as nat) * pow10(f) + digits_val(ds2) == m);
        assert(scan_digits(s, j + 1, Some(q as u64)) == (Some(d.mantissa), j + 1 + f));
        assert(i + enc.len() == j + 1 + f);
        assert((j + 1 + f) - (j + 1) == f);
        assert(f <= MAX_FRAC as int);
        assert(parse_number(s, i) == Ok::<_, DecodeError>((
            Decimal { mantissa: d.mantissa, frac: f as u8 },
            j + 1 + f,
        )));
        assert(f as u8 == d.frac);
    }
}
/// A string the encoder can write verbatim: nothing that would need an
/// escape.
pub open spec fn string_ok(v: Seq<u8>) -> bool {
    forall|t: int| 0 <= t < v.len() ==> is_string_byte(#[trigger] v[t])
}

/// A quoted string.
pub open spec fn enc_string(v: Seq<u8>) -> Seq<u8> {
    seq![QUOTE] + v + seq![QUOTE]
}

/// One object member: quoted key, colon, encoded value.
pub open spec fn enc_field(key: Seq<u8>, val: Seq<u8>) -> Seq<u8> {
    enc_string(key) + seq![COLON] + val
}

/// A `Traffic` object.
pub open spec fn enc_traffic(t: Traffic) -> Seq<u8> {
    seq![LBRACE] + enc_field(kw_packets(), enc_decimal(t.packets)) + seq![COMMA] + enc_field(
        kw_bytes(),
        enc_decimal(t.bytes),
    ) + seq![RBRACE]
}

/// A traffic pair the encoder can write.
pub open spec fn traffic_ok(t: Traffic) -> bool {
    dec_ok(t.packets) && dec_ok(t.bytes)
}

/// Scanning the encodable bytes `v` followed by a closing quote collects
/// exactly `v`.
#[verifier::spinoff_prover]
#[verifier::rlimit(100)]
proof fn lemma_scan_string_enc(s: Seq<u8>, i: int, v: Seq<u8>, acc: Seq<u8>)
    requires
        string_ok(v),
        0 <= i,
        i + v.len() < s.len(),
        forall|t: int| 0 <= t < v.len() ==> s[i + t] == v[t],
        s[i + v.len()] == QUOTE,
    ensures
        scan_string(s, i, acc) == Ok::<_, DecodeError>((acc + v, i + v.len() + 1)),
    decreases v.len(),
{
    if v.len() == 0 {
        assert(s[i] == QUOTE);
        assert(acc + v =~= acc);
    } else {
        assert(s[i] == v[0]);
        assert(is_string_byte(v[0]));
        assert(v[0] != QUOTE);
        let rest = v.subrange(1, v.len() as int);
        assert forall|t: int| 0 <= t < rest.len() implies s[i + 1 + t] == rest[t] by {
            assert(rest[t] == v[t + 1]);
        }
        assert forall|t: int| 0 <= t < rest.len() implies is_string_byte(#[trigger] rest[t]) by {
            assert(rest[t] == v[t + 1]);
        }
        lemma_scan_string_enc(s, i + 1, rest, acc.push(v[0]));
        assert(acc.push(v[0]) + rest =~= acc + v);
    }
}

/// Parsing the encoding of a string restores the string.
#[verifier::spinoff_prover]
#[verifier::rlimit(100)]
proof fn lemma_parse_string_enc(s: Seq<u8>, i: int, v: Seq<u8>)
    requires
        string_ok(v),
        0 <= i,
        i + v.len() + 2 <= s.len(),
        s.subrange(i, i + v.len() + 2) == enc_string(v),
    ensures
        parse_string(s, i) == Ok::<_, DecodeError>((v, i + v.len() + 2)),
{
    let enc = enc_string(v);
    assert forall|t: int| 0 <= t < enc.len() implies s[i + t] == enc[t] by {
        assert(s.subrange(i, i + enc.len())[t] == s[i + t]);
    }
    assert(enc[0] == QUOTE);
    assert(s[i] == QUOTE);
    assert forall|t: int| 0 <= t < v.len() implies s[i + 1 + t] == v[t] by {
        assert(enc[1 + t] == v[t]);
    }
    assert(enc[1 + v.len() as int] == QUOTE);
    assert(s[i + 1 + v.len()] == QUOTE);
    lemma_scan_string_enc(s, i + 1, v, Seq::empty());
    assert(Seq::<u8>::empty() + v =~= v);
}

/// Every field name of the schema can stand in a string verbatim.
#[verifier::spinoff_prover]
#[verifier::rlimit(100)]
proof fn lemma_kw_string_ok()
    ensures
        string_ok(kw_uptime()),
        string_ok(kw_interface()),
        string_ok(kw_statistics()),
        string_ok(kw_peers()),
        string_ok(kw_name()),
        string_ok(kw_address()),
        string_ok(kw_connection()),
        string_ok(kw_established()),
        string_ok(kw_method()),
        string_ok(kw_mac_addresses()),
        string_ok(kw_packets()),
        string_ok(kw_bytes()),
        string_ok(kw_rx()),
        string_ok(kw_rx_reordered()),
        string_ok(kw_tx()),
        string_ok(kw_tx_dropped()),
        string_ok(kw_tx_error()),
{
}

/// Parsing the encoding of a traffic pair restores it.
#[verifier::spinoff_prover]
#[verifier::rlimit(100)]
proof fn lemma_parse_traffic_enc(s: Seq<u8>, i: int, t: Traffic)
    requires
        traffic_ok(t),
        0 <= i,
        i + enc_traffic(t).len() <= s.len(),
        s.subrange(i, i + enc_traffic(t).len()) == enc_traffic(t),
    ensures
        crate::decode::parse_traffic(s, i) == Ok::<_, DecodeError>((t, i + enc_traffic(t).len())),
{
    let enc = enc_traffic(t);
    lemma_kw_string_ok();
    assert forall|t2: int| 0 <= t2 < enc.len() implies s[i + t2] == enc[t2] by {
        assert(s.subrange(i, i + enc.len())[t2] == s[i + t2]);
    }
    let n1 = enc_decimal(t.packets).len() as int;
    let n2 = enc_decimal(t.bytes).len() as int;
    assert(enc[0] == LBRACE);
    // "packets" member
    let p_key = i + 1;
    assert forall|t2: int| 0 <= t2 < 9 implies s[p_key + t2] == enc_string(kw_packets())[t2] by {
        assert(enc[1 + t2] == enc_string(kw_packets())[t2]);
    }
    assert(s.subrange(p_key, p_key + 9) =~= enc_string(kw_packets()));
    lemma_parse_string_enc(s, p_key, kw_packets());
    let p_colon = p_key + 9;
    assert(enc[10] == COLON);
    let p_num = p_colon + 1;
    assert forall|t2: int| 0 <= t2 < n1 implies s[p_num + t2] == enc_decimal(t.packets)[t2] by {
        assert(enc[11 + t2] == enc_decimal(t.packets)[t2]);
    }
    assert(s.subrange(p_num, p_num + n1) =~= enc_decimal(t.packets));
    assert(enc[11 + n1] == COMMA);
    lemma_parse_number_enc(s, p_num, t.packets);
    // "bytes" member
    let b_key = p_num + n1 + 1;
    assert forall|t2: int| 0 <= t2 < 7 implies s[b_key + t2] == enc_string(kw_bytes())[t2] by {
        assert(enc[12 + n1 + t2] == enc_string(kw_bytes())[t2]);
    }
    assert(s.subrange(b_key, b_key + 7) =~= enc_string(kw_bytes()));
    lemma_parse_string_enc(s, b_key, kw_bytes());
    let b_colon = b_key + 7;
    assert(enc[19 + n1] == COLON);
    let b_num = b_colon + 1;
    assert forall|t2: int| 0 <= t2 < n2 implies s[b_num + t2] == enc_decimal(t.bytes)[t2] by {
        assert(enc[20 + n1 + t2] == enc_decimal(t.bytes)[t2]);
    }
    assert(s.subrange(b_num, b_num + n2) =~= enc_decimal(t.bytes));
    assert(enc[20 + n1 + n2] == RBRACE);
    lemma_parse_number_enc(s, b_num, t.bytes);
    assert(kw_packets() != kw_bytes());
    // walk the parser along those facts
    assert(expect(s, i, LBRACE) == Ok::<_, DecodeError>(i + 1));
    assert(skip_ws(s, i + 1) == i + 1);
    assert(skip_ws(s, p_key + 9) == p_colon);
    assert(skip_ws(s, p_colon + 1) == p_num);
    assert(skip_ws(s, p_num + n1) == p_num + n1);
    assert(skip_ws(s, p_num + n1 + 1) == b_key);
    assert(skip_ws(s, b_key + 7) == b_colon);
    assert(skip_ws(s, b_colon + 1) == b_num);
    assert(skip_ws(s, b_num + n2) == b_num + n2);
    assert(enc.len() == 21 + n1 + n2);
    assert(crate::decode::parse_traffic_fields(s, b_key, Some(t.packets), None)
        == Ok::<_, DecodeError>((t, i + enc.len())));
    assert(crate::decode::parse_traffic_fields(s, p_key, None, None) == Ok::<_, DecodeError>((
        t,
        i + enc.len(),
    )));
}
/// A `Statistics` object: the five counters, in the vocabulary order.
#[verifier::opaque]
pub open spec fn enc_stats(st: Statistics) -> Seq<u8> {
    seq![LBRACE] + enc_field(kw_rx(), enc_traffic(st.rx)) + seq![COMMA] + enc_field(
        kw_rx_reordered(),
        enc_traffic(st.rx_reordered),
    ) + seq![COMMA] + enc_field(kw_tx(), enc_traffic(st.tx)) + seq![COMMA] + enc_field(
        kw_tx_dropped(),
        enc_traffic(st.tx_dropped),
    ) + seq![COMMA] + enc_field(kw_tx_error(), enc_traffic(st.tx_error)) + seq![RBRACE]
}

/// Statistics the encoder can write.
pub open spec fn stats_ok(st: Statistics) -> bool {
    traffic_ok(st.rx) && traffic_ok(st.rx_reordered) && traffic_ok(st.tx) && traffic_ok(
        st.tx_dropped,
    ) && traffic_ok(st.tx_error)
}


/// Layout of the `rx` member inside an encoded statistics object.
#[verifier::rlimit(100)]
#[verifier::spinoff_prover]
proof fn lemma_stats_member1(s: Seq<u8>, i: int, st: Statistics)
    requires
        stats_ok(st),
        0 <= i,
        i + enc_stats(st).len() <= s.len(),
        s.subrange(i, i + enc_stats(st).len()) == enc_stats(st),
    ensures
        ({
    let m1 = enc_traffic(st.rx).len() as int;
    let k1 = i + 1;
    let v1 = k1 + 5;
            &&& parse_string(s, k1) == Ok::<_, DecodeError>((kw_rx(), k1 + 4))
            &&& s[k1 + 4] == COLON
            &&& s[v1] == LBRACE
            &&& crate::decode::parse_traffic(s, v1) == Ok::<_, DecodeError>((st.rx, v1 + m1))
            &&& s[v1 + m1] == COMMA
        }),
{
    reveal(enc_stats);
    let enc = enc_stats(st);
    lemma_kw_string_ok();
    assert forall|t2: int| 0 <= t2 < enc.len() implies s[i + t2] == enc[t2] by {
        assert(s.subrange(i, i + enc.len())[t2] == s[i + t2]);
    }
    let m1 = enc_traffic(st.rx).len() as int;
    let k1 = i + 1;
    let v1 = k1 + 5;
    assert forall|t2: int| 0 <= t2 < 4 implies s[k1 + t2] == enc_string(kw_rx())[t2] by {
        assert(enc[(k1 - i) + t2] == enc_string(kw_rx())[t2]);
    }
    assert(s.subrange(k1, k1 + 4) =~= enc_string(kw_rx()));
    lemma_parse_string_enc(s, k1, kw_rx());
    assert(enc[(k1 - i) + 4] == COLON);
    assert forall|t2: int| 0 <= t2 < m1 implies s[v1 + t2] == enc_traffic(st.rx)[t2] by {
        assert(enc[(v1 - i) + t2] == enc_traffic(st.rx)[t2]);
    }
    assert(s.subrange(v1, v1 + m1) =~= enc_traffic(st.rx));
    assert(s[v1] == enc_traffic(st.rx)[0]);
    lemma_parse_traffic_enc(s, v1, st.rx);
    assert(enc[(v1 - i) + m1] == COMMA);
}

/// Layout of the `rx_reordered` member inside an encoded statistics object.
#[verifier::rlimit(100)]
#[verifier::spinoff_prover]
proof fn lemma_stats_member2(s: Seq<u8>, i: int, st: Statistics)
    requires
        stats_ok(st),
        0 <= i,
        i + enc_stats(st).len() <= s.len(),
        s.subrange(i, i + enc_stats(st).len()) == enc_stats(st),
    ensures
        ({
    let m1 = enc_traffic(st.rx).len() as int;
    let m2 = enc_traffic(st.rx_reordered).len() as int;
    let k1 = i + 1;
    let v1 = k1 + 5;
    let k2 = v1 + m1 + 1;
    let v2 = k2 + 15;
            &&& parse_string(s, k2) == Ok::<_, DecodeError>((kw_rx_reordered(), k2 + 14))
            &&& s[k2 + 14] == COLON
            &&& s[v2] == LBRACE
            &&& crate::decode::parse_traffic(s, v2) == Ok::<_, DecodeError>((st.rx_reordered, v2 + m2))
            &&& s[v2 + m2] == COMMA
        }),
{
    reveal(enc_stats);
    let enc = enc_stats(st);
    lemma_kw_string_ok();
    assert forall|t2: int| 0 <= t2 < enc.len() implies s[i + t2] == enc[t2] by {
        assert(s.subrange(i, i + enc.len())[t2] == s[i + t2]);
    }
    let m1 = enc_traffic(st.rx).len() as int;
    let m2 = enc_traffic(st.rx_reordered).len() as int;
    let k1 = i + 1;
    let v1 = k1 + 5;
    let k2 = v1 + m1 + 1;
    let v2 = k2 + 15;
    assert forall|t2: int| 0 <= t2 < 14 implies s[k2 + t2] == enc_string(kw_rx_reordered())[t2] by {
        assert(enc[(k2 - i) + t2] == enc_string(kw_rx_reordered())[t2]);
    }
    assert(s.subrange(k2, k2 + 14) =~= enc_string(kw_rx_reordered()));
    lemma_parse_string_enc(s, k2, kw_rx_reordered());
    assert(enc[(k2 - i) + 14] == COLON);
    assert forall|t2: int| 0 <= t2 < m2 implies s[v2 + t2] == enc_traffic(st.rx_reordered)[t2] by {
        assert(enc[(v2 - i) + t2] == enc_traffic(st.rx_reordered)[t2]);
    }
    assert(s.subrange(v2, v2 + m2) =~= enc_traffic(st.rx_reordered));
    assert(s[v2] == enc_traffic(st.rx_reordered)[0]);
    lemma_parse_traffic_enc(s, v2, st.rx_reordered);
    assert(enc[(v2 - i) + m2] == COMMA);
}

/// Layout of the `tx` member inside an encoded statistics object.
#[verifier::rlimit(100)]
#[verifier::spinoff_prover]
proof fn lemma_stats_member3(s: Seq<u8>, i: int, st: Statistics)
    requires
        stats_ok(st),
        0 <= i,
        i + enc_stats(st).len() <= s.len(),
        s.subrange(i, i + enc_stats(st).len()) == enc_stats(st),
    ensures
        ({
    let m1 = enc_traffic(st.rx).len() as int;
    let m2 = enc_traffic(st.rx_reordered).len() as int;
    let m3 = enc_traffic(st.tx).len() as int;
    let k1 = i + 1;
    let v1 = k1 + 5;
    let k2 = v1 + m1 + 1;
    let v2 = k2 + 15;
    let k3 = v2 + m2 + 1;
    let v3 = k3 + 5;
            &&& parse_string(s, k3) == Ok::<_, DecodeError>((kw_tx(), k3 + 4))
            &&& s[k3 + 4] == COLON
            &&& s[v3] == LBRACE
            &&& crate::decode::parse_traffic(s, v3) == Ok::<_, DecodeError>((st.tx, v3 + m3))
            &&& s[v3 + m3] == COMMA
        }),
{
    reveal(enc_stats);
    let enc = enc_stats(st);
    lemma_kw_string_ok();
    assert forall|t2: int| 0 <= t2 < enc.len() implies s[i + t2] == enc[t2] by {
        assert(s.subrange(i, i + enc.len())[t2] == s[i + t2]);
    }
    let m1 = enc_traffic(st.rx).len() as int;
    let m2 = enc_traffic(st.rx_reordered).len() as int;
    let m3 = enc_traffic(st.tx).len() as int;
    let k1 = i + 1;
    let v1 = k1 + 5;
    let k2 = v1 + m1 + 1;
    let v2 = k2 + 15;
    let k3 = v2 + m2 + 1;
    let v3 = k3 + 5;
    assert forall|t2: int| 0 <= t2 < 4 implies s[k3 + t2] == enc_string(kw_tx())[t2] by {
        assert(enc[(k3 - i) + t2] == enc_string(kw_tx())[t2]);
    }
    assert(s.subrange(k3, k3 + 4) =~= enc_string(kw_tx()));
    lemma_parse_string_enc(s, k3, kw_tx());
    assert(enc[(k3 - i) + 4] == COLON);
    assert forall|t2: int| 0 <= t2 < m3 implies s[v3 + t2] == enc_traffic(st.tx)[t2] by {
        assert(enc[(v3 - i) + t2] == enc_traffic(st.tx)[t2]);
    }
    assert(s.subrange(v3, v3 + m3) =~= enc_traffic(st.tx));
    assert(s[v3] == enc_traffic(st.tx)[0]);
    lemma_parse_traffic_enc(s, v3, st.tx);
    assert(enc[(v3 - i) + m3] == COMMA);
}

/// Layout of the `tx_dropped` member inside an encoded statistics object.
#[verifier::rlimit(100)]
#[verifier::spinoff_prover]
proof fn lemma_stats_member4(s: Seq<u8>, i: int, st: Statistics)
    requires
        stats_ok(st),
        0 <= i,
        i + enc_stats(st).len() <= s.len(),
        s.subrange(i, i + enc_stats(st).len()) == enc_stats(st),
    ensures
        ({
    let m1 = enc_traffic(st.rx).len() as int;
    let m2 = enc_traffic(st.rx_reordered).len() as int;
    let m3 = enc_traffic(st.tx).len() as int;
    let m4 = enc_traffic(st.tx_dropped).len() as int;
    let k1 = i + 1;
    let v1 = k1 + 5;
    let k2 = v1 + m1 + 1;
    let v2 = k2 + 15;
    let k3 = v2 + m2 + 1;
    let v3 = k3 + 5;
    let k4 = v3 + m3 + 1;
    let v4 = k4 + 13;
            &&& parse_string(s, k4) == Ok::<_, DecodeError>((kw_tx_dropped(), k4 + 12))
            &&& s[k4 + 12] == COLON
            &&& s[v4] == LBRACE
            &&& crate::decode::parse_traffic(s, v4) == Ok::<_, DecodeError>((st.tx_dropped, v4 + m4))
            &&& s[v4 + m4] == COMMA
        }),
{
    reveal(enc_stats);
    let enc = enc_stats(st);
    lemma_kw_string_ok();
    assert forall|t2: int| 0 <= t2 < enc.len() implies s[i + t2] == enc[t2] by {
        assert(s.subrange(i, i + enc.len())[t2] == s[i + t2]);
    }
    let m1 = enc_traffic(st.rx).len() as int;
    let m2 = enc_traffic(st.rx_reordered).len() as int;
    let m3 = enc_traffic(st.tx).len() as int;
    let m4 = enc_traffic(st.tx_dropped).len() as int;
    let k1 = i + 1;
    let v1 = k1 + 5;
    let k2 = v1 + m1 + 1;
    let v2 = k2 + 15;
    let k3 = v2 + m2 + 1;
    let v3 = k3 + 5;
    let k4 = v3 + m3 + 1;
    let v4 = k4 + 13;
    assert forall|t2: int| 0 <= t2 < 12 implies s[k4 + t2] == enc_string(kw_tx_dropped())[t2] by {
        assert(enc[(k4 - i) + t2] == enc_string(kw_tx_dropped())[t2]);
    }
    assert(s.subrange(k4, k4 + 12) =~= enc_string(kw_tx_dropped()));
    lemma_parse_string_enc(s, k4, kw_tx_dropped());
    assert(enc[(k4 - i) + 12] == COLON);
    assert forall|t2: int| 0 <= t2 < m4 implies s[v4 + t2] == enc_traffic(st.tx_dropped)[t2] by {
        assert(enc[(v4 - i) + t2] == enc_traffic(st.tx_dropped)[t2]);
    }
    assert(s.subrange(v4, v4 + m4) =~= enc_traffic(st.tx_dropped));
    assert(s[v4] == enc_traffic(st.tx_dropped)[0]);
    lemma_parse_traffic_enc(s, v4, st.tx_dropped);
    assert(enc[(v4 - i) + m4] == COMMA);
}

/// Layout of the `tx_error` member inside an encoded statistics object.
#[verifier::rlimit(100)]
#[verifier::spinoff_prover]
proof fn lemma_stats_member5(s: Seq<u8>, i: int, st: Statistics)
    requires
        stats_ok(st),
        0 <= i,
        i + enc_stats(st).len() <= s.len(),
        s.subrange(i, i + enc_stats(st).len()) == enc_stats(st),
    ensures
        ({
    let m1 = enc_traffic(st.rx).len() as int;
    let m2 = enc_traffic(st.rx_reordered).len() as int;
    let m3 = enc_traffic(st.tx).len() as int;
    let m4 = enc_traffic(st.tx_dropped).len() as int;
    let m5 = enc_traffic(st.tx_error).len() as int;
    let k1 = i + 1;
    let v1 = k1 + 5;
    let k2 = v1 + m1 + 1;
    let v2 = k2 + 15;
    let k3 = v2 + m2 + 1;
    let v3 = k3 + 5;
    let k4 = v3 + m3 + 1;
    let v4 = k4 + 13;
    let k5 = v4 + m4 + 1;
    let v5 = k5 + 11;
            &&& parse_string(s, k5) == Ok::<_, DecodeError>((kw_tx_error(), k5 + 10))
            &&& s[k5 + 10] == COLON
            &&& s[v5] == LBRACE
            &&& crate::decode::parse_traffic(s, v5) == Ok::<_, DecodeError>((st.tx_error, v5 + m5))
            &&& s[v5 + m5] == RBRACE
        }),
{
    reveal(enc_stats);
    let enc = enc_stats(st);
    lemma_kw_string_ok();
    assert forall|t2: int| 0 <= t2 < enc.len() implies s[i + t2] == enc[t2] by {
        assert(s.subrange(i, i + enc.len())[t2] == s[i + t2]);
    }
    let m1 = enc_traffic(st.rx).len() as int;
    let m2 = enc_traffic(st.rx_reordered).len() as int;
    let m3 = enc_traffic(st.tx).len() as int;
    let m4 = enc_traffic(st.tx_dropped).len() as int;
    let m5 = enc_traffic(st.tx_error).len() as int;
    let k1 = i + 1;
    let v1 = k1 + 5;
    let k2 = v1 + m1 + 1;
    let v2 = k2 + 15;
    let k3 = v2 + m2 + 1;
    let v3 = k3 + 5;
    let k4 = v3 + m3 + 1;
    let v4 = k4 + 13;
    let k5 = v4 + m4 + 1;
    let v5 = k5 + 11;
    assert forall|t2: int| 0 <= t2 < 10 implies s[k5 + t2] == enc_string(kw_tx_error())[t2] by {
        assert(enc[(k5 - i) + t2] == enc_string(kw_tx_error())[t2]);
    }
    assert(s.subrange(k5, k5 + 10) =~= enc_string(kw_tx_error()));
    lemma_parse_string_enc(s, k5, kw_tx_error());
    assert(enc[(k5 - i) + 10] == COLON);
    assert forall|t2: int| 0 <= t2 < m5 implies s[v5 + t2] == enc_traffic(st.tx_error)[t2] by {
        assert(enc[(v5 - i) + t2] == enc_traffic(st.tx_error)[t2]);
    }
    assert(s.subrange(v5, v5 + m5) =~= enc_traffic(st.tx_error));
    assert(s[v5] == enc_traffic(st.tx_error)[0]);
    lemma_parse_traffic_enc(s, v5, st.tx_error);
    assert(enc[(v5 - i) + m5] == RBRACE);
}

/// Parsing the encoding of a statistics aggregate restores it.
#[verifier::rlimit(100)]
#[verifier::spinoff_prover]
proof fn lemma_parse_stats_enc(s: Seq<u8>, i: int, st: Statistics)
    requires
        stats_ok(st),
        0 <= i,
        i + enc_stats(st).len() <= s.len(),
        s.subrange(i, i + enc_stats(st).len()) == enc_stats(st),
    ensures
        crate::decode::parse_stats(s, i) == Ok::<_, DecodeError>((st, i + enc_stats(st).len())),
{
    reveal(enc_stats);
    let enc = enc_stats(st);
    let m1 = enc_traffic(st.rx).len() as int;
    let m2 = enc_traffic(st.rx_reordered).len() as int;
    let m3 = enc_traffic(st.tx).len() as int;
    let m4 = enc_traffic(st.tx_dropped).len() as int;
    let m5 = enc_traffic(st.tx_error).len() as int;
    let k1 = i + 1;
    let v1 = k1 + 5;
    let k2 = v1 + m1 + 1;
    let v2 = k2 + 15;
    let k3 = v2 + m2 + 1;
    let v3 = k3 + 5;
    let k4 = v3 + m3 + 1;
    let v4 = k4 + 13;
    let k5 = v4 + m4 + 1;
    let v5 = k5 + 11;
    assert(enc.len() == 55 + m1 + m2 + m3 + m4 + m5);
    assert(s[i] == enc[0] && enc[0] == LBRACE);
    assert(s[k1] == enc[1] && enc[1] == QUOTE);
    lemma_stats_member1(s, i, st);
    lemma_stats_member2(s, i, st);
    lemma_stats_member3(s, i, st);
    lemma_stats_member4(s, i, st);
    lemma_stats_member5(s, i, st);
    assert(kw_rx() != kw_rx_reordered() && kw_rx() != kw_tx() && kw_rx() != kw_tx_dropped()
        && kw_rx() != kw_tx_error());
    assert(kw_rx_reordered() != kw_tx() && kw_rx_reordered() != kw_tx_dropped()
        && kw_rx_reordered() != kw_tx_error());
    assert(kw_tx() != kw_tx_dropped() && kw_tx() != kw_tx_error());
    assert(kw_tx_dropped() != kw_tx_error());
    assert(expect(s, i, LBRACE) == Ok::<_, DecodeError>(i + 1));
    assert(skip_ws(s, k1) == k1);
    assert(skip_ws(s, k1 + 4) == k1 + 4);
    assert(skip_ws(s, v1) == v1);
    assert(skip_ws(s, v1 + m1) == v1 + m1);
    assert(skip_ws(s, k2) == k2);
    assert(skip_ws(s, k2 + 14) == k2 + 14);
    assert(skip_ws(s, v2) == v2);
    assert(skip_ws(s, v2 + m2) == v2 + m2);
    assert(skip_ws(s, k3) == k3);
    assert(skip_ws(s, k3 + 4) == k3 + 4);
    assert(skip_ws(s, v3) == v3);
    assert(skip_ws(s, v3 + m3) == v3 + m3);
    assert(skip_ws(s, k4) == k4);
    assert(skip_ws(s, k4 + 12) == k4 + 12);
    assert(skip_ws(s, v4) == v4);
    assert(skip_ws(s, v4 + m4) == v4 + m4);
    assert(skip_ws(s, k5) == k5);
    assert(skip_ws(s, k5 + 10) == k5 + 10);
    assert(skip_ws(s, v5) == v5);
    assert(skip_ws(s, v5 + m5) == v5 + m5);
    let done = i + enc.len();
    assert(crate::decode::parse_stats_fields(
        s,
        k5,
        Some(st.rx),
        Some(st.rx_reordered),
        Some(st.tx),
        Some(st.tx_dropped),
        None,
    ) == Ok::<_, DecodeError>((st, done)));
    assert(crate::decode::parse_stats_fields(
        s,
        k4,
        Some(st.rx),
        Some(st.rx_reordered),
        Some(st.tx),
        None,
        None,
    ) == Ok::<_, DecodeError>((st, done)));
    assert(crate::decode::parse_stats_fields(
        s,
        k3,
        Some(st.rx),
        Some(st.rx_reordered),
        None,
        None,
        None,
    ) == Ok::<_, DecodeError>((st, done)));
    assert(crate::decode::parse_stats_fields(s, k2, Some(st.rx), None, None, None, None)
        == Ok::<_, DecodeError>((st, done)));
    assert(crate::decode::parse_stats_fields(s, k1, None, None, None, None, None)
        == Ok::<_, DecodeError>((st, done)));
}
/// The elements of a `mac_addresses` array, comma separated.
pub open spec fn enc_macs_items(ms: Seq<Seq<u8>>) -> Seq<u8>
    decreases ms.len(),
{
    if ms.len() == 0 {
        Seq::empty()
    } else if ms.len() == 1 {
        enc_string(ms[0])
    } else {
        enc_string(ms[0]) + seq![COMMA] + enc_macs_items(ms.subrange(1, ms.len() as int))
    }
}

/// A `mac_addresses` array.
pub open spec fn enc_macs(ms: Seq<Seq<u8>>) -> Seq<u8> {
    seq![LBRACKET] + enc_macs_items(ms) + seq![RBRACKET]
}

/// A list of addresses the encoder can write.
pub open spec fn macs_ok(ms: Seq<Seq<u8>>) -> bool {
    forall|j: int| 0 <= j < ms.len() ==> string_ok(#[trigger] ms[j])
}

/// Parsing the comma-separated elements collects them onto `acc`.
#[verifier::spinoff_prover]
#[verifier::rlimit(100)]
proof fn lemma_parse_macs_items_enc(s: Seq<u8>, i: int, ms: Seq<Seq<u8>>, acc: Seq<Seq<u8>>)
    requires
        macs_ok(ms),
        ms.len() >= 1,
        0 <= i,
        i + enc_macs_items(ms).len() + 1 <= s.len(),
        forall|t: int| 0 <= t < enc_macs_items(ms).len() ==> s[i + t] == enc_macs_items(ms)[t],
        s[i + enc_macs_items(ms).len()] == RBRACKET,
    ensures
        crate::decode::parse_macs_items(s, i, acc) == Ok::<_, DecodeError>((
            acc + ms,
            i + enc_macs_items(ms).len() + 1,
        )),
    decreases ms.len(),
{
    let enc = enc_macs_items(ms);
    let e0 = enc_string(ms[0]);
    let n0 = ms[0].len() as int;
    assert forall|t: int| 0 <= t < e0.len() implies s[i + t] == e0[t] by {
        assert(enc[t] == e0[t]);
    }
    assert(s.subrange(i, i + n0 + 2) =~= e0);
    assert(string_ok(ms[0]));
    lemma_parse_string_enc(s, i, ms[0]);
    let after = i + n0 + 2;
    if ms.len() == 1 {
        assert(s[after] == RBRACKET);
        assert(skip_ws(s, after) == after);
        assert(acc.push(ms[0]) =~= acc + ms);
    } else {
        let rest = ms.subrange(1, ms.len() as int);
        assert(enc[(after - i)] == COMMA);
        assert(s[after] == COMMA);
        assert(skip_ws(s, after) == after);
        let renc = enc_macs_items(rest);
        assert(enc =~= e0 + seq![COMMA] + renc);
        assert forall|t: int| 0 <= t < renc.len() implies s[after + 1 + t] == renc[t] by {
            assert(enc[(after + 1 - i) + t] == renc[t]);
        }
        assert(rest.len() >= 1);
        assert(renc[0] == enc_string(rest[0])[0]);
        assert(s[after + 1] == QUOTE);
        assert(skip_ws(s, after + 1) == after + 1);
        assert(s[after + 1 + renc.len()] == RBRACKET);
        assert(macs_ok(rest)) by {
            assert forall|j: int| 0 <= j < rest.len() implies string_ok(#[trigger] rest[j]) by {
                assert(rest[j] == ms[j + 1]);
            }
        }
        lemma_parse_macs_items_enc(s, after + 1, rest, acc.push(ms[0]));
        assert(acc.push(ms[0]) + rest =~= acc + ms);
    }
}

/// Parsing an encoded `mac_addresses` array restores it.
#[verifier::spinoff_prover]
#[verifier::rlimit(100)]
proof fn lemma_parse_macs_enc(s: Seq<u8>, i: int, ms: Seq<Seq<u8>>)
    requires
        macs_ok(ms),
        0 <= i,
        i + enc_macs(ms).len() <= s.len(),
        s.subrange(i, i + enc_macs(ms).len()) == enc_macs(ms),
    ensures
        crate::decode::parse_macs(s, i) == Ok::<_, DecodeError>((ms, i + enc_macs(ms).len())),
{
    let enc = enc_macs(ms);
    assert forall|t: int| 0 <= t < enc.len() implies s[i + t] == enc[t] by {
        assert(s.subrange(i, i + enc.len())[t] == s[i + t]);
    }
    assert(enc[0] == LBRACKET);
    assert(s[i + 0] == enc[0]);
    assert(s[i] == LBRACKET);
    assert(expect(s, i, LBRACKET) == Ok::<_, DecodeError>(i + 1));
    if ms.len() == 0 {
        assert(enc[1] == RBRACKET);
        assert(skip_ws(s, i + 1) == i + 1);
        assert(crate::decode::parse_macs(s, i) == Ok::<_, DecodeError>((
            Seq::<Seq<u8>>::empty(),
            i + 2,
        )));
        assert(ms =~= Seq::<Seq<u8>>::empty());
    } else {
        let items = enc_macs_items(ms);
        assert forall|t: int| 0 <= t < items.len() implies s[i + 1 + t] == items[t] by {
            assert(enc[1 + t] == items[t]);
        }
        assert(items[0] == enc_string(ms[0])[0]);
        assert(s[i + 1] == QUOTE);
        assert(skip_ws(s, i + 1) == i + 1);
        assert(enc[1 + items.len() as int] == RBRACKET);
        assert(s[i + (1 + items.len() as int)] == enc[1 + items.len() as int]);
        assert(s[i + 1 + items.len()] == RBRACKET);
        lemma_parse_macs_items_enc(s, i + 1, ms, Seq::empty());
        assert(Seq::<Seq<u8>>::empty() + ms =~= ms);
    }
}

/// A connection the encoder can write.
pub open spec fn conn_ok(c: ConnectionView) -> bool {
    dec_ok(c.established) && string_ok(c.method) && stats_ok(c.statistics) && macs_ok(
        c.mac_addresses,
    )
}

/// A `Connection` object.
pub open spec fn enc_connection(c: ConnectionView) -> Seq<u8> {
    seq![LBRACE] + enc_field(kw_established(), enc_decimal(c.established)) + seq![COMMA]
        + enc_field(kw_method(), enc_string(c.method)) + seq![COMMA] + enc_field(
        kw_statistics(),
        enc_stats(c.statistics),
    ) + seq![COMMA] + enc_field(kw_mac_addresses(), enc_macs(c.mac_addresses)) + seq![RBRACE]
}

/// The encoding opens with a digit.
#[verifier::spinoff_prover]
#[verifier::rlimit(100)]
proof fn lemma_enc_decimal_first(d: Decimal)
    ensures
        enc_decimal(d).len() >= 1,
        is_digit(enc_decimal(d)[0]),
{
    if d.frac == 0 {
        lemma_dec_digits_shape(d.mantissa as nat);
    } else {
        let q = (d.mantissa as nat) / pow10(d.frac as nat);
        lemma_dec_digits_shape(q);
        assert(enc_decimal(d)[0] == dec_digits(q)[0]);
    }
}

/// Layout of the `established` member inside an encoded connection.
#[verifier::rlimit(100)]
#[verifier::spinoff_prover]
proof fn lemma_connection_member1(s: Seq<u8>, i: int, c: ConnectionView)
    requires
        conn_ok(c),
        0 <= i,
        i + enc_connection(c).len() <= s.len(),
        s.subrange(i, i + enc_connection(c).len()) == enc_connection(c),
    ensures
        ({
    let m1 = enc_decimal(c.established).len() as int;
    let k1 = i + 1;
    let v1 = k1 + 14;
            &&& parse_string(s, k1) == Ok::<_, DecodeError>((kw_established(), k1 + 13))
            &&& s[k1 + 13] == COLON
            &&& !is_ws(s[v1])
            &&& parse_number(s, v1) == Ok::<_, DecodeError>((c.established, v1 + m1))
            &&& s[v1 + m1] == COMMA
        }),
{
    let enc = enc_connection(c);
    lemma_kw_string_ok();
    assert forall|t2: int| 0 <= t2 < enc.len() implies s[i + t2] == enc[t2] by {
        assert(s.subrange(i, i + enc.len())[t2] == s[i + t2]);
    }
    let m1 = enc_decimal(c.established).len() as int;
    let k1 = i + 1;
    let v1 = k1 + 14;
    assert forall|t2: int| 0 <= t2 < 13 implies s[k1 + t2] == enc_string(kw_established())[t2] by {
        assert(enc[(k1 - i) + t2] == enc_string(kw_established())[t2]);
    }
    assert(s.subrange(k1, k1 + 13) =~= enc_string(kw_established()));
    lemma_parse_string_enc(s, k1, kw_established());
    assert(enc[(k1 - i) + 13] == COLON);
    assert forall|t2: int| 0 <= t2 < m1 implies s[v1 + t2] == enc_decimal(c.established)[t2] by {
        assert(enc[(v1 - i) + t2] == enc_decimal(c.established)[t2]);
    }
    assert(s.subrange(v1, v1 + m1) =~= enc_decimal(c.established));
    assert(enc[(v1 - i) + m1] == COMMA);
    assert(s[v1 + m1] == COMMA);
    lemma_enc_decimal_first(c.established);
    assert(s[v1] == enc_decimal(c.established)[0]);
    assert(is_digit(s[v1]));
    assert(!is_digit(COMMA) && COMMA != DOT);
    lemma_parse_number_enc(s, v1, c.established);
}

/// Layout of the `method` member inside an encoded connection.
#[verifier::rlimit(100)]
#[verifier::spinoff_prover]
proof fn lemma_connection_member2(s: Seq<u8>, i: int, c: ConnectionView)
    requires
        conn_ok(c),
        0 <= i,
        i + enc_connection(c).len() <= s.len(),
        s.subrange(i, i + enc_connection(c).len()) == enc_connection(c),
    ensures
        ({
    let m1 = enc_decimal(c.established).len() as int;
    let m2 = enc_string(c.method).len() as int;
    let k1 = i + 1;
    let v1 = k1 + 14;
    let k2 = v1 + m1 + 1;
    let v2 = k2 + 9;
            &&& parse_string(s, k2) == Ok::<_, DecodeError>((kw_method(), k2 + 8))
            &&& s[k2 + 8] == COLON
            &&& !is_ws(s[v2])
            &&& parse_string(s, v2) == Ok::<_, DecodeError>((c.method, v2 + m2))
            &&& s[v2 + m2] == COMMA
        }),
{
    let enc = enc_connection(c);
    lemma_kw_string_ok();
    assert forall|t2: int| 0 <= t2 < enc.len() implies s[i + t2] == enc[t2] by {
        assert(s.subrange(i, i + enc.len())[t2] == s[i + t2]);
    }
    let m1 = enc_decimal(c.established).len() as int;
    let m2 = enc_string(c.method).len() as int;
    let k1 = i + 1;
    let v1 = k1 + 14;
    let k2 = v1 + m1 + 1;
    let v2 = k2 + 9;
    assert forall|t2: int| 0 <= t2 < 8 implies s[k2 + t2] == enc_string(kw_method())[t2] by {
        assert(enc[(k2 - i) + t2] == enc_string(kw_method())[t2]);
    }
    assert(s.subrange(k2, k2 + 8) =~= enc_string(kw_method()));
    lemma_parse_string_enc(s, k2, kw_method());
    assert(enc[(k2 - i) + 8] == COLON);
    assert forall|t2: int| 0 <= t2 < m2 implies s[v2 + t2] == enc_string(c.method)[t2] by {
        assert(enc[(v2 - i) + t2] == enc_string(c.method)[t2]);
    }
    assert(s.subrange(v2, v2 + m2) =~= enc_string(c.method));
    assert(enc[(v2 - i) + m2] == COMMA);
    assert(s[v2 + m2] == COMMA);
    assert(s[v2] == enc_string(c.method)[0]);
    lemma_parse_string_enc(s, v2, c.method);
}

/// Layout of the `statistics` member inside an encoded connection.
#[verifier::rlimit(100)]
#[verifier::spinoff_prover]
proof fn lemma_connection_member3(s: Seq<u8>, i: int, c: ConnectionView)
    requires
        conn_ok(c),
        0 <= i,
        i + enc_connection(c).len() <= s.len(),
        s.subrange(i, i + enc_connection(c).len()) == enc_connection(c),
    ensures
        ({
    let m1 = enc_decimal(c.established).len() as int;
    let m2 = enc_string(c.method).len() as int;
    let m3 = enc_stats(c.statistics).len() as int;
    let k1 = i + 1;
    let v1 = k1 + 14;
    let k2 = v1 + m1 + 1;
    let v2 = k2 + 9;
    let k3 = v2 + m2 + 1;
    let v3 = k3 + 13;
            &&& parse_string(s, k3) == Ok::<_, DecodeError>((kw_statistics(), k3 + 12))
            &&& s[k3 + 12] == COLON
            &&& !is_ws(s[v3])
            &&& crate::decode::parse_stats(s, v3) == Ok::<_, DecodeError>((c.statistics, v3 + m3))
            &&& s[v3 + m3] == COMMA
        }),
{
    let enc = enc_connection(c);
    lemma_kw_string_ok();
    assert forall|t2: int| 0 <= t2 < enc.len() implies s[i + t2] == enc[t2] by {
        assert(s.subrange(i, i + enc.len())[t2] == s[i + t2]);
    }
    let m1 = enc_decimal(c.established).len() as int;
    let m2 = enc_string(c.method).len() as int;
    let m3 = enc_stats(c.statistics).len() as int;
    let k1 = i + 1;
    let v1 = k1 + 14;
    let k2 = v1 + m1 + 1;
    let v2 = k2 + 9;
    let k3 = v2 + m2 + 1;
    let v3 = k3 + 13;
    assert forall|t2: int| 0 <= t2 < 12 implies s[k3 + t2] == enc_string(kw_statistics())[t2] by {
        assert(enc[(k3 - i) + t2] == enc_string(kw_statistics())[t2]);
    }
    assert(s.subrange(k3, k3 + 12) =~= enc_string(kw_statistics()));
    lemma_parse_string_enc(s, k3, kw_statistics());
    assert(enc[(k3 - i) + 12] == COLON);
    assert forall|t2: int| 0 <= t2 < m3 implies s[v3 + t2] == enc_stats(c.statistics)[t2] by {
        assert(enc[(v3 - i) + t2] == enc_stats(c.statistics)[t2]);
    }
    assert(s.subrange(v3, v3 + m3) =~= enc_stats(c.statistics));
    assert(enc[(v3 - i) + m3] == COMMA);
    assert(s[v3 + m3] == COMMA);
    lemma_enc_stats_head(c.statistics);
    assert(s[v3] == enc_stats(c.statistics)[0]);
    lemma_parse_stats_enc(s, v3, c.statistics);
}

/// Layout of the `mac_addresses` member inside an encoded connection.
#[verifier::rlimit(100)]
#[verifier::spinoff_prover]
proof fn lemma_connection_member4(s: Seq<u8>, i: int, c: ConnectionView)
    requires
        conn_ok(c),
        0 <= i,
        i + enc_connection(c).len() <= s.len(),
        s.subrange(i, i + enc_connection(c).len()) == enc_connection(c),
    ensures
        ({
    let m1 = enc_decimal(c.established).len() as int;
    let m2 = enc_string(c.method).len() as int;
    let m3 = enc_stats(c.statistics).len() as int;
    let m4 = enc_macs(c.mac_addresses).len() as int;
    let k1 = i + 1;
    let v1 = k1 + 14;
    let k2 = v1 + m1 + 1;
    let v2 = k2 + 9;
    let k3 = v2 + m2 + 1;
    let v3 = k3 + 13;
    let k4 = v3 + m3 + 1;
    let v4 = k4 + 16;
            &&& parse_string(s, k4) == Ok::<_, DecodeError>((kw_mac_addresses(), k4 + 15))
            &&& s[k4 + 15] == COLON
            &&& !is_ws(s[v4])
            &&& crate::decode::parse_macs(s, v4) == Ok::<_, DecodeError>((c.mac_addresses, v4 + m4))
            &&& s[v4 + m4] == RBRACE
        }),
{
    let enc = enc_connection(c);
    lemma_kw_string_ok();
    assert forall|t2: int| 0 <= t2 < enc.len() implies s[i + t2] == enc[t2] by {
        assert(s.subrange(i, i + enc.len())[t2] == s[i + t2]);
    }
    let m1 = enc_decimal(c.established).len() as int;
    let m2 = enc_string(c.method).len() as int;
    let m3 = enc_stats(c.statistics).len() as int;
    let m4 = enc_macs(c.mac_addresses).len() as int;
    let k1 = i + 1;
    let v1 = k1 + 14;
    let k2 = v1 + m1 + 1;
    let v2 = k2 + 9;
    let k3 = v2 + m2 + 1;
    let v3 = k3 + 13;
    let k4 = v3 + m3 + 1;
    let v4 = k4 + 16;
    assert forall|t2: int| 0 <= t2 < 15 implies s[k4 + t2] == enc_string(kw_mac_addresses())[t2] by {
        assert(enc[(k4 - i) + t2] == enc_string(kw_mac_addresses())[t2]);
    }
    assert(s.subrange(k4, k4 + 15) =~= enc_string(kw_mac_addresses()));
    lemma_parse_string_enc(s, k4, kw_mac_addresses());
    assert(enc[(k4 - i) + 15] == COLON);
    assert forall|t2: int| 0 <= t2 < m4 implies s[v4 + t2] == enc_macs(c.mac_addresses)[t2] by {
        assert(enc[(v4 - i) + t2] == enc_macs(c.mac_addresses)[t2]);
    }
    assert(s.subrange(v4, v4 + m4) =~= enc_macs(c.mac_addresses));
    assert(enc[(v4 - i) + m4] == RBRACE);
    assert(s[v4 + m4] == RBRACE);
    assert(s[v4] == enc_macs(c.mac_addresses)[0]);
    lemma_parse_macs_enc(s, v4, c.mac_addresses);
}

/// Parsing the encoding of a connection restores it.
#[verifier::rlimit(100)]
#[verifier::spinoff_prover]
proof fn lemma_parse_connection_enc(s: Seq<u8>, i: int, c: ConnectionView)
    requires
        conn_ok(c),
        0 <= i,
        i + enc_connection(c).len() <= s.len(),
        s.subrange(i, i + enc_connection(c).len()) == enc_connection(c),
    ensures
        crate::decode::parse_connection(s, i) == Ok::<_, DecodeError>((c, i + enc_connection(c).len())),
{
    let enc = enc_connection(c);
    let m1 = enc_decimal(c.established).len() as int;
    let m2 = enc_string(c.method).len() as int;
    let m3 = enc_stats(c.statistics).len() as int;
    let m4 = enc_macs(c.mac_addresses).len() as int;
    let k1 = i + 1;
    let v1 = k1 + 14;
    let k2 = v1 + m1 + 1;
    let v2 = k2 + 9;
    let k3 = v2 + m2 + 1;
    let v3 = k3 + 13;
    let k4 = v3 + m3 + 1;
    let v4 = k4 + 16;
    assert(enc.len() == 57 + m1 + m2 + m3 + m4);
    assert(enc[0] == LBRACE);
    assert(s[i + 0] == enc[0]);
    assert(enc[1] == QUOTE);
    assert(s[i + 1] == enc[1]);
    lemma_connection_member1(s, i, c);
    lemma_connection_member2(s, i, c);
    lemma_connection_member3(s, i, c);
    lemma_connection_member4(s, i, c);

    assert(kw_established() != kw_method() && kw_established() != kw_statistics() && kw_established() != kw_mac_addresses() && kw_method() != kw_statistics() && kw_method() != kw_mac_addresses() && kw_statistics() != kw_mac_addresses());
    assert(expect(s, i, LBRACE) == Ok::<_, DecodeError>(i + 1));
    assert(skip_ws(s, k1) == k1);
    assert(skip_ws(s, k1 + 13) == k1 + 13);
    assert(skip_ws(s, v1) == v1);
    assert(skip_ws(s, v1 + m1) == v1 + m1);
    assert(skip_ws(s, k2) == k2);
    assert(skip_ws(s, k2 + 8) == k2 + 8);
    assert(skip_ws(s, v2) == v2);
    assert(skip_ws(s, v2 + m2) == v2 + m2);
    assert(skip_ws(s, k3) == k3);
    assert(skip_ws(s, k3 + 12) == k3 + 12);
    assert(skip_ws(s, v3) == v3);
    assert(skip_ws(s, v3 + m3) == v3 + m3);
    assert(skip_ws(s, k4) == k4);
    assert(skip_ws(s, k4 + 15) == k4 + 15);
    assert(skip_ws(s, v4) == v4);
    assert(skip_ws(s, v4 + m4) == v4 + m4);
    let done = i + enc.len();
    assert(crate::decode::parse_connection_fields(
        s,
        k4,
        Some(c.established),
        Some(c.method),
        Some(c.statistics),
        None,
    ) == Ok::<_, DecodeError>((c, done)));
    assert(crate::decode::parse_connection_fields(
        s,
        k3,
        Some(c.established),
        Some(c.method),
        None,
        None,
    ) == Ok::<_, DecodeError>((c, done)));
    assert(crate::decode::parse_connection_fields(
        s,
        k2,
        Some(c.established),
        None,
        None,
        None,
    ) == Ok::<_, DecodeError>((c, done)));
    assert(crate::decode::parse_connection_fields(
        s,
        k1,
        None,
        None,
        None,
        None,
    ) == Ok::<_, DecodeError>((c, done)));
}

/// The value of a `connection` member: the object, or `null` for a
/// disconnected peer.
pub open spec fn enc_opt_connection(c: Option<ConnectionView>) -> Seq<u8> {
    match c {
        None => seq![0x6eu8, 0x75, 0x6c, 0x6c],
        Some(cv) => enc_connection(cv),
    }
}

/// An optional connection the encoder can write.
pub open spec fn opt_conn_ok(c: Option<ConnectionView>) -> bool {
    match c {
        None => true,
        Some(cv) => conn_ok(cv),
    }
}

/// A peer the encoder can write.
pub open spec fn peer_ok(p: PeerView) -> bool {
    string_ok(p.name) && string_ok(p.address) && opt_conn_ok(p.connection)
}

/// A `Peer` object; a disconnected peer is written with an explicit
/// `null` connection.
pub open spec fn enc_peer(p: PeerView) -> Seq<u8> {
    seq![LBRACE] + enc_field(kw_name(), enc_string(p.name)) + seq![COMMA] + enc_field(
        kw_address(),
        enc_string(p.address),
    ) + seq![COMMA] + enc_field(kw_connection(), enc_opt_connection(p.connection)) + seq![RBRACE]
}

/// Parsing the encoding of an optional connection restores it.
#[verifier::rlimit(100)]
#[verifier::spinoff_prover]
proof fn lemma_parse_opt_connection_enc(s: Seq<u8>, i: int, c: Option<ConnectionView>)
    requires
        opt_conn_ok(c),
        0 <= i,
        i + enc_opt_connection(c).len() <= s.len(),
        s.subrange(i, i + enc_opt_connection(c).len()) == enc_opt_connection(c),
    ensures
        crate::decode::parse_opt_connection(s, i) == Ok::<_, DecodeError>((
            c,
            i + enc_opt_connection(c).len(),
        )),
{
    let enc = enc_opt_connection(c);
    match c {
        None => {
            assert(s.subrange(i, i + 4)[0] == s[i + 0]);
            assert(s.subrange(i, i + 4)[1] == s[i + 1]);
            assert(s.subrange(i, i + 4)[2] == s[i + 2]);
            assert(s.subrange(i, i + 4)[3] == s[i + 3]);
            assert(s[i + 0] == 0x6e && s[i + 1] == 0x75 && s[i + 2] == 0x6c && s[i + 3] == 0x6c);
        },
        Some(cv) => {
            assert(enc == enc_connection(cv));
            assert(enc[0] == LBRACE);
            assert(s.subrange(i, i + enc.len())[0] == s[i + 0]);
            assert(s[i] == LBRACE);
            assert(s[i] != 0x6e);
            lemma_parse_connection_enc(s, i, cv);
        },
    }
}

/// Layout of the `name` member inside an encoded peer.
#[verifier::rlimit(100)]
#[verifier::spinoff_prover]
proof fn lemma_peer_member1(s: Seq<u8>, i: int, p: PeerView)
    requires
        peer_ok(p),
        0 <= i,
        i + enc_peer(p).len() <= s.len(),
        s.subrange(i, i + enc_peer(p).len()) == enc_peer(p),
    ensures
        ({
    let m1 = enc_string(p.name).len() as int;
    let k1 = i + 1;
    let v1 = k1 + 7;
            &&& parse_string(s, k1) == Ok::<_, DecodeError>((kw_name(), k1 + 6))
            &&& s[k1 + 6] == COLON
            &&& !is_ws(s[v1])
            &&& parse_string(s, v1) == Ok::<_, DecodeError>((p.name, v1 + m1))
            &&& s[v1 + m1] == COMMA
        }),
{
    let enc = enc_peer(p);
    lemma_kw_string_ok();
    assert forall|t2: int| 0 <= t2 < enc.len() implies s[i + t2] == enc[t2] by {
        assert(s.subrange(i, i + enc.len())[t2] == s[i + t2]);
    }
    let m1 = enc_string(p.name).len() as int;
    let k1 = i + 1;
    let v1 = k1 + 7;
    assert forall|t2: int| 0 <= t2 < 6 implies s[k1 + t2] == enc_string(kw_name())[t2] by {
        assert(enc[(k1 - i) + t2] == enc_string(kw_name())[t2]);
    }
    assert(s.subrange(k1, k1 + 6) =~= enc_string(kw_name()));
    lemma_parse_string_enc(s, k1, kw_name());
    assert(enc[(k1 - i) + 6] == COLON);
    assert forall|t2: int| 0 <= t2 < m1 implies s[v1 + t2] == enc_string(p.name)[t2] by {
        assert(enc[(v1 - i) + t2] == enc_string(p.name)[t2]);
    }
    assert(s.subrange(v1, v1 + m1) =~= enc_string(p.name));
    assert(enc[(v1 - i) + m1] == COMMA);
    assert(s[v1 + m1] == COMMA);
    assert(s[v1] == enc_string(p.name)[0]);
    lemma_parse_string_enc(s, v1, p.name);
}

/// Layout of the `address` member inside an encoded peer.
#[verifier::rlimit(100)]
#[verifier::spinoff_prover]
proof fn lemma_peer_member2(s: Seq<u8>, i: int, p: PeerView)
    requires
        peer_ok(p),
        0 <= i,
        i + enc_peer(p).len() <= s.len(),
        s.subrange(i, i + enc_peer(p).len()) == enc_peer(p),
    ensures
        ({
    let m1 = enc_string(p.name).len() as int;
    let m2 = enc_string(p.address).len() as int;
    let k1 = i + 1;
    let v1 = k1 + 7;
    let k2 = v1 + m1 + 1;
    let v2 = k2 + 10;
            &&& parse_string(s, k2) == Ok::<_, DecodeError>((kw_address(), k2 + 9))
            &&& s[k2 + 9] == COLON
            &&& !is_ws(s[v2])
            &&& parse_string(s, v2) == Ok::<_, DecodeError>((p.address, v2 + m2))
            &&& s[v2 + m2] == COMMA
        }),
{
    let enc = enc_peer(p);
    lemma_kw_string_ok();
    assert forall|t2: int| 0 <= t2 < enc.len() implies s[i + t2] == enc[t2] by {
        assert(s.subrange(i, i + enc.len())[t2] == s[i + t2]);
    }
    let m1 = enc_string(p.name).len() as int;
    let m2 = enc_string(p.address).len() as int;
    let k1 = i + 1;
    let v1 = k1 + 7;
    let k2 = v1 + m1 + 1;
    let v2 = k2 + 10;
    assert forall|t2: int| 0 <= t2 < 9 implies s[k2 + t2] == enc_string(kw_address())[t2] by {
        assert(enc[(k2 - i) + t2] == enc_string(kw_address())[t2]);
    }
    assert(s.subrange(k2, k2 + 9) =~= enc_string(kw_address()));
    lemma_parse_string_enc(s, k2, kw_address());
    assert(enc[(k2 - i) + 9] == COLON);
    assert forall|t2: int| 0 <= t2 < m2 implies s[v2 + t2] == enc_string(p.address)[t2] by {
        assert(enc[(v2 - i) + t2] == enc_string(p.address)[t2]);
    }
    assert(s.subrange(v2, v2 + m2) =~= enc_string(p.address));
    assert(enc[(v2 - i) + m2] == COMMA);
    assert(s[v2 + m2] == COMMA);
    assert(s[v2] == enc_string(p.address)[0]);
    lemma_parse_string_enc(s, v2, p.address);
}

/// Layout of the `connection` member inside an encoded peer.
#[verifier::rlimit(100)]
#[verifier::spinoff_prover]
proof fn lemma_peer_member3(s: Seq<u8>, i: int, p: PeerView)
    requires
        peer_ok(p),
        0 <= i,
        i + enc_peer(p).len() <= s.len(),
        s.subrange(i, i + enc_peer(p).len()) == enc_peer(p),
    ensures
        ({
    let m1 = enc_string(p.name).len() as int;
    let m2 = enc_string(p.address).len() as int;
    let m3 = enc_opt_connection(p.connection).len() as int;
    let k1 = i + 1;
    let v1 = k1 + 7;
    let k2 = v1 + m1 + 1;
    let v2 = k2 + 10;
    let k3 = v2 + m2 + 1;
    let v3 = k3 + 13;
            &&& parse_string(s, k3) == Ok::<_, DecodeError>((kw_connection(), k3 + 12))
            &&& s[k3 + 12] == COLON
            &&& !is_ws(s[v3])
            &&& crate::decode::parse_opt_connection(s, v3) == Ok::<_, DecodeError>((p.connection, v3 + m3))
            &&& s[v3 + m3] == RBRACE
        }),
{
    let enc = enc_peer(p);
    lemma_kw_string_ok();
    assert forall|t2: int| 0 <= t2 < enc.len() implies s[i + t2] == enc[t2] by {
        assert(s.subrange(i, i + enc.len())[t2] == s[i + t2]);
    }
    let m1 = enc_string(p.name).len() as int;
    let m2 = enc_string(p.address).len() as int;
    let m3 = enc_opt_connection(p.connection).len() as int;
    let k1 = i + 1;
    let v1 = k1 + 7;
    let k2 = v1 + m1 + 1;
    let v2 = k2 + 10;
    let k3 = v2 + m2 + 1;
    let v3 = k3 + 13;
    assert forall|t2: int| 0 <= t2 < 12 implies s[k3 + t2] == enc_string(kw_connection())[t2] by {
        assert(enc[(k3 - i) + t2] == enc_string(kw_connection())[t2]);
    }
    assert(s.subrange(k3, k3 + 12) =~= enc_string(kw_connection()));
    lemma_parse_string_enc(s, k3, kw_connection());
    assert(enc[(k3 - i) + 12] == COLON);
    assert forall|t2: int| 0 <= t2 < m3 implies s[v3 + t2] == enc_opt_connection(p.connection)[t2] by {
        assert(enc[(v3 - i) + t2] == enc_opt_connection(p.connection)[t2]);
    }
    assert(s.subrange(v3, v3 + m3) =~= enc_opt_connection(p.connection));
    assert(enc[(v3 - i) + m3] == RBRACE);
    assert(s[v3 + m3] == RBRACE);
    assert(s[v3] == enc_opt_connection(p.connection)[0]);
    assert(!is_ws(s[v3])) by {
        match p.connection {
            None => {
                assert(enc_opt_connection(p.connection)[0] == 0x6e);
            },
            Some(cv) => {
                assert(enc_opt_connection(p.connection)[0] == LBRACE);
            },
        }
    }
    lemma_parse_opt_connection_enc(s, v3, p.connection);
}

/// Parsing the encoding of a peer restores it.
#[verifier::rlimit(100)]
#[verifier::spinoff_prover]
proof fn lemma_parse_peer_enc(s: Seq<u8>, i: int, p: PeerView)
    requires
        peer_ok(p),
        0 <= i,
        i + enc_peer(p).len() <= s.len(),
        s.subrange(i, i + enc_peer(p).len()) == enc_peer(p),
    ensures
        crate::decode::parse_peer(s, i) == Ok::<_, DecodeError>((p, i + enc_peer(p).len())),
{
    let enc = enc_peer(p);
    let m1 = enc_string(p.name).len() as int;
    let m2 = enc_string(p.address).len() as int;
    let m3 = enc_opt_connection(p.connection).len() as int;
    let k1 = i + 1;
    let v1 = k1 + 7;
    let k2 = v1 + m1 + 1;
    let v2 = k2 + 10;
    let k3 = v2 + m2 + 1;
    let v3 = k3 + 13;
    assert(enc.len() == 34 + m1 + m2 + m3);
    assert(enc[0] == LBRACE);
    assert(s[i + 0] == enc[0]);
    assert(enc[1] == QUOTE);
    assert(s[i + 1] == enc[1]);
    lemma_peer_member1(s, i, p);
    lemma_peer_member2(s, i, p);
    lemma_peer_member3(s, i, p);

    assert(kw_name() != kw_address() && kw_name() != kw_connection() && kw_address() != kw_connection());
    assert(expect(s, i, LBRACE) == Ok::<_, DecodeError>(i + 1));
    assert(skip_ws(s, k1) == k1);
    assert(skip_ws(s, k1 + 6) == k1 + 6);
    assert(skip_ws(s, v1) == v1);
    assert(skip_ws(s, v1 + m1) == v1 + m1);
    assert(skip_ws(s, k2) == k2);
    assert(skip_ws(s, k2 + 9) == k2 + 9);
    assert(skip_ws(s, v2) == v2);
    assert(skip_ws(s, v2 + m2) == v2 + m2);
    assert(skip_ws(s, k3) == k3);
    assert(skip_ws(s, k3 + 12) == k3 + 12);
    assert(skip_ws(s, v3) == v3);
    assert(skip_ws(s, v3 + m3) == v3 + m3);
    let done = i + enc.len();
    assert(crate::decode::parse_peer_fields(
        s,
        k3,
        Some(p.name),
        Some(p.address),
        None,
    ) == Ok::<_, DecodeError>((p, done)));
    assert(crate::decode::parse_peer_fields(
        s,
        k2,
        Some(p.name),
        None,
        None,
    ) == Ok::<_, DecodeError>((p, done)));
    assert(crate::decode::parse_peer_fields(
        s,
        k1,
        None,
        None,
        None,
    ) == Ok::<_, DecodeError>((p, done)));
}
/// One peer-table entry: quoted public key, colon, peer object.
pub open spec fn enc_peer_entry(e: (Seq<u8>, PeerView)) -> Seq<u8> {
    enc_field(e.0, enc_peer(e.1))
}

/// The members of a `peers` map, comma separated.
pub open spec fn enc_peers_items(ps: Seq<(Seq<u8>, PeerView)>) -> Seq<u8>
    decreases ps.len(),
{
    if ps.len() == 0 {
        Seq::empty()
    } else if ps.len() == 1 {
        enc_peer_entry(ps[0])
    } else {
        enc_peer_entry(ps[0]) + seq![COMMA] + enc_peers_items(ps.subrange(1, ps.len() as int))
    }
}

/// A `peers` map.
#[verifier::opaque]
pub open spec fn enc_peers(ps: Seq<(Seq<u8>, PeerView)>) -> Seq<u8> {
    seq![LBRACE] + enc_peers_items(ps) + seq![RBRACE]
}

/// An encoded statistics object opens with its brace.
#[verifier::spinoff_prover]
proof fn lemma_enc_stats_head(st: Statistics)
    ensures
        enc_stats(st).len() >= 1,
        enc_stats(st)[0] == LBRACE,
{
    reveal(enc_stats);
}

/// An encoded peer table opens with its brace.
#[verifier::spinoff_prover]
proof fn lemma_enc_peers_head(ps: Seq<(Seq<u8>, PeerView)>)
    ensures
        enc_peers(ps).len() >= 1,
        enc_peers(ps)[0] == LBRACE,
{
    reveal(enc_peers);
}

/// A peer table the encoder can write.
pub open spec fn peers_ok(ps: Seq<(Seq<u8>, PeerView)>) -> bool {
    forall|j: int| 0 <= j < ps.len() ==> string_ok((#[trigger] ps[j]).0) && peer_ok(ps[j].1)
}

/// Pairwise distinct public keys.
pub open spec fn peers_keys_distinct(ps: Seq<(Seq<u8>, PeerView)>) -> bool {
    forall|a: int, b: int| 0 <= a < b < ps.len() ==> ps[a].0 != ps[b].0
}

/// Parsing the comma-separated entries collects them onto `acc`, provided
/// no key repeats.
#[verifier::rlimit(100)]
#[verifier::spinoff_prover]
proof fn lemma_parse_peers_items_enc(
    s: Seq<u8>,
    i: int,
    ps: Seq<(Seq<u8>, PeerView)>,
    acc: Seq<(Seq<u8>, PeerView)>,
)
    requires
        peers_ok(ps),
        peers_keys_distinct(ps),
        ps.len() >= 1,
        forall|j: int| 0 <= j < ps.len() ==> !crate::decode::peers_contain(acc, (#[trigger] ps[j]).0),
        0 <= i,
        i + enc_peers_items(ps).len() + 1 <= s.len(),
        forall|t: int| 0 <= t < enc_peers_items(ps).len() ==> s[i + t] == enc_peers_items(ps)[t],
        s[i + enc_peers_items(ps).len()] == RBRACE,
    ensures
        crate::decode::parse_peers_fields(s, i, acc) == Ok::<_, DecodeError>((
            acc + ps,
            i + enc_peers_items(ps).len() + 1,
        )),
    decreases ps.len(),
{
    let enc = enc_peers_items(ps);
    let key = ps[0].0;
    let p = ps[0].1;
    let e0 = enc_peer_entry(ps[0]);
    let klen = key.len() as int;
    let plen = enc_peer(p).len() as int;
    assert(e0 == enc_string(key) + seq![COLON] + enc_peer(p));
    assert(e0.len() == klen + 3 + plen);
    assert forall|t: int| 0 <= t < e0.len() implies s[i + t] == e0[t] by {
        assert(enc[t] == e0[t]);
    }
    assert forall|t: int| 0 <= t < klen + 2 implies s[i + t] == enc_string(key)[t] by {
        assert(e0[t] == enc_string(key)[t]);
    }
    assert(s.subrange(i, i + klen + 2) =~= enc_string(key));
    assert(string_ok(key) && peer_ok(p));
    lemma_parse_string_enc(s, i, key);
    assert(!crate::decode::peers_contain(acc, key));
    assert(e0[klen + 2] == COLON);
    assert(s[i + klen + 2] == COLON);
    assert(skip_ws(s, i + klen + 2) == i + klen + 2);
    let vp = i + klen + 3;
    assert forall|t: int| 0 <= t < plen implies s[vp + t] == enc_peer(p)[t] by {
        assert(e0[(klen + 3) + t] == enc_peer(p)[t]);
    }
    assert(s.subrange(vp, vp + plen) =~= enc_peer(p));
    assert(s[vp] == enc_peer(p)[0]);
    assert(enc_peer(p)[0] == LBRACE);
    assert(skip_ws(s, vp) == vp);
    lemma_parse_peer_enc(s, vp, p);
    let after = vp + plen;
    let acc2 = acc.push((key, p));
    assert(ps[0] == (key, p));
    if ps.len() == 1 {
        assert(s[after] == RBRACE);
        assert(skip_ws(s, after) == after);
        assert(acc2 =~= acc + ps);
    } else {
        let rest = ps.subrange(1, ps.len() as int);
        assert(enc =~= e0 + seq![COMMA] + enc_peers_items(rest));
        assert(enc[(after - i)] == COMMA);
        assert(s[after] == COMMA);
        assert(skip_ws(s, after) == after);
        let renc = enc_peers_items(rest);
        assert forall|t: int| 0 <= t < renc.len() implies s[after + 1 + t] == renc[t] by {
            assert(enc[(after + 1 - i) + t] == renc[t]);
        }
        assert(rest.len() >= 1);
        assert(renc[0] == enc_peer_entry(rest[0])[0]);
        assert(enc_peer_entry(rest[0])[0] == QUOTE);
        assert(s[after + 1] == QUOTE);
        assert(skip_ws(s, after + 1) == after + 1);
        assert(s[after + 1 + renc.len()] == RBRACE);
        assert(peers_ok(rest) && peers_keys_distinct(rest)) by {
            assert forall|j: int| 0 <= j < rest.len() implies string_ok((#[trigger] rest[j]).0)
                && peer_ok(rest[j].1) by {
                assert(rest[j] == ps[j + 1]);
            }
            assert forall|a: int, b: int| 0 <= a < b < rest.len() implies rest[a].0
                != rest[b].0 by {
                assert(rest[a] == ps[a + 1] && rest[b] == ps[b + 1]);
            }
        }
        assert forall|j: int| 0 <= j < rest.len() implies !crate::decode::peers_contain(
            acc2,
            (#[trigger] rest[j]).0,
        ) by {
            assert(rest[j] == ps[j + 1]);
            if crate::decode::peers_contain(acc2, rest[j].0) {
                let t = choose|t: int| 0 <= t < acc2.len() && acc2[t].0 == rest[j].0;
                if t < acc.len() {
                    assert(crate::decode::peers_contain(acc, ps[j + 1].0));
                    assert(false);
                } else {
                    assert(acc2[t].0 == key);
                    assert(ps[0].0 == ps[j + 1].0);
                    assert(false);
                }
            }
        }
        lemma_parse_peers_items_enc(s, after + 1, rest, acc2);
        assert(acc2 + rest =~= acc + ps);
    }
}

/// Parsing an encoded peer table restores it.
#[verifier::rlimit(100)]
#[verifier::spinoff_prover]
proof fn lemma_parse_peers_enc(s: Seq<u8>, i: int, ps: Seq<(Seq<u8>, PeerView)>)
    requires
        peers_ok(ps),
        peers_keys_distinct(ps),
        0 <= i,
        i + enc_peers(ps).len() <= s.len(),
        s.subrange(i, i + enc_peers(ps).len()) == enc_peers(ps),
    ensures
        crate::decode::parse_peers(s, i) == Ok::<_, DecodeError>((ps, i + enc_peers(ps).len())),
{
    reveal(enc_peers);
    let enc = enc_peers(ps);
    assert forall|t: int| 0 <= t < enc.len() implies s[i + t] == enc[t] by {
        assert(s.subrange(i, i + enc.len())[t] == s[i + t]);
    }
    assert(enc[0] == LBRACE);
    assert(s[i + 0] == enc[0]);
    assert(expect(s, i, LBRACE) == Ok::<_, DecodeError>(i + 1));
    if ps.len() == 0 {
        assert(enc[1] == RBRACE);
        assert(skip_ws(s, i + 1) == i + 1);
        assert(crate::decode::parse_peers(s, i) == Ok::<_, DecodeError>((
            Seq::<(Seq<u8>, PeerView)>::empty(),
            i + 2,
        )));
        assert(ps =~= Seq::<(Seq<u8>, PeerView)>::empty());
    } else {
        let items = enc_peers_items(ps);
        assert forall|t: int| 0 <= t < items.len() implies s[i + 1 + t] == items[t] by {
            assert(enc[1 + t] == items[t]);
        }
        assert(items[0] == enc_peer_entry(ps[0])[0]);
        assert(enc_peer_entry(ps[0])[0] == QUOTE);
        assert(s[i + 1] == QUOTE);
        assert(skip_ws(s, i + 1) == i + 1);
        assert(enc[1 + items.len() as int] == RBRACE);
        assert(s[i + (1 + items.len() as int)] == enc[1 + items.len() as int]);
        assert forall|j: int| 0 <= j < ps.len() implies !crate::decode::peers_contain(
            Seq::<(Seq<u8>, PeerView)>::empty(),
            (#[trigger] ps[j]).0,
        ) by {}
        lemma_parse_peers_items_enc(s, i + 1, ps, Seq::empty());
        assert(Seq::<(Seq<u8>, PeerView)>::empty() + ps =~= ps);
    }
}

/// A snapshot the encoder can write: verbatim strings throughout and
/// decimals within the supported precision.
pub open spec fn encodable(v: StatusView) -> bool {
    dec_ok(v.uptime) && string_ok(v.interface) && stats_ok(v.statistics) && peers_ok(v.peers)
}

/// A whole status document, canonically: the four fields in the data
/// model's order, no whitespace, every peer's connection written out.
pub open spec fn spec_encode(v: StatusView) -> Seq<u8> {
    seq![LBRACE] + enc_field(kw_uptime(), enc_decimal(v.uptime)) + seq![COMMA] + enc_field(
        kw_interface(),
        enc_string(v.interface),
    ) + seq![COMMA] + enc_field(kw_statistics(), enc_stats(v.statistics)) + seq![COMMA] + enc_field(
        kw_peers(),
        enc_peers(v.peers),
    ) + seq![RBRACE]
}

/// Split one concatenation level: where a stretch of `s` holds
/// `left + right`, each half covers its own subrange.
proof fn lemma_peel(s: Seq<u8>, lo: int, left: Seq<u8>, right: Seq<u8>)
    requires
        0 <= lo,
        lo + left.len() + right.len() <= s.len(),
        s.subrange(lo, lo + left.len() + right.len()) == left + right,
    ensures
        s.subrange(lo, lo + left.len()) == left,
        s.subrange(lo + left.len(), lo + left.len() + right.len()) == right,
{
    let hi = lo + left.len() + right.len();
    let mid = lo + left.len();
    assert forall|t: int| 0 <= t < left.len() implies s.subrange(lo, mid)[t] == left[t] by {
        assert(s.subrange(lo, mid)[t] == s[lo + t]);
        assert(s.subrange(lo, hi)[t] == s[lo + t]);
        assert((left + right)[t] == left[t]);
    }
    assert(s.subrange(lo, mid) =~= left);
    assert forall|t: int| 0 <= t < right.len() implies s.subrange(mid, hi)[t] == right[t] by {
        assert(s.subrange(mid, hi)[t] == s[mid + t]);
        assert(s.subrange(lo, hi)[left.len() + t] == s[mid + t]);
        assert((left + right)[left.len() + t] == right[t]);
    }
    assert(s.subrange(mid, hi) =~= right);
}

/// A single known byte under a singleton subrange.
proof fn lemma_single(s: Seq<u8>, lo: int, b: u8)
    requires
        0 <= lo,
        lo + 1 <= s.len(),
        s.subrange(lo, lo + 1) == seq![b],
    ensures
        s[lo] == b,
{
    assert(s.subrange(lo, lo + 1)[0] == s[lo]);
}

/// The first byte under a known subrange.
proof fn lemma_head(s: Seq<u8>, lo: int, seg: Seq<u8>)
    requires
        0 <= lo,
        lo + seg.len() <= s.len(),
        seg.len() >= 1,
        s.subrange(lo, lo + seg.len()) == seg,
    ensures
        s[lo] == seg[0],
{
    assert(s.subrange(lo, lo + seg.len())[0] == s[lo]);
}

/// Layout of one object member at `lo`: quoted key, colon, value bytes.
proof fn lemma_field_layout(s: Seq<u8>, lo: int, key: Seq<u8>, val: Seq<u8>)
    requires
        0 <= lo,
        lo + key.len() + 3 + val.len() <= s.len(),
        s.subrange(lo, lo + key.len() + 3 + val.len()) == enc_field(key, val),
    ensures
        s.subrange(lo, lo + key.len() + 2) == enc_string(key),
        s[lo + key.len() + 2] == COLON,
        s.subrange(lo + key.len() + 3, lo + key.len() + 3 + val.len()) == val,
        s[lo] == QUOTE,
{
    assert(enc_field(key, val) == (enc_string(key) + seq![COLON]) + val);
    assert(enc_string(key).len() == key.len() + 2);
    lemma_peel(s, lo, enc_string(key) + seq![COLON], val);
    lemma_peel(s, lo, enc_string(key), seq![COLON]);
    lemma_single(s, lo + key.len() + 2, COLON);
    assert(enc_string(key)[0] == QUOTE);
    lemma_head(s, lo, enc_string(key));
}

/// Where each piece of an encoded status document lies: the opening
/// brace, the four members, their separators, the closing brace.
#[verifier::rlimit(100)]
#[verifier::spinoff_prover]
proof fn lemma_status_layout(s: Seq<u8>, i: int, v: StatusView)
    requires
        0 <= i,
        i + spec_encode(v).len() <= s.len(),
        s.subrange(i, i + spec_encode(v).len()) == spec_encode(v),
    ensures
        ({
            let m1 = enc_decimal(v.uptime).len() as int;
            let m2 = enc_string(v.interface).len() as int;
            let m3 = enc_stats(v.statistics).len() as int;
            let m4 = enc_peers(v.peers).len() as int;
            let k1 = i + 1;
            let v1 = k1 + 9;
            let k2 = v1 + m1 + 1;
            let v2 = k2 + 12;
            let k3 = v2 + m2 + 1;
            let v3 = k3 + 13;
            let k4 = v3 + m3 + 1;
            let v4 = k4 + 8;
            &&& spec_encode(v).len() == 47 + m1 + m2 + m3 + m4
            &&& s[i] == LBRACE
            &&& s.subrange(k1, v1 + m1) == enc_field(kw_uptime(), enc_decimal(v.uptime))
            &&& s[v1 + m1] == COMMA
            &&& s.subrange(k2, v2 + m2) == enc_field(kw_interface(), enc_string(v.interface))
            &&& s[v2 + m2] == COMMA
            &&& s.subrange(k3, v3 + m3) == enc_field(kw_statistics(), enc_stats(v.statistics))
            &&& s[v3 + m3] == COMMA
            &&& s.subrange(k4, v4 + m4) == enc_field(kw_peers(), enc_peers(v.peers))
            &&& s[v4 + m4] == RBRACE
        }),
{
    let enc = spec_encode(v);
    let f1 = enc_field(kw_uptime(), enc_decimal(v.uptime));
    let f2 = enc_field(kw_interface(), enc_string(v.interface));
    let f3 = enc_field(kw_statistics(), enc_stats(v.statistics));
    let f4 = enc_field(kw_peers(), enc_peers(v.peers));
    let p8 = seq![LBRACE] + f1 + seq![COMMA] + f2 + seq![COMMA] + f3 + seq![COMMA] + f4;
    let p7 = seq![LBRACE] + f1 + seq![COMMA] + f2 + seq![COMMA] + f3 + seq![COMMA];
    let p6 = seq![LBRACE] + f1 + seq![COMMA] + f2 + seq![COMMA] + f3;
    let p5 = seq![LBRACE] + f1 + seq![COMMA] + f2 + seq![COMMA];
    let p4 = seq![LBRACE] + f1 + seq![COMMA] + f2;
    let p3 = seq![LBRACE] + f1 + seq![COMMA];
    let p2 = seq![LBRACE] + f1;
    assert(enc == p8 + seq![RBRACE]);
    lemma_peel(s, i, p8, seq![RBRACE]);
    assert(p8 == p7 + f4);
    lemma_peel(s, i, p7, f4);
    assert(p7 == p6 + seq![COMMA]);
    lemma_peel(s, i, p6, seq![COMMA]);
    assert(p6 == p5 + f3);
    lemma_peel(s, i, p5, f3);
    assert(p5 == p4 + seq![COMMA]);
    lemma_peel(s, i, p4, seq![COMMA]);
    assert(p4 == p3 + f2);
    lemma_peel(s, i, p3, f2);
    assert(p3 == p2 + seq![COMMA]);
    lemma_peel(s, i, p2, seq![COMMA]);
    lemma_peel(s, i, seq![LBRACE], f1);
    assert(f1.len() == 9 + enc_decimal(v.uptime).len());
    assert(f2.len() == 12 + enc_string(v.interface).len());
    assert(f3.len() == 13 + enc_stats(v.statistics).len());
    assert(f4.len() == 8 + enc_peers(v.peers).len());
    lemma_single(s, i, LBRACE);
    let m1 = enc_decimal(v.uptime).len() as int;
    let m2 = enc_string(v.interface).len() as int;
    let m3 = enc_stats(v.statistics).len() as int;
    let m4 = enc_peers(v.peers).len() as int;
    let k1 = i + 1;
    let v1 = k1 + 9;
    let k2 = v1 + m1 + 1;
    let v2 = k2 + 12;
    let k3 = v2 + m2 + 1;
    let v3 = k3 + 13;
    let k4 = v3 + m3 + 1;
    let v4 = k4 + 8;
    lemma_single(s, v1 + m1, COMMA);
    lemma_single(s, v2 + m2, COMMA);
    lemma_single(s, v3 + m3, COMMA);
    lemma_single(s, v4 + m4, RBRACE);
}

/// The key-by-key walk of the status-object parser over a document whose
/// member layout is given.
#[verifier::rlimit(100)]
#[verifier::spinoff_prover]
proof fn lemma_status_fields_chain(
    s: Seq<u8>,
    v: StatusView,
    k1: int,
    v1: int,
    k2: int,
    v2: int,
    k3: int,
    v3: int,
    k4: int,
    v4: int,
    done: int,
)
    requires
        0 <= k1,
        v1 == k1 + 9,
        parse_string(s, k1) == Ok::<_, DecodeError>((kw_uptime(), k1 + 8)),
        s[k1 + 8] == COLON,
        parse_number(s, v1) == Ok::<_, DecodeError>((v.uptime, k2 - 1)),
        s[k2 - 1] == COMMA,
        v2 == k2 + 12,
        k1 < k2,
        parse_string(s, k2) == Ok::<_, DecodeError>((kw_interface(), k2 + 11)),
        s[k2 + 11] == COLON,
        parse_string(s, v2) == Ok::<_, DecodeError>((v.interface, k3 - 1)),
        s[k3 - 1] == COMMA,
        v3 == k3 + 13,
        k2 < k3,
        parse_string(s, k3) == Ok::<_, DecodeError>((kw_statistics(), k3 + 12)),
        s[k3 + 12] == COLON,
        crate::decode::parse_stats(s, v3) == Ok::<_, DecodeError>((v.statistics, k4 - 1)),
        s[k4 - 1] == COMMA,
        v4 == k4 + 8,
        k3 < k4,
        parse_string(s, k4) == Ok::<_, DecodeError>((kw_peers(), k4 + 7)),
        s[k4 + 7] == COLON,
        crate::decode::parse_peers(s, v4) == Ok::<_, DecodeError>((v.peers, done - 1)),
        s[done - 1] == RBRACE,
        done <= s.len(),
        k4 < done,
        skip_ws(s, k1 + 8) == k1 + 8,
        skip_ws(s, v1) == v1,
        skip_ws(s, k2 - 1) == k2 - 1,
        skip_ws(s, k2) == k2,
        skip_ws(s, k2 + 11) == k2 + 11,
        skip_ws(s, v2) == v2,
        skip_ws(s, k3 - 1) == k3 - 1,
        skip_ws(s, k3) == k3,
        skip_ws(s, k3 + 12) == k3 + 12,
        skip_ws(s, v3) == v3,
        skip_ws(s, k4 - 1) == k4 - 1,
        skip_ws(s, k4) == k4,
        skip_ws(s, k4 + 7) == k4 + 7,
        skip_ws(s, v4) == v4,
        skip_ws(s, done - 1) == done - 1,
    ensures
        crate::decode::parse_status_fields(s, k1, None, None, None, None) == Ok::<_, DecodeError>((
            v,
            done,
        )),
{
    assert(kw_uptime() != kw_interface() && kw_uptime() != kw_statistics() && kw_uptime()
        != kw_peers() && kw_interface() != kw_statistics() && kw_interface() != kw_peers()
        && kw_statistics() != kw_peers());
    assert(crate::decode::parse_status_fields(
        s,
        k4,
        Some(v.uptime),
        Some(v.interface),
        Some(v.statistics),
        None,
    ) == Ok::<_, DecodeError>((v, done)));
    assert(crate::decode::parse_status_fields(
        s,
        k3,
        Some(v.uptime),
        Some(v.interface),
        None,
        None,
    ) == Ok::<_, DecodeError>((v, done)));
    assert(crate::decode::parse_status_fields(
        s,
        k2,
        Some(v.uptime),
        None,
        None,
        None,
    ) == Ok::<_, DecodeError>((v, done)));
    assert(crate::decode::parse_status_fields(
        s,
        k1,
        None,
        None,
        None,
        None,
    ) == Ok::<_, DecodeError>((v, done)));
}

/// Parsing the encoding of a status restores it.
#[verifier::rlimit(100)]
#[verifier::spinoff_prover]
proof fn lemma_parse_status_enc(s: Seq<u8>, i: int, v: StatusView)
    requires
        encodable(v),
        peers_keys_distinct(v.peers),
        0 <= i,
        i + spec_encode(v).len() <= s.len(),
        s.subrange(i, i + spec_encode(v).len()) == spec_encode(v),
    ensures
        crate::decode::parse_status(s, i) == Ok::<_, DecodeError>((v, i + spec_encode(v).len())),
{
    let enc = spec_encode(v);
    let m1 = enc_decimal(v.uptime).len() as int;
    let m2 = enc_string(v.interface).len() as int;
    let m3 = enc_stats(v.statistics).len() as int;
    let m4 = enc_peers(v.peers).len() as int;
    let k1 = i + 1;
    let v1 = k1 + 9;
    let k2 = v1 + m1 + 1;
    let v2 = k2 + 12;
    let k3 = v2 + m2 + 1;
    let v3 = k3 + 13;
    let k4 = v3 + m3 + 1;
    let v4 = k4 + 8;
    lemma_status_layout(s, i, v);
    lemma_kw_string_ok();
    lemma_field_layout(s, k1, kw_uptime(), enc_decimal(v.uptime));
    lemma_field_layout(s, k2, kw_interface(), enc_string(v.interface));
    lemma_field_layout(s, k3, kw_statistics(), enc_stats(v.statistics));
    lemma_field_layout(s, k4, kw_peers(), enc_peers(v.peers));
    lemma_parse_string_enc(s, k1, kw_uptime());
    lemma_parse_string_enc(s, k2, kw_interface());
    lemma_parse_string_enc(s, k3, kw_statistics());
    lemma_parse_string_enc(s, k4, kw_peers());
    lemma_enc_decimal_first(v.uptime);
    lemma_head(s, v1, enc_decimal(v.uptime));
    assert(is_digit(s[v1]));
    assert(!is_digit(COMMA) && COMMA != DOT);
    lemma_parse_number_enc(s, v1, v.uptime);
    assert(enc_string(v.interface)[0] == QUOTE);
    lemma_head(s, v2, enc_string(v.interface));
    lemma_parse_string_enc(s, v2, v.interface);
    lemma_enc_stats_head(v.statistics);
    lemma_head(s, v3, enc_stats(v.statistics));
    lemma_parse_stats_enc(s, v3, v.statistics);
    lemma_enc_peers_head(v.peers);
    lemma_head(s, v4, enc_peers(v.peers));
    lemma_parse_peers_enc(s, v4, v.peers);
    assert(expect(s, i, LBRACE) == Ok::<_, DecodeError>(i + 1));
    assert(skip_ws(s, k1) == k1);
    assert(skip_ws(s, k1 + 8) == k1 + 8);
    assert(skip_ws(s, v1) == v1);
    assert(skip_ws(s, v1 + m1) == v1 + m1);
    assert(skip_ws(s, k2) == k2);
    assert(skip_ws(s, k2 + 11) == k2 + 11);
    assert(skip_ws(s, v2) == v2);
    assert(skip_ws(s, v2 + m2) == v2 + m2);
    assert(skip_ws(s, k3) == k3);
    assert(skip_ws(s, k3 + 12) == k3 + 12);
    assert(skip_ws(s, v3) == v3);
    assert(skip_ws(s, v3 + m3) == v3 + m3);
    assert(skip_ws(s, k4) == k4);
    assert(skip_ws(s, k4 + 7) == k4 + 7);
    assert(skip_ws(s, v4) == v4);
    assert(skip_ws(s, v4 + m4) == v4 + m4);
    let done = i + enc.len();
    lemma_status_fields_chain(s, v, k1, v1, k2, v2, k3, v3, k4, v4, done);
    assert(crate::decode::parse_status(s, i) == Ok::<_, DecodeError>((v, done)));
}

/// Decoding the canonical encoding of a well-formed, encodable snapshot
/// restores it exactly: nothing is lost between a snapshot and its
/// document.
#[verifier::spinoff_prover]
#[verifier::rlimit(100)]
pub proof fn lemma_decode_encode(v: StatusView)
    requires
        encodable(v),
        wf_status(v),
    ensures
        crate::decode::spec_decode(spec_encode(v)) == Ok::<StatusView, DecodeError>(v),
{
    let s = spec_encode(v);
    assert(peers_keys_distinct(v.peers));
    assert(s.subrange(0, s.len() as int) =~= s);
    assert(s[0] == LBRACE);
    assert(skip_ws(s, 0) == 0);
    lemma_parse_status_enc(s, 0, v);
    assert(skip_ws(s, s.len() as int) == s.len());
}

/// The encoding is injective: distinct snapshots always yield distinct
/// documents.
#[verifier::spinoff_prover]
#[verifier::rlimit(100)]
pub proof fn lemma_encode_injective(v1: StatusView, v2: StatusView)
    requires
        encodable(v1),
        wf_status(v1),
        encodable(v2),
        wf_status(v2),
        spec_encode(v1) == spec_encode(v2),
    ensures
        v1 == v2,
{
    lemma_decode_encode(v1);
    lemma_decode_encode(v2);
}

} // verus!
