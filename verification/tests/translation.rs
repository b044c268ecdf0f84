//! End-to-end behavior of the translation engine: decoding, flattening,
//! merging, and the scrape cycle.

use fastd_exporter::aggregate::{get_metrics, scrape};
use fastd_exporter::decode::{decode, DecodeError};
use fastd_exporter::metrics::{flatten, Sample, SampleKey};
use fastd_exporter::status::{
    Connection, Counter, Decimal, FastdStatus, Kind, Peer, Statistics, Traffic,
};

fn dec(mantissa: u64, frac: u8) -> Decimal {
    Decimal { mantissa, frac }
}

fn traffic(packets: u64, bytes: u64) -> Traffic {
    Traffic {
        packets: Decimal::integer(packets),
        bytes: Decimal::integer(bytes),
    }
}

fn stats_zero() -> Statistics {
    Statistics {
        rx: traffic(0, 0),
        rx_reordered: traffic(0, 0),
        tx: traffic(0, 0),
        tx_dropped: traffic(0, 0),
        tx_error: traffic(0, 0),
    }
}

fn stats_json(rx: &str, tx: &str) -> String {
    let zero = "{\"packets\":0,\"bytes\":0}";
    format!(
        "{{\"rx\":{},\"rx_reordered\":{},\"tx\":{},\"tx_dropped\":{},\"tx_error\":{}}}",
        rx, zero, tx, zero, zero
    )
}

/// The document of the worked scenario: instance `gw1`, one connected
/// peer `abc` named `alice`.
fn gw1_doc() -> Vec<u8> {
    let stats = stats_json(
        "{\"packets\":0,\"bytes\":0}",
        "{\"packets\":10,\"bytes\":2000}",
    );
    let conn_stats = stats_json(
        "{\"packets\":5,\"bytes\":500}",
        "{\"packets\":0,\"bytes\":0}",
    );
    let conn = format!(
        "{{\"established\":100.0,\"method\":\"salsa2012+umac\",\"statistics\":{},\"mac_addresses\":[\"11:22:33:44:55:66\"]}}",
        conn_stats
    );
    let peer = format!(
        "{{\"name\":\"alice\",\"address\":\"10.0.0.1:1337\",\"connection\":{}}}",
        conn
    );
    format!(
        "{{\"uptime\":12345.0,\"interface\":\"gw1\",\"statistics\":{},\"peers\":{{\"abc\":{}}}}}",
        stats, peer
    )
    .into_bytes()
}

fn find<'a>(samples: &'a [Sample], want: &SampleKey) -> Option<&'a Sample> {
    samples.iter().find(|s| &s.key == want)
}

#[test]
fn scenario_gw1_merged_samples() {
    let inputs = vec![(b"gw1-sock".to_vec(), gw1_doc())];
    let out = scrape(&inputs).expect("distinct ifaces");
    assert!(out.failures.is_empty());
    // 1 uptime + 10 instance traffic + (1 + 10) for the one connected peer.
    assert_eq!(out.samples.len(), 22);

    let uptime = find(
        &out.samples,
        &SampleKey::TotalUptime {
            iface: b"gw1".to_vec(),
        },
    )
    .expect("uptime sample");
    assert_eq!(uptime.value, dec(123450, 1)); // 12345.0

    let tx_bytes = find(
        &out.samples,
        &SampleKey::TotalTraffic {
            iface: b"gw1".to_vec(),
            typ: Counter::Tx,
            kind: Kind::Bytes,
        },
    )
    .expect("total traffic sample");
    assert_eq!(tx_bytes.value, Decimal::integer(2000));

    let peer_uptime = find(
        &out.samples,
        &SampleKey::PeerConnectionUptime {
            key: b"abc".to_vec(),
            name: b"alice".to_vec(),
            iface: b"gw1".to_vec(),
        },
    )
    .expect("peer uptime sample");
    assert_eq!(peer_uptime.value, dec(1000, 1)); // 100.0

    let peer_rx_packets = find(
        &out.samples,
        &SampleKey::PeerTraffic {
            key: b"abc".to_vec(),
            name: b"alice".to_vec(),
            iface: b"gw1".to_vec(),
            typ: Counter::Rx,
            kind: Kind::Packets,
        },
    )
    .expect("peer traffic sample");
    assert_eq!(peer_rx_packets.value, Decimal::integer(5));
}

#[test]
fn disconnected_peer_contributes_nothing() {
    let status = FastdStatus {
        uptime: Decimal::integer(1),
        interface: b"vpn0".to_vec(),
        statistics: stats_zero(),
        peers: vec![(
            b"idlekey".to_vec(),
            Peer {
                name: b"idle".to_vec(),
                address: b"198.51.100.7:10000".to_vec(),
                connection: None,
            },
        )],
    };
    let samples = flatten(&status);
    assert_eq!(samples.len(), 11); // 1 uptime + 10 traffic, nothing from the peer
    assert!(samples
        .iter()
        .all(|s| !matches!(s.key, SampleKey::PeerConnectionUptime { .. })
            && !matches!(s.key, SampleKey::PeerTraffic { .. })));
}

#[test]
fn connected_peer_contributes_eleven_samples() {
    let status = FastdStatus {
        uptime: Decimal::integer(1),
        interface: b"vpn0".to_vec(),
        statistics: stats_zero(),
        peers: vec![(
            b"livekey".to_vec(),
            Peer {
                name: b"live".to_vec(),
                address: b"198.51.100.8:10000".to_vec(),
                connection: Some(Connection {
                    established: Decimal::integer(7),
                    method: b"m".to_vec(),
                    statistics: stats_zero(),
                    mac_addresses: vec![],
                }),
            },
        )],
    };
    let samples = flatten(&status);
    assert_eq!(samples.len(), 11 + 11);
    let peer_samples = samples
        .iter()
        .filter(|s| {
            matches!(s.key, SampleKey::PeerConnectionUptime { .. })
                || matches!(s.key, SampleKey::PeerTraffic { .. })
        })
        .count();
    assert_eq!(peer_samples, 1 + 10);
}

#[test]
fn label_vocabularies_are_closed() {
    let inputs = vec![(b"gw1-sock".to_vec(), gw1_doc())];
    let out = scrape(&inputs).unwrap();
    let counter_names: Vec<&[u8]> = vec![b"rx", b"rx_reordered", b"tx", b"tx_dropped", b"tx_error"];
    let metric_names = [
        "total_uptime",
        "total_traffic",
        "peer_connection_uptime",
        "peer_traffic",
    ];
    for s in &out.samples {
        assert!(metric_names.contains(&s.metric_name()));
        for (label, value) in s.labels() {
            match label {
                "kind" => assert!(value == b"packets".to_vec() || value == b"bytes".to_vec()),
                "type" => assert!(counter_names.contains(&value.as_slice())),
                "iface" | "key" | "name" => {}
                other => panic!("unexpected label name {}", other),
            }
        }
    }
}

#[test]
fn counters_keep_their_fixed_order() {
    let st = stats_zero();
    let names: Vec<&str> = st.counters().iter().map(|c| c.0.name()).collect();
    assert_eq!(names, vec!["rx", "rx_reordered", "tx", "tx_dropped", "tx_error"]);

    // The flattened instance traffic block walks the same order,
    // packets before bytes within each counter.
    let status = FastdStatus {
        uptime: Decimal::integer(0),
        interface: b"vpn0".to_vec(),
        statistics: stats_zero(),
        peers: vec![],
    };
    let samples = flatten(&status);
    let mut traffic_labels = Vec::new();
    for s in &samples {
        if let SampleKey::TotalTraffic { typ, kind, .. } = &s.key {
            traffic_labels.push((typ.name(), kind.name()));
        }
    }
    assert_eq!(
        traffic_labels,
        vec![
            ("rx", "packets"),
            ("rx", "bytes"),
            ("rx_reordered", "packets"),
            ("rx_reordered", "bytes"),
            ("tx", "packets"),
            ("tx", "bytes"),
            ("tx_dropped", "packets"),
            ("tx_dropped", "bytes"),
            ("tx_error", "packets"),
            ("tx_error", "bytes"),
        ]
    );
}

#[test]
fn merging_distinct_interfaces_adds_sizes_without_collisions() {
    let mk = |iface: &[u8]| FastdStatus {
        uptime: Decimal::integer(3),
        interface: iface.to_vec(),
        statistics: stats_zero(),
        peers: vec![(
            b"k1".to_vec(),
            Peer {
                name: b"p".to_vec(),
                address: b"addr".to_vec(),
                connection: Some(Connection {
                    established: Decimal::integer(9),
                    method: b"m".to_vec(),
                    statistics: stats_zero(),
                    mac_addresses: vec![],
                }),
            },
        )],
    };
    let a = mk(b"vpn0");
    let b = mk(b"vpn1");
    let each = flatten(&a).len();
    assert_eq!(flatten(&b).len(), each);
    let merged = get_metrics(&vec![a, b]).expect("distinct interfaces merge");
    assert_eq!(merged.len(), 2 * each);
    for x in 0..merged.len() {
        for y in (x + 1)..merged.len() {
            assert!(
                merged[x].key != merged[y].key,
                "label collision in merged set"
            );
        }
    }
}

#[test]
fn merging_duplicate_interfaces_is_a_configuration_error() {
    let mk = || FastdStatus {
        uptime: Decimal::integer(3),
        interface: b"vpn0".to_vec(),
        statistics: stats_zero(),
        peers: vec![],
    };
    let err = get_metrics(&vec![mk(), mk()]).expect_err("duplicate iface must be rejected");
    assert_eq!(err.iface, b"vpn0".to_vec());
}

#[test]
fn failing_instance_is_reported_not_fatal() {
    let bad = b"{\"uptime\":oops".to_vec();
    let inputs = vec![
        (b"broken-sock".to_vec(), bad),
        (b"gw1-sock".to_vec(), gw1_doc()),
    ];
    let out = scrape(&inputs).expect("one healthy instance still merges");
    assert_eq!(out.samples.len(), 22);
    assert!(out
        .samples
        .iter()
        .all(|s| s.labels().iter().any(|(n, v)| *n == "iface" && v == b"gw1")));
    assert_eq!(out.failures.len(), 1);
    assert_eq!(out.failures[0].0, b"broken-sock".to_vec());
    assert_eq!(out.failures[0].1, DecodeError::Unexpected);
}

#[test]
fn decoded_status_matches_document() {
    let st = decode(&gw1_doc()).expect("well-formed document");
    assert_eq!(st.uptime, dec(123450, 1));
    assert_eq!(st.interface, b"gw1".to_vec());
    assert_eq!(st.statistics.tx.packets, Decimal::integer(10));
    assert_eq!(st.statistics.tx.bytes, Decimal::integer(2000));
    assert_eq!(st.peers.len(), 1);
    let (key, peer) = &st.peers[0];
    assert_eq!(key, &b"abc".to_vec());
    assert_eq!(peer.name, b"alice".to_vec());
    let conn = peer.connection.as_ref().expect("connected");
    assert_eq!(conn.established, dec(1000, 1));
    assert_eq!(conn.statistics.rx.packets, Decimal::integer(5));
    assert_eq!(conn.statistics.rx.bytes, Decimal::integer(500));
    assert_eq!(conn.mac_addresses, vec![b"11:22:33:44:55:66".to_vec()]);
}
