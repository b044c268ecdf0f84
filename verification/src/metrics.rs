//! The metric flattener: one snapshot in, a flat sequence of labeled
//! samples out.
//!
//! The schema is a fixed constant of the engine: four metric families
//! (`total_uptime`, `total_traffic`, `peer_connection_uptime`,
//! `peer_traffic`), the five-counter `type` vocabulary and the two-entry
//! `kind` vocabulary. A disconnected peer contributes no samples; a
//! connected peer contributes exactly one uptime sample and ten traffic
//! samples. All values are the upstream's current cumulative totals,
//! exposed as instantaneous gauge readings, never re-derived as rates.

use vstd::prelude::*;

use crate::status::{Counter, Decimal, FastdStatus, Kind, PeerView, Statistics, StatusView,
    counter_name, kind_name, wf_status};
use crate::tokens::{kw_bytes, kw_bytes_v, kw_packets, kw_packets_v, kw_rx, kw_rx_reordered,
    kw_rx_reordered_v, kw_rx_v, kw_tx, kw_tx_dropped, kw_tx_dropped_v, kw_tx_error, kw_tx_error_v,
    kw_tx_v};

verus! {

/// A sample's identity: the metric family with its label values. No two
/// samples of a merged set may share one.
#[derive(Debug, Clone, PartialEq, Eq)]
pub enum SampleKey {
    TotalUptime { iface: Vec<u8> },
    TotalTraffic { iface: Vec<u8>, typ: Counter, kind: Kind },
    PeerConnectionUptime { key: Vec<u8>, name: Vec<u8>, iface: Vec<u8> },
    PeerTraffic { key: Vec<u8>, name: Vec<u8>, iface: Vec<u8>, typ: Counter, kind: Kind },
}

/// The mathematical model of a `SampleKey`.
pub enum KeyView {
    TotalUptime { iface: Seq<u8> },
    TotalTraffic { iface: Seq<u8>, typ: Counter, kind: Kind },
    PeerConnectionUptime { key: Seq<u8>, name: Seq<u8>, iface: Seq<u8> },
    PeerTraffic { key: Seq<u8>, name: Seq<u8>, iface: Seq<u8>, typ: Counter, kind: Kind },
}

impl View for SampleKey {
    type V = KeyView;

    open spec fn view(&self) -> KeyView {
        match self {
            SampleKey::TotalUptime { iface } => KeyView::TotalUptime { iface: iface@ },
            SampleKey::TotalTraffic { iface, typ, kind } => KeyView::TotalTraffic {
                iface: iface@,
                typ: *typ,
                kind: *kind,
            },
            SampleKey::PeerConnectionUptime { key, name, iface } => KeyView::PeerConnectionUptime {
                key: key@,
                name: name@,
                iface: iface@,
            },
            SampleKey::PeerTraffic { key, name, iface, typ, kind } => KeyView::PeerTraffic {
                key: key@,
                name: name@,
                iface: iface@,
                typ: *typ,
                kind: *kind,
            },
        }
    }
}

/// One labeled metric sample: an identity and a gauge value.
#[derive(Debug, Clone, PartialEq, Eq)]
pub struct Sample {
    pub key: SampleKey,
    pub value: Decimal,
}

/// The mathematical model of a `Sample`.
pub struct SampleView {
    pub key: KeyView,
    pub value: Decimal,
}

impl View for Sample {
    type V = SampleView;

    open spec fn view(&self) -> SampleView {
        SampleView { key: self.key@, value: self.value@ }
    }
}

impl View for Decimal {
    type V = Decimal;

    open spec fn view(&self) -> Decimal {
        *self
    }
}

/// The model of a sample list.
pub open spec fn samples_view(v: Seq<Sample>) -> Seq<SampleView> {
    v.map_values(|s: Sample| s@)
}

/// The `iface` label every sample carries.
pub open spec fn key_iface(k: KeyView) -> Seq<u8> {
    match k {
        KeyView::TotalUptime { iface } => iface,
        KeyView::TotalTraffic { iface, .. } => iface,
        KeyView::PeerConnectionUptime { iface, .. } => iface,
        KeyView::PeerTraffic { iface, .. } => iface,
    }
}

/// The `key` label of the per-peer families; instance-level samples have
/// none.
pub open spec fn key_peer(k: KeyView) -> Option<Seq<u8>> {
    match k {
        KeyView::TotalUptime { .. } => None,
        KeyView::TotalTraffic { .. } => None,
        KeyView::PeerConnectionUptime { key, .. } => Some(key),
        KeyView::PeerTraffic { key, .. } => Some(key),
    }
}

/// The ten instance-level traffic samples: the five counters in their
/// fixed order, `packets` before `bytes`.
pub open spec fn total_traffic_samples(iface: Seq<u8>, st: Statistics) -> Seq<SampleView> {
    seq![
        SampleView {
            key: KeyView::TotalTraffic { iface: iface, typ: Counter::Rx, kind: Kind::Packets },
            value: st.rx.packets,
        },
        SampleView {
            key: KeyView::TotalTraffic { iface: iface, typ: Counter::Rx, kind: Kind::Bytes },
            value: st.rx.bytes,
        },
        SampleView {
            key: KeyView::TotalTraffic {
                iface: iface,
                typ: Counter::RxReordered,
                kind: Kind::Packets,
            },
            value: st.rx_reordered.packets,
        },
        SampleView {
            key: KeyView::TotalTraffic {
                iface: iface,
                typ: Counter::RxReordered,
                kind: Kind::Bytes,
            },
            value: st.rx_reordered.bytes,
        },
        SampleView {
            key: KeyView::TotalTraffic { iface: iface, typ: Counter::Tx, kind: Kind::Packets },
            value: st.tx.packets,
        },
        SampleView {
            key: KeyView::TotalTraffic { iface: iface, typ: Counter::Tx, kind: Kind::Bytes },
            value: st.tx.bytes,
        },
        SampleView {
            key: KeyView::TotalTraffic {
                iface: iface,
                typ: Counter::TxDropped,
                kind: Kind::Packets,
            },
            value: st.tx_dropped.packets,
        },
        SampleView {
            key: KeyView::TotalTraffic { iface: iface, typ: Counter::TxDropped, kind: Kind::Bytes },
            value: st.tx_dropped.bytes,
        },
        SampleView {
            key: KeyView::TotalTraffic { iface: iface, typ: Counter::TxError, kind: Kind::Packets },
            value: st.tx_error.packets,
        },
        SampleView {
            key: KeyView::TotalTraffic { iface: iface, typ: Counter::TxError, kind: Kind::Bytes },
            value: st.tx_error.bytes,
        },
    ]
}

/// The ten traffic samples of one connected peer, in the same fixed order.
pub open spec fn peer_traffic_samples(
    key: Seq<u8>,
    name: Seq<u8>,
    iface: Seq<u8>,
    st: Statistics,
) -> Seq<SampleView> {
    seq![
        SampleView {
            key: KeyView::PeerTraffic {
                key: key,
                name: name,
                iface: iface,
                typ: Counter::Rx,
                kind: Kind::Packets,
            },
            value: st.rx.packets,
        },
        SampleView {
            key: KeyView::PeerTraffic {
                key: key,
                name: name,
                iface: iface,
                typ: Counter::Rx,
                kind: Kind::Bytes,
            },
            value: st.rx.bytes,
        },
        SampleView {
            key: KeyView::PeerTraffic {
                key: key,
                name: name,
                iface: iface,
                typ: Counter::RxReordered,
                kind: Kind::Packets,
            },
            value: st.rx_reordered.packets,
        },
        SampleView {
            key: KeyView::PeerTraffic {
                key: key,
                name: name,
                iface: iface,
                typ: Counter::RxReordered,
                kind: Kind::Bytes,
            },
            value: st.rx_reordered.bytes,
        },
        SampleView {
            key: KeyView::PeerTraffic {
                key: key,
                name: name,
                iface: iface,
                typ: Counter::Tx,
                kind: Kind::Packets,
            },
            value: st.tx.packets,
        },
        SampleView {
            key: KeyView::PeerTraffic {
                key: key,
                name: name,
                iface: iface,
                typ: Counter::Tx,
                kind: Kind::Bytes,
            },
            value: st.tx.bytes,
        },
        SampleView {
            key: KeyView::PeerTraffic {
                key: key,
                name: name,
                iface: iface,
                typ: Counter::TxDropped,
                kind: Kind::Packets,
            },
            value: st.tx_dropped.packets,
        },
        SampleView {
            key: KeyView::PeerTraffic {
                key: key,
                name: name,
                iface: iface,
                typ: Counter::TxDropped,
                kind: Kind::Bytes,
            },
            value: st.tx_dropped.bytes,
        },
        SampleView {
            key: KeyView::PeerTraffic {
                key: key,
                name: name,
                iface: iface,
                typ: Counter::TxError,
                kind: Kind::Packets,
            },
            value: st.tx_error.packets,
        },
        SampleView {
            key: KeyView::PeerTraffic {
                key: key,
                name: name,
                iface: iface,
                typ: Counter::TxError,
                kind: Kind::Bytes,
            },
            value: st.tx_error.bytes,
        },
    ]
}

/// What one peer contributes: nothing when disconnected, one connection
/// uptime sample and ten traffic samples when connected.
pub open spec fn peer_samples(iface: Seq<u8>, key: Seq<u8>, p: PeerView) -> Seq<SampleView> {
    match p.connection {
        None => Seq::empty(),
        Some(c) => seq![
            SampleView {
                key: KeyView::PeerConnectionUptime { key: key, name: p.name, iface: iface },
                value: c.established,
            },
        ] + peer_traffic_samples(key, p.name, iface, c.statistics),
    }
}

/// What a peer table contributes, in document order.
pub open spec fn peers_samples(iface: Seq<u8>, peers: Seq<(Seq<u8>, PeerView)>) -> Seq<SampleView>
    decreases peers.len(),
{
    if peers.len() == 0 {
        Seq::empty()
    } else {
        peers_samples(iface, peers.drop_last()) + peer_samples(
            iface,
            peers.last().0,
            peers.last().1,
        )
    }
}

/// Everything one snapshot flattens to: the instance uptime sample, the
/// ten instance traffic samples, then the peers' samples.
pub open spec fn spec_flatten(v: StatusView) -> Seq<SampleView> {
    seq![
        SampleView { key: KeyView::TotalUptime { iface: v.interface }, value: v.uptime },
    ] + total_traffic_samples(v.interface, v.statistics) + peers_samples(v.interface, v.peers)
}

/// A disconnected peer contributes no samples, whatever its other fields
/// hold.
pub proof fn lemma_disconnected_peer_no_samples(iface: Seq<u8>, key: Seq<u8>, p: PeerView)
    requires
        p.connection is None,
    ensures
        peer_samples(iface, key, p) == Seq::<SampleView>::empty(),
        peer_samples(iface, key, p).len() == 0,
{
}

/// A connected peer contributes exactly 1 + 10 samples.
pub proof fn lemma_connected_peer_sample_count(iface: Seq<u8>, key: Seq<u8>, p: PeerView)
    requires
        p.connection is Some,
    ensures
        peer_samples(iface, key, p).len() == 11,
{
}

/// Byte-for-byte copy of a label value.
pub fn copy_label(v: &Vec<u8>) -> (r: Vec<u8>)
    ensures
        r@ == v@,
{
    let r = v.clone();
    proof {
        assert(r@ =~= v@);
    }
    r
}

/// Append the ten instance-level traffic samples of `st`.
fn push_total_traffic(samples: &mut Vec<Sample>, iface: &Vec<u8>, st: &Statistics)
    ensures
        samples_view(final(samples)@) == samples_view(old(samples)@) + total_traffic_samples(
            iface@,
            *st,
        ),
{
    let ghost before = samples_view(samples@);
    samples.push(Sample {
        key: SampleKey::TotalTraffic {
            iface: copy_label(iface),
            typ: Counter::Rx,
            kind: Kind::Packets,
        },
        value: st.rx.packets,
    });
    samples.push(Sample {
        key: SampleKey::TotalTraffic {
            iface: copy_label(iface),
            typ: Counter::Rx,
            kind: Kind::Bytes,
        },
        value: st.rx.bytes,
    });
    samples.push(Sample {
        key: SampleKey::TotalTraffic {
            iface: copy_label(iface),
            typ: Counter::RxReordered,
            kind: Kind::Packets,
        },
        value: st.rx_reordered.packets,
    });
    samples.push(Sample {
        key: SampleKey::TotalTraffic {
            iface: copy_label(iface),
            typ: Counter::RxReordered,
            kind: Kind::Bytes,
        },
        value: st.rx_reordered.bytes,
    });
    samples.push(Sample {
        key: SampleKey::TotalTraffic {
            iface: copy_label(iface),
            typ: Counter::Tx,
            kind: Kind::Packets,
        },
        value: st.tx.packets,
    });
    samples.push(Sample {
        key: SampleKey::TotalTraffic {
            iface: copy_label(iface),
            typ: Counter::Tx,
            kind: Kind::Bytes,
        },
        value: st.tx.bytes,
    });
    samples.push(Sample {
        key: SampleKey::TotalTraffic {
            iface: copy_label(iface),
            typ: Counter::TxDropped,
            kind: Kind::Packets,
        },
        value: st.tx_dropped.packets,
    });
    samples.push(Sample {
        key: SampleKey::TotalTraffic {
            iface: copy_label(iface),
            typ: Counter::TxDropped,
            kind: Kind::Bytes,
        },
        value: st.tx_dropped.bytes,
    });
    samples.push(Sample {
        key: SampleKey::TotalTraffic {
            iface: copy_label(iface),
            typ: Counter::TxError,
            kind: Kind::Packets,
        },
        value: st.tx_error.packets,
    });
    samples.push(Sample {
        key: SampleKey::TotalTraffic {
            iface: copy_label(iface),
            typ: Counter::TxError,
            kind: Kind::Bytes,
        },
        value: st.tx_error.bytes,
    });
    proof {
        assert(samples_view(samples@) =~= before + total_traffic_samples(iface@, *st));
    }
}

/// Append the ten traffic samples of one connected peer.
fn push_peer_traffic(
    samples: &mut Vec<Sample>,
    key: &Vec<u8>,
    name: &Vec<u8>,
    iface: &Vec<u8>,
    st: &Statistics,
)
    ensures
        samples_view(final(samples)@) == samples_view(old(samples)@) + peer_traffic_samples(
            key@,
            name@,
            iface@,
            *st,
        ),
{
    let ghost before = samples_view(samples@);
    samples.push(Sample {
        key: SampleKey::PeerTraffic {
            key: copy_label(key),
            name: copy_label(name),
            iface: copy_label(iface),
            typ: Counter::Rx,
            kind: Kind::Packets,
        },
        value: st.rx.packets,
    });
    samples.push(Sample {
        key: SampleKey::PeerTraffic {
            key: copy_label(key),
            name: copy_label(name),
            iface: copy_label(iface),
            typ: Counter::Rx,
            kind: Kind::Bytes,
        },
        value: st.rx.bytes,
    });
    samples.push(Sample {
        key: SampleKey::PeerTraffic {
            key: copy_label(key),
            name: copy_label(name),
            iface: copy_label(iface),
            typ: Counter::RxReordered,
            kind: Kind::Packets,
        },
        value: st.rx_reordered.packets,
    });
    samples.push(Sample {
        key: SampleKey::PeerTraffic {
            key: copy_label(key),
            name: copy_label(name),
            iface: copy_label(iface),
            typ: Counter::RxReordered,
            kind: Kind::Bytes,
        },
        value: st.rx_reordered.bytes,
    });
    samples.push(Sample {
        key: SampleKey::PeerTraffic {
            key: copy_label(key),
            name: copy_label(name),
            iface: copy_label(iface),
            typ: Counter::Tx,
            kind: Kind::Packets,
        },
        value: st.tx.packets,
    });
    samples.push(Sample {
        key: SampleKey::PeerTraffic {
            key: copy_label(key),
            name: copy_label(name),
            iface: copy_label(iface),
            typ: Counter::Tx,
            kind: Kind::Bytes,
        },
        value: st.tx.bytes,
    });
    samples.push(Sample {
        key: SampleKey::PeerTraffic {
            key: copy_label(key),
            name: copy_label(name),
            iface: copy_label(iface),
            typ: Counter::TxDropped,
            kind: Kind::Packets,
        },
        value: st.tx_dropped.packets,
    });
    samples.push(Sample {
        key: SampleKey::PeerTraffic {
            key: copy_label(key),
            name: copy_label(name),
            iface: copy_label(iface),
            typ: Counter::TxDropped,
            kind: Kind::Bytes,
        },
        value: st.tx_dropped.bytes,
    });
    samples.push(Sample {
        key: SampleKey::PeerTraffic {
            key: copy_label(key),
            name: copy_label(name),
            iface: copy_label(iface),
            typ: Counter::TxError,
            kind: Kind::Packets,
        },
        value: st.tx_error.packets,
    });
    samples.push(Sample {
        key: SampleKey::PeerTraffic {
            key: copy_label(key),
            name: copy_label(name),
            iface: copy_label(iface),
            typ: Counter::TxError,
            kind: Kind::Bytes,
        },
        value: st.tx_error.bytes,
    });
    proof {
        assert(samples_view(samples@) =~= before + peer_traffic_samples(key@, name@, iface@, *st));
    }
}

/// Flatten one snapshot into its sample sequence, exactly as
/// `spec_flatten` describes it.
pub fn flatten(status: &FastdStatus) -> (samples: Vec<Sample>)
    ensures
        samples_view(samples@) == spec_flatten(status@),
{
    let mut samples: Vec<Sample> = Vec::new();
    samples.push(Sample {
        key: SampleKey::TotalUptime { iface: copy_label(&status.interface) },
        value: status.uptime,
    });
    proof {
        assert(samples_view(samples@) =~= seq![
            SampleView {
                key: KeyView::TotalUptime { iface: status.interface@ },
                value: status.uptime,
            },
        ]);
    }
    push_total_traffic(&mut samples, &status.interface, &status.statistics);
    let ghost head = samples_view(samples@);
    let mut idx: usize = 0;
    while idx < status.peers.len()
        invariant
            0 <= idx <= status.peers@.len(),
            head == seq![
                SampleView {
                    key: KeyView::TotalUptime { iface: status.interface@ },
                    value: status.uptime,
                },
            ] + total_traffic_samples(status.interface@, status.statistics),
            samples_view(samples@) == head + peers_samples(
                status.interface@,
                status@.peers.take(idx as int),
            ),
        decreases status.peers@.len() - idx,
    {
        let ghost prefix = samples_view(samples@);
        let ghost peers_v = status@.peers;
        let pair = &status.peers[idx];
        match &pair.1.connection {
            None => {
                proof {
                    assert(peers_v.take(idx + 1 as int).drop_last() =~= peers_v.take(idx as int));
                    assert(peers_v.take(idx + 1 as int).last() == peers_v[idx as int]);
                    assert(peers_samples(status.interface@, peers_v.take(idx + 1 as int))
                        =~= prefix.skip(head.len() as int) + peer_samples(
                        status.interface@,
                        peers_v[idx as int].0,
                        peers_v[idx as int].1,
                    ));
                    assert(peer_samples(
                        status.interface@,
                        peers_v[idx as int].0,
                        peers_v[idx as int].1,
                    ) =~= Seq::<SampleView>::empty());
                    assert(samples_view(samples@) =~= head + peers_samples(
                        status.interface@,
                        peers_v.take(idx + 1 as int),
                    ));
                }
            },
            Some(c) => {
                let ghost up = SampleView {
                    key: KeyView::PeerConnectionUptime {
                        key: pair.0@,
                        name: pair.1.name@,
                        iface: status.interface@,
                    },
                    value: c.established,
                };
                samples.push(Sample {
                    key: SampleKey::PeerConnectionUptime {
                        key: copy_label(&pair.0),
                        name: copy_label(&pair.1.name),
                        iface: copy_label(&status.interface),
                    },
                    value: c.established,
                });
                proof {
                    assert(samples_view(samples@) =~= prefix.push(up));
                }
                push_peer_traffic(
                    &mut samples,
                    &pair.0,
                    &pair.1.name,
                    &status.interface,
                    &c.statistics,
                );
                proof {
                    assert(peers_v[idx as int] == (pair.0@, pair.1@));
                    assert(peers_v[idx as int].1.connection == Some(c@));
                    assert(peer_samples(status.interface@, peers_v[idx as int].0, peers_v[idx as int].1)
                        =~= seq![up] + peer_traffic_samples(
                        pair.0@,
                        pair.1.name@,
                        status.interface@,
                        c.statistics,
                    ));
                    assert(peers_v.take(idx + 1 as int).drop_last() =~= peers_v.take(idx as int));
                    assert(peers_v.take(idx + 1 as int).last() == peers_v[idx as int]);
                    assert(peers_samples(status.interface@, peers_v.take(idx + 1 as int))
                        == peers_samples(status.interface@, peers_v.take(idx as int)) + peer_samples(
                        status.interface@,
                        peers_v[idx as int].0,
                        peers_v[idx as int].1,
                    ));
                    assert(samples_view(samples@) =~= head + peers_samples(
                        status.interface@,
                        peers_v.take(idx + 1 as int),
                    ));
                }
            },
        }
        idx = idx + 1;
    }
    proof {
        assert(status@.peers.take(status.peers@.len() as int) =~= status@.peers);
        assert(samples_view(samples@) =~= spec_flatten(status@));
    }
    samples
}
/// The metric family name of a sample key.
pub open spec fn metric_name_of(k: KeyView) -> Seq<char> {
    match k {
        KeyView::TotalUptime { .. } => "total_uptime"@,
        KeyView::TotalTraffic { .. } => "total_traffic"@,
        KeyView::PeerConnectionUptime { .. } => "peer_connection_uptime"@,
        KeyView::PeerTraffic { .. } => "peer_traffic"@,
    }
}

/// The `type` label value of a counter, as label bytes.
pub open spec fn counter_bytes(c: Counter) -> Seq<u8> {
    match c {
        Counter::Rx => kw_rx(),
        Counter::RxReordered => kw_rx_reordered(),
        Counter::Tx => kw_tx(),
        Counter::TxDropped => kw_tx_dropped(),
        Counter::TxError => kw_tx_error(),
    }
}

/// The `kind` label value of a traffic sub-field, as label bytes.
pub open spec fn kind_bytes(k: Kind) -> Seq<u8> {
    match k {
        Kind::Packets => kw_packets(),
        Kind::Bytes => kw_bytes(),
    }
}

/// The ordered label set of a sample key: label names to label values.
pub open spec fn labels_of(k: KeyView) -> Seq<(Seq<char>, Seq<u8>)> {
    match k {
        KeyView::TotalUptime { iface } => seq![("iface"@, iface)],
        KeyView::TotalTraffic { iface, typ, kind } => seq![
            ("iface"@, iface),
            ("type"@, counter_bytes(typ)),
            ("kind"@, kind_bytes(kind)),
        ],
        KeyView::PeerConnectionUptime { key, name, iface } => seq![
            ("key"@, key),
            ("name"@, name),
            ("iface"@, iface),
        ],
        KeyView::PeerTraffic { key, name, iface, typ, kind } => seq![
            ("key"@, key),
            ("name"@, name),
            ("iface"@, iface),
            ("type"@, counter_bytes(typ)),
            ("kind"@, kind_bytes(kind)),
        ],
    }
}

impl Counter {
    /// The `type` label value of this counter.
    pub fn label_bytes(&self) -> (r: Vec<u8>)
        ensures
            r@ == counter_bytes(*self),
    {
        match self {
            Counter::Rx => kw_rx_v(),
            Counter::RxReordered => kw_rx_reordered_v(),
            Counter::Tx => kw_tx_v(),
            Counter::TxDropped => kw_tx_dropped_v(),
            Counter::TxError => kw_tx_error_v(),
        }
    }
}

impl Kind {
    /// The `kind` label value of this sub-field.
    pub fn label_bytes(&self) -> (r: Vec<u8>)
        ensures
            r@ == kind_bytes(*self),
    {
        match self {
            Kind::Packets => kw_packets_v(),
            Kind::Bytes => kw_bytes_v(),
        }
    }
}

/// The model of a rendered label list.
pub open spec fn labels_view(v: Seq<(&'static str, Vec<u8>)>) -> Seq<(Seq<char>, Seq<u8>)> {
    v.map_values(|p: (&'static str, Vec<u8>)| (p.0@, p.1@))
}

impl Sample {
    /// The metric family this sample belongs to.
    pub fn metric_name(&self) -> (r: &'static str)
        ensures
            r@ == metric_name_of(self.key@),
    {
        match &self.key {
            SampleKey::TotalUptime { .. } => "total_uptime",
            SampleKey::TotalTraffic { .. } => "total_traffic",
            SampleKey::PeerConnectionUptime { .. } => "peer_connection_uptime",
            SampleKey::PeerTraffic { .. } => "peer_traffic",
        }
    }

    /// The sample's ordered label set, exactly as `labels_of` gives it.
    pub fn labels(&self) -> (r: Vec<(&'static str, Vec<u8>)>)
        ensures
            labels_view(r@) == labels_of(self.key@),
    {
        let mut r: Vec<(&'static str, Vec<u8>)> = Vec::new();
        match &self.key {
            SampleKey::TotalUptime { iface } => {
                r.push(("iface", copy_label(iface)));
            },
            SampleKey::TotalTraffic { iface, typ, kind } => {
                r.push(("iface", copy_label(iface)));
                r.push(("type", typ.label_bytes()));
                r.push(("kind", kind.label_bytes()));
            },
            SampleKey::PeerConnectionUptime { key, name, iface } => {
                r.push(("key", copy_label(key)));
                r.push(("name", copy_label(name)));
                r.push(("iface", copy_label(iface)));
            },
            SampleKey::PeerTraffic { key, name, iface, typ, kind } => {
                r.push(("key", copy_label(key)));
                r.push(("name", copy_label(name)));
                r.push(("iface", copy_label(iface)));
                r.push(("type", typ.label_bytes()));
                r.push(("kind", kind.label_bytes()));
            },
        }
        proof {
            assert(labels_view(r@) =~= labels_of(self.key@));
        }
        r
    }
}

/// The label vocabularies are closed: a `kind` label value is `packets`
/// or `bytes` and nothing else; a `type` label value is one of exactly
/// the five counter names.
pub proof fn lemma_label_vocabulary(k: KeyView, t: int)
    requires
        0 <= t < labels_of(k).len(),
    ensures
        labels_of(k)[t].0 == "kind"@ ==> labels_of(k)[t].1 == kw_packets() || labels_of(k)[t].1
            == kw_bytes(),
        labels_of(k)[t].0 == "type"@ ==> labels_of(k)[t].1 == kw_rx() || labels_of(k)[t].1
            == kw_rx_reordered() || labels_of(k)[t].1 == kw_tx() || labels_of(k)[t].1
            == kw_tx_dropped() || labels_of(k)[t].1 == kw_tx_error(),
{
    reveal_strlit("iface");
    reveal_strlit("type");
    reveal_strlit("kind");
    reveal_strlit("key");
    reveal_strlit("name");
    assert("iface"@.len() == 5 && "kind"@.len() == 4 && "type"@.len() == 4 && "key"@.len() == 3
        && "name"@.len() == 4);
    assert("type"@[0] == 't' && "kind"@[0] == 'k' && "name"@[0] == 'n');
    assert("iface"@ != "kind"@ && "iface"@ != "type"@);
    assert("key"@ != "kind"@ && "key"@ != "type"@);
    assert("name"@ != "kind"@ && "name"@ != "type"@);
    assert("type"@ != "kind"@);
    match k {
        KeyView::TotalUptime { .. } => {},
        KeyView::PeerConnectionUptime { .. } => {},
        KeyView::TotalTraffic { typ, kind, .. } => {
            assert(counter_bytes(typ) == kw_rx() || counter_bytes(typ) == kw_rx_reordered()
                || counter_bytes(typ) == kw_tx() || counter_bytes(typ) == kw_tx_dropped()
                || counter_bytes(typ) == kw_tx_error());
            assert(kind_bytes(kind) == kw_packets() || kind_bytes(kind) == kw_bytes());
        },
        KeyView::PeerTraffic { typ, kind, .. } => {
            assert(counter_bytes(typ) == kw_rx() || counter_bytes(typ) == kw_rx_reordered()
                || counter_bytes(typ) == kw_tx() || counter_bytes(typ) == kw_tx_dropped()
                || counter_bytes(typ) == kw_tx_error());
            assert(kind_bytes(kind) == kw_packets() || kind_bytes(kind) == kw_bytes());
        },
    }
}

/// Specialization to a flattened snapshot: every sample any valid
/// snapshot produces draws its `kind` and `type` labels from the closed
/// vocabularies.
pub proof fn lemma_flatten_label_vocabulary(v: StatusView, i: int, t: int)
    requires
        0 <= i < spec_flatten(v).len(),
        0 <= t < labels_of(spec_flatten(v)[i].key).len(),
    ensures
        labels_of(spec_flatten(v)[i].key)[t].0 == "kind"@ ==> labels_of(spec_flatten(v)[i].key)[t].1
            == kw_packets() || labels_of(spec_flatten(v)[i].key)[t].1 == kw_bytes(),
        labels_of(spec_flatten(v)[i].key)[t].0 == "type"@ ==> labels_of(spec_flatten(v)[i].key)[t].1
            == kw_rx() || labels_of(spec_flatten(v)[i].key)[t].1 == kw_rx_reordered() || labels_of(
            spec_flatten(v)[i].key,
        )[t].1 == kw_tx() || labels_of(spec_flatten(v)[i].key)[t].1 == kw_tx_dropped() || labels_of(
            spec_flatten(v)[i].key,
        )[t].1 == kw_tx_error(),
{
    lemma_label_vocabulary(spec_flatten(v)[i].key, t);
}

} // verus!
