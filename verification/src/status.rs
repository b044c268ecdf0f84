//! The data model of one daemon instance's status snapshot.

use vstd::prelude::*;

verus! {

/// A non-negative decimal number held exactly: the represented value is
/// `mantissa / 10^frac`. Distinct representations (such as `1.5` and `1.50`)
/// are distinct values, so decoding loses nothing.
#[derive(Debug, Clone, Copy, PartialEq, Eq, Structural)]
pub struct Decimal {
    pub mantissa: u64,
    pub frac: u8,
}

impl Decimal {
    /// A whole number of units.
    pub fn integer(units: u64) -> (r: Decimal)
        ensures
            r == (Decimal { mantissa: units, frac: 0 }),
    {
        Decimal { mantissa: units, frac: 0 }
    }
}

/// One `{packets, bytes}` pair of lifetime counters.
#[derive(Debug, Clone, Copy, PartialEq, Eq, Structural)]
pub struct Traffic {
    pub packets: Decimal,
    pub bytes: Decimal,
}

/// The closed vocabulary of the five traffic counters, in their fixed
/// emission order.
#[derive(Debug, Clone, Copy, PartialEq, Eq, Structural)]
pub enum Counter {
    Rx,
    RxReordered,
    Tx,
    TxDropped,
    TxError,
}

/// The name under which a counter appears as a `type` label.
pub open spec fn counter_name(c: Counter) -> Seq<char> {
    match c {
        Counter::Rx => "rx"@,
        Counter::RxReordered => "rx_reordered"@,
        Counter::Tx => "tx"@,
        Counter::TxDropped => "tx_dropped"@,
        Counter::TxError => "tx_error"@,
    }
}

impl Counter {
    /// The `type` label value of this counter.
    pub fn name(&self) -> (r: &'static str)
        ensures
            r@ == counter_name(*self),
    {
        match self {
            Counter::Rx => "rx",
            Counter::RxReordered => "rx_reordered",
            Counter::Tx => "tx",
            Counter::TxDropped => "tx_dropped",
            Counter::TxError => "tx_error",
        }
    }
}

/// The closed vocabulary of the two sub-fields of a `Traffic` value.
#[derive(Debug, Clone, Copy, PartialEq, Eq, Structural)]
pub enum Kind {
    Packets,
    Bytes,
}

/// The name under which a sub-field appears as a `kind` label.
pub open spec fn kind_name(k: Kind) -> Seq<char> {
    match k {
        Kind::Packets => "packets"@,
        Kind::Bytes => "bytes"@,
    }
}

impl Kind {
    /// The `kind` label value of this sub-field.
    pub fn name(&self) -> (r: &'static str)
        ensures
            r@ == kind_name(*self),
    {
        match self {
            Kind::Packets => "packets",
            Kind::Bytes => "bytes",
        }
    }
}

/// The five counters of an instance or of one connection. The five names
/// form a closed, ordered enumeration, not an open map.
#[derive(Debug, Clone, Copy, PartialEq, Eq, Structural)]
pub struct Statistics {
    pub rx: Traffic,
    pub rx_reordered: Traffic,
    pub tx: Traffic,
    pub tx_dropped: Traffic,
    pub tx_error: Traffic,
}

/// The five counters of a `Statistics`, each under its vocabulary entry,
/// in the fixed emission order.
pub open spec fn counter_fields(st: Statistics) -> Seq<(Counter, Traffic)> {
    seq![
        (Counter::Rx, st.rx),
        (Counter::RxReordered, st.rx_reordered),
        (Counter::Tx, st.tx),
        (Counter::TxDropped, st.tx_dropped),
        (Counter::TxError, st.tx_error),
    ]
}

impl Statistics {
    /// The five counters in their fixed order.
    pub fn counters(&self) -> (r: Vec<(Counter, Traffic)>)
        ensures
            r@ == counter_fields(*self),
    {
        let mut r: Vec<(Counter, Traffic)> = Vec::new();
        r.push((Counter::Rx, self.rx));
        r.push((Counter::RxReordered, self.rx_reordered));
        r.push((Counter::Tx, self.tx));
        r.push((Counter::TxDropped, self.tx_dropped));
        r.push((Counter::TxError, self.tx_error));
        proof {
            assert(r@ =~= counter_fields(*self));
        }
        r
    }
}

/// Live session state of a connected peer.
#[derive(Debug, Clone, PartialEq, Eq)]
pub struct Connection {
    pub established: Decimal,
    pub method: Vec<u8>,
    pub statistics: Statistics,
    pub mac_addresses: Vec<Vec<u8>>,
}

/// The mathematical model of a `Connection`.
pub struct ConnectionView {
    pub established: Decimal,
    pub method: Seq<u8>,
    pub statistics: Statistics,
    pub mac_addresses: Seq<Seq<u8>>,
}

/// The model of a list of byte strings.
pub open spec fn macs_view(v: Seq<Vec<u8>>) -> Seq<Seq<u8>> {
    v.map_values(|m: Vec<u8>| m@)
}

impl View for Connection {
    type V = ConnectionView;

    open spec fn view(&self) -> ConnectionView {
        ConnectionView {
            established: self.established,
            method: self.method@,
            statistics: self.statistics,
            mac_addresses: macs_view(self.mac_addresses@),
        }
    }
}

/// One remote endpoint known to an instance; `connection == None` means the
/// peer is currently not connected.
#[derive(Debug, Clone, PartialEq, Eq)]
pub struct Peer {
    pub name: Vec<u8>,
    pub address: Vec<u8>,
    pub connection: Option<Connection>,
}

/// The mathematical model of a `Peer`.
pub struct PeerView {
    pub name: Seq<u8>,
    pub address: Seq<u8>,
    pub connection: Option<ConnectionView>,
}

impl View for Peer {
    type V = PeerView;

    open spec fn view(&self) -> PeerView {
        PeerView {
            name: self.name@,
            address: self.address@,
            connection: match self.connection {
                Option::Some(c) => Option::Some(c@),
                Option::None => Option::None,
            },
        }
    }
}

/// One daemon instance's snapshot. `peers` maps each public key, unique
/// within the instance, to its peer, in document order.
#[derive(Debug, Clone, PartialEq, Eq)]
pub struct FastdStatus {
    pub uptime: Decimal,
    pub interface: Vec<u8>,
    pub statistics: Statistics,
    pub peers: Vec<(Vec<u8>, Peer)>,
}

/// The mathematical model of a `FastdStatus`.
pub struct StatusView {
    pub uptime: Decimal,
    pub interface: Seq<u8>,
    pub statistics: Statistics,
    pub peers: Seq<(Seq<u8>, PeerView)>,
}

/// The model of a peer table.
pub open spec fn peers_view(v: Seq<(Vec<u8>, Peer)>) -> Seq<(Seq<u8>, PeerView)> {
    v.map_values(|p: (Vec<u8>, Peer)| (p.0@, p.1@))
}

impl View for FastdStatus {
    type V = StatusView;

    open spec fn view(&self) -> StatusView {
        StatusView {
            uptime: self.uptime,
            interface: self.interface@,
            statistics: self.statistics,
            peers: peers_view(self.peers@),
        }
    }
}

/// The peer keys of a snapshot, in document order.
pub open spec fn peer_keys(peers: Seq<(Seq<u8>, PeerView)>) -> Seq<Seq<u8>> {
    peers.map_values(|p: (Seq<u8>, PeerView)| p.0)
}

/// Well-formedness of a snapshot: no two peers share a public key. The
/// decoder only ever produces well-formed snapshots.
pub open spec fn wf_status(v: StatusView) -> bool {
    forall|a: int, b: int|
        0 <= a < b < v.peers.len() ==> v.peers[a].0 != v.peers[b].0
}

} // verus!
