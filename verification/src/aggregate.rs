//! The multi-instance aggregator: flattens each decoded snapshot and
//! merges the results into one collision-free sample set.
//!
//! A duplicate `interface` label across instances is a configuration
//! error, rejected before any flattening: colliding label sets would
//! silently overwrite one another at exposition. A failure to decode one
//! instance never aborts the scrape: the failing instance is reported in
//! an error manifest and the merged set covers the healthy rest.

use vstd::prelude::*;

use crate::decode::{DecodeError, decode, lemma_decode_wf, spec_decode};
use crate::metrics::{KeyView, Sample, SampleView, flatten, key_iface, key_peer, peer_samples,
    peer_traffic_samples, samples_view, spec_flatten, total_traffic_samples};
use crate::status::{FastdStatus, StatusView, wf_status};
use crate::tokens::bytes_eq;

verus! {

/// Two configured instances reported the same `interface` value.
#[derive(Debug, Clone, PartialEq, Eq)]
pub struct ConfigurationError {
    pub iface: Vec<u8>,
}

/// The models of a list of snapshots.
pub open spec fn status_views(v: Seq<FastdStatus>) -> Seq<StatusView> {
    v.map_values(|s: FastdStatus| s@)
}

/// The models of an error manifest.
pub open spec fn failures_view(v: Seq<(Vec<u8>, DecodeError)>) -> Seq<(Seq<u8>, DecodeError)> {
    v.map_values(|p: (Vec<u8>, DecodeError)| (p.0@, p.1))
}

/// No two instances share an `interface` value.
pub open spec fn ifaces_distinct(instances: Seq<StatusView>) -> bool {
    forall|a: int, b: int|
        0 <= a < b < instances.len() ==> instances[a].interface != instances[b].interface
}

/// Every instance is well-formed.
pub open spec fn all_wf(instances: Seq<StatusView>) -> bool {
    forall|t: int| 0 <= t < instances.len() ==> wf_status(#[trigger] instances[t])
}

/// The merged sample sequence: each instance flattened, in order.
pub open spec fn flatten_all(instances: Seq<StatusView>) -> Seq<SampleView>
    decreases instances.len(),
{
    if instances.len() == 0 {
        Seq::empty()
    } else {
        flatten_all(instances.drop_last()) + spec_flatten(instances.last())
    }
}

/// No two samples share an identity (metric family plus label values).
pub open spec fn keys_distinct(samples: Seq<SampleView>) -> bool {
    forall|a: int, b: int|
        0 <= a < b < samples.len() ==> samples[a].key != samples[b].key
}

/// One peer's samples: pairwise distinct, all under this instance's
/// `iface` label and this peer's `key` label.
proof fn lemma_peer_samples_profile(iface: Seq<u8>, key: Seq<u8>, p: crate::status::PeerView)
    ensures
        keys_distinct(peer_samples(iface, key, p)),
        forall|t: int| 0 <= t < peer_samples(iface, key, p).len() ==> key_iface(
            #[trigger] peer_samples(iface, key, p)[t].key,
        ) == iface,
        forall|t: int| 0 <= t < peer_samples(iface, key, p).len() ==> key_peer(
            #[trigger] peer_samples(iface, key, p)[t].key,
        ) == Some(key),
{
    match p.connection {
        None => {},
        Some(c) => {
            let s = peer_samples(iface, key, p);
            assert(s.len() == 11);
            assert forall|a: int, b: int| 0 <= a < b < s.len() implies s[a].key != s[b].key by {
                assert(s[a].key != s[b].key);
            }
            assert forall|t: int| 0 <= t < s.len() implies key_iface(s[t].key) == iface
                && key_peer(s[t].key) == Some(key) by {
                assert(key_iface(s[t].key) == iface);
                assert(key_peer(s[t].key) == Some(key));
            }
        },
    }
}

/// The instance-level traffic samples: pairwise distinct, all under this
/// instance's `iface` label, none with a peer label.
proof fn lemma_total_traffic_profile(iface: Seq<u8>, st: crate::status::Statistics)
    ensures
        keys_distinct(total_traffic_samples(iface, st)),
        forall|t: int| 0 <= t < total_traffic_samples(iface, st).len() ==> key_iface(
            #[trigger] total_traffic_samples(iface, st)[t].key,
        ) == iface,
        forall|t: int| 0 <= t < total_traffic_samples(iface, st).len() ==> key_peer(
            #[trigger] total_traffic_samples(iface, st)[t].key,
        ) is None,
        forall|t: int| 0 <= t < total_traffic_samples(iface, st).len()
            ==> #[trigger] total_traffic_samples(iface, st)[t].key matches KeyView::TotalTraffic {
                ..
            },
{
    let s = total_traffic_samples(iface, st);
    assert forall|a: int, b: int| 0 <= a < b < s.len() implies s[a].key != s[b].key by {
        assert(s[a].key != s[b].key);
    }
    assert forall|t: int| 0 <= t < s.len() implies key_iface(s[t].key) == iface && key_peer(
        s[t].key,
    ) is None && s[t].key matches KeyView::TotalTraffic { .. } by {
        assert(key_iface(s[t].key) == iface);
    }
}

/// The samples of a whole peer table with pairwise distinct peer keys:
/// pairwise distinct, all under `iface`, each under some peer's key label.
proof fn lemma_peers_samples_profile(iface: Seq<u8>, peers: Seq<(Seq<u8>, crate::status::PeerView)>)
    requires
        forall|a: int, b: int| 0 <= a < b < peers.len() ==> peers[a].0 != peers[b].0,
    ensures
        keys_distinct(crate::metrics::peers_samples(iface, peers)),
        forall|t: int| 0 <= t < crate::metrics::peers_samples(iface, peers).len() ==> key_iface(
            #[trigger] crate::metrics::peers_samples(iface, peers)[t].key,
        ) == iface,
        forall|t: int| 0 <= t < crate::metrics::peers_samples(iface, peers).len() ==> exists|q: int|
            0 <= q < peers.len() && key_peer(
                #[trigger] crate::metrics::peers_samples(iface, peers)[t].key,
            ) == Some(peers[q].0),
    decreases peers.len(),
{
    if peers.len() == 0 {
    } else {
        let dl = peers.drop_last();
        let lastk = peers.last().0;
        let lastp = peers.last().1;
        let old_s = crate::metrics::peers_samples(iface, dl);
        let new_s = peer_samples(iface, lastk, lastp);
        let full = crate::metrics::peers_samples(iface, peers);
        lemma_peers_samples_profile(iface, dl);
        lemma_peer_samples_profile(iface, lastk, lastp);
        assert(full == old_s + new_s);
        assert forall|t: int| 0 <= t < full.len() implies key_iface(full[t].key) == iface by {
            if t < old_s.len() {
                assert(full[t] == old_s[t]);
            } else {
                assert(full[t] == new_s[t - old_s.len()]);
            }
        }
        assert forall|t: int| 0 <= t < full.len() implies exists|q: int|
            0 <= q < peers.len() && key_peer(#[trigger] full[t].key) == Some(#[trigger] peers[q].0) by {
            if t < old_s.len() {
                assert(full[t] == old_s[t]);
                let q = choose|q: int| 0 <= q < dl.len() && key_peer(old_s[t].key) == Some(
                    dl[q].0,
                );
                assert(peers[q].0 == dl[q].0);
                assert(0 <= q < peers.len() && key_peer(full[t].key) == Some(peers[q].0));
            } else {
                assert(full[t] == new_s[t - old_s.len()]);
                let q = peers.len() - 1;
                assert(key_peer(full[t].key) == Some(peers[q].0));
            }
        }
        assert forall|a: int, b: int| 0 <= a < b < full.len() implies full[a].key
            != full[b].key by {
            if b < old_s.len() {
                assert(full[a] == old_s[a] && full[b] == old_s[b]);
            } else if a >= old_s.len() {
                assert(full[a] == new_s[a - old_s.len()] && full[b] == new_s[b - old_s.len()]);
            } else {
                assert(full[a] == old_s[a] && full[b] == new_s[b - old_s.len()]);
                let q = choose|q: int| 0 <= q < dl.len() && key_peer(old_s[a].key) == Some(
                    dl[q].0,
                );
                assert(key_peer(new_s[b - old_s.len()].key) == Some(lastk));
                if full[a].key == full[b].key {
                    assert(dl[q].0 == lastk);
                    assert(peers[q].0 == peers[peers.len() - 1].0);
                    assert(false);
                }
            }
        }
    }
}

/// One well-formed snapshot flattens without collisions, and every sample
/// carries the snapshot's `interface` as its `iface` label.
pub proof fn lemma_flatten_distinct(v: StatusView)
    requires
        wf_status(v),
    ensures
        keys_distinct(spec_flatten(v)),
        forall|t: int| 0 <= t < spec_flatten(v).len() ==> key_iface(
            #[trigger] spec_flatten(v)[t].key,
        ) == v.interface,
{
    let up = seq![
        SampleView { key: KeyView::TotalUptime { iface: v.interface }, value: v.uptime },
    ];
    let tt = total_traffic_samples(v.interface, v.statistics);
    let ps = crate::metrics::peers_samples(v.interface, v.peers);
    let full = spec_flatten(v);
    lemma_total_traffic_profile(v.interface, v.statistics);
    lemma_peers_samples_profile(v.interface, v.peers);
    assert(full == up + tt + ps);
    assert forall|t: int| 0 <= t < full.len() implies key_iface(full[t].key) == v.interface by {
        if t < 1 {
            assert(full[t] == up[0]);
        } else if t < 1 + tt.len() {
            assert(full[t] == tt[t - 1]);
        } else {
            assert(full[t] == ps[t - 1 - tt.len()]);
        }
    }
    assert forall|a: int, b: int| 0 <= a < b < full.len() implies full[a].key != full[b].key by {
        if a == 0 {
            assert(full[a] == up[0]);
            if b < 1 + tt.len() {
                assert(full[b] == tt[b - 1]);
                assert(full[b].key matches KeyView::TotalTraffic { .. });
            } else {
                assert(full[b] == ps[b - 1 - tt.len()]);
                assert(key_peer(full[b].key) is Some);
            }
        } else if b < 1 + tt.len() {
            assert(full[a] == tt[a - 1] && full[b] == tt[b - 1]);
        } else if a >= 1 + tt.len() {
            assert(full[a] == ps[a - 1 - tt.len()] && full[b] == ps[b - 1 - tt.len()]);
        } else {
            assert(full[a] == tt[a - 1] && full[b] == ps[b - 1 - tt.len()]);
            assert(key_peer(full[a].key) is None);
            assert(key_peer(full[b].key) is Some);
        }
    }
}

/// Merging well-formed instances with pairwise distinct `interface`
/// values yields no collisions, and each sample carries some instance's
/// `iface` label.
pub proof fn lemma_flatten_all_distinct(instances: Seq<StatusView>)
    requires
        all_wf(instances),
        ifaces_distinct(instances),
    ensures
        keys_distinct(flatten_all(instances)),
        forall|t: int| 0 <= t < flatten_all(instances).len() ==> exists|q: int|
            0 <= q < instances.len() && key_iface(#[trigger] flatten_all(instances)[t].key)
                == instances[q].interface,
    decreases instances.len(),
{
    if instances.len() == 0 {
    } else {
        let dl = instances.drop_last();
        let lastv = instances.last();
        let old_s = flatten_all(dl);
        let new_s = spec_flatten(lastv);
        let full = flatten_all(instances);
        assert(all_wf(dl)) by {
            assert forall|t: int| 0 <= t < dl.len() implies wf_status(#[trigger] dl[t]) by {
                assert(dl[t] == instances[t]);
            }
        }
        lemma_flatten_all_distinct(dl);
        assert(wf_status(lastv));
        lemma_flatten_distinct(lastv);
        assert(full == old_s + new_s);
        assert forall|t: int| 0 <= t < full.len() implies exists|q: int|
            0 <= q < instances.len() && key_iface(#[trigger] full[t].key) == (
            #[trigger] instances[q]).interface by {
            if t < old_s.len() {
                assert(full[t] == old_s[t]);
                let q = choose|q: int|
                    0 <= q < dl.len() && key_iface(old_s[t].key) == dl[q].interface;
                assert(instances[q] == dl[q]);
                assert(0 <= q < instances.len() && key_iface(full[t].key)
                    == instances[q].interface);
            } else {
                assert(full[t] == new_s[t - old_s.len()]);
                let q = instances.len() - 1;
                assert(key_iface(full[t].key) == instances[q].interface);
            }
        }
        assert forall|a: int, b: int| 0 <= a < b < full.len() implies full[a].key
            != full[b].key by {
            if b < old_s.len() {
                assert(full[a] == old_s[a] && full[b] == old_s[b]);
            } else if a >= old_s.len() {
                assert(full[a] == new_s[a - old_s.len()] && full[b] == new_s[b - old_s.len()]);
            } else {
                assert(full[a] == old_s[a] && full[b] == new_s[b - old_s.len()]);
                let q = choose|q: int|
                    0 <= q < dl.len() && key_iface(old_s[a].key) == dl[q].interface;
                assert(key_iface(new_s[b - old_s.len()].key) == lastv.interface);
                if full[a].key == full[b].key {
                    assert(dl[q].interface == lastv.interface);
                    assert(instances[q].interface == instances[instances.len() - 1].interface);
                    assert(false);
                }
            }
        }
    }
}

/// Merging two well-formed instances with distinct `interface` values
/// yields each instance's samples side by side: the merged size is the
/// sum of the two, and no two samples collide.
pub proof fn lemma_merge_two(v1: StatusView, v2: StatusView)
    requires
        wf_status(v1),
        wf_status(v2),
        v1.interface != v2.interface,
    ensures
        flatten_all(seq![v1, v2]) == spec_flatten(v1) + spec_flatten(v2),
        flatten_all(seq![v1, v2]).len() == spec_flatten(v1).len() + spec_flatten(v2).len(),
        keys_distinct(flatten_all(seq![v1, v2])),
{
    let both = seq![v1, v2];
    assert(both.drop_last() =~= seq![v1]);
    assert(seq![v1].drop_last() =~= Seq::<StatusView>::empty());
    assert(flatten_all(seq![v1]) == flatten_all(Seq::empty()) + spec_flatten(v1));
    assert(flatten_all(both) =~= spec_flatten(v1) + spec_flatten(v2));
    assert(all_wf(both));
    assert(ifaces_distinct(both));
    lemma_flatten_all_distinct(both);
}

/// Flatten every instance and merge the results. Succeeds exactly when no
/// two instances share an `interface` value; the error names a duplicated
/// value. On success the samples are each instance's flattening, in
/// order, and for well-formed instances no two samples share an identity.
pub fn get_metrics(statuses: &Vec<FastdStatus>) -> (r: Result<Vec<Sample>, ConfigurationError>)
    ensures
        r is Ok <==> ifaces_distinct(status_views(statuses@)),
        r matches Ok(samples) ==> samples_view(samples@) == flatten_all(status_views(statuses@)),
        r matches Ok(samples) ==> (all_wf(status_views(statuses@)) ==> keys_distinct(
            samples_view(samples@),
        )),
        r matches Err(e) ==> exists|a: int, b: int|
            0 <= a < b < statuses@.len() && status_views(statuses@)[a].interface == status_views(
                statuses@,
            )[b].interface && e.iface@ == status_views(statuses@)[a].interface,
{
    let ghost views = status_views(statuses@);
    let n = statuses.len();
    let mut a: usize = 0;
    while a < n
        invariant
            n == statuses@.len(),
            0 <= a <= n,
            views == status_views(statuses@),
            forall|x: int, y: int| 0 <= x < y < n && x < a ==> views[x].interface
                != views[y].interface,
        decreases n - a,
    {
        let mut b: usize = a + 1;
        while b < n
            invariant
                n == statuses@.len(),
                0 <= a < n,
                a < b <= n,
                views == status_views(statuses@),
                forall|y: int| a < y < b ==> views[a as int].interface != views[y].interface,
            decreases n - b,
        {
            let sa = &statuses[a];
            let sb = &statuses[b];
            if bytes_eq(&sa.interface, &sb.interface) {
                proof {
                    assert(views[a as int].interface == statuses@[a as int].interface@);
                    assert(views[b as int].interface == statuses@[b as int].interface@);
                }
                return Err(ConfigurationError { iface: crate::metrics::copy_label(&sa.interface) });
            }
            proof {
                assert(views[a as int].interface == statuses@[a as int].interface@);
                assert(views[b as int].interface == statuses@[b as int].interface@);
            }
            b = b + 1;
        }
        a = a + 1;
    }
    proof {
        assert(ifaces_distinct(views));
    }
    let mut samples: Vec<Sample> = Vec::new();
    let mut idx: usize = 0;
    while idx < n
        invariant
            n == statuses@.len(),
            0 <= idx <= n,
            views == status_views(statuses@),
            samples_view(samples@) == flatten_all(views.take(idx as int)),
            ifaces_distinct(views),
        decreases n - idx,
    {
        let ghost before = samples_view(samples@);
        let mut flat = flatten(&statuses[idx]);
        let ghost flat_v = samples_view(flat@);
        samples.append(&mut flat);
        proof {
            assert(views[idx as int] == statuses@[idx as int]@);
            assert(flat_v == spec_flatten(views[idx as int]));
            assert(samples_view(samples@) =~= before + flat_v);
            assert(views.take(idx + 1 as int).drop_last() =~= views.take(idx as int));
            assert(views.take(idx + 1 as int).last() == views[idx as int]);
            assert(samples_view(samples@) =~= flatten_all(views.take(idx + 1 as int)));
        }
        idx = idx + 1;
    }
    proof {
        assert(views.take(n as int) =~= views);
        if all_wf(views) {
            lemma_flatten_all_distinct(views);
        }
    }
    Ok(samples)
}

/// The instances that decode successfully, in order.
pub open spec fn decoded_list(inputs: Seq<(Seq<u8>, Seq<u8>)>) -> Seq<StatusView>
    decreases inputs.len(),
{
    if inputs.len() == 0 {
        Seq::empty()
    } else {
        decoded_list(inputs.drop_last()) + (match spec_decode(inputs.last().1) {
            Ok(v) => seq![v],
            Err(_) => Seq::empty(),
        })
    }
}

/// The error manifest: each instance that fails to decode, named, with
/// its error, in order.
pub open spec fn failed_list(inputs: Seq<(Seq<u8>, Seq<u8>)>) -> Seq<(Seq<u8>, DecodeError)>
    decreases inputs.len(),
{
    if inputs.len() == 0 {
        Seq::empty()
    } else {
        failed_list(inputs.drop_last()) + (match spec_decode(inputs.last().1) {
            Ok(_) => Seq::empty(),
            Err(e) => seq![(inputs.last().0, e)],
        })
    }
}

/// Every successfully decoded instance is well-formed.
proof fn lemma_decoded_list_wf(inputs: Seq<(Seq<u8>, Seq<u8>)>)
    ensures
        all_wf(decoded_list(inputs)),
    decreases inputs.len(),
{
    if inputs.len() == 0 {
    } else {
        let dl = inputs.drop_last();
        lemma_decoded_list_wf(dl);
        lemma_decode_wf(inputs.last().1);
        let full = decoded_list(inputs);
        let old_s = decoded_list(dl);
        assert forall|t: int| 0 <= t < full.len() implies wf_status(#[trigger] full[t]) by {
            if t < old_s.len() {
                assert(full[t] == old_s[t]);
            }
        }
    }
}

/// One whole scrape cycle: the samples of every document that decodes,
/// merged, plus the manifest of the instances that failed, or a
/// configuration error when two decoded instances share an `interface`.
pub struct ScrapeOutcome {
    /// The merged, collision-free sample set of the healthy instances.
    pub samples: Vec<Sample>,
    /// Which instances were left out, and why, in input order.
    pub failures: Vec<(Vec<u8>, DecodeError)>,
}

/// The models of a scrape input list: (instance identifier, raw document).
pub open spec fn inputs_view(v: Seq<(Vec<u8>, Vec<u8>)>) -> Seq<(Seq<u8>, Seq<u8>)> {
    v.map_values(|p: (Vec<u8>, Vec<u8>)| (p.0@, p.1@))
}

/// Translate one scrape's raw documents into the merged sample set and
/// the per-instance error manifest. A document that fails to decode is
/// reported, never fatal; duplicate `interface` values among the decoded
/// instances are rejected as configuration errors before flattening.
pub fn scrape(inputs: &Vec<(Vec<u8>, Vec<u8>)>) -> (r: Result<ScrapeOutcome, ConfigurationError>)
    ensures
        r is Ok <==> ifaces_distinct(decoded_list(inputs_view(inputs@))),
        r matches Ok(out) ==> samples_view(out.samples@) == flatten_all(
            decoded_list(inputs_view(inputs@)),
        ) && failures_view(out.failures@) == failed_list(inputs_view(inputs@)) && keys_distinct(
            samples_view(out.samples@),
        ),
        r matches Err(e) ==> exists|a: int, b: int|
            0 <= a < b < decoded_list(inputs_view(inputs@)).len() && decoded_list(
                inputs_view(inputs@),
            )[a].interface == decoded_list(inputs_view(inputs@))[b].interface && e.iface@
                == decoded_list(inputs_view(inputs@))[a].interface,
{
    let ghost iv = inputs_view(inputs@);
    let n = inputs.len();
    let mut statuses: Vec<FastdStatus> = Vec::new();
    let mut failures: Vec<(Vec<u8>, DecodeError)> = Vec::new();
    let mut idx: usize = 0;
    while idx < n
        invariant
            n == inputs@.len(),
            0 <= idx <= n,
            iv == inputs_view(inputs@),
            status_views(statuses@) == decoded_list(iv.take(idx as int)),
            failures_view(failures@) == failed_list(iv.take(idx as int)),
        decreases n - idx,
    {
        let ghost st_before = status_views(statuses@);
        let ghost fl_before = failures_view(failures@);
        let input = &inputs[idx];
        proof {
            assert(iv[idx as int] == (input.0@, input.1@));
        }
        match decode(&input.1) {
            Ok(st) => {
                proof {
                    assert(status_views(statuses@.push(st)) =~= st_before.push(st@));
                }
                statuses.push(st);
            },
            Err(e) => {
                let id = crate::metrics::copy_label(&input.0);
                proof {
                    assert(failures_view(failures@.push((id, e))) =~= fl_before.push((input.0@, e)));
                }
                failures.push((id, e));
            },
        }
        proof {
            assert(iv.take(idx + 1 as int).drop_last() =~= iv.take(idx as int));
            assert(iv.take(idx + 1 as int).last() == iv[idx as int]);
            assert(status_views(statuses@) =~= decoded_list(iv.take(idx + 1 as int)));
            assert(failures_view(failures@) =~= failed_list(iv.take(idx + 1 as int)));
        }
        idx = idx + 1;
    }
    proof {
        assert(iv.take(n as int) =~= iv);
        lemma_decoded_list_wf(iv);
    }
    match get_metrics(&statuses) {
        Ok(samples) => Ok(ScrapeOutcome { samples: samples, failures: failures }),
        Err(e) => Err(e),
    }
}

} // verus!
