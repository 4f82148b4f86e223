use vstd::prelude::*;

verus! {

/// The hash that `differential_dataflow::Hashable` gives a `u64`: FNV over
/// the value's `std::hash::Hash` encoding, the same in every process.
pub uninterp spec fn fnv_hash(x: u64) -> u64;

/// Relies on differential_dataflow::Hashable::hashed, which feeds the value to
/// an unseeded FNV hasher: the result depends on the value alone.
#[verifier::external_body]
fn hashed(x: u64) -> (r: u64)
    ensures
        r == fnv_hash(x),
{
    differential_dataflow::Hashable::hashed(&x)
}

/// The worker, out of `peers`, that a hash value selects.
pub open spec fn worker_of(hash: u64, peers: usize) -> int {
    hash as int % peers as int
}

/// The worker, out of `peers`, that hash value `hash` selects.
pub fn worker_of_hash(hash: u64, peers: usize) -> (r: usize)
    requires
        peers > 0,
    ensures
        r as int == worker_of(hash, peers),
        r < peers,
{
    (hash % (peers as u64)) as usize
}

/// The worker that leads the sink `sink_id`: its minter mints and its
/// appender commits.
pub fn leader_worker(sink_id: u64, peers: usize) -> (r: usize)
    requires
        peers > 0,
    ensures
        r as int == worker_of(fnv_hash(sink_id), peers),
        r < peers,
{
    let h = hashed(sink_id);
    worker_of_hash(h, peers)
}

/// Whether worker `index` leads the sink `sink_id`.
pub fn is_leader(sink_id: u64, peers: usize, index: usize) -> (r: bool)
    requires
        peers > 0,
    ensures
        r == leads(sink_id, peers, index as int),
{
    leader_worker(sink_id, peers) == index
}

/// The writer that receives the updates of payload `payload`: both the
/// desired and the persisted updates of one payload go to the same worker.
pub fn payload_worker(payload: u64, peers: usize) -> (r: usize)
    requires
        peers > 0,
    ensures
        r as int == worker_of(fnv_hash(payload), peers),
        r < peers,
{
    let h = hashed(payload);
    worker_of_hash(h, peers)
}

/// Whether worker `index` out of `peers` leads the sink `sink_id`.
pub open spec fn leads(sink_id: u64, peers: usize, index: int) -> bool {
    index == worker_of(fnv_hash(sink_id), peers)
}

/// Exactly one of the `peers` workers leads a sink.
pub proof fn lemma_single_leader(sink_id: u64, peers: usize)
    requires
        peers > 0,
    ensures
        0 <= worker_of(fnv_hash(sink_id), peers) < peers,
        leads(sink_id, peers, worker_of(fnv_hash(sink_id), peers)),
        forall|i: int, j: int| #[trigger] leads(sink_id, peers, i) && #[trigger] leads(sink_id, peers, j) ==> i == j,
{
}

} // verus!
