//! Ingestion/aggregation loop of the master node, one tick at a time.
//!
//! Each tick: decide whether the keepalive broadcast is due; drain the
//! receive queue handed in by the wireless edge, feeding each packet into
//! its peer's byte accumulator and decoding complete frames; stamp every
//! decoded frame with its peer's device id and the reception time; then
//! dispatch the batch — to the network sink when connectivity is up (the
//! log backlog is drained and appended), or into the durable log store when
//! it is not. A store that failed is reconstructed from the medium on a
//! paced retry, by the caller, through `provide_store`.
//!
//! The caller owns every hardware edge: it hands in the clock reading, the
//! connectivity flag and the received packets, sends the returned frames,
//! and broadcasts the ping when asked to.

use vstd::prelude::*;

use crate::codec::concat_encodings;
use crate::codec::parse;
use crate::codec::views_of;
use crate::codec::FrameAccumulator;
use crate::codec::MAX_ACCUM_LEN;
use crate::frame::set_message_device_id;
use crate::frame::spec_device_id_index;
use crate::frame::Frame;
use crate::frame::FrameView;
use crate::identity::addr_index;
use crate::identity::distinct_addrs;
use crate::identity::lemma_addr_index;
use crate::identity::lemma_addr_index_push;
use crate::identity::lemma_addr_index_unique;
use crate::identity::spec_resolve_id;
use crate::identity::spec_resolve_table;
use crate::identity::IdentityResolver;
use crate::logstore::LogStore;
use crate::timer::PeriodicTimer;

verus! {

/// One receive event from the wireless link: the sender's address and the
/// raw bytes of the event.
pub struct RxPacket {
    pub addr: u64,
    pub bytes: Vec<u8>,
}

/// One peer's byte accumulator, keyed by its link address.
pub struct PeerSlot {
    pub addr: u64,
    pub acc: FrameAccumulator,
}

/// The addresses of the peer slots, in order.
pub open spec fn slot_addrs(s: Seq<PeerSlot>) -> Seq<u64> {
    s.map_values(|p: PeerSlot| p.addr)
}

/// The buffered undecoded bytes of peer `addr` (empty when unknown).
pub open spec fn peer_buf(s: Seq<PeerSlot>, addr: u64) -> Seq<u8> {
    let i = addr_index(slot_addrs(s), addr);
    if i >= 0 {
        s[i].acc@
    } else {
        Seq::empty()
    }
}

/// The frames of `fs` that carry a device id field, each with `id` written
/// into that field and its timestamp replaced by `now`; frames whose type
/// has no such field (keepalive pings) are dropped as schema mismatches.
pub open spec fn stamp_all(fs: Seq<FrameView>, id: u8, now: u64) -> Seq<FrameView>
    decreases fs.len(),
{
    if fs.len() == 0 {
        Seq::empty()
    } else {
        let rest = stamp_all(fs.drop_first(), id, now);
        if spec_device_id_index(fs[0].msg_type) is Some {
            seq![fs[0].stamped(id, now)] + rest
        } else {
            rest
        }
    }
}

/// Stamping one more frame appends its stamped form, or nothing when its
/// type has no device id field.
pub proof fn lemma_stamp_all_snoc(fs: Seq<FrameView>, x: FrameView, id: u8, now: u64)
    ensures
        stamp_all(fs.push(x), id, now) =~= stamp_all(fs, id, now) + if spec_device_id_index(
            x.msg_type,
        ) is Some {
            seq![x.stamped(id, now)]
        } else {
            Seq::<FrameView>::empty()
        },
    decreases fs.len(),
{
    if fs.len() == 0 {
        assert(fs.push(x) =~= seq![x]);
        assert(seq![x].drop_first() =~= Seq::<FrameView>::empty());
        assert(stamp_all(seq![x].drop_first(), id, now) =~= Seq::<FrameView>::empty());
    } else {
        assert(fs.push(x).drop_first() =~= fs.drop_first().push(x));
        assert(fs.push(x)[0] == fs[0]);
        lemma_stamp_all_snoc(fs.drop_first(), x, id, now);
    }
}

/// The buffered bytes of every known peer, keyed by address.
pub open spec fn bufs_of(s: Seq<PeerSlot>) -> Map<u64, Seq<u8>> {
    Map::new(|a: u64| addr_index(slot_addrs(s), a) >= 0, |a: u64| peer_buf(s, a))
}

/// The buffer of `a` in a buffer map: empty when the peer is unknown.
pub open spec fn buf_at(m: Map<u64, Seq<u8>>, a: u64) -> Seq<u8> {
    if m.dom().contains(a) {
        m[a]
    } else {
        Seq::empty()
    }
}

/// One receive event applied to the buffer map and the identity table:
/// the frames it yields once stamped, and the two successor states. This
/// is the specification `ingest_packet` is proved against, folded over a
/// whole queue by `ingest_all`.
pub open spec fn ingest_step(
    bufs: Map<u64, Seq<u8>>,
    table: Seq<u64>,
    now: u64,
    addr: u64,
    data: Seq<u8>,
) -> (Seq<FrameView>, Map<u64, Seq<u8>>, Seq<u64>) {
    let p = parse(buf_at(bufs, addr) + data);
    let ok = !p.malformed && p.rest.len() <= MAX_ACCUM_LEN;
    let bufs2 = bufs.insert(
        addr,
        if ok {
            p.rest
        } else {
            Seq::empty()
        },
    );
    if !ok || p.frames.len() == 0 {
        (Seq::empty(), bufs2, table)
    } else {
        match spec_resolve_id(table, addr) {
            Some(id) => (stamp_all(p.frames, id as u8, now), bufs2, spec_resolve_table(
                table,
                addr,
            )),
            None => (Seq::empty(), bufs2, table),
        }
    }
}

/// A whole receive queue applied packet by packet: the stamped frames of
/// every packet concatenated in arrival order, and the final buffer map
/// and identity table.
pub open spec fn ingest_all(
    bufs: Map<u64, Seq<u8>>,
    table: Seq<u64>,
    now: u64,
    pkts: Seq<(u64, Seq<u8>)>,
) -> (Seq<FrameView>, Map<u64, Seq<u8>>, Seq<u64>)
    decreases pkts.len(),
{
    if pkts.len() == 0 {
        (Seq::empty(), bufs, table)
    } else {
        let step = ingest_step(bufs, table, now, pkts[0].0, pkts[0].1);
        let rest = ingest_all(step.1, step.2, now, pkts.drop_first());
        (step.0 + rest.0, rest.1, rest.2)
    }
}

/// Ingesting one more packet appends its step to the fold.
pub proof fn lemma_ingest_all_snoc(
    bufs: Map<u64, Seq<u8>>,
    table: Seq<u64>,
    now: u64,
    pkts: Seq<(u64, Seq<u8>)>,
    pkt: (u64, Seq<u8>),
)
    ensures
        ({
            let whole = ingest_all(bufs, table, now, pkts.push(pkt));
            let front = ingest_all(bufs, table, now, pkts);
            let step = ingest_step(front.1, front.2, now, pkt.0, pkt.1);
            &&& whole.0 =~= front.0 + step.0
            &&& whole.1 == step.1
            &&& whole.2 == step.2
        }),
    decreases pkts.len(),
{
    if pkts.len() == 0 {
        assert(pkts.push(pkt) =~= seq![pkt]);
        assert(seq![pkt].drop_first() =~= Seq::<(u64, Seq<u8>)>::empty());
        let step = ingest_step(bufs, table, now, pkt.0, pkt.1);
        assert(seq![pkt][0] == pkt);
        assert(ingest_all(step.1, step.2, now, Seq::<(u64, Seq<u8>)>::empty()) == (
            Seq::<FrameView>::empty(),
            step.1,
            step.2,
        ));
        assert(ingest_all(bufs, table, now, seq![pkt]) == (
            step.0 + Seq::<FrameView>::empty(),
            step.1,
            step.2,
        ));
        assert(ingest_all(bufs, table, now, pkts) == (Seq::<FrameView>::empty(), bufs, table));
        assert(step.0 + Seq::<FrameView>::empty() =~= Seq::<FrameView>::empty() + step.0);
    } else {
        assert(pkts.push(pkt).drop_first() =~= pkts.drop_first().push(pkt));
        assert(pkts.push(pkt)[0] == pkts[0]);
        let step0 = ingest_step(bufs, table, now, pkts[0].0, pkts[0].1);
        lemma_ingest_all_snoc(step0.1, step0.2, now, pkts.drop_first(), pkt);
        let whole = ingest_all(bufs, table, now, pkts.push(pkt));
        let front = ingest_all(bufs, table, now, pkts);
        let tail_whole = ingest_all(step0.1, step0.2, now, pkts.drop_first().push(pkt));
        let tail_front = ingest_all(step0.1, step0.2, now, pkts.drop_first());
        assert(whole == (step0.0 + tail_whole.0, tail_whole.1, tail_whole.2));
        assert(front == (step0.0 + tail_front.0, tail_front.1, tail_front.2));
        let step = ingest_step(front.1, front.2, now, pkt.0, pkt.1);
        assert(tail_whole.0 =~= tail_front.0 + step.0);
        assert(whole.0 =~= front.0 + step.0);
    }
}

/// The receive events as plain values.
pub open spec fn pkt_views(ps: Seq<RxPacket>) -> Seq<(u64, Seq<u8>)> {
    ps.map_values(|p: RxPacket| (p.addr, p.bytes@))
}

/// What one tick asks the caller to do besides the dispatch itself.
pub struct TickReport {
    /// The keepalive broadcast is due: build a ping frame and send it over
    /// the wireless link.
    pub broadcast_ping: bool,
    /// Frames to write to the network sink, in order (empty without
    /// connectivity).
    pub sends: Vec<Frame>,
    /// Number of frames written to the durable log this tick.
    pub stored: usize,
    /// The log store is gone and the retry interval has passed: try to
    /// reacquire the medium and hand the result to `provide_store`.
    pub want_store_recovery: bool,
}

/// What a dispatch did with its batch.
pub struct DispatchReport {
    /// Frames for the network sink, in order: the batch first, then any
    /// backlog drained from the log store.
    pub sends: Vec<Frame>,
    /// Number of frames written to the durable log.
    pub stored: usize,
}

/// The master node's per-tick state machine; see the module description.
pub struct Pipeline {
    /// One byte accumulator per known peer address.
    pub peers: Vec<PeerSlot>,
    /// The persistent address-to-device-id table.
    pub resolver: IdentityResolver,
    /// The durable log store, absent while the medium is unavailable.
    pub store: Option<LogStore>,
    /// Paces the keepalive broadcast.
    pub ping_timer: PeriodicTimer,
    /// Paces attempts to reacquire the storage medium.
    pub store_retry: PeriodicTimer,
    /// Connectivity as of the latest tick.
    pub connected: bool,
}

impl Pipeline {
    /// Structural invariant: one slot per address, a well-formed identity
    /// table, and a well-formed store when one is present.
    pub open spec fn wf(&self) -> bool {
        &&& distinct_addrs(slot_addrs(self.peers@))
        &&& self.resolver.wf()
        &&& self.store is Some ==> self.store->0@.wf()
    }

    /// A fresh pipeline: no peers, an empty identity table, the given store
    /// (if the medium came up), and both timers due at once.
    pub fn new(store: Option<LogStore>, ping_interval_ms: u64, store_retry_ms: u64) -> (r:
        Pipeline)
        requires
            store is Some ==> store->0@.wf(),
        ensures
            r.wf(),
            r.peers@.len() == 0,
            r.resolver@.len() == 0,
            r.store == store,
            r.ping_timer.spec_interval() == ping_interval_ms,
            r.ping_timer.spec_last() is None,
            r.store_retry.spec_interval() == store_retry_ms,
            r.store_retry.spec_last() is None,
            !r.connected,
    {
        Pipeline {
            peers: Vec::new(),
            resolver: IdentityResolver::new(),
            store,
            ping_timer: PeriodicTimer::new(ping_interval_ms),
            store_retry: PeriodicTimer::new(store_retry_ms),
            connected: false,
        }
    }

    /// Connectivity as of the latest tick.
    pub fn is_connected(&self) -> (r: bool)
        ensures
            r == self.connected,
    {
        self.connected
    }

    /// Installs a freshly reconstructed log store after a successful
    /// recovery attempt.
    pub fn provide_store(&mut self, store: LogStore)
        requires
            old(self).wf(),
            store@.wf(),
        ensures
            final (self).wf(),
            final (self).store == Some(store),
            final (self).peers == old(self).peers,
            final (self).resolver == old(self).resolver,
            final (self).ping_timer == old(self).ping_timer,
            final (self).store_retry == old(self).store_retry,
            final (self).connected == old(self).connected,
    {
        self.store = Some(store);
    }

    /// Drops the log store after the medium failed; reads and writes fall
    /// back to the recovery path until `provide_store` runs.
    pub fn invalidate_store(&mut self)
        requires
            old(self).wf(),
        ensures
            final (self).wf(),
            final (self).store is None,
            final (self).peers == old(self).peers,
            final (self).resolver == old(self).resolver,
            final (self).ping_timer == old(self).ping_timer,
            final (self).store_retry == old(self).store_retry,
            final (self).connected == old(self).connected,
    {
        self.store = None;
    }

    /// Finds the slot of `addr`, creating an empty one on first contact.
    fn find_or_add_peer(&mut self, addr: u64) -> (idx: usize)
        requires
            distinct_addrs(slot_addrs(old(self).peers@)),
        ensures
            distinct_addrs(slot_addrs(final (self).peers@)),
            idx < final (self).peers@.len(),
            final (self).peers@[idx as int].addr == addr,
            addr_index(slot_addrs(final (self).peers@), addr) == idx,
            final (self).peers@[idx as int].acc@ =~= peer_buf(old(self).peers@, addr),
            addr_index(slot_addrs(old(self).peers@), addr) >= 0 ==> final (self).peers@ == old(
                self,
            ).peers@ && idx == addr_index(slot_addrs(old(self).peers@), addr),
            addr_index(slot_addrs(old(self).peers@), addr) < 0 ==> final (self).peers@.len()
                == old(self).peers@.len() + 1 && idx == old(self).peers@.len() && final (
            self).peers@.take(old(self).peers@.len() as int) =~= old(self).peers@,
            final (self).resolver == old(self).resolver,
            final (self).store == old(self).store,
            final (self).ping_timer == old(self).ping_timer,
            final (self).store_retry == old(self).store_retry,
            final (self).connected == old(self).connected,
    {
        let ghost addrs0 = slot_addrs(self.peers@);
        let mut i: usize = 0;
        while i < self.peers.len()
            invariant
                i <= self.peers.len(),
                forall|j: int| 0 <= j < i ==> slot_addrs(self.peers@)[j] != addr,
                distinct_addrs(slot_addrs(self.peers@)),
            decreases self.peers.len() - i,
        {
            if self.peers[i].addr == addr {
                proof {
                    lemma_addr_index_unique(slot_addrs(self.peers@), i as int);
                }
                return i;
            }
            i = i + 1;
        }
        proof {
            lemma_addr_index(slot_addrs(self.peers@), addr);
            assert(addr_index(slot_addrs(self.peers@), addr) < 0);
        }
        let idx = self.peers.len();
        let ghost before = self.peers@;
        self.peers.push(PeerSlot { addr, acc: FrameAccumulator::new() });
        proof {
            assert(slot_addrs(self.peers@) =~= slot_addrs(before).push(addr));
            lemma_addr_index_push(slot_addrs(before), addr, addr);
            assert(distinct_addrs(slot_addrs(self.peers@))) by {
                lemma_addr_index(slot_addrs(before), addr);
            }
            assert(self.peers@.take(before.len() as int) =~= before);
        }
        idx
    }

    /// Feeds one receive event into its peer's accumulator, decodes the
    /// complete frames now available, resolves the peer's device id (on
    /// first contact: assigns and records the next free one), and stamps
    /// each decodable frame with that id and the reception time `now`.
    /// Frames whose type carries no device id field are dropped as schema
    /// mismatches; a malformed or overlong stream resets this peer's
    /// accumulator and yields nothing. Only this peer's buffer changes.
    pub fn ingest_packet(&mut self, now: u64, addr: u64, data: &Vec<u8>) -> (stamped: Vec<Frame>)
        requires
            old(self).wf(),
        ensures
            final (self).wf(),
            final (self).store == old(self).store,
            final (self).ping_timer == old(self).ping_timer,
            final (self).store_retry == old(self).store_retry,
            final (self).connected == old(self).connected,
            forall|i: int| 0 <= i < stamped@.len() ==> (#[trigger] stamped@[i])@.valid(),
            forall|i: int| 0 <= i < stamped@.len() ==> (#[trigger] stamped@[i])@.timestamp == now,
            old(self).resolver@.is_prefix_of(final (self).resolver@),
            forall|a: u64|
                a != addr ==> peer_buf(final (self).peers@, a) =~= peer_buf(old(self).peers@, a),
            ({
                let step = ingest_step(
                    bufs_of(old(self).peers@),
                    old(self).resolver@,
                    now,
                    addr,
                    data@,
                );
                &&& views_of(stamped@) =~= step.0
                &&& bufs_of(final (self).peers@) =~= step.1
                &&& final (self).resolver@ == step.2
            }),
    {
        let ghost m = *old(self);
        let idx = self.find_or_add_peer(addr);
        let ghost mid = self.peers@;
        let mut slot = self.peers.remove(idx);
        let fed = slot.acc.feed(data);
        self.peers.insert(idx, slot);
        proof {
            assert(self.peers@ =~= mid.update(idx as int, self.peers@[idx as int]));
            assert(self.peers@[idx as int].addr == addr);
            assert forall|k: int|
                0 <= k < self.peers@.len() implies slot_addrs(self.peers@)[k] == slot_addrs(
                mid,
            )[k] by {
                if k != idx {
                    assert(self.peers@[k] == mid[k]);
                }
            }
            assert(slot_addrs(self.peers@) =~= slot_addrs(mid));
            assert(slot_addrs(self.peers@) == slot_addrs(mid));
            assert(addr_index(slot_addrs(self.peers@), addr) == idx);
            assert(peer_buf(self.peers@, addr) == self.peers@[idx as int].acc@);
            let i0 = addr_index(slot_addrs(m.peers@), addr);
            assert forall|a: u64|
                #![trigger addr_index(slot_addrs(self.peers@), a)]
                #![trigger peer_buf(self.peers@, a)]
                a != addr implies addr_index(slot_addrs(self.peers@), a) == addr_index(
                slot_addrs(m.peers@),
                a,
            ) && peer_buf(self.peers@, a) =~= peer_buf(m.peers@, a) by {
                lemma_addr_index(slot_addrs(m.peers@), a);
                let j = addr_index(slot_addrs(m.peers@), a);
                if i0 >= 0 {
                    assert(mid == m.peers@);
                } else {
                    assert(mid.take(m.peers@.len() as int) =~= m.peers@);
                    assert forall|k: int|
                        0 <= k < m.peers@.len() implies slot_addrs(mid)[k] == slot_addrs(
                        m.peers@,
                    )[k] by {
                        assert(mid[k] == mid.take(m.peers@.len() as int)[k]);
                    }
                    assert(slot_addrs(mid) =~= slot_addrs(m.peers@).push(addr)) by {
                        assert(mid[idx as int].addr == addr);
                    }
                    lemma_addr_index_push(slot_addrs(m.peers@), addr, a);
                }
                assert(addr_index(slot_addrs(mid), a) == j);
                if j >= 0 {
                    assert(slot_addrs(m.peers@)[j] == a);
                    assert(mid[j] == m.peers@[j]) by {
                        if i0 < 0 {
                            assert(mid[j] == mid.take(m.peers@.len() as int)[j]);
                        }
                    }
                    assert(mid[j].addr == a);
                    assert(j != idx);
                    assert(self.peers@[j] == mid[j]);
                }
            }
            assert forall|a: u64| a != addr implies peer_buf(self.peers@, a) =~= peer_buf(
                m.peers@,
                a,
            ) by {}
            assert(buf_at(bufs_of(m.peers@), addr) == peer_buf(m.peers@, addr)) by {
                if i0 >= 0 {
                    assert(bufs_of(m.peers@).dom().contains(addr));
                } else {
                    assert(!bufs_of(m.peers@).dom().contains(addr));
                }
            }
            let lhs = bufs_of(self.peers@);
            let rhs = bufs_of(m.peers@).insert(addr, self.peers@[idx as int].acc@);
            assert(rhs.dom() == bufs_of(m.peers@).dom().insert(addr));
            assert forall|a: u64| lhs.dom().contains(a) <==> rhs.dom().contains(a) by {
                assert(lhs.dom().contains(a) == (addr_index(slot_addrs(self.peers@), a) >= 0));
                assert(bufs_of(m.peers@).dom().contains(a) == (addr_index(
                    slot_addrs(m.peers@),
                    a,
                ) >= 0));
                if a == addr {
                    assert(addr_index(slot_addrs(self.peers@), a) == idx);
                    assert(lhs.dom().contains(a));
                    assert(rhs.dom().contains(a));
                } else {
                    assert(addr_index(slot_addrs(self.peers@), a) == addr_index(
                        slot_addrs(m.peers@),
                        a,
                    ));
                    assert(rhs.dom().contains(a) == bufs_of(m.peers@).dom().contains(a));
                }
            }
            assert forall|a: u64|
                lhs.dom().contains(a) && rhs.dom().contains(a) implies lhs[a] == rhs[a] by {
                if a == addr {
                    assert(lhs[a] == peer_buf(self.peers@, addr));
                    assert(rhs[a] == self.peers@[idx as int].acc@);
                } else {
                    assert(lhs[a] == peer_buf(self.peers@, a));
                    assert(peer_buf(self.peers@, a) =~= peer_buf(m.peers@, a));
                    assert(bufs_of(m.peers@).dom().contains(a));
                    assert(rhs[a] == bufs_of(m.peers@)[a]);
                    assert(bufs_of(m.peers@)[a] == peer_buf(m.peers@, a));
                }
            }
            assert(lhs.dom() =~= rhs.dom());
            assert(lhs =~= rhs);
        }
        let ghost step = ingest_step(bufs_of(m.peers@), m.resolver@, now, addr, data@);
        proof {
            assert(buf_at(bufs_of(m.peers@), addr) + data@ == peer_buf(m.peers@, addr) + data@);
        }
        let frames = match fed {
            Ok(frames) => frames,
            Err(_) => {
                // The stream from this peer is broken or oversized: its
                // accumulator was reset; nothing to stamp.
                proof {
                    assert(views_of(Seq::<Frame>::empty()) =~= Seq::<FrameView>::empty());
                    assert(bufs_of(self.peers@) =~= step.1);
                }
                return Vec::new();
            },
        };
        if frames.len() == 0 {
            proof {
                assert(views_of(Seq::<Frame>::empty()) =~= Seq::<FrameView>::empty());
                assert(bufs_of(self.peers@) =~= step.1);
            }
            return Vec::new();
        }
        let id = match self.resolver.resolve(addr) {
            Some(id) => id,
            None => {
                // The identity table is full: these frames cannot be
                // attributed to a device and are dropped.
                proof {
                    assert(views_of(Seq::<Frame>::empty()) =~= Seq::<FrameView>::empty());
                    assert(bufs_of(self.peers@) =~= step.1);
                }
                return Vec::new();
            },
        };
        let ghost fvs = parse(peer_buf(m.peers@, addr) + data@).frames;
        proof {
            assert(views_of(frames@) =~= fvs);
        }
        let mut out: Vec<Frame> = Vec::new();
        let mut i: usize = 0;
        proof {
            assert(fvs.take(0) =~= Seq::<FrameView>::empty());
            assert(views_of(out@) =~= stamp_all(fvs.take(0), id, now));
        }
        while i < frames.len()
            invariant
                i <= frames.len(),
                views_of(frames@) =~= fvs,
                forall|k: int| 0 <= k < frames@.len() ==> (#[trigger] frames@[k])@.valid(),
                views_of(out@) =~= stamp_all(fvs.take(i as int), id, now),
                forall|k: int| 0 <= k < out@.len() ==> (#[trigger] out@[k])@.valid(),
                forall|k: int| 0 <= k < out@.len() ==> (#[trigger] out@[k])@.timestamp == now,
            decreases frames.len() - i,
        {
            let mut f = frames[i].clone();
            let ghost fv = f@;
            let ghost out_before = out@;
            match set_message_device_id(&mut f, id) {
                Ok(_) => {
                    f.set_timestamp(now);
                    proof {
                        assert(f@ == fv.stamped(id, now));
                    }
                    out.push(f);
                },
                Err(_) => {
                    // Schema mismatch: the frame's type carries no device
                    // id field; it is dropped.
                },
            }
            proof {
                assert(fvs.take(i + 1) =~= fvs.take(i as int).push(fvs[i as int]));
                lemma_stamp_all_snoc(fvs.take(i as int), fvs[i as int], id, now);
                if spec_device_id_index(fv.msg_type) is Some {
                    assert(views_of(out@) =~= views_of(out_before).push(fv.stamped(id, now)));
                }
            }
            i = i + 1;
        }
        proof {
            assert(fvs.take(frames@.len() as int) =~= fvs);
            assert(views_of(out@) =~= stamp_all(fvs, id, now));
            assert(bufs_of(self.peers@) =~= step.1);
            assert(views_of(out@) =~= step.0);
        }
        out
    }

    /// Routes a stamped batch. With connectivity, every frame goes to the
    /// network sink — the batch first, then whatever one read drains from
    /// the log backlog — and nothing is written to the log; a store whose
    /// read fails is dropped for recovery. Without connectivity, every
    /// frame of the batch is written to the log store and nothing is sent;
    /// with no store available the frames are lost (the serious case the
    /// real system logs at error level).
    pub fn dispatch(&mut self, connected: bool, batch: Vec<Frame>) -> (report: DispatchReport)
        requires
            old(self).wf(),
            forall|i: int| 0 <= i < batch@.len() ==> (#[trigger] batch@[i])@.valid(),
        ensures
            final (self).wf(),
            final (self).peers == old(self).peers,
            final (self).resolver == old(self).resolver,
            final (self).ping_timer == old(self).ping_timer,
            final (self).store_retry == old(self).store_retry,
            final (self).connected == old(self).connected,
            forall|i: int| 0 <= i < report.sends@.len() ==> (#[trigger] report.sends@[i])@.valid(),
            connected ==> report.stored == 0,
            connected ==> match old(self).store {
                Some(st) => {
                    let p = parse(st@.read_input());
                    &&& !p.malformed ==> views_of(report.sends@) =~= views_of(batch@)
                        + st@.read_frames() && final (self).store is Some && final (
                    self).store->0@ == st@.read_post()
                    &&& p.malformed ==> views_of(report.sends@) =~= views_of(batch@) && final (
                    self).store is None
                },
                None => views_of(report.sends@) =~= views_of(batch@) && final (self).store is None,
            },
            !connected ==> report.sends@.len() == 0,
            !connected ==> match old(self).store {
                Some(st) => report.stored == batch@.len() && final (self).store is Some && final (
                self).store->0@.contents() =~= st@.contents() + concat_encodings(views_of(batch@)),
                None => report.stored == 0 && final (self).store is None,
            },
    {
        if connected {
            let mut sends = batch;
            let ghost batch0 = sends@;
            let st_opt = self.store.take();
            match st_opt {
                Some(mut st) => {
                    match st.read() {
                        Ok(mut extra) => {
                            let ghost extra0 = extra@;
                            sends.append(&mut extra);
                            self.store = Some(st);
                            proof {
                                assert(views_of(sends@) =~= views_of(batch0) + views_of(extra0));
                            }
                        },
                        Err(_) => {
                            // The medium failed mid-read: the store is
                            // invalidated and recovery will be paced by the
                            // retry timer.
                        },
                    }
                },
                None => {},
            }
            DispatchReport { sends, stored: 0 }
        } else {
            let st_opt = self.store.take();
            match st_opt {
                Some(mut st) => {
                    let ghost st0 = st@;
                    let mut i: usize = 0;
                    proof {
                        assert(views_of(batch@).take(0) =~= Seq::<FrameView>::empty());
                        assert(st@.contents() =~= st0.contents() + concat_encodings(
                            views_of(batch@).take(0),
                        ));
                    }
                    while i < batch.len()
                        invariant
                            i <= batch.len(),
                            st@.wf(),
                            forall|k: int|
                                0 <= k < batch@.len() ==> (#[trigger] batch@[k])@.valid(),
                            st@.contents() =~= st0.contents() + concat_encodings(
                                views_of(batch@).take(i as int),
                            ),
                        decreases batch.len() - i,
                    {
                        st.write(&batch[i]);
                        proof {
                            assert(views_of(batch@).take(i + 1) =~= views_of(batch@).take(
                                i as int,
                            ).push(batch@[i as int]@));
                            crate::codec::lemma_concat_encodings_snoc(
                                views_of(batch@).take(i as int),
                                batch@[i as int]@,
                            );
                        }
                        i = i + 1;
                    }
                    proof {
                        assert(views_of(batch@).take(batch@.len() as int) =~= views_of(batch@));
                    }
                    self.store = Some(st);
                    DispatchReport { sends: Vec::new(), stored: batch.len() }
                },
                None => {
                    // No connectivity and no store: the batch is lost.
                    DispatchReport { sends: Vec::new(), stored: 0 }
                },
            }
        }
    }

    /// One tick of the loop: keepalive decision, queue drain with identity
    /// stamping and timestamping, dispatch, and storage-recovery pacing.
    /// The keepalive fires exactly when its timer is due, whatever traffic
    /// arrived — sustained frames from one peer cannot starve it. Every
    /// packet handed in is drained this very tick.
    pub fn tick(&mut self, now: u64, connected: bool, received: &Vec<RxPacket>) -> (report:
        TickReport)
        requires
            old(self).wf(),
        ensures
            final (self).wf(),
            final (self).connected == connected,
            report.broadcast_ping == old(self).ping_timer.spec_due(now),
            report.broadcast_ping ==> final (self).ping_timer.spec_last() == Some(now),
            !report.broadcast_ping ==> final (self).ping_timer == old(self).ping_timer,
            connected ==> report.stored == 0,
            !connected ==> report.sends@.len() == 0,
            old(self).resolver@.is_prefix_of(final (self).resolver@),
            report.want_store_recovery == (final (self).store is None && old(
                self,
            ).store_retry.spec_due(now)),
            report.want_store_recovery ==> final (self).store_retry.spec_last() == Some(now),
            !report.want_store_recovery ==> final (self).store_retry == old(self).store_retry,
            forall|i: int| 0 <= i < report.sends@.len() ==> (#[trigger] report.sends@[i])@.valid(),
            ({
                let ing = ingest_all(
                    bufs_of(old(self).peers@),
                    old(self).resolver@,
                    now,
                    pkt_views(received@),
                );
                &&& bufs_of(final (self).peers@) =~= ing.1
                &&& final (self).resolver@ == ing.2
                &&& connected ==> match old(self).store {
                    Some(st) => {
                        let p = parse(st@.read_input());
                        &&& !p.malformed ==> views_of(report.sends@) =~= ing.0
                            + st@.read_frames() && final (self).store is Some && final (
                        self).store->0@ == st@.read_post()
                        &&& p.malformed ==> views_of(report.sends@) =~= ing.0 && final (
                        self).store is None
                    },
                    None => views_of(report.sends@) =~= ing.0 && final (self).store is None,
                }
                &&& !connected ==> match old(self).store {
                    Some(st) => report.stored == ing.0.len() && final (self).store is Some
                        && final (self).store->0@.contents() =~= st@.contents()
                        + concat_encodings(ing.0),
                    None => report.stored == 0 && final (self).store is None,
                }
            }),
    {
        let broadcast_ping = self.ping_timer.is_due(now);
        if broadcast_ping {
            self.ping_timer.fire(now);
        }
        let ghost after_ping = *self;
        let ghost bufs0 = bufs_of(after_ping.peers@);
        let ghost table0 = after_ping.resolver@;
        let ghost pv = pkt_views(received@);
        let mut batch: Vec<Frame> = Vec::new();
        let mut pi: usize = 0;
        proof {
            assert(pv.take(0) =~= Seq::<(u64, Seq<u8>)>::empty());
            assert(ingest_all(bufs0, table0, now, Seq::<(u64, Seq<u8>)>::empty()) == (
                Seq::<FrameView>::empty(),
                bufs0,
                table0,
            ));
            assert(views_of(batch@) =~= Seq::<FrameView>::empty());
        }
        while pi < received.len()
            invariant
                pi <= received.len(),
                self.wf(),
                self.ping_timer == after_ping.ping_timer,
                self.store == after_ping.store,
                self.store_retry == after_ping.store_retry,
                self.connected == after_ping.connected,
                after_ping.resolver@.is_prefix_of(self.resolver@),
                forall|k: int| 0 <= k < batch@.len() ==> (#[trigger] batch@[k])@.valid(),
                bufs0 == bufs_of(after_ping.peers@),
                table0 == after_ping.resolver@,
                pv == pkt_views(received@),
                views_of(batch@) =~= ingest_all(bufs0, table0, now, pv.take(pi as int)).0,
                bufs_of(self.peers@) =~= ingest_all(bufs0, table0, now, pv.take(pi as int)).1,
                self.resolver@ == ingest_all(bufs0, table0, now, pv.take(pi as int)).2,
            decreases received.len() - pi,
        {
            let pkt = &received[pi];
            let ghost front = ingest_all(bufs0, table0, now, pv.take(pi as int));
            let ghost table_before = self.resolver@;
            let ghost batch_before = batch@;
            let mut stamped = self.ingest_packet(now, pkt.addr, &pkt.bytes);
            let ghost stamped0 = stamped@;
            batch.append(&mut stamped);
            proof {
                assert(after_ping.resolver@.is_prefix_of(self.resolver@)) by {
                    assert(after_ping.resolver@ =~= table_before.subrange(
                        0,
                        after_ping.resolver@.len() as int,
                    ));
                    assert(table_before.is_prefix_of(self.resolver@));
                    assert(after_ping.resolver@ =~= self.resolver@.subrange(
                        0,
                        after_ping.resolver@.len() as int,
                    ));
                }
                assert(pv[pi as int] == (received@[pi as int].addr, received@[pi as int].bytes@));
                assert(pv.take(pi + 1) =~= pv.take(pi as int).push(pv[pi as int]));
                lemma_ingest_all_snoc(bufs0, table0, now, pv.take(pi as int), pv[pi as int]);
                assert(views_of(batch@) =~= views_of(batch_before) + views_of(stamped0));
                assert(views_of(batch@) =~= ingest_all(bufs0, table0, now, pv.take(pi + 1)).0);
            }
            pi = pi + 1;
        }
        proof {
            assert(pv.take(received@.len() as int) =~= pv);
        }
        let d = self.dispatch(connected, batch);
        self.connected = connected;
        let mut want_store_recovery = false;
        if self.store.is_none() && self.store_retry.is_due(now) {
            want_store_recovery = true;
            self.store_retry.fire(now);
        }
        TickReport { broadcast_ping, sends: d.sends, stored: d.stored, want_store_recovery }
    }
}

} // verus!
