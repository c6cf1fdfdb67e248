//! The broker's state and the decisions of its loop: accepting, framing
//! what a peer sent, fanning Publish frames out, and draining and closing
//! connections. The loop itself, with its sockets, runs in the caller.
//!
//! Every frame a peer publishes goes to every other open connection and
//! never back to its sender. For each receiving connection, frames are
//! offered in the order they were decoded; `Connection::queue_write` takes
//! each whole or drops it, and the socket drains the queue from the front.
use crate::connection::{
    accepts, count_received, publish_frames, role_after, unframed, ClientRole, Connection, READ_BUFFER_SIZE,
};
use crate::protocol::frame::frames_from;
use crate::storage::{write_all_effect, MmapStorage};
use crate::stats::{wrap64, ServerStats};
use vstd::prelude::*;

verus! {

/// The counters after one frame of `len` bytes is offered to a receiver:
/// a taken frame counts as queued (with its bytes), a refused one as dropped.
pub open spec fn count_offer(st: ServerStats, taken: bool, len: u64) -> ServerStats {
    if taken {
        ServerStats {
            messages_queued: wrap64(st.messages_queued + 1) as u64,
            bytes_sent: wrap64(st.bytes_sent + len) as u64,
            ..st
        }
    } else {
        ServerStats { messages_dropped: wrap64(st.messages_dropped + 1) as u64, ..st }
    }
}

/// Offers one frame to a receiving connection and counts the outcome:
/// queued frames count as queued, refused ones as dropped.
pub fn deliver(conn: &mut Connection, frame: &[u8], stats: &mut ServerStats) -> (r: bool)
    ensures
        r == accepts(old(conn).outbound().len(), frame@.len()),
        final(conn).outbound() == (if r {
            old(conn).outbound() + frame@
        } else {
            old(conn).outbound()
        }),
        final(conn).inbound() == old(conn).inbound(),
        final(conn).role_spec() == old(conn).role_spec(),
        *final(stats) == count_offer(*old(stats), r, frame@.len() as u64),
{
    let queued = conn.queue_write(frame);
    if queued {
        stats.record_queued(frame.len() as u64);
    } else {
        stats.record_dropped();
    }
    queued
}

/// The counters after a frame of `len` bytes from `sender` is offered to
/// the first `k` connections: the sender's own is skipped, every other one
/// counts as `count_offer` says.
pub open spec fn count_fan_out(
    st: ServerStats,
    ids: Seq<usize>,
    conns: Seq<Connection>,
    sender: usize,
    len: nat,
    k: int,
) -> ServerStats
    decreases k,
{
    if k <= 0 {
        st
    } else {
        let prev = count_fan_out(st, ids, conns, sender, len, k - 1);
        if ids[k - 1] == sender {
            prev
        } else {
            count_offer(prev, accepts(conns[k - 1].outbound().len(), len), len as u64)
        }
    }
}

/// When every receiver takes the frame, nothing counts as dropped.
proof fn lemma_fan_out_no_drop(
    st: ServerStats,
    ids: Seq<usize>,
    conns: Seq<Connection>,
    sender: usize,
    len: nat,
    k: int,
)
    requires
        k <= ids.len(),
        k <= conns.len(),
        forall|j: int| 0 <= j < k && ids[j] != sender ==> accepts(#[trigger] conns[j].outbound().len(), len),
    ensures
        count_fan_out(st, ids, conns, sender, len, k).messages_dropped == st.messages_dropped,
    decreases k,
{
    if k > 0 {
        lemma_fan_out_no_drop(st, ids, conns, sender, len, k - 1);
    }
}

/// The broker's state: open connections by id, the next id to hand out,
/// the storage ring and the counters. Sockets stay with the caller, keyed
/// by the same ids.
pub struct Broker {
    ids: Vec<usize>,
    conns: Vec<Connection>,
    next_id: usize,
    storage: MmapStorage,
    stats: ServerStats,
}

/// The position of `id` in `ids`.
pub open spec fn position(ids: Seq<usize>, id: usize, k: int) -> bool {
    0 <= k < ids.len() && ids[k] == id
}

impl Broker {
    /// Ids of the open connections, in accept order.
    pub closed spec fn ids(&self) -> Seq<usize> {
        self.ids@
    }

    /// The open connections, matching `ids()` position by position.
    pub closed spec fn conns(&self) -> Seq<Connection> {
        self.conns@
    }

    /// The id the next accepted connection gets.
    pub closed spec fn next_id(&self) -> usize {
        self.next_id
    }

    /// The storage ring.
    pub closed spec fn storage_spec(&self) -> MmapStorage {
        self.storage
    }

    /// The counters.
    pub closed spec fn stats_spec(&self) -> ServerStats {
        self.stats
    }

    /// One connection per id, ids distinct and below the next id, every
    /// connection and the storage well formed.
    pub open spec fn wf(&self) -> bool {
        &&& self.ids().len() == self.conns().len()
        &&& forall|i: int, j: int|
            0 <= i < j < self.ids().len() ==> #[trigger] self.ids()[i] != #[trigger] self.ids()[j]
        &&& forall|i: int| 0 <= i < self.ids().len() ==> #[trigger] self.ids()[i] < self.next_id()
        &&& forall|i: int| 0 <= i < self.conns().len() ==> (#[trigger] self.conns()[i]).wf()
        &&& self.storage_spec().wf()
    }

    /// A broker with no connections over `storage`.
    pub fn new(storage: MmapStorage) -> (r: Self)
        requires
            storage.wf(),
        ensures
            r.wf(),
            r.ids() == Seq::<usize>::empty(),
            r.next_id() == 0,
            r.storage_spec() == storage,
            r.stats_spec() == ServerStats::new_spec(),
    {
        Broker { ids: Vec::new(), conns: Vec::new(), next_id: 0, storage, stats: ServerStats::new() }
    }

    /// Where connection `id` stands, if it is open.
    fn find(&self, id: usize) -> (r: Option<usize>)
        requires
            self.wf(),
        ensures
            r matches Some(k) ==> position(self.ids(), id, k as int),
            r is None ==> !self.ids().contains(id),
    {
        let mut k: usize = 0;
        while k < self.ids.len()
            invariant
                k <= self.ids@.len(),
                forall|j: int| 0 <= j < k ==> self.ids@[j] != id,
            decreases self.ids@.len() - k,
        {
            if self.ids[k] == id {
                return Some(k);
            }
            k = k + 1;
        }
        None
    }

    /// Opens a connection of unknown role with a fresh id, counted as
    /// accepted. Absent, and nothing changed, once every id is used.
    pub fn accept(&mut self) -> (r: Option<usize>)
        requires
            old(self).wf(),
        ensures
            final(self).wf(),
            final(self).storage_spec() == old(self).storage_spec(),
            match r {
                Some(id) => {
                    &&& id == old(self).next_id()
                    &&& final(self).next_id() == id + 1
                    &&& final(self).ids() == old(self).ids().push(id)
                    &&& final(self).conns().drop_last() == old(self).conns()
                    &&& final(self).conns().last().inbound() == Seq::<u8>::empty()
                    &&& final(self).conns().last().outbound() == Seq::<u8>::empty()
                    &&& final(self).conns().last().role_spec() == ClientRole::Unknown
                    &&& final(self).stats_spec() == (ServerStats {
                        connections_total: wrap64(old(self).stats_spec().connections_total + 1) as u64,
                        connections_active: wrap64(old(self).stats_spec().connections_active + 1) as u64,
                        ..old(self).stats_spec()
                    })
                },
                None => {
                    &&& old(self).next_id() == usize::MAX
                    &&& final(self).ids() == old(self).ids()
                    &&& final(self).conns() == old(self).conns()
                    &&& final(self).stats_spec() == old(self).stats_spec()
                },
            },
    {
        if self.next_id == usize::MAX {
            return None;
        }
        let id = self.next_id;
        let ghost old_conns = self.conns@;
        self.ids.push(id);
        self.conns.push(Connection::new());
        self.next_id = id + 1;
        self.stats.record_accept();
        assert(self.conns@.drop_last() =~= old_conns);
        Some(id)
    }

    /// Ids of the open connections, in accept order.
    pub fn connection_ids(&self) -> (r: Vec<usize>)
        ensures
            r@ == self.ids(),
    {
        self.ids.clone()
    }

    /// Connection `id`, if it is open.
    pub fn connection(&self, id: usize) -> (r: Option<&Connection>)
        requires
            self.wf(),
        ensures
            r matches Some(c) ==> exists|k: int| position(self.ids(), id, k) && *c == self.conns()[k],
            r is None ==> !self.ids().contains(id),
    {
        match self.find(id) {
            Some(k) => Some(&self.conns[k]),
            None => None,
        }
    }

    /// The counters.
    pub fn stats(&self) -> (r: &ServerStats)
        ensures
            *r == self.stats_spec(),
    {
        &self.stats
    }

    /// Bytes read from connection `id`'s socket: they join its inbound
    /// buffer, and every complete frame is taken out (see
    /// `Connection::process_messages`). Returns the Publish frames to fan
    /// out, in order. Absent, and nothing changed, when `id` is not open or
    /// the bytes do not fit in its inbound buffer.
    pub fn on_read(&mut self, id: usize, data: &[u8]) -> (r: Option<Vec<Vec<u8>>>)
        requires
            old(self).wf(),
        ensures
            final(self).wf(),
            final(self).ids() == old(self).ids(),
            final(self).next_id() == old(self).next_id(),
            match r {
                Some(out) => exists|k: int|
                    {
                        &&& position(old(self).ids(), id, k)
                        &&& #[trigger] old(self).conns()[k].inbound().len() + data@.len() <= READ_BUFFER_SIZE
                        &&& {
                            let c = old(self).conns()[k];
                            let c2 = final(self).conns()[k];
                            let fs = frames_from(c.inbound() + data@, 0);
                            &&& out@.len() == publish_frames(fs).len()
                            &&& forall|i: int| 0 <= i < out@.len() ==> #[trigger] out@[i]@ == publish_frames(fs)[i]
                            &&& c2.inbound() == unframed(c.inbound() + data@)
                            &&& c2.outbound() == c.outbound()
                            &&& c2.role_spec() == role_after(c.role_spec(), fs)
                            &&& final(self).stats_spec() == count_received(old(self).stats_spec(), fs)
                            &&& final(self).storage_spec().capacity() == old(self).storage_spec().capacity()
                            &&& final(self).storage_spec().bytes() == write_all_effect(
                                old(self).storage_spec().bytes(),
                                old(self).storage_spec().capacity(),
                                publish_frames(fs),
                            )
                        }
                        &&& forall|j: int| 0 <= j < old(self).conns().len() && j != k ==> final(self).conns()[j]
                            == old(self).conns()[j]
                    },
                None => final(self).conns() == old(self).conns() && final(self).stats_spec() == old(
                    self,
                ).stats_spec() && final(self).storage_spec() == old(self).storage_spec() && (
                !old(self).ids().contains(id) || exists|
                    k: int,
                |
                    position(old(self).ids(), id, k) && #[trigger] old(self).conns()[k].inbound().len()
                        + data@.len() > READ_BUFFER_SIZE),
            },
    {
        let k = match self.find(id) {
            Some(k) => k,
            None => return None,
        };
        if data.len() > self.conns[k].read_space() {
            assert(position(self.ids(), id, k as int));
            return None;
        }
        let ghost old_conns = self.conns@;
        let conn = &mut self.conns[k];
        conn.fill_read_buffer(data);
        let out = conn.process_messages(&mut self.storage, &mut self.stats);
        proof {
            assert(position(old(self).ids(), id, k as int));
            assert forall|i: int| 0 <= i < self.conns@.len() implies (#[trigger] self.conns@[i]).wf() by {
                if i != k {
                    assert(self.conns@[i] == old_conns[i]);
                }
            }
        }
        Some(out)
    }

    /// Fans `frame` out from `sender` to every other open connection:
    /// each takes it whole or drops it, as `Connection::queue_write`
    /// decides. The sender's own connection is left as it was.
    pub fn fan_out(&mut self, sender: usize, frame: &[u8])
        requires
            old(self).wf(),
        ensures
            final(self).wf(),
            final(self).ids() == old(self).ids(),
            final(self).next_id() == old(self).next_id(),
            final(self).storage_spec() == old(self).storage_spec(),
            final(self).stats_spec() == count_fan_out(
                old(self).stats_spec(),
                old(self).ids(),
                old(self).conns(),
                sender,
                frame@.len(),
                old(self).conns().len() as int,
            ),
            (forall|j: int|
                0 <= j < old(self).conns().len() && old(self).ids()[j] != sender ==> accepts(
                    #[trigger] old(self).conns()[j].outbound().len(),
                    frame@.len(),
                )) ==> final(self).stats_spec().messages_dropped == old(self).stats_spec().messages_dropped,
            forall|k: int|
                0 <= k < old(self).conns().len() ==> {
                    let c = old(self).conns()[k];
                    let c2 = #[trigger] final(self).conns()[k];
                    if old(self).ids()[k] == sender {
                        c2 == c
                    } else {
                        &&& c2.outbound() == if accepts(c.outbound().len(), frame@.len()) {
                            c.outbound() + frame@
                        } else {
                            c.outbound()
                        }
                        &&& c2.inbound() == c.inbound()
                        &&& c2.role_spec() == c.role_spec()
                    }
                },
    {
        let ghost old_conns = self.conns@;
        let mut k: usize = 0;
        while k < self.conns.len()
            invariant
                k <= self.conns@.len(),
                self.conns@.len() == old_conns.len(),
                self.ids == old(self).ids,
                self.next_id == old(self).next_id,
                self.storage == old(self).storage,
                old_conns == old(self).conns@,
                old(self).wf(),
                self.stats == count_fan_out(old(self).stats, self.ids@, old_conns, sender, frame@.len(), k as int),
                forall|j: int| k <= j < old_conns.len() ==> #[trigger] self.conns@[j] == old_conns[j],
                forall|j: int|
                    0 <= j < k ==> {
                        let c = old_conns[j];
                        let c2 = #[trigger] self.conns@[j];
                        if self.ids@[j] == sender {
                            c2 == c
                        } else {
                            &&& c2.outbound() == if accepts(c.outbound().len(), frame@.len()) {
                                c.outbound() + frame@
                            } else {
                                c.outbound()
                            }
                            &&& c2.inbound() == c.inbound()
                            &&& c2.role_spec() == c.role_spec()
                        }
                    },
            decreases old_conns.len() - k,
        {
            if self.ids[k] != sender {
                let conn = &mut self.conns[k];
                deliver(conn, frame, &mut self.stats);
            }
            k = k + 1;
        }
        proof {
            assert forall|i: int| 0 <= i < self.conns@.len() implies (#[trigger] self.conns@[i]).wf() by {
                assert(old_conns[i].wf());
            }
            if forall|j: int|
                0 <= j < old_conns.len() && self.ids@[j] != sender ==> accepts(
                    #[trigger] old_conns[j].outbound().len(),
                    frame@.len(),
                ) {
                lemma_fan_out_no_drop(old(self).stats, self.ids@, old_conns, sender, frame@.len(), old_conns.len() as int);
            }
        }
    }

    /// The bytes pending for connection `id`'s socket, if it is open.
    pub fn pending(&self, id: usize) -> (r: Option<&[u8]>)
        requires
            self.wf(),
        ensures
            r matches Some(b) ==> exists|k: int| position(self.ids(), id, k) && b@ == self.conns()[k].outbound(),
            r is None ==> !self.ids().contains(id),
    {
        match self.find(id) {
            Some(k) => Some(self.conns[k].pending()),
            None => None,
        }
    }

    /// Records that connection `id`'s socket took the first `n` pending
    /// bytes. `false`, and nothing changed, when `id` is not open or fewer
    /// than `n` bytes are pending.
    pub fn flushed(&mut self, id: usize, n: usize) -> (r: bool)
        requires
            old(self).wf(),
        ensures
            final(self).wf(),
            final(self).ids() == old(self).ids(),
            final(self).next_id() == old(self).next_id(),
            final(self).storage_spec() == old(self).storage_spec(),
            final(self).stats_spec() == old(self).stats_spec(),
            r == exists|k: int| #[trigger]
                position(old(self).ids(), id, k) && n <= old(self).conns()[k].outbound().len(),
            r ==> exists|k: int|
                {
                    &&& position(old(self).ids(), id, k)
                    &&& n <= old(self).conns()[k].outbound().len()
                    &&& #[trigger] final(self).conns()[k].outbound() == old(self).conns()[k].outbound().subrange(
                        n as int,
                        old(self).conns()[k].outbound().len() as int,
                    )
                    &&& final(self).conns()[k].inbound() == old(self).conns()[k].inbound()
                    &&& forall|j: int| 0 <= j < old(self).conns().len() && j != k ==> final(self).conns()[j]
                        == old(self).conns()[j]
                },
            !r ==> final(self).conns() == old(self).conns(),
    {
        let k = match self.find(id) {
            Some(k) => k,
            None => {
                proof {
                    assert forall|j: int| #[trigger] position(old(self).ids(), id, j) implies false by {
                        assert(old(self).ids().contains(id));
                    }
                }
                return false;
            },
        };
        if n > self.conns[k].write_pending() {
            proof {
                assert forall|j: int| #[trigger] position(old(self).ids(), id, j) implies j == k by {
                    if j != k {
                        if j < k {
                            assert(self.ids@[j] != self.ids@[k as int]);
                        } else {
                            assert(self.ids@[k as int] != self.ids@[j]);
                        }
                    }
                }
            }
            return false;
        }
        let ghost old_conns = self.conns@;
        let conn = &mut self.conns[k];
        conn.flushed(n);
        proof {
            assert(position(old(self).ids(), id, k as int));
            assert forall|i: int| 0 <= i < self.conns@.len() implies (#[trigger] self.conns@[i]).wf() by {
                if i != k {
                    assert(self.conns@[i] == old_conns[i]);
                }
            }
        }
        true
    }

    /// Closes connection `id`, counted as closed. `false`, and nothing
    /// changed, when it is not open.
    pub fn remove(&mut self, id: usize) -> (r: bool)
        requires
            old(self).wf(),
        ensures
            final(self).wf(),
            final(self).next_id() == old(self).next_id(),
            r == old(self).ids().contains(id),
            r ==> exists|k: int|
                {
                    &&& position(old(self).ids(), id, k)
                    &&& final(self).ids() == old(self).ids().remove(k)
                    &&& final(self).conns() == old(self).conns().remove(k)
                },
            r ==> final(self).stats_spec() == (ServerStats {
                connections_active: if old(self).stats_spec().connections_active > 0 {
                    (old(self).stats_spec().connections_active - 1) as u64
                } else {
                    u64::MAX
                },
                ..old(self).stats_spec()
            }),
            !r ==> final(self).ids() == old(self).ids() && final(self).conns() == old(self).conns()
                && final(self).stats_spec() == old(self).stats_spec(),
            final(self).storage_spec() == old(self).storage_spec(),
    {
        let k = match self.find(id) {
            Some(k) => k,
            None => return false,
        };
        let ghost old_ids = self.ids@;
        let ghost old_conns = self.conns@;
        self.ids.remove(k);
        self.conns.remove(k);
        self.stats.record_close();
        proof {
            assert(position(old_ids, id, k as int));
            assert(old_ids.contains(id));
            assert forall|i: int, j: int| 0 <= i < j < self.ids@.len() implies #[trigger] self.ids@[i]
                != #[trigger] self.ids@[j] by {
                let oi = if i < k { i } else { i + 1 };
                let oj = if j < k { j } else { j + 1 };
                assert(self.ids@[i] == old_ids[oi]);
                assert(self.ids@[j] == old_ids[oj]);
            }
            assert forall|i: int| 0 <= i < self.ids@.len() implies #[trigger] self.ids@[i] < self.next_id by {
                let oi = if i < k { i } else { i + 1 };
                assert(self.ids@[i] == old_ids[oi]);
            }
            assert forall|i: int| 0 <= i < self.conns@.len() implies (#[trigger] self.conns@[i]).wf() by {
                let oi = if i < k { i } else { i + 1 };
                assert(self.conns@[i] == old_conns[oi]);
            }
        }
        true
    }

    /// Counts a socket error met while sending to a peer.
    pub fn record_send_error(&mut self)
        requires
            old(self).wf(),
        ensures
            final(self).wf(),
            final(self).ids() == old(self).ids(),
            final(self).conns() == old(self).conns(),
            final(self).next_id() == old(self).next_id(),
            final(self).storage_spec() == old(self).storage_spec(),
            final(self).stats_spec() == (ServerStats {
                send_errors: wrap64(old(self).stats_spec().send_errors + 1) as u64,
                ..old(self).stats_spec()
            }),
    {
        self.stats.record_error();
    }

    /// Gives the storage back, for flushing or unmapping.
    pub fn into_storage(self) -> (r: MmapStorage)
        ensures
            r == self.storage_spec(),
    {
        self.storage
    }
}

/// What happens to one receiving connection's outbound queue.
pub enum DeliveryEvent {
    /// A frame is offered by the fan-out.
    Offer(Seq<u8>),
    /// The socket takes up to this many pending bytes.
    Flush(nat),
}

/// The frames of a run laid end to end.
pub open spec fn concat(frames: Seq<Seq<u8>>) -> Seq<u8>
    decreases frames.len(),
{
    if frames.len() == 0 {
        Seq::empty()
    } else {
        concat(frames.drop_last()) + frames.last()
    }
}

/// Running events from an empty queue: the bytes still pending, the bytes
/// the socket took, the frames offered, and the frames taken into the
/// queue, under the rules of `queue_write` and `flushed`.
pub open spec fn delivery_run(events: Seq<DeliveryEvent>) -> (Seq<u8>, Seq<u8>, Seq<Seq<u8>>, Seq<Seq<u8>>)
    decreases events.len(),
{
    if events.len() == 0 {
        (Seq::empty(), Seq::empty(), Seq::empty(), Seq::empty())
    } else {
        let (pending, sent, offered, taken) = delivery_run(events.drop_last());
        match events.last() {
            DeliveryEvent::Offer(f) => if accepts(pending.len(), f.len()) {
                (pending + f, sent, offered.push(f), taken.push(f))
            } else {
                (pending, sent, offered.push(f), taken)
            },
            DeliveryEvent::Flush(n) => {
                let k = if n < pending.len() {
                    n as int
                } else {
                    pending.len() as int
                };
                (pending.subrange(k, pending.len() as int), sent + pending.subrange(0, k), offered, taken)
            },
        }
    }
}

/// `a` is `b` with some elements left out: `idx` picks, in increasing
/// order, where each element of `a` stands in `b`.
pub open spec fn picks(a: Seq<Seq<u8>>, b: Seq<Seq<u8>>, idx: Seq<int>) -> bool {
    &&& idx.len() == a.len()
    &&& forall|i: int| 0 <= i < idx.len() ==> 0 <= #[trigger] idx[i] < b.len() && b[idx[i]] == a[i]
    &&& forall|i: int, j: int| 0 <= i < j < idx.len() ==> #[trigger] idx[i] < #[trigger] idx[j]
}

proof fn lemma_delivery_witness(events: Seq<DeliveryEvent>) -> (idx: Seq<int>)
    ensures
        ({
            let (pending, sent, offered, taken) = delivery_run(events);
            &&& sent + pending == concat(taken)
            &&& picks(taken, offered, idx)
        }),
    decreases events.len(),
{
    if events.len() == 0 {
        Seq::empty()
    } else {
        let prev_idx = lemma_delivery_witness(events.drop_last());
        let (pending, sent, offered, taken) = delivery_run(events.drop_last());
        match events.last() {
            DeliveryEvent::Offer(f) => {
                if accepts(pending.len(), f.len()) {
                    let idx = prev_idx.push(offered.len() as int);
                    assert(taken.push(f).drop_last() =~= taken);
                    assert(sent + (pending + f) =~= (sent + pending) + f);
                    assert forall|i: int| 0 <= i < idx.len() implies 0 <= #[trigger] idx[i] < offered.push(f).len()
                        && offered.push(f)[idx[i]] == taken.push(f)[i] by {
                        if i < prev_idx.len() {
                            assert(idx[i] == prev_idx[i]);
                        }
                    }
                    idx
                } else {
                    prev_idx
                }
            },
            DeliveryEvent::Flush(n) => {
                let k = if n < pending.len() {
                    n as int
                } else {
                    pending.len() as int
                };
                assert(sent + pending.subrange(0, k) + pending.subrange(k, pending.len() as int) =~= sent
                    + pending);
                prev_idx
            },
        }
    }
}

/// Delivery order to one receiver: whatever the mix of offers and
/// flushes, the bytes the socket took followed by those still pending are
/// exactly the frames taken into the queue laid end to end, and those
/// frames are the offered frames with some left out, in the order offered.
/// So frames may be dropped but never reordered or duplicated, and each
/// reaches the socket whole.
pub proof fn lemma_delivery_order(events: Seq<DeliveryEvent>)
    ensures
        ({
            let (pending, sent, offered, taken) = delivery_run(events);
            &&& sent + pending == concat(taken)
            &&& exists|idx: Seq<int>| picks(taken, offered, idx)
        }),
{
    let idx = lemma_delivery_witness(events);
    let (pending, sent, offered, taken) = delivery_run(events);
    assert(picks(taken, offered, idx));
}

} // verus!
