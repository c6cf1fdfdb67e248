use hermes::broker::{deliver, Broker};
use hermes::connection::{ClientRole, Connection, MAX_PENDING_BYTES, READ_BUFFER_SIZE};
use hermes::protocol::{Encoder, MessageType, HEADER_SIZE};
use hermes::stats::ServerStats;
use hermes::storage::{MmapStorage, STORAGE_HEADER_SIZE};
use memmap2::MmapMut;

fn storage(capacity: usize) -> MmapStorage {
    MmapStorage::open(MmapMut::map_anon(STORAGE_HEADER_SIZE + capacity).unwrap(), capacity).unwrap()
}

fn frame(msg_type: MessageType, seq: u64, payload: &[u8]) -> Vec<u8> {
    let mut e = Encoder::new(HEADER_SIZE + payload.len());
    e.encode_at(msg_type, seq, payload, 1).unwrap().to_vec()
}

#[test]
fn broker_hands_out_increasing_ids_and_closes() {
    let mut broker = Broker::new(storage(64));
    assert_eq!(broker.accept(), Some(0));
    assert_eq!(broker.accept(), Some(1));
    assert_eq!(broker.accept(), Some(2));
    assert!(broker.remove(1));
    assert!(!broker.remove(1));
    assert_eq!(broker.accept(), Some(3));
    assert_eq!(broker.connection_ids(), vec![0, 2, 3]);
    assert_eq!(broker.stats().connections_total, 4);
    assert_eq!(broker.stats().connections_active, 3);
    assert!(broker.connection(1).is_none());
    assert_eq!(broker.connection(2).unwrap().role(), ClientRole::Unknown);
    assert!(broker.on_read(1, b"x").is_none());
    assert!(broker.pending(1).is_none());
    assert!(!broker.flushed(2, 1));
}

#[test]
fn fan_out_skips_the_sender() {
    let mut broker = Broker::new(storage(4096));
    let a = broker.accept().unwrap();
    let p = broker.accept().unwrap();
    let b = broker.accept().unwrap();
    let f = frame(MessageType::Publish, 1, b"hi");
    let out = broker.on_read(p, &f).unwrap();
    assert_eq!(out, vec![f.clone()]);
    broker.fan_out(p, &out[0]);
    assert_eq!(broker.pending(a).unwrap(), &f[..]);
    assert_eq!(broker.pending(b).unwrap(), &f[..]);
    assert_eq!(broker.pending(p).unwrap(), b"");
    assert_eq!(broker.connection(p).unwrap().role(), ClientRole::Publisher);
    assert!(broker.flushed(a, 2));
    assert_eq!(broker.pending(a).unwrap(), &f[2..]);
    assert_eq!(broker.stats().messages_queued, 2);
    let store = broker.into_storage();
    assert_eq!(store.read(0, f.len()).unwrap(), &f[..]);
}

#[test]
fn broker_refuses_reads_beyond_the_buffer() {
    let mut broker = Broker::new(storage(64));
    let id = broker.accept().unwrap();
    let big = vec![0u8; READ_BUFFER_SIZE + 1];
    assert!(broker.on_read(id, &big).is_none());
    assert_eq!(broker.connection(id).unwrap().read_space(), READ_BUFFER_SIZE);
    assert_eq!(broker.on_read(id, &big[..READ_BUFFER_SIZE]), Some(Vec::new()));
    assert_eq!(broker.connection(id).unwrap().read_space(), 0);
}

#[test]
fn publish_frames_are_collected_persisted_and_counted() {
    let mut conn = Connection::new();
    let mut store = storage(4096);
    let mut stats = ServerStats::new();
    let first = frame(MessageType::Publish, 1, b"one");
    let hb = frame(MessageType::Heartbeat, 2, b"");
    let second = frame(MessageType::Publish, 3, b"three");
    let partial = frame(MessageType::Publish, 4, b"four");
    let mut bytes = first.clone();
    bytes.extend_from_slice(&hb);
    bytes.extend_from_slice(&second);
    bytes.extend_from_slice(&partial[..20]);
    conn.fill_read_buffer(&bytes);

    let out = conn.process_messages(&mut store, &mut stats);
    assert_eq!(out, vec![first.clone(), second.clone()]);
    assert_eq!(conn.role(), ClientRole::Publisher);
    assert_eq!(conn.readable(), &partial[..20]);
    assert_eq!(conn.messages_received(), 3);
    assert_eq!(stats.messages_received, 3);
    assert_eq!(stats.bytes_received, (first.len() + hb.len() + second.len()) as u64);
    assert_eq!(store.read(0, first.len()).unwrap(), &first[..]);
    assert_eq!(store.read(first.len(), second.len()).unwrap(), &second[..]);

    conn.fill_read_buffer(&partial[20..]);
    let out = conn.process_messages(&mut store, &mut stats);
    assert_eq!(out, vec![partial.clone()]);
    assert_eq!(conn.readable(), b"");
}

#[test]
fn subscribe_pins_the_role() {
    let mut conn = Connection::new();
    let mut store = storage(64);
    let mut stats = ServerStats::new();
    conn.fill_read_buffer(&frame(MessageType::Subscribe, 0, b""));
    assert!(conn.process_messages(&mut store, &mut stats).is_empty());
    assert_eq!(conn.role(), ClientRole::Subscriber);

    conn.fill_read_buffer(&frame(MessageType::Publish, 1, b"x"));
    assert_eq!(conn.process_messages(&mut store, &mut stats).len(), 1);
    assert_eq!(conn.role(), ClientRole::Subscriber);
}

#[test]
fn invalid_frame_stays_in_the_buffer() {
    let mut conn = Connection::new();
    let mut store = storage(64);
    let mut stats = ServerStats::new();
    let mut bad = frame(MessageType::Publish, 1, b"payload");
    bad[0] ^= 0xff;
    conn.fill_read_buffer(&bad);
    assert!(conn.process_messages(&mut store, &mut stats).is_empty());
    assert_eq!(conn.readable(), &bad[..]);
    assert_eq!(stats.messages_received, 0);
    assert_eq!(conn.read_space(), READ_BUFFER_SIZE - bad.len());
    conn.consume(5);
    assert_eq!(conn.readable(), &bad[5..]);
    conn.consume(usize::MAX);
    assert_eq!(conn.readable(), b"");
}

#[test]
fn full_storage_does_not_stop_fan_out() {
    let mut conn = Connection::new();
    let mut store = storage(16);
    let mut stats = ServerStats::new();
    let p = frame(MessageType::Publish, 9, b"bigger than sixteen");
    conn.fill_read_buffer(&p);
    assert_eq!(conn.process_messages(&mut store, &mut stats), vec![p]);
}

#[test]
fn slow_receiver_drops_beyond_the_bound() {
    let mut slow = Connection::new();
    let mut fast = Connection::new();
    let mut stats = ServerStats::new();
    let f = vec![7u8; 1000];
    let mut queued_slow = 0;
    for _ in 0..2000 {
        if deliver(&mut slow, &f, &mut stats) {
            queued_slow += 1;
        }
        assert!(deliver(&mut fast, &f, &mut stats));
        let n = fast.write_pending();
        fast.flushed(n);
    }
    assert_eq!(queued_slow, MAX_PENDING_BYTES / 1000);
    assert_eq!(slow.write_pending(), queued_slow * 1000);
    assert_eq!(stats.messages_dropped, (2000 - queued_slow) as u64);
    assert_eq!(stats.messages_queued, (2000 + queued_slow) as u64);
    assert_eq!(stats.bytes_sent, ((2000 + queued_slow) * 1000) as u64);
    assert_eq!(fast.write_pending(), 0);
}

#[test]
fn empty_queue_takes_any_frame() {
    let mut conn = Connection::new();
    let big = vec![1u8; MAX_PENDING_BYTES + 10];
    assert!(conn.queue_write(&big));
    assert!(!conn.queue_write(b"x"));
    conn.flushed(MAX_PENDING_BYTES + 9);
    assert_eq!(conn.pending(), &[1u8][..]);
    assert!(conn.queue_write(b"xy"));
    assert_eq!(conn.pending(), &[1u8, b'x', b'y'][..]);
    conn.flushed(3);
    assert_eq!(conn.write_pending(), 0);
    assert_eq!(conn.messages_sent(), 1);
}

#[test]
fn stats_counters() {
    let mut s = ServerStats::new();
    s.record_accept();
    s.record_accept();
    s.record_close();
    s.record_error();
    assert_eq!(s.connections_total, 2);
    assert_eq!(s.connections_active, 1);
    assert_eq!(s.send_errors, 1);
    s.bytes_received = u64::MAX;
    s.record_received(2);
    assert_eq!(s.bytes_received, 1);
}

#[test]
fn fan_out_reaches_every_other_peer_in_order() {
    let mut broker = Broker::new(storage(1 << 20));
    let sub_a = broker.accept().unwrap();
    let publisher = broker.accept().unwrap();
    let sub_b = broker.accept().unwrap();
    let sub = frame(MessageType::Subscribe, 0, b"");
    broker.on_read(sub_a, &sub).unwrap();
    broker.on_read(sub_b, &sub).unwrap();
    let mut received: Vec<Vec<u8>> = vec![Vec::new(), Vec::new(), Vec::new()];

    let mut wire = Vec::new();
    for seq in 0..1000u64 {
        wire.extend_from_slice(&frame(MessageType::Publish, seq, &[seq as u8; 72]));
    }
    let mut sent = 0;
    while sent < wire.len() {
        let space = broker.connection(publisher).unwrap().read_space();
        let n = space.min(wire.len() - sent).min(5000);
        let frames = broker.on_read(publisher, &wire[sent..sent + n]).unwrap();
        sent += n;
        for f in &frames {
            broker.fan_out(publisher, f);
        }
        for id in broker.connection_ids() {
            let pending = broker.pending(id).unwrap().to_vec();
            received[id].extend_from_slice(&pending);
            assert!(broker.flushed(id, pending.len()));
        }
    }

    assert!(received[publisher].is_empty());
    for id in [sub_a, sub_b] {
        assert_eq!(broker.connection(id).unwrap().role(), ClientRole::Subscriber);
        let mut decoder = hermes::protocol::Decoder::new(&received[id]);
        let mut expected = 0u64;
        while let Some((h, p)) = decoder.next() {
            assert_eq!(h.sequence, expected);
            assert_eq!(p, &[expected as u8; 72][..]);
            expected += 1;
        }
        assert_eq!(expected, 1000);
        assert_eq!(decoder.remaining(), 0);
    }
    assert_eq!(broker.stats().messages_received, 1002);
    assert_eq!(broker.stats().messages_queued, 2000);
    assert_eq!(broker.stats().messages_dropped, 0);
}
