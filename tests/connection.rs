use mqtt_async::codec::{ConnAck, NOT_AUTHORIZED};
use mqtt_async::reader::{ReadError, ReadStep};
use mqtt_async::session::WriteStep;
use mqtt_async::{BufferPool, Session};

const CONNECT: [u8; 17] = [0x10, 15, 0, 4, b'M', b'Q', b'T', b'T', 4, 0x02, 0, 60, 0, 3, b'a', b'b', b'c'];

fn refusal() -> ConnAck {
    ConnAck { session_present: false, return_code: NOT_AUTHORIZED }
}

#[test]
fn connect_queues_exactly_one_refusal() {
    let mut session = Session::new(BufferPool::new());
    let mut reader = session.accept(5);
    assert!(session.is_connected(5));
    assert_eq!(reader.poll(&mut session), ReadStep::NeedBytes);
    assert_eq!(reader.fill(&CONNECT), Ok(()));
    assert_eq!(reader.poll(&mut session), ReadStep::NeedBytes);
    assert_eq!(session.queued(5), vec![refusal()]);
}

#[test]
fn connect_split_across_reads_is_decoded_once() {
    let mut session = Session::new(BufferPool::new());
    let mut reader = session.accept(6);
    assert_eq!(reader.poll(&mut session), ReadStep::NeedBytes);
    for (i, byte) in CONNECT.iter().enumerate() {
        assert_eq!(reader.fill(&[*byte]), Ok(()));
        assert_eq!(reader.poll(&mut session), ReadStep::NeedBytes);
        let expected = if i + 1 == CONNECT.len() { 1 } else { 0 };
        assert_eq!(session.queued(6).len(), expected);
    }
}

#[test]
fn packets_in_one_read_are_dispatched_in_order() {
    let mut session = Session::new(BufferPool::new());
    let mut reader = session.accept(7);
    assert_eq!(reader.poll(&mut session), ReadStep::NeedBytes);
    let mut bytes = CONNECT.to_vec();
    bytes.extend([0xC0, 0x00]);
    bytes.extend(CONNECT);
    bytes.extend(&CONNECT[..5]);
    assert_eq!(reader.fill(&bytes), Ok(()));
    assert_eq!(reader.poll(&mut session), ReadStep::NeedBytes);
    assert_eq!(session.queued(7), vec![refusal(), refusal()]);
    assert_eq!(reader.fill(&CONNECT[5..]), Ok(()));
    assert_eq!(reader.poll(&mut session), ReadStep::NeedBytes);
    assert_eq!(session.queued(7).len(), 3);
}

#[test]
fn eof_tears_down_despite_queued_connack() {
    let mut session = Session::new(BufferPool::new());
    let mut reader = session.accept(8);
    assert_eq!(reader.poll(&mut session), ReadStep::NeedBytes);
    assert_eq!(reader.fill(&CONNECT), Ok(()));
    assert_eq!(reader.poll(&mut session), ReadStep::NeedBytes);
    assert_eq!(session.queued(8).len(), 1);
    assert_eq!(reader.fill(&[]), Err(ReadError::UnexpectedEof));
    reader.close(&mut session);
    session.disconnect(8);
    assert!(!session.is_connected(8));
    assert_eq!(session.idle_buffers(), 128);
}

#[test]
fn malformed_length_fails_the_connection() {
    let mut session = Session::new(BufferPool::new());
    let mut reader = session.accept(9);
    assert_eq!(reader.poll(&mut session), ReadStep::NeedBytes);
    assert_eq!(reader.fill(&[0x30, 0xFF, 0xFF, 0xFF, 0xFF, 0x01]), Ok(()));
    assert_eq!(reader.poll(&mut session), ReadStep::Failed(ReadError::Malformed));
}

#[test]
fn rejected_packet_fails_the_connection() {
    let mut session = Session::new(BufferPool::new());
    let mut reader = session.accept(10);
    assert_eq!(reader.poll(&mut session), ReadStep::NeedBytes);
    assert_eq!(reader.fill(&[0x36, 0x02, 0x00, 0x01]), Ok(()));
    assert_eq!(reader.poll(&mut session), ReadStep::Failed(ReadError::Malformed));
    assert_eq!(session.queued(10).len(), 0);
}

#[test]
fn partial_write_is_resumed_without_loss_or_duplication() {
    let mut session = Session::new(BufferPool::new());
    let mut reader = session.accept(11);
    assert_eq!(reader.poll(&mut session), ReadStep::NeedBytes);
    assert_eq!(reader.fill(&CONNECT), Ok(()));
    assert_eq!(reader.poll(&mut session), ReadStep::NeedBytes);
    assert_eq!(session.idle_buffers(), 127);
    assert_eq!(session.poll_write(11), WriteStep::Write(vec![0x20, 0x02, 0x00, 0x05]));
    assert_eq!(session.idle_buffers(), 126);
    session.wrote(11, 1);
    assert_eq!(session.poll_write(11), WriteStep::Write(vec![0x02, 0x00, 0x05]));
    assert_eq!(session.idle_buffers(), 126);
    session.wrote(11, 3);
    assert_eq!(session.poll_write(11), WriteStep::Done);
    assert_eq!(session.idle_buffers(), 127);
    assert_eq!(session.queued(11).len(), 0);
}

#[test]
fn outbound_packets_leave_in_enqueue_order() {
    let mut session = Session::new(BufferPool::new());
    let mut reader = session.accept(12);
    assert_eq!(reader.poll(&mut session), ReadStep::NeedBytes);
    let mut bytes = CONNECT.to_vec();
    bytes.extend(CONNECT);
    assert_eq!(reader.fill(&bytes), Ok(()));
    assert_eq!(reader.poll(&mut session), ReadStep::NeedBytes);
    let mut sent: Vec<u8> = Vec::new();
    loop {
        match session.poll_write(12) {
            WriteStep::Write(b) => {
                sent.extend(&b[..2]);
                session.wrote(12, 2);
            },
            WriteStep::Done => break,
            WriteStep::Suspended => panic!("pool exhausted"),
        }
    }
    assert_eq!(sent, vec![0x20, 0x02, 0x00, 0x05, 0x20, 0x02, 0x00, 0x05]);
}

#[test]
fn write_path_suspends_when_pool_is_exhausted() {
    let mut session = Session::new(BufferPool::new());
    let mut readers = Vec::new();
    for fd in 100..228 {
        let mut r = session.accept(fd);
        assert_eq!(r.poll(&mut session), ReadStep::NeedBytes);
        readers.push(r);
    }
    assert_eq!(session.idle_buffers(), 0);
    let mut reader = session.accept(13);
    assert_eq!(reader.poll(&mut session), ReadStep::Suspended);
    session.recv(13, mqtt_async::codec::Packet::Connect);
    assert_eq!(session.poll_write(13), WriteStep::Suspended);
    assert_eq!(session.queued(13).len(), 1);
    readers.pop().unwrap().close(&mut session);
    assert_eq!(session.take_wakes(), vec![13]);
    assert_eq!(session.take_wakes(), Vec::<i32>::new());
}

#[test]
fn idle_connection_has_nothing_to_write() {
    let mut session = Session::new(BufferPool::new());
    let _reader = session.accept(14);
    assert_eq!(session.poll_write(14), WriteStep::Done);
    assert_eq!(session.idle_buffers(), 128);
}

#[test]
fn disconnect_returns_the_buffer_in_flight() {
    let mut session = Session::new(BufferPool::new());
    let _reader = session.accept(15);
    session.recv(15, mqtt_async::codec::Packet::Connect);
    assert_eq!(session.poll_write(15), WriteStep::Write(vec![0x20, 0x02, 0x00, 0x05]));
    assert_eq!(session.idle_buffers(), 127);
    session.disconnect(15);
    assert!(!session.is_connected(15));
    assert_eq!(session.idle_buffers(), 128);
}

#[test]
fn other_packets_get_no_response() {
    let mut session = Session::new(BufferPool::new());
    let _reader = session.accept(16);
    session.recv(16, mqtt_async::codec::Packet::PingReq);
    session.recv(16, mqtt_async::codec::Packet::Other);
    assert_eq!(session.queued(16).len(), 0);
    assert_eq!(session.poll_write(16), WriteStep::Done);
}

#[test]
fn suspended_reader_resumes_after_release() {
    let mut session = Session::new(BufferPool::new());
    let mut readers = Vec::new();
    for fd in 300..428 {
        let mut r = session.accept(fd);
        assert_eq!(r.poll(&mut session), ReadStep::NeedBytes);
        readers.push(r);
    }
    let mut reader = session.accept(17);
    assert_eq!(reader.poll(&mut session), ReadStep::Suspended);
    assert!(!reader.holds_buffer());
    readers.pop().unwrap().close(&mut session);
    assert_eq!(session.take_wakes(), vec![17]);
    assert_eq!(reader.poll(&mut session), ReadStep::NeedBytes);
    assert!(reader.holds_buffer());
}
