//! One channel: numbering, sending and receiving.

use bytes::Bytes;
use vortice::channel::Channel;
use vortice::error::Error;
use vortice::frame::{DataFrame, FrameKind, SeqFrame, MAX_CHANNEL_NO, MAX_MSG_NO};
use vortice::window::{SeqNo, MAX_WINDOW_SIZE};

fn payload(len: usize) -> Bytes {
    Bytes::from(vec![b'x'; len])
}

/// A channel that has received everything up to a sequence number.
fn channel_at(start: SeqNo) -> Channel {
    let chunk: u32 = 16 * 1024 * 1024;
    let mut channel = Channel::with_window_size(1, "urn:a", chunk);
    let octets = payload(chunk as usize);
    let mut msgno = 0;
    while channel.expected_seqno() != start {
        let here = channel.expected_seqno();
        let len = start.distance_from(here).min(chunk);
        let frame =
            DataFrame::new(FrameKind::Msg, 1, msgno, here.get(), octets.slice(..len as usize))
                .unwrap();
        channel.accept(&frame).unwrap().unwrap();
        channel.replied(msgno);
        channel.consume(len).unwrap();
        msgno += 1;
    }
    channel
}

fn channel() -> Channel {
    Channel::with_window_size(1, "urn:example:echo", 4096)
}


#[test]
fn allocates_message_numbers_in_order() {
    let mut channel = channel();
    assert_eq!(channel.allocate_msgno().unwrap(), 0);
    assert_eq!(channel.allocate_msgno().unwrap(), 1);
    assert_eq!(channel.allocate_msgno().unwrap(), 2);
}

#[test]
fn reuses_a_message_number_once_its_exchange_finishes() {
    let mut channel = channel();
    assert_eq!(channel.allocate_msgno().unwrap(), 0);
    channel.release_msgno(0);
    channel.reserve_msgno(0).unwrap();
    assert_eq!(channel.outstanding(), [0]);
}

#[test]
fn refuses_a_message_number_still_in_flight() {
    let mut channel = channel();
    channel.reserve_msgno(4).unwrap();
    assert_eq!(
        channel.reserve_msgno(4).unwrap_err(),
        Error::MsgNoInUse { msgno: 4 }
    );
}

#[test]
fn skips_numbers_that_are_in_flight_when_allocating() {
    let mut channel = channel();
    channel.reserve_msgno(1).unwrap();
    channel.reserve_msgno(2).unwrap();
    // next_msgno now points past 2; allocation must not collide with either.
    let allocated = channel.allocate_msgno().unwrap();
    assert_eq!(allocated, 3);
}

#[test]
fn wraps_message_numbers_past_the_maximum() {
    let mut channel = channel();
    for msgno in [MAX_MSG_NO - 1, MAX_MSG_NO] {
        channel.reserve_msgno(msgno).unwrap();
        channel.release_msgno(msgno);
    }
    assert_eq!(channel.allocate_msgno().unwrap(), 0);
    assert_eq!(channel.allocate_msgno().unwrap(), 1);
}

#[test]
fn accepts_the_descending_sequence() {
    let mut channel = channel();
    for msgno in [7, 5, 3, 1] {
        channel.reserve_msgno(msgno).unwrap();
    }
    assert_eq!(channel.outstanding(), [1, 3, 5, 7]);
}

#[test]
fn rejects_a_message_number_beyond_the_maximum() {
    let mut channel = channel();
    assert_eq!(
        channel.reserve_msgno(MAX_MSG_NO + 1).unwrap_err(),
        Error::ValueOutOfRange {
            field: "msgno",
            max: MAX_MSG_NO
        }
    );
}

// ---- emitting ----

#[test]
fn emits_a_short_message_as_one_frame() {
    let mut channel = channel();
    let emitted = channel
        .emit(FrameKind::Msg, 0, None, payload(10), 4096)
        .unwrap();
    assert!(emitted.is_complete());
    assert_eq!(emitted.frames.len(), 1);
    assert!(!emitted.frames[0].more());
    assert_eq!(channel.next_seqno(), SeqNo::new(10));
}

#[test]
fn emits_an_empty_frame_even_with_no_window_left() {
    let mut channel = channel();
    channel
        .emit(FrameKind::Msg, 0, None, payload(4096), 4096)
        .unwrap();
    assert!(channel.is_stalled());
    let emitted = channel
        .emit(FrameKind::Rpy, 0, None, Bytes::new(), 4096)
        .unwrap();
    assert_eq!(emitted.frames.len(), 1);
    assert_eq!(emitted.frames[0].size(), 0);
}

#[test]
fn fragments_a_message_that_exceeds_the_frame_size() {
    let mut channel = channel();
    let emitted = channel
        .emit(FrameKind::Msg, 0, None, payload(1000), 300)
        .unwrap();
    assert!(emitted.is_complete());
    assert_eq!(emitted.frames.len(), 4);
    let sizes: Vec<_> = emitted.frames.iter().map(DataFrame::size).collect();
    assert_eq!(sizes, [300, 300, 300, 100]);
    let more: Vec<_> = emitted.frames.iter().map(DataFrame::more).collect();
    assert_eq!(more, [true, true, true, false]);
}

#[test]
fn stops_at_the_window_and_hands_back_the_rest() {
    let mut channel = Channel::with_window_size(1, "urn:a", 1024);
    let emitted = channel
        .emit(FrameKind::Msg, 0, None, payload(4096), 4096)
        .unwrap();
    assert!(!emitted.is_complete());
    assert_eq!(emitted.remaining.len(), 3072);
    assert_eq!(emitted.frames.len(), 1);
    // The message is unfinished, so the frame that did go out says so.
    assert!(emitted.frames[0].more());
    assert!(channel.is_stalled());
}

#[test]
fn resumes_once_a_seq_frame_reopens_the_window() {
    let mut channel = Channel::with_window_size(1, "urn:a", 1024);
    let first = channel
        .emit(FrameKind::Msg, 0, None, payload(2048), 4096)
        .unwrap();
    assert_eq!(
        channel.emit(FrameKind::Msg, 0, None, first.remaining.clone(), 4096),
        Err(Error::ChannelStalled)
    );

    channel.apply_seq(&SeqFrame::new(1, 1024, 4096).unwrap());
    let second = channel
        .emit(FrameKind::Msg, 0, None, first.remaining, 4096)
        .unwrap();
    assert!(second.is_complete());
    assert!(!second.frames.last().unwrap().more());
    assert_eq!(channel.next_seqno(), SeqNo::new(2048));
}

#[test]
fn refuses_an_ans_without_an_answer_number() {
    let mut channel = channel();
    assert_eq!(
        channel.emit(FrameKind::Ans, 0, None, payload(1), 4096),
        Err(Error::MissingField { field: "ansno" })
    );
    assert_eq!(
        channel.emit(FrameKind::Rpy, 0, Some(0), payload(1), 4096),
        Err(Error::MissingField { field: "ansno" })
    );
}

#[test]
fn numbers_answers_from_zero_for_each_message() {
    let mut channel = channel();
    assert_eq!(channel.allocate_ansno(3), 0);
    assert_eq!(channel.allocate_ansno(3), 1);
    assert_eq!(channel.allocate_ansno(4), 0);
    channel.finish_answers(3);
    assert_eq!(channel.allocate_ansno(3), 0);
}

// ---- accepting ----

#[test]
fn accepts_a_complete_frame_as_a_whole_message() {
    let mut channel = channel();
    let frame = DataFrame::new(FrameKind::Msg, 1, 0, 0, payload(5)).unwrap();
    let message = channel.accept(&frame).unwrap().unwrap();
    assert_eq!(message.kind, FrameKind::Msg);
    assert_eq!(message.payload.len(), 5);
    assert_eq!(channel.expected_seqno(), SeqNo::new(5));
    assert_eq!(channel.awaiting_reply(), [0]);
}

#[test]
fn joins_continuation_frames_into_one_message() {
    let mut channel = channel();
    let first = DataFrame::new(FrameKind::Msg, 1, 0, 0, Bytes::from_static(b"hello "))
        .unwrap()
        .with_more(true);
    let second = DataFrame::new(FrameKind::Msg, 1, 0, 6, Bytes::from_static(b"world")).unwrap();

    assert!(channel.accept(&first).unwrap().is_none());
    assert!(channel.has_partial_message());
    let message = channel.accept(&second).unwrap().unwrap();
    assert_eq!(&message.payload[..], b"hello world");
    assert!(!channel.has_partial_message());
}

#[test]
fn rejects_a_different_message_arriving_mid_reassembly() {
    let mut channel = channel();
    let first = DataFrame::new(FrameKind::Msg, 1, 0, 0, payload(4))
        .unwrap()
        .with_more(true);
    let other = DataFrame::new(FrameKind::Msg, 1, 1, 4, payload(4)).unwrap();
    channel.accept(&first).unwrap();
    assert_eq!(
        channel.accept(&other).unwrap_err(),
        Error::InterleavedFragment
    );
}

#[test]
fn rejects_a_gap_in_the_octet_stream() {
    let mut channel = channel();
    let frame = DataFrame::new(FrameKind::Msg, 1, 0, 8, payload(4)).unwrap();
    assert_eq!(
        channel.accept(&frame).unwrap_err(),
        Error::UnexpectedSeqNo {
            found: 8,
            expected: 0
        }
    );
}

#[test]
fn rejects_a_frame_that_overruns_the_advertised_window() {
    let mut channel = Channel::with_window_size(1, "urn:a", 16);
    let frame = DataFrame::new(FrameKind::Msg, 1, 0, 0, payload(17)).unwrap();
    assert_eq!(
        channel.accept(&frame).unwrap_err(),
        Error::OutsideWindow {
            seqno: 0,
            len: 17,
            limit: 16
        }
    );
}

#[test]
fn consuming_payload_advertises_a_fresh_window() {
    let mut channel = Channel::with_window_size(1, "urn:a", 4096);
    let frame = DataFrame::new(FrameKind::Msg, 1, 0, 0, payload(1000)).unwrap();
    channel.accept(&frame).unwrap();
    let seq = channel.consume(1000).unwrap();
    assert_eq!((seq.channel(), seq.ackno(), seq.window()), (1, 1000, 4096));
}

/// Whatever a header can carry, a channel can be opened with and reopens its window on; what is
/// larger is refused once there is a frame to build.
#[test]
fn a_channel_opened_within_the_limits_reopens_its_window() {
    let mut channel = Channel::with_window_size(MAX_CHANNEL_NO, "urn:a", MAX_WINDOW_SIZE);
    for (octets, ackno) in [(0, 0), (7, 7), (u32::MAX, 6)] {
        let seq = channel.consume(octets).unwrap();
        assert_eq!(
            (seq.channel(), seq.ackno(), seq.window()),
            (MAX_CHANNEL_NO, ackno, MAX_WINDOW_SIZE)
        );
    }

    let mut numbered = Channel::new(MAX_CHANNEL_NO + 1, "urn:a");
    let refused = Error::ValueOutOfRange {
        field: "channel",
        max: MAX_CHANNEL_NO,
    };
    assert_eq!(numbered.consume(1), Err(refused.clone()));
    assert_eq!(
        numbered.emit(FrameKind::Msg, 0, None, payload(1), 4096).err(),
        Some(refused)
    );
    let mut wide = Channel::with_window_size(1, "urn:a", MAX_WINDOW_SIZE + 1);
    assert_eq!(
        wide.consume(1),
        Err(Error::ValueOutOfRange {
            field: "window",
            max: MAX_WINDOW_SIZE,
        })
    );
}

#[test]
fn tracks_answers_and_their_terminator() {
    let mut channel = channel();
    let ans = DataFrame::new_ans(1, 0, 0, 0, payload(3)).unwrap();
    let nul = DataFrame::new(FrameKind::Nul, 1, 0, 3, Bytes::new()).unwrap();

    let first = channel.accept(&ans).unwrap().unwrap();
    assert_eq!(first.ansno, Some(0));
    let last = channel.accept(&nul).unwrap().unwrap();
    assert_eq!(last.kind, FrameKind::Nul);
    assert_eq!(last.ansno, None);
}

#[test]
fn a_whole_message_survives_the_four_gigabyte_boundary() {
    let start = SeqNo::new(u32::MAX - 1000);
    let mut channel = channel_at(start);
    channel.set_recv_window_size(4096);
    assert_eq!(channel.recv_window().base(), start);
    assert_eq!(channel.recv_window().size(), 4096);

    let frame = DataFrame::new(FrameKind::Msg, 1, 0, start.get(), payload(2000)).unwrap();
    channel.accept(&frame).unwrap().unwrap();
    assert_eq!(channel.expected_seqno(), start.advance(2000));
    assert_eq!(channel.expected_seqno(), SeqNo::new(999));
}

/// What one end emits, the other puts together again, whatever the frame size.
#[test]
fn emitted_messages_are_reassembled() {
    let octets: Vec<u8> = (0..4000u32).map(|i| (i % 251) as u8).collect();
    for max_frame_size in [1, 7, 300, 4000, 4096] {
        let mut sender = channel();
        let mut receiver = channel();
        let emitted = sender
            .emit(FrameKind::Msg, 5, None, Bytes::from(octets.clone()), max_frame_size)
            .unwrap();
        assert!(emitted.is_complete());
        let last = emitted.frames.len() - 1;
        for (index, frame) in emitted.frames.iter().enumerate() {
            let message = receiver.accept(frame).unwrap();
            if index < last {
                assert!(message.is_none());
            } else {
                let message = message.unwrap();
                assert_eq!(message.kind, FrameKind::Msg);
                assert_eq!(message.msgno, 5);
                assert_eq!(&message.payload[..], &octets[..]);
            }
        }
        assert_eq!(receiver.expected_seqno(), sender.next_seqno());
    }
}

#[test]
fn a_reply_takes_its_message_off_the_list() {
    let mut channel = channel();
    let frame = DataFrame::new(FrameKind::Msg, 1, 3, 0, payload(1)).unwrap();
    channel.accept(&frame).unwrap();
    assert_eq!(channel.awaiting_reply(), [3]);
    channel.replied(3);
    assert!(channel.awaiting_reply().is_empty());
}

#[test]
fn describes_itself() {
    let channel = channel();
    assert_eq!(channel.number(), 1);
    assert_eq!(channel.profile(), "urn:example:echo");
    assert_eq!(channel.writable(), 4096);
    assert_eq!(channel.send_window().size(), 4096);
    assert_eq!(channel.recv_window().base(), SeqNo::zero());
    assert_eq!(Channel::new(2, "urn:b").recv_window().size(), 4096);
}
