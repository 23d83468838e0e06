//! Messages between two sessions: pacing, order, and what a fault leaves behind.

use bytes::{Bytes, BytesMut};
use vortice::channel::Message;
use vortice::error::Error;
use vortice::frame::{DataFrame, FrameKind};
use vortice::management::Profile;
use vortice::session::{Config, Event, Role, Session, State};

const ECHO: &str = "urn:echo";

fn messages(session: &mut Session) -> Vec<(u32, Message)> {
    let mut found = Vec::new();
    while let Some(event) = session.poll_event() {
        if let Event::MessageReceived { channel, message } = event {
            found.push((channel, message));
        }
    }
    found
}

/// Moves octets both ways until neither side has anything more to say.
fn pump(a: &mut Session, b: &mut Session) {
    let mut quiet = false;
    while !quiet {
        quiet = true;
        if let Some(octets) = a.poll_transmit() {
            b.handle_input(&octets).unwrap();
            quiet = false;
        }
        if let Some(octets) = b.poll_transmit() {
            a.handle_input(&octets).unwrap();
            quiet = false;
        }
    }
}

/// Two sessions that have exchanged greetings, with as many channels open as asked for.
fn sessions(window: u32, frame: u32, channels: usize) -> (Session, Session) {
    let config = |role: Role| {
        Config::new(role)
            .with_profile(ECHO)
            .with_window_size(window)
            .with_max_frame_size(frame)
    };
    let mut initiator = Session::new(config(Role::Initiator));
    let mut listener = Session::new(config(Role::Listener));
    pump(&mut initiator, &mut listener);
    for _ in 0..channels {
        initiator.start_channel(Profile::new(ECHO)).unwrap();
        pump(&mut initiator, &mut listener);
        while let Some(event) = listener.poll_event() {
            if let Event::StartRequested { channel, msgno, .. } = event {
                listener
                    .accept_start(channel, msgno, Profile::new(ECHO))
                    .unwrap();
            }
        }
        pump(&mut initiator, &mut listener);
        while initiator.poll_event().is_some() {}
    }
    (initiator, listener)
}

fn payloads(found: &[(u32, Message)]) -> Vec<Vec<u8>> {
    found
        .iter()
        .map(|(_, message)| message.payload.to_vec())
        .collect()
}

#[test]
fn queued_messages_arrive_whole_once_and_in_order() {
    for frame in [128, 512, 4096] {
        let (mut initiator, mut listener) = sessions(1024, frame, 1);
        let mut sent = Vec::new();
        for i in 0..6u8 {
            let payload = vec![i; usize::from(i) * 700];
            initiator.send_msg(1, Bytes::from(payload.clone())).unwrap();
            sent.push(payload);
        }
        pump(&mut initiator, &mut listener);
        let found = messages(&mut listener);
        assert_eq!(payloads(&found), sent);
        let numbers: Vec<u32> = found.iter().map(|(_, message)| message.msgno).collect();
        assert_eq!(numbers, [0, 1, 2, 3, 4, 5]);
    }
}

#[test]
fn a_sender_waits_for_the_window_and_goes_on_once_it_is_acknowledged() {
    let (mut initiator, mut listener) = sessions(1024, 4096, 1);
    initiator.send_msg(1, Bytes::from(vec![b'x'; 1500])).unwrap();
    assert!(initiator.channel(1).unwrap().is_stalled());

    let first = initiator.poll_transmit().unwrap();
    listener.handle_input(&first).unwrap();
    assert!(messages(&mut listener).is_empty());
    assert!(listener.channel(1).unwrap().has_partial_message());

    let acknowledgement = listener.poll_transmit().unwrap();
    assert_eq!(&acknowledgement[..], b"SEQ 1 1024 1024\r\n");
    initiator.handle_input(&acknowledgement).unwrap();
    assert_eq!(initiator.channel(1).unwrap().writable(), 1024 - 476);

    pump(&mut initiator, &mut listener);
    assert_eq!(payloads(&messages(&mut listener)), [vec![b'x'; 1500]]);
}

#[test]
fn small_messages_are_not_acknowledged_one_by_one() {
    let (mut initiator, mut listener) = sessions(1024, 4096, 1);
    initiator.send_msg(1, Bytes::from(vec![b'x'; 511])).unwrap();
    listener
        .handle_input(&initiator.poll_transmit().unwrap())
        .unwrap();
    assert!(listener.poll_transmit().is_none());

    initiator.send_msg(1, Bytes::from(vec![b'x'; 1])).unwrap();
    listener
        .handle_input(&initiator.poll_transmit().unwrap())
        .unwrap();
    assert_eq!(
        &listener.poll_transmit().unwrap()[..],
        b"SEQ 1 512 1024\r\n"
    );
}

#[test]
fn input_may_be_cut_anywhere() {
    let (mut initiator, _) = sessions(1024, 100, 1);
    initiator.send_msg(1, Bytes::from(vec![b'y'; 250])).unwrap();
    let wire = initiator.poll_transmit().unwrap();
    for cut in 0..=wire.len() {
        let (_, mut listener) = sessions(1024, 100, 1);
        listener.handle_input(&wire[..cut]).unwrap();
        listener.handle_input(&wire[cut..]).unwrap();
        assert_eq!(payloads(&messages(&mut listener)), [vec![b'y'; 250]]);
        assert_eq!(listener.buffered_input(), 0);
    }
}

#[test]
fn what_came_before_a_fault_can_still_be_polled() {
    let (mut initiator, mut listener) = sessions(1024, 4096, 1);
    initiator.send_msg(1, Bytes::from(vec![b'z'; 600])).unwrap();
    let mut wire = BytesMut::from(&initiator.poll_transmit().unwrap()[..]);
    wire.extend_from_slice(b"XYZ 1 1 . 600 0\r\nEND\r\n");
    assert_eq!(
        listener.handle_input(&wire).unwrap_err(),
        Error::UnknownFrameType
    );
    assert_eq!(payloads(&messages(&mut listener)), [vec![b'z'; 600]]);
    assert_eq!(
        &listener.poll_transmit().unwrap()[..],
        b"SEQ 1 600 1024\r\n"
    );
}

#[test]
fn replies_leave_in_the_order_the_messages_arrived() {
    let (mut initiator, mut listener) = sessions(4096, 4096, 1);
    for payload in [&b"a"[..], b"b", b"c"] {
        initiator.send_msg(1, Bytes::copy_from_slice(payload)).unwrap();
    }
    pump(&mut initiator, &mut listener);
    assert_eq!(messages(&mut listener).len(), 3);

    listener
        .send(1, FrameKind::Rpy, 2, None, Bytes::from_static(b"C"))
        .unwrap();
    listener
        .send(1, FrameKind::Error, 1, None, Bytes::from_static(b"B"))
        .unwrap();
    assert!(listener.poll_transmit().is_none());

    listener
        .send(1, FrameKind::Rpy, 0, None, Bytes::from_static(b"A"))
        .unwrap();
    pump(&mut initiator, &mut listener);
    let found = messages(&mut initiator);
    assert_eq!(payloads(&found), [b"A", b"B", b"C"]);
    let kinds: Vec<FrameKind> = found.iter().map(|(_, message)| message.kind).collect();
    assert_eq!(kinds, [FrameKind::Rpy, FrameKind::Error, FrameKind::Rpy]);
}

/// Whatever the order of the replies, none is refused, and after each of them exactly those have
/// left that wait for no other.
#[test]
fn replies_in_any_order_leave_in_arrival_order() {
    let replies: [&'static [u8]; 3] = [&[1; 1200], b"", b"third"];
    for turns in [[0, 1, 2], [0, 2, 1], [1, 0, 2], [1, 2, 0], [2, 0, 1], [2, 1, 0]] {
        let (mut initiator, mut listener) = sessions(4096, 512, 1);
        for _ in 0..replies.len() {
            initiator.send_msg(1, Bytes::from_static(b"?")).unwrap();
        }
        pump(&mut initiator, &mut listener);
        assert_eq!(messages(&mut listener).len(), replies.len());

        let mut found: Vec<Vec<u8>> = Vec::new();
        for (done, turn) in turns.iter().enumerate() {
            let payload = Bytes::from_static(replies[*turn]);
            let answer = listener.send(1, FrameKind::Rpy, *turn as u32, None, payload);
            assert_eq!(answer, Ok(()));
            pump(&mut initiator, &mut listener);
            found.extend(payloads(&messages(&mut initiator)));
            let served = (0..replies.len())
                .take_while(|i| turns[..=done].contains(i))
                .count();
            assert_eq!(found, replies[..served], "{turns:?} after {done}");
        }
        assert_eq!(found.len(), replies.len());
    }
}

#[test]
fn an_early_answer_sequence_is_held_back_whole() {
    let (mut initiator, mut listener) = sessions(4096, 4096, 1);
    initiator.send_msg(1, Bytes::from_static(b"first")).unwrap();
    initiator.send_msg(1, Bytes::from_static(b"second")).unwrap();
    pump(&mut initiator, &mut listener);

    for (ansno, answer) in [(0, &b"one"[..]), (1, b"two")] {
        listener
            .send(
                1,
                FrameKind::Ans,
                1,
                Some(ansno),
                Bytes::copy_from_slice(answer),
            )
            .unwrap();
    }
    listener.send(1, FrameKind::Nul, 1, None, Bytes::new()).unwrap();
    assert!(listener.poll_transmit().is_none());

    listener
        .send(1, FrameKind::Rpy, 0, None, Bytes::from_static(b"zero"))
        .unwrap();
    pump(&mut initiator, &mut listener);
    let found: Vec<(FrameKind, u32, Option<u32>)> = messages(&mut initiator)
        .into_iter()
        .map(|(_, message)| (message.kind, message.msgno, message.ansno))
        .collect();
    assert_eq!(
        found,
        [
            (FrameKind::Rpy, 0, None),
            (FrameKind::Ans, 1, Some(0)),
            (FrameKind::Ans, 1, Some(1)),
            (FrameKind::Nul, 1, None),
        ]
    );
}

#[test]
fn an_answer_and_nothing_else_takes_an_answer_number() {
    let (mut initiator, _) = sessions(4096, 4096, 1);
    assert_eq!(
        initiator
            .send(1, FrameKind::Ans, 0, None, Bytes::from_static(b"x"))
            .unwrap_err(),
        Error::MissingField { field: "ansno" }
    );
    assert_eq!(
        initiator
            .send(9, FrameKind::Ans, 0, None, Bytes::from_static(b"x"))
            .unwrap_err(),
        Error::NoSuchChannel { channel: 9 }
    );
    // Nothing was queued, so the channel goes on.
    initiator.send_msg(1, Bytes::from_static(b"y")).unwrap();
    assert!(initiator.poll_transmit().is_some());
    assert_eq!(
        initiator
            .send(1, FrameKind::Msg, 0, Some(3), Bytes::from_static(b"x"))
            .unwrap_err(),
        Error::MissingField { field: "ansno" }
    );
}

#[test]
fn channels_do_not_hold_each_other_up() {
    let (mut initiator, mut listener) = sessions(1024, 4096, 2);
    initiator.send_msg(1, Bytes::from(vec![b'1'; 3000])).unwrap();
    initiator.send_msg(3, Bytes::from_static(b"3")).unwrap();
    let first = initiator.poll_transmit().unwrap();
    listener.handle_input(&first).unwrap();
    let early = messages(&mut listener);
    assert_eq!(early.len(), 1);
    assert_eq!(early[0].0, 3);

    pump(&mut initiator, &mut listener);
    let late = messages(&mut listener);
    assert_eq!(late.len(), 1);
    assert_eq!(late[0].0, 1);
    assert_eq!(late[0].1.payload.len(), 3000);
}

#[test]
fn closing_a_channel_leaves_the_others_open() {
    let (mut initiator, mut listener) = sessions(4096, 4096, 2);
    initiator.close_channel(1).unwrap();
    pump(&mut initiator, &mut listener);
    while let Some(event) = listener.poll_event() {
        if let Event::CloseRequested { channel, msgno, .. } = event {
            listener.accept_close(channel, msgno).unwrap();
        }
    }
    pump(&mut initiator, &mut listener);
    assert!(initiator.channel(1).is_none());
    assert!(initiator.channel(3).is_some());
    assert!(listener.channel(3).is_some());
    assert_eq!(initiator.state(), State::Ready);

    initiator.send_msg(3, Bytes::from_static(b"still here")).unwrap();
    pump(&mut initiator, &mut listener);
    assert_eq!(payloads(&messages(&mut listener)), [b"still here"]);
}

#[test]
fn a_reply_on_channel_zero_that_nobody_asked_for_is_fatal() {
    let (mut initiator, _) = sessions(4096, 4096, 0);
    let seqno = {
        let fresh = Session::new(
            Config::new(Role::Listener)
                .with_profile(ECHO)
                .with_window_size(4096)
                .with_max_frame_size(4096),
        );
        let mut fresh = fresh;
        let wire = fresh.poll_transmit().unwrap();
        // The header line and the trailer are not part of the payload.
        let header = wire.iter().position(|&octet| octet == b'\n').unwrap() + 1;
        u32::try_from(wire.len() - header - 5).unwrap()
    };
    let mut buf = BytesMut::new();
    DataFrame::new(
        FrameKind::Rpy,
        0,
        7,
        seqno,
        Bytes::from_static(b"Content-Type: application/beep+xml\r\n\r\n<ok />"),
    )
    .unwrap()
    .encode(&mut buf);
    assert!(initiator.handle_input(&buf).is_err());
}

#[test]
fn the_advertised_window_can_be_changed() {
    let (mut initiator, mut listener) = sessions(1024, 4096, 1);
    assert_eq!(
        listener.set_window_size(9, 2048).unwrap_err(),
        Error::NoSuchChannel { channel: 9 }
    );
    listener.set_window_size(1, 2048).unwrap();
    assert_eq!(listener.channel(1).unwrap().recv_window().size(), 2048);

    // The peer learns of it with the next acknowledgement.
    initiator.send_msg(1, Bytes::from(vec![b'w'; 1500])).unwrap();
    listener
        .handle_input(&initiator.poll_transmit().unwrap())
        .unwrap();
    assert_eq!(
        &listener.poll_transmit().unwrap()[..],
        b"SEQ 1 1024 2048\r\n"
    );
}
