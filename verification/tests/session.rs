//! Whole sessions, wired to each other.

use bytes::{Bytes, BytesMut};
use vortice::error::Error;
use vortice::frame::{DataFrame, FrameKind};
use vortice::greeting::GREETING_CHANNEL;
use vortice::management::code;
use vortice::management::{ErrorReply, Profile};
use vortice::session::{profile_not_supported, Config, Event, Role, Session, State};

const ECHO: &str = "http://iana.org/beep/transient/vortex-regression";

/// Two sessions wired to each other with no transport in between.
struct Pair {
    initiator: Session,
    listener: Session,
}

impl Pair {
    fn new() -> Self {
        Self::with_config(
            Config::new(Role::Initiator).with_profile(ECHO),
            Config::new(Role::Listener).with_profile(ECHO),
        )
    }

    fn with_config(initiator: Config, listener: Config) -> Self {
        let mut pair = Self {
            initiator: Session::new(initiator),
            listener: Session::new(listener),
        };
        pair.pump();
        pair
    }

    /// Moves octets both ways until neither side has anything more to say.
    fn pump(&mut self) {
        for _ in 0..64 {
            let mut moved = false;
            if let Some(bytes) = self.initiator.poll_transmit() {
                self.listener.handle_input(&bytes).unwrap();
                moved = true;
            }
            if let Some(bytes) = self.listener.poll_transmit() {
                self.initiator.handle_input(&bytes).unwrap();
                moved = true;
            }
            if !moved {
                return;
            }
        }
        panic!("sessions never went quiet");
    }

    fn initiator_events(&mut self) -> Vec<Event> {
        core::iter::from_fn(|| self.initiator.poll_event()).collect()
    }

    fn listener_events(&mut self) -> Vec<Event> {
        core::iter::from_fn(|| self.listener.poll_event()).collect()
    }

    /// Runs the full start handshake and returns the channel number.
    fn open_channel(&mut self) -> u32 {
        let number = self.initiator.start_channel(Profile::new(ECHO)).unwrap();
        self.pump();
        let Some(Event::StartRequested { channel, msgno, .. }) = self
            .listener_events()
            .into_iter()
            .find(|event| matches!(event, Event::StartRequested { .. }))
        else {
            panic!("listener never saw the start request");
        };
        self.listener
            .accept_start(channel, msgno, Profile::new(ECHO))
            .unwrap();
        self.pump();
        assert!(
            self.initiator_events()
                .iter()
                .any(|event| matches!(event, Event::ChannelOpened { .. })),
            "initiator never saw the channel open"
        );
        number
    }
}

#[test]
fn retains_input_that_does_not_yet_complete_a_frame() {
    // A socket hands over whatever arrived. Feeding a session one octet at a time must
    // deliver exactly what feeding it the whole buffer would: anything less means a
    // frame straddling two reads loses its first half.
    let mut listener = Session::new(Config::new(Role::Listener).with_profile(ECHO));
    let initiator = Session::new(Config::new(Role::Initiator).with_profile(ECHO));

    let mut wire = BytesMut::new();
    let mut source = initiator;
    while let Some(bytes) = source.poll_transmit() {
        wire.extend_from_slice(&bytes);
    }
    assert!(
        wire.len() > 8,
        "the greeting should be more than a few octets"
    );

    for octet in wire.clone() {
        listener.handle_input(&[octet]).unwrap();
    }
    assert_eq!(listener.state(), State::Ready);
    assert!(listener.peer_greeting().unwrap().advertises(ECHO));
    assert_eq!(listener.buffered_input(), 0);
}

#[test]
fn exchanges_greetings_on_construction() {
    let mut pair = Pair::new();
    assert_eq!(pair.initiator.state(), State::Ready);
    assert_eq!(pair.listener.state(), State::Ready);
    assert!(pair.initiator.peer_greeting().unwrap().advertises(ECHO));
    assert!(pair.listener.peer_greeting().unwrap().advertises(ECHO));

    assert!(matches!(
        pair.initiator_events().first(),
        Some(Event::GreetingReceived(_))
    ));
}

#[test]
fn refuses_to_start_a_channel_before_the_greetings_are_in() {
    let mut lonely = Session::new(Config::new(Role::Initiator));
    assert!(matches!(
        lonely.start_channel(Profile::new(ECHO)),
        Err(Error::ChannelNumber { .. })
    ));
}

#[test]
fn allocates_channel_numbers_by_role() {
    assert!(Role::Initiator.owns(1));
    assert!(Role::Initiator.owns(3));
    assert!(!Role::Initiator.owns(2));
    assert!(Role::Listener.owns(2));
    assert!(!Role::Listener.owns(0));
    assert!(!Role::Listener.owns(1));

    let mut pair = Pair::new();
    assert_eq!(pair.open_channel(), 1);
    assert_eq!(
        pair.initiator.start_channel(Profile::new(ECHO)).unwrap(),
        3,
        "the initiator must keep to odd numbers"
    );
}

#[test]
fn opens_a_channel_on_both_ends() {
    let mut pair = Pair::new();
    let number = pair.open_channel();
    assert!(pair.initiator.channel(number).is_some());
    assert!(pair.listener.channel(number).is_some());
    assert_eq!(pair.listener.channel(number).unwrap().profile(), ECHO);
}

#[test]
fn reports_a_refused_start_without_opening_anything() {
    let mut pair = Pair::new();
    pair.initiator
        .start_channel(Profile::new("urn:absent"))
        .unwrap();
    pair.pump();
    let Some(Event::StartRequested { msgno, .. }) = pair
        .listener_events()
        .into_iter()
        .find(|event| matches!(event, Event::StartRequested { .. }))
    else {
        panic!("no start request");
    };
    pair.listener
        .refuse_start(msgno, profile_not_supported())
        .unwrap();
    pair.pump();

    let events = pair.initiator_events();
    let Some(Event::StartRefused { channel, error }) = events
        .into_iter()
        .find(|event| matches!(event, Event::StartRefused { .. }))
    else {
        panic!("no refusal reported");
    };
    assert_eq!(channel, 1);
    assert_eq!(error.code, code::REQUESTED_ACTION_NOT_TAKEN);
    assert!(pair.initiator.channel(1).is_none());
}

#[test]
fn carries_a_message_end_to_end() {
    let mut pair = Pair::new();
    let number = pair.open_channel();

    let msgno = pair
        .initiator
        .send_msg(number, Bytes::from_static(b"hola"))
        .unwrap();
    pair.pump();

    let events = pair.listener_events();
    let Some(Event::MessageReceived { channel, message }) = events
        .into_iter()
        .find(|event| matches!(event, Event::MessageReceived { .. }))
    else {
        panic!("listener never received the message");
    };
    assert_eq!(channel, number);
    assert_eq!(message.kind, FrameKind::Msg);
    assert_eq!(message.msgno, msgno);
    assert_eq!(&message.payload[..], b"hola");
}

#[test]
fn carries_a_reply_back() {
    let mut pair = Pair::new();
    let number = pair.open_channel();
    pair.initiator
        .send_msg(number, Bytes::from_static(b"ping"))
        .unwrap();
    pair.pump();
    pair.listener_events();

    pair.listener
        .send(number, FrameKind::Rpy, 0, None, Bytes::from_static(b"pong"))
        .unwrap();
    pair.pump();

    let events = pair.initiator_events();
    let Some(Event::MessageReceived { message, .. }) = events
        .into_iter()
        .find(|event| matches!(event, Event::MessageReceived { .. }))
    else {
        panic!("initiator never received the reply");
    };
    assert_eq!(message.kind, FrameKind::Rpy);
    assert_eq!(&message.payload[..], b"pong");
}

#[test]
fn reassembles_a_payload_larger_than_the_window() {
    // The payload is four times the window and eight times the frame size, so it can
    // only arrive if fragmentation, SEQ pacing and reassembly all work together.
    let mut pair = Pair::with_config(
        Config::new(Role::Initiator)
            .with_profile(ECHO)
            .with_window_size(1024)
            .with_max_frame_size(512),
        Config::new(Role::Listener)
            .with_profile(ECHO)
            .with_window_size(1024)
            .with_max_frame_size(512),
    );
    let number = pair.open_channel();

    let payload = Bytes::from(vec![b'z'; 4096]);
    pair.initiator
        .send(number, FrameKind::Msg, 0, None, payload)
        .unwrap();
    pair.pump();

    let events = pair.listener_events();
    let Some(Event::MessageReceived { message, .. }) = events
        .into_iter()
        .find(|event| matches!(event, Event::MessageReceived { .. }))
    else {
        panic!("the large message never arrived");
    };
    assert_eq!(message.payload.len(), 4096);
    assert!(message.payload.iter().all(|&byte| byte == b'z'));
}

#[test]
fn delivers_an_ans_nul_sequence() {
    let mut pair = Pair::new();
    let number = pair.open_channel();
    pair.initiator
        .send_msg(number, Bytes::from_static(b"list"))
        .unwrap();
    pair.pump();
    pair.listener_events();

    for (ansno, answer) in [&b"one"[..], &b"two"[..]].into_iter().enumerate() {
        let ansno = u32::try_from(ansno).unwrap();
        pair.listener
            .send(
                number,
                FrameKind::Ans,
                0,
                Some(ansno),
                Bytes::from_static(answer),
            )
            .unwrap();
    }
    pair.listener
        .send(number, FrameKind::Nul, 0, None, Bytes::new())
        .unwrap();
    pair.pump();

    let kinds: Vec<_> = pair
        .initiator_events()
        .into_iter()
        .filter_map(|event| match event {
            Event::MessageReceived { message, .. } => Some((message.kind, message.ansno)),
            _ => None,
        })
        .collect();
    assert_eq!(
        kinds,
        [
            (FrameKind::Ans, Some(0)),
            (FrameKind::Ans, Some(1)),
            (FrameKind::Nul, None)
        ]
    );
}

#[test]
fn closes_a_channel_on_both_ends() {
    let mut pair = Pair::new();
    let number = pair.open_channel();

    pair.initiator.close_channel(number).unwrap();
    pair.pump();
    let Some(Event::CloseRequested { channel, msgno, .. }) = pair
        .listener_events()
        .into_iter()
        .find(|event| matches!(event, Event::CloseRequested { .. }))
    else {
        panic!("no close request");
    };
    pair.listener.accept_close(channel, msgno).unwrap();
    pair.pump();

    assert!(
        pair.initiator_events()
            .iter()
            .any(|event| matches!(event, Event::ChannelClosed { .. }))
    );
    assert!(pair.initiator.channel(number).is_none());
    assert!(pair.listener.channel(number).is_none());
}

#[test]
fn a_refused_close_leaves_the_channel_open() {
    let mut pair = Pair::new();
    let number = pair.open_channel();

    pair.initiator.close_channel(number).unwrap();
    pair.pump();
    let Some(Event::CloseRequested { msgno, .. }) = pair
        .listener_events()
        .into_iter()
        .find(|event| matches!(event, Event::CloseRequested { .. }))
    else {
        panic!("no close request");
    };
    pair.listener
        .refuse_close(msgno, ErrorReply::new(code::ACTION_NOT_TAKEN))
        .unwrap();
    pair.pump();

    assert!(
        pair.initiator_events()
            .iter()
            .any(|event| matches!(event, Event::CloseRefused { .. }))
    );
    assert!(pair.initiator.channel(number).is_some());
}

#[test]
fn closing_channel_zero_ends_the_session() {
    let mut pair = Pair::new();
    pair.open_channel();

    pair.initiator.close_channel(GREETING_CHANNEL).unwrap();
    pair.pump();
    let Some(Event::CloseRequested { channel, msgno, .. }) = pair
        .listener_events()
        .into_iter()
        .find(|event| matches!(event, Event::CloseRequested { .. }))
    else {
        panic!("no close request");
    };
    assert_eq!(channel, GREETING_CHANNEL);
    pair.listener.accept_close(channel, msgno).unwrap();
    pair.pump();

    assert_eq!(pair.listener.state(), State::Closed);
    assert_eq!(pair.initiator.state(), State::Closed);
}

#[test]
fn rejects_a_frame_for_a_channel_that_is_not_open() {
    let mut pair = Pair::new();
    let mut buf = BytesMut::new();
    DataFrame::new(FrameKind::Msg, 9, 0, 0, Bytes::from_static(b"x"))
        .unwrap()
        .encode(&mut buf);
    assert_eq!(
        pair.listener.handle_input(&buf).unwrap_err(),
        Error::NoSuchChannel { channel: 9 }
    );
}

#[test]
fn refuses_to_accept_a_channel_number_the_peer_may_not_allocate() {
    let mut pair = Pair::new();
    // The listener owns even numbers, so it must not accept a start naming one.
    assert!(matches!(
        pair.listener.accept_start(2, 0, Profile::new(ECHO)),
        Err(Error::ChannelNumber { .. })
    ));
}

#[test]
fn sending_on_an_unopened_channel_is_an_error() {
    let mut pair = Pair::new();
    assert_eq!(
        pair.initiator.send_msg(5, Bytes::new()).unwrap_err(),
        Error::NoSuchChannel { channel: 5 }
    );
}
