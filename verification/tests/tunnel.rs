//! Whole sessions through a WebSocket, from the handshake on, with no transport in between.

use bytes::{Bytes, BytesMut};
use vortice::channel::Message;
use vortice::frame::FrameKind;
use vortice::head::Reader;
use vortice::management::Profile;
use vortice::session::{Config, Event, Role, Session, State};
use vortice::ws::handshake::{accept, client_key, conclude, request};
use vortice::ws::stream::{Step, Written, WsStream};

const ECHO: &str = "urn:echo";

/// One end of a connection.
struct End {
    session: Session,
    ws: WsStream,
}

impl End {
    /// Puts what the session has to say into frames and takes them off.
    fn transmit(&mut self) -> Vec<u8> {
        let mut wire = Vec::new();
        while let Some(octets) = self.session.poll_transmit() {
            let mut rest = &octets[..];
            loop {
                match self.ws.write(rest).expect("randomness") {
                    Written::Nothing => break,
                    Written::Wait => wire.extend_from_slice(&self.drain()),
                    Written::Queued(taken) => rest = &rest[taken..],
                }
            }
        }
        wire.extend_from_slice(&self.drain());
        wire
    }

    fn drain(&mut self) -> Vec<u8> {
        let wire = self.ws.pending().to_vec();
        self.ws.sent(wire.len());
        wire
    }

    /// Takes what came over the wire, in pieces, and hands the session what was in it.
    fn receive(&mut self, wire: &[u8], piece: usize) {
        for chunk in wire.chunks(piece) {
            self.ws.received(chunk);
            loop {
                match self.ws.advance(512).expect("valid framing") {
                    Step::Deliver(octets) => self.session.handle_input(&octets).expect("input"),
                    Step::Send(opcode, payload) => {
                        self.ws.queue(opcode, &payload).expect("randomness");
                    }
                    Step::Fill | Step::End => break,
                }
            }
        }
    }

    fn messages(&mut self) -> Vec<Message> {
        let mut found = Vec::new();
        while let Some(event) = self.session.poll_event() {
            if let Event::MessageReceived { message, .. } = event {
                found.push(message);
            }
        }
        found
    }
}

fn pump(a: &mut End, b: &mut End, piece: usize) {
    let mut quiet = false;
    while !quiet {
        let there = a.transmit();
        b.receive(&there, piece);
        let back = b.transmit();
        a.receive(&back, piece);
        quiet = there.is_empty() && back.is_empty();
    }
}

/// Completes a handshake for `path` and the greeting exchange over it.
fn connected(path: &str, piece: usize) -> (End, End) {
    let key = client_key().expect("randomness");
    let mut at_server = Reader::new(BytesMut::from(request(path, "localhost", &key).as_bytes()));
    let (answer, early) = accept(&mut at_server).expect("a handshake").expect("whole");
    let mut at_client = Reader::new(BytesMut::from(answer.as_bytes()));
    let leftover = conclude(&mut at_client, &key)
        .expect("an answer")
        .expect("whole");
    let mut client = End {
        session: Session::new(Config::new(Role::Initiator).with_profile(ECHO)),
        ws: WsStream::client(leftover),
    };
    let mut server = End {
        session: Session::new(Config::new(Role::Listener).with_profile(ECHO)),
        ws: WsStream::server(early),
    };
    pump(&mut client, &mut server, piece);
    assert_eq!(client.session.state(), State::Ready);
    assert_eq!(server.session.state(), State::Ready);
    (client, server)
}

fn open(client: &mut End, server: &mut End, piece: usize) -> u32 {
    let number = client
        .session
        .start_channel(Profile::new(ECHO))
        .expect("ready");
    pump(client, server, piece);
    while let Some(event) = server.session.poll_event() {
        if let Event::StartRequested { channel, msgno, .. } = event {
            server
                .session
                .accept_start(channel, msgno, Profile::new(ECHO))
                .expect("accepted");
        }
    }
    pump(client, server, piece);
    assert!(client.session.channel(number).is_some());
    number
}

#[test]
fn sessions_run_through_a_websocket_however_it_is_cut() {
    for piece in [1, 3, 1000, 100_000] {
        let (mut client, mut server) = connected("/any/path", piece);
        let number = open(&mut client, &mut server, piece);
        client
            .session
            .send_msg(number, Bytes::from_static(b"hola"))
            .expect("sent");
        pump(&mut client, &mut server, piece);
        let found = server.messages();
        assert_eq!(found.len(), 1);
        assert_eq!(&found[0].payload[..], b"hola");

        server
            .session
            .send(
                number,
                FrameKind::Rpy,
                found[0].msgno,
                None,
                Bytes::from_static(b"adios"),
            )
            .expect("sent");
        pump(&mut client, &mut server, piece);
        let found = client.messages();
        assert_eq!(found.len(), 1);
        assert_eq!(&found[0].payload[..], b"adios");
    }
}

#[test]
fn large_payloads_that_are_not_text_survive_the_tunnel() {
    let (mut client, mut server) = connected("/", 4096);
    let number = open(&mut client, &mut server, 4096);
    let payload: Vec<u8> = (0..200_000u32).map(|i| (i % 251) as u8 ^ 0x80).collect();
    client
        .session
        .send_msg(number, Bytes::from(payload.clone()))
        .expect("sent");
    pump(&mut client, &mut server, 4096);
    let found = server.messages();
    assert_eq!(found.len(), 1);
    assert_eq!(&found[0].payload[..], &payload[..]);
}

#[test]
fn channels_share_one_tunnel() {
    let (mut client, mut server) = connected("/", 64);
    let numbers: Vec<u32> = (0..8).map(|_| open(&mut client, &mut server, 64)).collect();
    assert_eq!(numbers, [1, 3, 5, 7, 9, 11, 13, 15]);
    for number in &numbers {
        client
            .session
            .send_msg(*number, Bytes::from(format!("on {number}")))
            .expect("sent");
    }
    pump(&mut client, &mut server, 64);
    let found: Vec<Vec<u8>> = server
        .messages()
        .into_iter()
        .map(|message| message.payload.to_vec())
        .collect();
    let sent: Vec<Vec<u8>> = numbers
        .iter()
        .map(|number| format!("on {number}").into_bytes())
        .collect();
    assert_eq!(found, sent);
}
