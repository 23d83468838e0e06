//! Sequence numbers and windows.

use bytes::BytesMut;
use vortice::codec::Decoder;
use vortice::frame::MAX_CHANNEL_NO;
use vortice::window::{SeqNo, Window, MAX_WINDOW_SIZE, SEQ_MODULUS};

/// How far the walk over the wrap goes at a time.
const CHUNK: u32 = 4096;

#[test]
fn advances_and_measures_without_wrapping() {
    let base = SeqNo::new(100);
    assert_eq!(base.advance(50), SeqNo::new(150));
    assert_eq!(SeqNo::new(150).distance_from(base), 50);
    assert_eq!(base.distance_from(base), 0);
}

#[test]
fn advances_and_measures_across_the_wrap() {
    let base = SeqNo::new(u32::MAX - 3);
    assert_eq!(base.advance(4), SeqNo::zero());
    assert_eq!(base.advance(10), SeqNo::new(6));
    assert_eq!(SeqNo::new(6).distance_from(base), 10);
}

#[test]
fn uses_the_sequence_number_libvortex_skips() {
    assert_eq!(SeqNo::new(u32::MAX - 1).advance(1), SeqNo::new(u32::MAX));
    assert_eq!(SeqNo::new(u32::MAX).advance(1), SeqNo::zero());
    assert_eq!(u64::from(u32::MAX) + 1, SEQ_MODULUS);
}

#[test]
fn accepts_frames_that_fit_the_window() {
    let window = Window::new(SeqNo::new(1000), 4096);
    assert!(window.accepts(SeqNo::new(1000), 4096));
    assert!(window.accepts(SeqNo::new(5000), 96));
    assert!(window.accepts(SeqNo::new(5096), 0));
}

#[test]
fn rejects_frames_that_overrun_the_window() {
    let window = Window::new(SeqNo::new(1000), 4096);
    assert!(!window.accepts(SeqNo::new(1000), 4097));
    assert!(!window.accepts(SeqNo::new(5096), 1));
    // A sequence number before the base reads as almost 2^32 octets ahead.
    assert!(!window.accepts(SeqNo::new(999), 1));
}

#[test]
fn accepts_frames_that_straddle_the_wrap() {
    let window = Window::new(SeqNo::new(u32::MAX - 100), 4096);
    assert!(window.accepts(SeqNo::new(u32::MAX - 100), 200));
    assert!(window.accepts(SeqNo::new(50), 100));
    assert!(!window.accepts(SeqNo::new(50), u32::MAX));
}

#[test]
fn reports_what_is_left_to_send() {
    let window = Window::new(SeqNo::new(1000), 4096);
    assert_eq!(window.remaining(SeqNo::new(1000)), 4096);
    assert_eq!(window.remaining(SeqNo::new(3000)), 2096);
    assert_eq!(window.remaining(SeqNo::new(5096)), 0);
    assert!(window.is_stalled(SeqNo::new(5096)));
    assert!(!window.is_stalled(SeqNo::new(5095)));
}

#[test]
fn reports_nothing_left_once_the_window_is_overrun() {
    let window = Window::new(SeqNo::new(1000), 4096);
    assert_eq!(window.remaining(SeqNo::new(6000)), 0);
}

#[test]
fn a_seq_frame_moves_the_window() {
    let window = Window::new(SeqNo::zero(), 4096).updated(SeqNo::new(4096), 4096);
    assert_eq!(window.base(), SeqNo::new(4096));
    assert_eq!(window.remaining(SeqNo::new(4096)), 4096);
}

#[test]
fn consuming_payload_slides_the_window_forward() {
    let window = Window::new(SeqNo::zero(), 4096).consumed(1000);
    assert_eq!(window.base(), SeqNo::new(1000));
    assert_eq!(window.size(), 4096);
}

#[test]
fn resizing_keeps_the_base() {
    let window = Window::new(SeqNo::new(2048), 4096).resized(1024);
    assert_eq!(window.base(), SeqNo::new(2048));
    assert_eq!(window.size(), 1024);
    assert!(!window.accepts(SeqNo::new(2048), 1025));
}

#[test]
fn renders_the_seq_frame_that_advertises_it() {
    let mut buf = BytesMut::new();
    Window::new(SeqNo::new(4096), 8192)
        .to_seq_frame(1)
        .unwrap()
        .encode(&mut buf);
    assert_eq!(&buf[..], b"SEQ 1 4096 8192\r\n");
}

#[test]
fn survives_a_full_pass_over_the_four_gigabyte_boundary() {
    let start = SeqNo::new(u32::MAX - CHUNK * 4);
    let mut next = start;
    let mut window = Window::new(start, CHUNK);

    for _ in 0..10 {
        assert!(window.accepts(next, CHUNK), "frame at {next:?} refused");
        next = next.advance(CHUNK);
        window = window.updated(next, CHUNK);
    }

    let expected = u64::from(start.get())
        .checked_add(u64::from(CHUNK) * 10)
        .map(|total| total % SEQ_MODULUS)
        .and_then(|value| u32::try_from(value).ok())
        .expect("modulo keeps the value in range");
    assert_eq!(next, SeqNo::new(expected));
}

/// Starting points on both sides of the wrap.
const BASES: [u32; 5] = [0, 1, 4096, u32::MAX - 5000, u32::MAX];

/// Advancing then measuring is the identity, at any distance and from any point.
#[test]
fn advance_and_distance_are_inverses() {
    for base in BASES {
        for octets in [0, 1, 4096, u32::MAX - 1, u32::MAX] {
            let base = SeqNo::new(base);
            assert_eq!(base.advance(octets).distance_from(base), octets);
        }
    }
}

/// Advancing by a total is the same as advancing in two steps.
#[test]
fn advancing_is_additive() {
    for base in BASES {
        let base = SeqNo::new(base);
        for (first, second) in [(0, 0), (1, u32::MAX), (5000, 7000), (u32::MAX, u32::MAX)] {
            assert_eq!(
                base.advance(first).advance(second),
                base.advance(first.wrapping_add(second))
            );
        }
    }
}

/// A full turn of the counter returns to where it started.
#[test]
fn a_full_cycle_is_the_identity() {
    for base in BASES {
        let base = SeqNo::new(base);
        assert_eq!(base.advance(u32::MAX).advance(1), base);
    }
}

/// Sliding the window and the frame by the same amount changes nothing.
#[test]
fn acceptance_is_invariant_under_translation() {
    for base in BASES {
        for shift in [0, 1, 5000, u32::MAX] {
            for (offset, len, size) in [(0, 16, 16), (8, 9, 16), (16, 0, 16), (17, 0, 16)] {
                let here = Window::new(SeqNo::new(base), size);
                let there = Window::new(SeqNo::new(base).advance(shift), size);
                assert_eq!(
                    here.accepts(SeqNo::new(base).advance(offset), len),
                    there.accepts(SeqNo::new(base).advance(shift).advance(offset), len)
                );
            }
        }
    }
}

/// A frame is accepted exactly when it ends at or before the window limit.
#[test]
fn acceptance_matches_the_arithmetic_definition() {
    for base in BASES {
        for (offset, len, size) in [(0, 16, 16), (8, 8, 16), (8, 9, 16), (16, 1, 16), (0, 0, 0)] {
            let window = Window::new(SeqNo::new(base), size);
            assert_eq!(
                window.accepts(SeqNo::new(base).advance(offset), len),
                offset + len <= size
            );
        }
    }
}

/// Having room left and accepting one more octet are the same statement.
#[test]
fn remaining_agrees_with_acceptance() {
    for base in BASES {
        for offset in [0, 15, 16, 17, u32::MAX] {
            let window = Window::new(SeqNo::new(base), 16);
            let next = SeqNo::new(base).advance(offset);
            assert_eq!(window.remaining(next) > 0, window.accepts(next, 1));
            assert_eq!(window.remaining(next) == 0, window.is_stalled(next));
        }
    }
}

/// Writing everything the window allows stalls the channel, and not an octet sooner.
#[test]
fn a_window_is_exhausted_exactly_at_its_limit() {
    for base in BASES {
        for size in [1, 4096, 16_383] {
            let window = Window::new(SeqNo::new(base), size);
            let next = SeqNo::new(base).advance(size);
            assert!(window.is_stalled(next));
            assert!(!window.is_stalled(SeqNo::new(base).advance(size - 1)));
            assert_eq!(window.limit(), next);
        }
    }
}

/// Consuming payload moves the base and leaves the size alone.
#[test]
fn consuming_restores_the_offer() {
    for base in BASES {
        for octets in [0, 1, 16_383] {
            let after = Window::new(SeqNo::new(base), 4096).consumed(octets);
            assert_eq!(after.size(), 4096);
            assert_eq!(after.base(), SeqNo::new(base).advance(octets));
            assert_eq!(after.remaining(after.base()), 4096);
        }
    }
}

/// A SEQ frame round-trips through the header encoding it is advertised with.
#[test]
fn seq_frames_round_trip() {
    for channel in [0, 1, MAX_CHANNEL_NO] {
        for base in BASES {
            for size in [0, 4096, MAX_WINDOW_SIZE] {
                let window = Window::new(SeqNo::new(base), size);
                let mut buf = BytesMut::new();
                window.to_seq_frame(channel).unwrap().encode(&mut buf);

                let frame = Decoder::new().decode(&mut buf).unwrap().unwrap();
                let seq = frame.as_seq().unwrap();
                assert_eq!(
                    (seq.channel(), seq.ackno(), seq.window()),
                    (channel, base, size)
                );
            }
        }
    }
}
