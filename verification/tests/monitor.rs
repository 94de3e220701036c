use autoadb::device::DeviceState;
use autoadb::diff::Notification;
use autoadb::monitor::{DeviceMonitor, Directive, Event, Fault, Handshake, Phase, Reaction};

fn appeared(identifier: &str) -> Notification {
    Notification::Appeared(identifier.to_string())
}

fn disappeared(identifier: &str) -> Notification {
    Notification::Disappeared(identifier.to_string())
}

fn quiet(directive: Directive) -> Reaction {
    Reaction { notifications: vec![], fault: None, directive }
}

fn gave_up(fault: Fault) -> Reaction {
    Reaction { notifications: vec![], fault: Some(fault), directive: Directive::Backoff }
}

fn received(bytes: &[u8]) -> Event {
    Event::Received(bytes.to_vec())
}

fn frame(payload: &[u8]) -> Vec<u8> {
    let mut bytes = format!("{:04x}", payload.len()).into_bytes();
    bytes.extend_from_slice(payload);
    bytes
}

/// A monitor that has connected and sent its request.
fn handshaking() -> DeviceMonitor {
    let mut monitor = DeviceMonitor::new();
    assert_eq!(monitor.handle(Event::Wake), quiet(Directive::Connect));
    assert_eq!(
        monitor.handle(Event::Connected),
        quiet(Directive::Send(b"0012host:track-devices".to_vec()))
    );
    assert_eq!(monitor.handle(Event::Sent), quiet(Directive::Receive));
    monitor
}

/// A monitor whose request was accepted.
fn tracking() -> DeviceMonitor {
    let mut monitor = handshaking();
    assert_eq!(monitor.handle(received(b"OKAY")), quiet(Directive::Receive));
    assert_eq!(monitor.phase(), Phase::Tracking(None));
    monitor
}

/// Stands for the callback interface: records the calls in order.
struct Recorder {
    calls: Vec<String>,
}

impl Recorder {
    fn deliver(&mut self, reaction: &Reaction) {
        for notification in reaction.notifications.iter() {
            match notification {
                Notification::Appeared(identifier) => self.calls.push(format!("+{}", identifier)),
                Notification::Disappeared(identifier) => {
                    self.calls.push(format!("-{}", identifier))
                },
            }
        }
    }
}

#[test]
fn new_monitor_is_disconnected() {
    let monitor = DeviceMonitor::new();
    assert_eq!(monitor.phase(), Phase::Disconnected);
    assert_eq!(monitor.unread(), 0);
    assert!(monitor.devices().is_empty());
}

#[test]
fn wake_starts_connecting() {
    let mut monitor = DeviceMonitor::new();
    assert_eq!(monitor.handle(Event::Wake), quiet(Directive::Connect));
    assert_eq!(monitor.phase(), Phase::Connecting);
}

#[test]
fn failed_connect_backs_off_and_retries() {
    let mut monitor = DeviceMonitor::new();
    monitor.handle(Event::Wake);
    for _ in 0..5 {
        assert_eq!(monitor.handle(Event::ConnectFailed), gave_up(Fault::ConnectFailed));
        assert_eq!(monitor.phase(), Phase::Connecting);
        assert_eq!(monitor.handle(Event::Wake), quiet(Directive::Connect));
        assert_eq!(monitor.phase(), Phase::Connecting);
    }
}

#[test]
fn connected_sends_the_request() {
    let mut monitor = DeviceMonitor::new();
    monitor.handle(Event::Wake);
    assert_eq!(
        monitor.handle(Event::Connected),
        quiet(Directive::Send(b"0012host:track-devices".to_vec()))
    );
    assert_eq!(monitor.phase(), Phase::Handshaking(Handshake::Status));
    assert_eq!(monitor.handle(Event::Sent), quiet(Directive::Receive));
    assert_eq!(monitor.phase(), Phase::Handshaking(Handshake::Status));
}

#[test]
fn okay_starts_tracking() {
    let mut monitor = handshaking();
    assert_eq!(monitor.handle(received(b"OK")), quiet(Directive::Receive));
    assert_eq!(monitor.phase(), Phase::Handshaking(Handshake::Status));
    assert_eq!(monitor.unread(), 2);
    assert_eq!(monitor.handle(received(b"AY")), quiet(Directive::Receive));
    assert_eq!(monitor.phase(), Phase::Tracking(None));
    assert_eq!(monitor.unread(), 0);
}

#[test]
fn first_frame_only_announces_appearances() {
    let mut monitor = tracking();
    let reaction = monitor.handle(received(&frame(b"B\tonline\nA\tonline\nC\toffline\n")));
    assert_eq!(
        reaction,
        Reaction {
            notifications: vec![appeared("A"), appeared("B")],
            fault: None,
            directive: Directive::Receive,
        }
    );
    assert_eq!(monitor.devices().get("C"), Some(DeviceState::Offline));
    assert_eq!(monitor.devices().len(), 3);
}

#[test]
fn handshake_and_frames_may_arrive_in_one_chunk() {
    let mut monitor = handshaking();
    let mut bytes = b"OKAY".to_vec();
    bytes.extend_from_slice(&frame(b"A\tonline\n"));
    bytes.extend_from_slice(&frame(b"A\tonline\nB\tonline\n"));
    bytes.extend_from_slice(&frame(b"B\tonline\n"));
    bytes.extend_from_slice(b"00");
    let reaction = monitor.handle(Event::Received(bytes));
    assert_eq!(
        reaction,
        Reaction {
            notifications: vec![appeared("A"), appeared("B"), disappeared("A")],
            fault: None,
            directive: Directive::Receive,
        }
    );
    assert_eq!(monitor.phase(), Phase::Tracking(None));
    assert_eq!(monitor.unread(), 2);
}

#[test]
fn previous_online_a_then_frame_b_online() {
    let mut monitor = tracking();
    let mut recorder = Recorder { calls: vec![] };
    let reaction = monitor.handle(received(&frame(b"A\tonline")));
    recorder.deliver(&reaction);
    assert_eq!(recorder.calls, vec!["+A"]);
    let reaction = monitor.handle(received(&frame(b"B\tonline")));
    assert_eq!(reaction.notifications, vec![disappeared("A"), appeared("B")]);
    assert_eq!(reaction.fault, None);
    recorder.deliver(&reaction);
    assert_eq!(recorder.calls, vec!["+A", "-A", "+B"]);
}

#[test]
fn identical_frame_twice_announces_nothing_the_second_time() {
    let mut monitor = tracking();
    let bytes = frame(b"A\tonline\nB\tonline\n");
    let first = monitor.handle(Event::Received(bytes.clone()));
    assert_eq!(first.notifications, vec![appeared("A"), appeared("B")]);
    let second = monitor.handle(Event::Received(bytes));
    assert_eq!(second, quiet(Directive::Receive));
}

#[test]
fn empty_frame_lists_no_device() {
    let mut monitor = tracking();
    monitor.handle(received(&frame(b"A\tonline\n")));
    let reaction = monitor.handle(received(b"0000"));
    assert_eq!(reaction.notifications, vec![disappeared("A")]);
    assert_eq!(monitor.phase(), Phase::Tracking(None));
    assert!(monitor.devices().is_empty());
    assert_eq!(monitor.handle(received(b"00000000")), quiet(Directive::Receive));
}

#[test]
fn length_field_may_use_upper_case_digits() {
    let mut monitor = tracking();
    let mut bytes = b"000A".to_vec();
    bytes.extend_from_slice(b"AB\tonline\n");
    let reaction = monitor.handle(Event::Received(bytes));
    assert_eq!(reaction.notifications, vec![appeared("AB")]);
}

#[test]
fn frames_fed_byte_by_byte() {
    let mut stream = b"OKAY".to_vec();
    stream.extend_from_slice(&frame(b"A\tonline\nB\toffline\n"));
    stream.extend_from_slice(&frame(b"B\tonline\n"));
    stream.extend_from_slice(&frame(b""));
    let mut monitor = handshaking();
    let mut recorder = Recorder { calls: vec![] };
    for byte in stream.iter() {
        let reaction = monitor.handle(received(&[*byte]));
        assert_eq!(reaction.fault, None);
        assert_eq!(reaction.directive, Directive::Receive);
        recorder.deliver(&reaction);
    }
    assert_eq!(recorder.calls, vec!["+A", "-A", "+B", "-B"]);
    assert_eq!(monitor.phase(), Phase::Tracking(None));
    assert_eq!(monitor.unread(), 0);
}

#[test]
fn chunking_does_not_change_the_notifications() {
    let mut stream = b"OKAY".to_vec();
    stream.extend_from_slice(&frame(b"x\tonline\ny\tonline\n"));
    stream.extend_from_slice(&frame(b"y\tonline\nz\tonline\n"));
    stream.extend_from_slice(&frame(b"z\toffline\n"));
    let mut whole = handshaking();
    let mut expected = Recorder { calls: vec![] };
    expected.deliver(&whole.handle(Event::Received(stream.clone())));
    assert_eq!(expected.calls, vec!["+x", "+y", "-x", "+z", "-y", "-z"]);
    for size in 1..stream.len() {
        let mut monitor = handshaking();
        let mut recorder = Recorder { calls: vec![] };
        for piece in stream.chunks(size) {
            recorder.deliver(&monitor.handle(received(piece)));
        }
        assert_eq!(recorder.calls, expected.calls);
        assert_eq!(monitor.devices(), whole.devices());
        assert_eq!(monitor.phase(), whole.phase());
    }
}

#[test]
fn waits_for_the_whole_payload() {
    let mut monitor = tracking();
    assert_eq!(monitor.handle(received(b"0009A\ton")), quiet(Directive::Receive));
    assert_eq!(monitor.phase(), Phase::Tracking(Some(9)));
    assert_eq!(monitor.unread(), 4);
    let reaction = monitor.handle(received(b"line\n0"));
    assert_eq!(reaction.notifications, vec![appeared("A")]);
    assert_eq!(monitor.phase(), Phase::Tracking(None));
    assert_eq!(monitor.unread(), 1);
}

#[test]
fn stream_closing_mid_frame_leads_to_a_new_connection() {
    let mut monitor = tracking();
    let full = frame(b"A\tonline\nB\tonline\n");
    let half = &full[..4 + 9];
    assert_eq!(monitor.handle(received(half)), quiet(Directive::Receive));
    assert_eq!(monitor.phase(), Phase::Tracking(Some(18)));
    assert_eq!(monitor.handle(Event::Lost), gave_up(Fault::ConnectionLost));
    assert_eq!(monitor.phase(), Phase::Disconnected);
    assert_eq!(monitor.unread(), 0);
    assert_eq!(monitor.handle(Event::Wake), quiet(Directive::Connect));
    assert_eq!(monitor.phase(), Phase::Connecting);
    assert_eq!(
        monitor.handle(Event::Connected),
        quiet(Directive::Send(b"0012host:track-devices".to_vec()))
    );
    assert_eq!(monitor.handle(Event::Sent), quiet(Directive::Receive));
    assert_eq!(monitor.handle(received(b"OKAY")), quiet(Directive::Receive));
    let reaction = monitor.handle(Event::Received(full));
    assert_eq!(reaction.notifications, vec![appeared("A"), appeared("B")]);
}

#[test]
fn refused_handshake_is_reported_and_retried() {
    let mut monitor = handshaking();
    let reaction = monitor.handle(received(b"FAIL0004busy"));
    assert_eq!(reaction, gave_up(Fault::Rejected(b"busy".to_vec())));
    assert!(reaction.notifications.is_empty());
    assert_eq!(monitor.phase(), Phase::Disconnected);
    assert_eq!(monitor.handle(Event::Wake), quiet(Directive::Connect));
    assert_eq!(monitor.phase(), Phase::Connecting);
}

#[test]
fn refusal_may_arrive_in_pieces() {
    let mut monitor = handshaking();
    assert_eq!(monitor.handle(received(b"FA")), quiet(Directive::Receive));
    assert_eq!(monitor.handle(received(b"IL00")), quiet(Directive::Receive));
    assert_eq!(monitor.phase(), Phase::Handshaking(Handshake::FailureLength));
    assert_eq!(monitor.handle(received(b"04bu")), quiet(Directive::Receive));
    assert_eq!(monitor.phase(), Phase::Handshaking(Handshake::FailureMessage(4)));
    assert_eq!(monitor.handle(received(b"sy")), gave_up(Fault::Rejected(b"busy".to_vec())));
    assert_eq!(monitor.phase(), Phase::Disconnected);
}

#[test]
fn refusal_with_an_empty_reason() {
    let mut monitor = handshaking();
    assert_eq!(monitor.handle(received(b"FAIL0000")), gave_up(Fault::Rejected(vec![])));
}

#[test]
fn refusal_with_a_bad_length_field() {
    let mut monitor = handshaking();
    assert_eq!(
        monitor.handle(received(b"FAIL00zzbusy")),
        gave_up(Fault::BadLength(b"00zz".to_vec()))
    );
    assert_eq!(monitor.phase(), Phase::Disconnected);
}

#[test]
fn unknown_status_word_is_a_fault() {
    let mut monitor = handshaking();
    assert_eq!(
        monitor.handle(received(b"WHAT0004busy")),
        gave_up(Fault::BadStatus(b"WHAT".to_vec()))
    );
    assert_eq!(monitor.phase(), Phase::Disconnected);
    assert_eq!(monitor.unread(), 0);
}

#[test]
fn bad_length_field_while_tracking_is_a_fault() {
    let mut monitor = tracking();
    let mut bytes = frame(b"A\tonline\n");
    bytes.extend_from_slice(b"12G4rest");
    let reaction = monitor.handle(Event::Received(bytes));
    assert_eq!(
        reaction,
        Reaction {
            notifications: vec![appeared("A")],
            fault: Some(Fault::BadLength(b"12G4".to_vec())),
            directive: Directive::Backoff,
        }
    );
    assert_eq!(monitor.phase(), Phase::Disconnected);
    assert_eq!(monitor.unread(), 0);
}

#[test]
fn device_table_outlives_the_connection() {
    let mut monitor = tracking();
    monitor.handle(received(&frame(b"A\tonline\nB\tonline\n")));
    assert_eq!(monitor.handle(Event::Lost), gave_up(Fault::ConnectionLost));
    assert!(monitor.devices().is_online("A"));
    monitor.handle(Event::Wake);
    monitor.handle(Event::Connected);
    monitor.handle(Event::Sent);
    monitor.handle(received(b"OKAY"));
    let reaction = monitor.handle(received(&frame(b"B\tonline\nC\tonline\n")));
    assert_eq!(reaction.notifications, vec![disappeared("A"), appeared("C")]);
}

#[test]
fn bytes_of_a_lost_connection_are_not_read_on_the_next() {
    let mut monitor = tracking();
    monitor.handle(received(b"00"));
    assert_eq!(monitor.unread(), 2);
    monitor.handle(Event::Lost);
    monitor.handle(Event::Wake);
    monitor.handle(Event::Connected);
    assert_eq!(monitor.unread(), 0);
    monitor.handle(Event::Sent);
    assert_eq!(monitor.handle(received(b"OKAY")), quiet(Directive::Receive));
    assert_eq!(monitor.phase(), Phase::Tracking(None));
}

#[test]
fn lost_during_handshake() {
    let mut monitor = handshaking();
    assert_eq!(monitor.handle(Event::Lost), gave_up(Fault::ConnectionLost));
    assert_eq!(monitor.phase(), Phase::Disconnected);
}

#[test]
fn events_out_of_place_reset_the_monitor() {
    let mut monitor = DeviceMonitor::new();
    assert_eq!(monitor.handle(Event::Connected), gave_up(Fault::Unexpected));
    assert_eq!(monitor.handle(Event::ConnectFailed), gave_up(Fault::Unexpected));
    assert_eq!(monitor.handle(Event::Sent), gave_up(Fault::Unexpected));
    assert_eq!(monitor.handle(received(b"OKAY")), gave_up(Fault::Unexpected));
    assert_eq!(monitor.handle(Event::Lost), gave_up(Fault::Unexpected));
    assert_eq!(monitor.phase(), Phase::Disconnected);

    let mut monitor = DeviceMonitor::new();
    monitor.handle(Event::Wake);
    assert_eq!(monitor.handle(Event::Sent), gave_up(Fault::Unexpected));
    assert_eq!(monitor.phase(), Phase::Disconnected);

    let mut monitor = handshaking();
    assert_eq!(monitor.handle(Event::Wake), gave_up(Fault::Unexpected));
    assert_eq!(monitor.phase(), Phase::Disconnected);

    let mut monitor = tracking();
    assert_eq!(monitor.handle(Event::Sent), gave_up(Fault::Unexpected));
    assert_eq!(monitor.phase(), Phase::Disconnected);

    let mut monitor = tracking();
    assert_eq!(monitor.handle(Event::Connected), gave_up(Fault::Unexpected));
    assert_eq!(monitor.phase(), Phase::Disconnected);
}

#[test]
fn malformed_line_in_a_frame_is_skipped() {
    let mut monitor = tracking();
    let reaction = monitor.handle(received(&frame(b"A\tonline\nnonsense\nB\tonline\n")));
    assert_eq!(reaction.notifications, vec![appeared("A"), appeared("B")]);
    assert_eq!(reaction.fault, None);
    assert_eq!(monitor.phase(), Phase::Tracking(None));
}

#[test]
fn largest_frame_is_read() {
    let mut payload = Vec::new();
    let mut count = 0;
    while payload.len() + 16 < 0xFFFF {
        payload.extend_from_slice(format!("dev{:05}\tonline\n", count).as_bytes());
        count += 1;
    }
    while payload.len() < 0xFFFF {
        payload.push(b'\n');
    }
    assert_eq!(payload.len(), 0xFFFF);
    let mut monitor = tracking();
    let mut bytes = b"ffff".to_vec();
    bytes.extend_from_slice(&payload);
    let reaction = monitor.handle(Event::Received(bytes));
    assert_eq!(reaction.fault, None);
    assert_eq!(reaction.notifications.len(), count);
    assert_eq!(monitor.devices().len(), count);
    assert_eq!(monitor.unread(), 0);
}
