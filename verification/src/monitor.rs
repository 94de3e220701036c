//! The device monitor: the decisions of the client, as a state machine.
//!
//! The monitor owns no socket. Whoever drives it performs what the monitor
//! directs (connect, send, receive, wait) and reports what came of it as the
//! next event. The monitor keeps the bytes that were received and not yet
//! read, and the device table of the last frame. The table outlives a lost
//! connection, so that a device that stays attached while the connection is
//! restored is not announced a second time.

use crate::byte_buffer::ByteBuffer;
use crate::device::{DeviceState, DeviceTable};
use crate::diff::{
    diff, diff_between, lemma_same_table_changes_nothing, notices_of, Notice, Notification,
};
use crate::payload::{parse_payload, payload_table};
use crate::wire::{
    field_length, frame, parse_length, parse_status, track_devices_payload,
    track_devices_request, word_status, Status, FIELD_WIDTH,
};
use vstd::prelude::*;

verus! {

/// What the monitor waits for while it shakes hands with the server.
#[derive(Clone, Copy, Debug, PartialEq, Eq, Structural)]
pub enum Handshake {
    /// The status word that answers the request.
    Status,
    /// The length field of the reason for a refusal.
    FailureLength,
    /// The reason for a refusal, of the given length.
    FailureMessage(u16),
}

/// State of the monitor.
#[derive(Clone, Copy, Debug, PartialEq, Eq, Structural)]
pub enum Phase {
    /// No connection, and none being opened.
    Disconnected,
    /// A connection is being opened.
    Connecting,
    /// The request was issued and its answer is awaited.
    Handshaking(Handshake),
    /// Frames are read. With `Some(n)` the length field of a frame was read
    /// and its payload of `n` bytes is awaited.
    Tracking(Option<u16>),
}

/// What the driver reports to the monitor.
#[derive(Clone, Debug, PartialEq, Eq)]
pub enum Event {
    /// The monitor was started, or the backoff interval has passed.
    Wake,
    /// The connection was opened.
    Connected,
    /// The connection could not be opened.
    ConnectFailed,
    /// The bytes to send were written.
    Sent,
    /// These bytes were received.
    Received(Vec<u8>),
    /// The connection was closed, or reading or writing failed.
    Lost,
}

/// What an event says.
pub enum EventView {
    Wake,
    Connected,
    ConnectFailed,
    Sent,
    Received(Seq<u8>),
    Lost,
}

impl View for Event {
    type V = EventView;

    open spec fn view(&self) -> EventView {
        match self {
            Event::Wake => EventView::Wake,
            Event::Connected => EventView::Connected,
            Event::ConnectFailed => EventView::ConnectFailed,
            Event::Sent => EventView::Sent,
            Event::Received(bytes) => EventView::Received(bytes@),
            Event::Lost => EventView::Lost,
        }
    }
}

/// What the monitor asks the driver to do next.
#[derive(Clone, Debug, PartialEq, Eq)]
pub enum Directive {
    /// Open a connection to the server; report `Connected` or
    /// `ConnectFailed`.
    Connect,
    /// Write these bytes to the connection; report `Sent` or `Lost`.
    Send(Vec<u8>),
    /// Read from the connection; report `Received` or `Lost`.
    Receive,
    /// Close the connection if there is one, wait for the backoff interval,
    /// and report `Wake`.
    Backoff,
}

/// What a directive asks for.
pub enum DirectiveView {
    Connect,
    Send(Seq<u8>),
    Receive,
    Backoff,
}

impl View for Directive {
    type V = DirectiveView;

    open spec fn view(&self) -> DirectiveView {
        match self {
            Directive::Connect => DirectiveView::Connect,
            Directive::Send(bytes) => DirectiveView::Send(bytes@),
            Directive::Receive => DirectiveView::Receive,
            Directive::Backoff => DirectiveView::Backoff,
        }
    }
}

/// Why the monitor gave up a connection or an attempt at one. None of these
/// is fatal: the monitor backs off and connects again.
#[derive(Clone, Debug, PartialEq, Eq)]
pub enum Fault {
    /// The connection could not be opened.
    ConnectFailed,
    /// The connection was closed, or reading or writing failed.
    ConnectionLost,
    /// The server refused the request, with this reason.
    Rejected(Vec<u8>),
    /// These four bytes stood where a status word was due.
    BadStatus(Vec<u8>),
    /// These four bytes stood where a length field was due.
    BadLength(Vec<u8>),
    /// The driver reported an event that cannot occur in the monitor's state.
    Unexpected,
}

/// What a fault says.
pub enum FaultView {
    ConnectFailed,
    ConnectionLost,
    Rejected(Seq<u8>),
    BadStatus(Seq<u8>),
    BadLength(Seq<u8>),
    Unexpected,
}

impl View for Fault {
    type V = FaultView;

    open spec fn view(&self) -> FaultView {
        match self {
            Fault::ConnectFailed => FaultView::ConnectFailed,
            Fault::ConnectionLost => FaultView::ConnectionLost,
            Fault::Rejected(reason) => FaultView::Rejected(reason@),
            Fault::BadStatus(word) => FaultView::BadStatus(word@),
            Fault::BadLength(field) => FaultView::BadLength(field@),
            Fault::Unexpected => FaultView::Unexpected,
        }
    }
}

/// What a fault that may be there says.
pub open spec fn fault_view(fault: Option<Fault>) -> Option<FaultView> {
    match fault {
        Some(fault) => Some(fault@),
        None => None,
    }
}

/// The monitor's answer to an event.
#[derive(Clone, Debug, PartialEq, Eq)]
pub struct Reaction {
    /// The calls to make on the callback interface, in this order, before
    /// the directive is carried out.
    pub notifications: Vec<Notification>,
    /// The fault to log, if the event brought one to light.
    pub fault: Option<Fault>,
    /// What to do next.
    pub directive: Directive,
}

/// What a reaction holds.
pub struct ReactionView {
    pub notices: Seq<Notice>,
    pub fault: Option<FaultView>,
    pub directive: DirectiveView,
}

impl View for Reaction {
    type V = ReactionView;

    open spec fn view(&self) -> ReactionView {
        ReactionView {
            notices: self.notifications.deep_view(),
            fault: fault_view(self.fault),
            directive: self.directive@,
        }
    }
}

/// What a monitor holds: its state, the bytes received and not yet read, and
/// the device table of the last frame.
pub struct MonitorView {
    pub phase: Phase,
    pub unread: Seq<u8>,
    pub devices: Map<Seq<char>, DeviceState>,
}

/// Where reading the received bytes has led.
pub struct Progress {
    pub phase: Phase,
    pub unread: Seq<u8>,
    pub devices: Map<Seq<char>, DeviceState>,
    pub notices: Seq<Notice>,
    pub fault: Option<FaultView>,
}

/// Reading stops until more bytes arrive.
pub open spec fn waiting(
    phase: Phase,
    unread: Seq<u8>,
    devices: Map<Seq<char>, DeviceState>,
) -> Progress {
    Progress { phase, unread, devices, notices: Seq::empty(), fault: None }
}

/// Reading stops for good: the connection is given up and the bytes that
/// were not read are dropped.
pub open spec fn failed(devices: Map<Seq<char>, DeviceState>, fault: FaultView) -> Progress {
    Progress {
        phase: Phase::Disconnected,
        unread: Seq::empty(),
        devices,
        notices: Seq::empty(),
        fault: Some(fault),
    }
}

/// `progress`, with `notices` delivered before its own.
pub open spec fn preceded_by(notices: Seq<Notice>, progress: Progress) -> Progress {
    Progress { notices: notices + progress.notices, ..progress }
}

/// Reads as much of `unread` as has arrived in full.
///
/// During the handshake a status word is read: `OKAY` starts the tracking,
/// `FAIL` is followed by a frame with the reason, and any other word is a
/// fault. While tracking, frame after frame is read: a length field, then
/// the payload. Each payload states a device table, which takes the place of
/// the previous one; the notifications are those of the diff between the
/// two.
pub open spec fn drain(
    phase: Phase,
    unread: Seq<u8>,
    devices: Map<Seq<char>, DeviceState>,
) -> Progress
    decreases unread.len(), (if phase matches Phase::Tracking(Some(_)) { 1int } else { 0int }),
{
    match phase {
        Phase::Handshaking(Handshake::Status) => {
            if unread.len() < 4 {
                waiting(phase, unread, devices)
            } else {
                match word_status(unread.take(4)) {
                    Some(Status::Okay) => drain(Phase::Tracking(None), unread.skip(4), devices),
                    Some(Status::Fail) => drain(
                        Phase::Handshaking(Handshake::FailureLength),
                        unread.skip(4),
                        devices,
                    ),
                    None => failed(devices, FaultView::BadStatus(unread.take(4))),
                }
            }
        },
        Phase::Handshaking(Handshake::FailureLength) => {
            if unread.len() < 4 {
                waiting(phase, unread, devices)
            } else {
                match field_length(unread.take(4)) {
                    Some(length) => drain(
                        Phase::Handshaking(Handshake::FailureMessage(length as u16)),
                        unread.skip(4),
                        devices,
                    ),
                    None => failed(devices, FaultView::BadLength(unread.take(4))),
                }
            }
        },
        Phase::Handshaking(Handshake::FailureMessage(length)) => {
            if unread.len() < length {
                waiting(phase, unread, devices)
            } else {
                failed(devices, FaultView::Rejected(unread.take(length as int)))
            }
        },
        Phase::Tracking(None) => {
            if unread.len() < 4 {
                waiting(phase, unread, devices)
            } else {
                match field_length(unread.take(4)) {
                    Some(length) => drain(
                        Phase::Tracking(Some(length as u16)),
                        unread.skip(4),
                        devices,
                    ),
                    None => failed(devices, FaultView::BadLength(unread.take(4))),
                }
            }
        },
        Phase::Tracking(Some(length)) => {
            if unread.len() < length {
                waiting(phase, unread, devices)
            } else {
                let next = payload_table(unread.take(length as int));
                preceded_by(
                    notices_of(diff_between(devices, next)),
                    drain(Phase::Tracking(None), unread.skip(length as int), next),
                )
            }
        },
        _ => waiting(phase, unread, devices),
    }
}

/// The monitor after an event for which there is nothing to announce.
pub open spec fn quietly(
    phase: Phase,
    unread: Seq<u8>,
    devices: Map<Seq<char>, DeviceState>,
    fault: Option<FaultView>,
    directive: DirectiveView,
) -> (MonitorView, ReactionView) {
    (
        MonitorView { phase, unread, devices },
        ReactionView { notices: Seq::empty(), fault, directive },
    )
}

/// The monitor after it gave up its connection over `fault`: it is
/// disconnected, holds no unread bytes, and directs a backoff.
pub open spec fn given_up(devices: Map<Seq<char>, DeviceState>, fault: FaultView) -> (
    MonitorView,
    ReactionView,
) {
    quietly(Phase::Disconnected, Seq::empty(), devices, Some(fault), DirectiveView::Backoff)
}

/// The transition of the monitor: its next state and its reaction, for each
/// state and event.
pub open spec fn step(state: MonitorView, event: EventView) -> (MonitorView, ReactionView) {
    match (state.phase, event) {
        (Phase::Disconnected, EventView::Wake) | (Phase::Connecting, EventView::Wake) => quietly(
            Phase::Connecting,
            state.unread,
            state.devices,
            None,
            DirectiveView::Connect,
        ),
        (Phase::Connecting, EventView::Connected) => quietly(
            Phase::Handshaking(Handshake::Status),
            Seq::empty(),
            state.devices,
            None,
            DirectiveView::Send(frame(track_devices_payload())),
        ),
        (Phase::Connecting, EventView::ConnectFailed) => quietly(
            Phase::Connecting,
            state.unread,
            state.devices,
            Some(FaultView::ConnectFailed),
            DirectiveView::Backoff,
        ),
        (Phase::Handshaking(_), EventView::Sent) => quietly(
            state.phase,
            state.unread,
            state.devices,
            None,
            DirectiveView::Receive,
        ),
        (Phase::Handshaking(_), EventView::Received(bytes))
        | (Phase::Tracking(_), EventView::Received(bytes)) => {
            let progress = drain(state.phase, state.unread + bytes, state.devices);
            (
                MonitorView {
                    phase: progress.phase,
                    unread: progress.unread,
                    devices: progress.devices,
                },
                ReactionView {
                    notices: progress.notices,
                    fault: progress.fault,
                    directive: if progress.fault is Some {
                        DirectiveView::Backoff
                    } else {
                        DirectiveView::Receive
                    },
                },
            )
        },
        (Phase::Handshaking(_), EventView::Lost) | (Phase::Tracking(_), EventView::Lost) => {
            given_up(state.devices, FaultView::ConnectionLost)
        },
        _ => given_up(state.devices, FaultView::Unexpected),
    }
}

/// A reaction with nothing to announce.
fn quiet(fault: Option<Fault>, directive: Directive) -> (reaction: Reaction)
    ensures
        reaction@ == (ReactionView {
            notices: Seq::empty(),
            fault: fault_view(fault),
            directive: directive@,
        }),
{
    let reaction = Reaction { notifications: Vec::new(), fault, directive };
    assert(reaction.notifications.deep_view() =~= Seq::<Notice>::empty());
    reaction
}

/// The device monitor.
pub struct DeviceMonitor {
    phase: Phase,
    buffer: ByteBuffer,
    devices: DeviceTable,
}

impl View for DeviceMonitor {
    type V = MonitorView;

    closed spec fn view(&self) -> MonitorView {
        MonitorView { phase: self.phase, unread: self.buffer@, devices: self.devices@ }
    }
}

impl DeviceMonitor {
    /// The buffer and the device table of the monitor are well formed.
    pub closed spec fn wf(&self) -> bool {
        self.buffer.wf() && self.devices.wf()
    }

    /// A monitor that is disconnected and knows of no device.
    pub fn new() -> (monitor: DeviceMonitor)
        ensures
            monitor.wf(),
            monitor@ == (MonitorView {
                phase: Phase::Disconnected,
                unread: Seq::empty(),
                devices: Map::empty(),
            }),
    {
        DeviceMonitor {
            phase: Phase::Disconnected,
            buffer: ByteBuffer::new(),
            devices: DeviceTable::new(),
        }
    }

    /// The state of the monitor.
    pub fn phase(&self) -> (phase: Phase)
        ensures
            phase == self@.phase,
    {
        self.phase
    }

    /// The device table of the last frame.
    pub fn devices(&self) -> (devices: &DeviceTable)
        requires
            self.wf(),
        ensures
            devices.wf(),
            devices@ == self@.devices,
    {
        &self.devices
    }

    /// Number of bytes that were received and not yet read.
    pub fn unread(&self) -> (n: usize)
        requires
            self.wf(),
        ensures
            n == self@.unread.len(),
    {
        self.buffer.len()
    }

    /// Takes in an event and says what to do next.
    pub fn handle(&mut self, event: Event) -> (reaction: Reaction)
        requires
            old(self).wf(),
        ensures
            final(self).wf(),
            (final(self)@, reaction@) == step(old(self)@, event@),
    {
        match event {
            Event::Wake => match self.phase {
                Phase::Disconnected | Phase::Connecting => {
                    self.phase = Phase::Connecting;
                    quiet(None, Directive::Connect)
                },
                _ => self.give_up(Fault::Unexpected),
            },
            Event::Connected => match self.phase {
                Phase::Connecting => {
                    self.phase = Phase::Handshaking(Handshake::Status);
                    self.buffer = ByteBuffer::new();
                    quiet(None, Directive::Send(track_devices_request()))
                },
                _ => self.give_up(Fault::Unexpected),
            },
            Event::ConnectFailed => match self.phase {
                Phase::Connecting => quiet(Some(Fault::ConnectFailed), Directive::Backoff),
                _ => self.give_up(Fault::Unexpected),
            },
            Event::Sent => match self.phase {
                Phase::Handshaking(_) => quiet(None, Directive::Receive),
                _ => self.give_up(Fault::Unexpected),
            },
            Event::Received(bytes) => match self.phase {
                Phase::Handshaking(_) | Phase::Tracking(_) => {
                    self.buffer.append(bytes.as_slice());
                    self.read_unread()
                },
                _ => self.give_up(Fault::Unexpected),
            },
            Event::Lost => match self.phase {
                Phase::Handshaking(_) | Phase::Tracking(_) => self.give_up(Fault::ConnectionLost),
                _ => self.give_up(Fault::Unexpected),
            },
        }
    }

    /// Gives up the connection over `fault`.
    fn give_up(&mut self, fault: Fault) -> (reaction: Reaction)
        requires
            old(self).wf(),
        ensures
            final(self).wf(),
            (final(self)@, reaction@) == given_up(old(self)@.devices, fault@),
    {
        self.phase = Phase::Disconnected;
        self.buffer = ByteBuffer::new();
        quiet(Some(fault), Directive::Backoff)
    }

    /// Reads as much of the unread bytes as has arrived in full.
    fn read_unread(&mut self) -> (reaction: Reaction)
        requires
            old(self).wf(),
            old(self).phase is Handshaking || old(self).phase is Tracking,
        ensures
            final(self).wf(),
            ({
                let progress = drain(old(self)@.phase, old(self)@.unread, old(self)@.devices);
                &&& final(self)@ == (MonitorView {
                    phase: progress.phase,
                    unread: progress.unread,
                    devices: progress.devices,
                })
                &&& reaction@ == (ReactionView {
                    notices: progress.notices,
                    fault: progress.fault,
                    directive: if progress.fault is Some {
                        DirectiveView::Backoff
                    } else {
                        DirectiveView::Receive
                    },
                })
            }),
    {
        let ghost goal = drain(self@.phase, self@.unread, self@.devices);
        let mut notifications: Vec<Notification> = Vec::new();
        let mut fault: Option<Fault> = None;
        assert(preceded_by(
            notifications.deep_view(),
            drain(self@.phase, self@.unread, self@.devices),
        ) == goal) by {
            assert(notifications.deep_view() + goal.notices =~= goal.notices);
        }
        loop
            invariant_except_break
                self.wf(),
                fault is None,
                goal == preceded_by(
                    notifications.deep_view(),
                    drain(self@.phase, self@.unread, self@.devices),
                ),
            ensures
                self.wf(),
                self@ == (MonitorView {
                    phase: goal.phase,
                    unread: goal.unread,
                    devices: goal.devices,
                }),
                notifications.deep_view() == goal.notices,
                fault_view(fault) == goal.fault,
            decreases
                self@.unread.len(),
                (if self@.phase matches Phase::Tracking(Some(_)) {
                    1int
                } else {
                    0int
                }),
        {
            let ghost unread = self@.unread;
            let ghost announced = notifications.deep_view();
            let wanted: usize = match self.phase {
                Phase::Handshaking(Handshake::FailureMessage(length)) => length as usize,
                Phase::Tracking(Some(length)) => length as usize,
                _ => FIELD_WIDTH,
            };
            let taken = match self.phase {
                Phase::Handshaking(_) | Phase::Tracking(_) => self.buffer.try_take_exact(wanted),
                _ => None,
            };
            match taken {
                None => {
                    assert(announced + Seq::<Notice>::empty() =~= announced);
                    break ;
                },
                Some(bytes) => {
                    assert(bytes@ == unread.take(wanted as int));
                    assert(self@.unread == unread.skip(wanted as int));
                    match self.phase {
                        Phase::Handshaking(Handshake::Status) => match parse_status(
                            bytes.as_slice(),
                        ) {
                            Some(Status::Okay) => {
                                self.phase = Phase::Tracking(None);
                            },
                            Some(Status::Fail) => {
                                self.phase = Phase::Handshaking(Handshake::FailureLength);
                            },
                            None => {
                                fault = Some(Fault::BadStatus(bytes));
                            },
                        },
                        Phase::Handshaking(Handshake::FailureLength) => match parse_length(
                            bytes.as_slice(),
                        ) {
                            Some(length) => {
                                self.phase = Phase::Handshaking(Handshake::FailureMessage(length));
                            },
                            None => {
                                fault = Some(Fault::BadLength(bytes));
                            },
                        },
                        Phase::Handshaking(Handshake::FailureMessage(_)) => {
                            fault = Some(Fault::Rejected(bytes));
                        },
                        Phase::Tracking(None) => match parse_length(bytes.as_slice()) {
                            Some(length) => {
                                self.phase = Phase::Tracking(Some(length));
                            },
                            None => {
                                fault = Some(Fault::BadLength(bytes));
                            },
                        },
                        Phase::Tracking(Some(_)) => {
                            let next = parse_payload(bytes.as_slice());
                            let changes = diff(&self.devices, &next);
                            let mut calls = changes.notifications();
                            let ghost added = calls.deep_view();
                            notifications.append(&mut calls);
                            self.devices = next;
                            self.phase = Phase::Tracking(None);
                            proof {
                                assert(notifications.deep_view() =~= announced + added);
                                let later = drain(self@.phase, self@.unread, self@.devices);
                                assert((announced + added) + later.notices =~= announced + (added
                                    + later.notices));
                            }
                        },
                        _ => {},
                    }
                    if fault.is_some() {
                        self.phase = Phase::Disconnected;
                        self.buffer = ByteBuffer::new();
                        assert(announced + Seq::<Notice>::empty() =~= announced);
                        break ;
                    }
                },
            }
        }
        self.buffer.compact();
        let directive = if fault.is_some() {
            Directive::Backoff
        } else {
            Directive::Receive
        };
        Reaction { notifications, fault, directive }
    }
}

/// While bytes are read and no fault comes to light the monitor stays
/// connected; a fault disconnects it and drops what was not read. A handshake
/// that fails announces nothing and leaves the device table as it was.
pub proof fn lemma_drain_outcome(
    phase: Phase,
    unread: Seq<u8>,
    devices: Map<Seq<char>, DeviceState>,
)
    requires
        phase is Handshaking || phase is Tracking,
    ensures
        ({
            let progress = drain(phase, unread, devices);
            &&& progress.fault is None ==> progress.phase is Handshaking
                || progress.phase is Tracking
            &&& progress.fault is Some ==> progress.phase is Disconnected && progress.unread.len()
                == 0
            &&& phase is Tracking ==> progress.fault is None || progress.fault->0 is BadLength
            &&& progress.fault is Some && (progress.fault->0 is Rejected
                || progress.fault->0 is BadStatus) ==> progress.notices == Seq::<Notice>::empty()
                && progress.devices == devices
        }),
    decreases unread.len(), (if phase matches Phase::Tracking(Some(_)) { 1int } else { 0int }),
{
    match phase {
        Phase::Handshaking(Handshake::Status) => {
            if unread.len() >= 4 {
                match word_status(unread.take(4)) {
                    Some(Status::Okay) => lemma_drain_outcome(
                        Phase::Tracking(None),
                        unread.skip(4),
                        devices,
                    ),
                    Some(Status::Fail) => lemma_drain_outcome(
                        Phase::Handshaking(Handshake::FailureLength),
                        unread.skip(4),
                        devices,
                    ),
                    None => {},
                }
            }
        },
        Phase::Handshaking(Handshake::FailureLength) => {
            if unread.len() >= 4 {
                match field_length(unread.take(4)) {
                    Some(length) => lemma_drain_outcome(
                        Phase::Handshaking(Handshake::FailureMessage(length as u16)),
                        unread.skip(4),
                        devices,
                    ),
                    None => {},
                }
            }
        },
        Phase::Tracking(None) => {
            if unread.len() >= 4 {
                match field_length(unread.take(4)) {
                    Some(length) => lemma_drain_outcome(
                        Phase::Tracking(Some(length as u16)),
                        unread.skip(4),
                        devices,
                    ),
                    None => {},
                }
            }
        },
        Phase::Tracking(Some(length)) => {
            if unread.len() >= length {
                lemma_drain_outcome(
                    Phase::Tracking(None),
                    unread.skip(length as int),
                    payload_table(unread.take(length as int)),
                );
            }
        },
        _ => {},
    }
}

/// Reading can stop and go on: what is read from bytes that arrive in two
/// parts is what is read from the first part, followed by what is read from
/// the rest of it and the second part. After a fault nothing more is read.
pub proof fn lemma_drain_resumes(
    phase: Phase,
    unread: Seq<u8>,
    more: Seq<u8>,
    devices: Map<Seq<char>, DeviceState>,
)
    ensures
        ({
            let progress = drain(phase, unread, devices);
            &&& progress.fault is None ==> drain(phase, unread + more, devices) == preceded_by(
                progress.notices,
                drain(progress.phase, progress.unread + more, progress.devices),
            )
            &&& progress.fault is Some ==> drain(phase, unread + more, devices) == progress
        }),
    decreases unread.len(), (if phase matches Phase::Tracking(Some(_)) { 1int } else { 0int }),
{
    let progress = drain(phase, unread, devices);
    let all = unread + more;
    let direct = drain(phase, all, devices);
    let wanted: int = match phase {
        Phase::Handshaking(Handshake::FailureMessage(length)) => length as int,
        Phase::Tracking(Some(length)) => length as int,
        _ => 4,
    };
    if (phase is Handshaking || phase is Tracking) && unread.len() >= wanted {
        assert(all.take(wanted) =~= unread.take(wanted));
        assert(all.skip(wanted) =~= unread.skip(wanted) + more);
        match phase {
            Phase::Handshaking(Handshake::Status) => {
                match word_status(unread.take(4)) {
                    Some(Status::Okay) => lemma_drain_resumes(
                        Phase::Tracking(None),
                        unread.skip(4),
                        more,
                        devices,
                    ),
                    Some(Status::Fail) => lemma_drain_resumes(
                        Phase::Handshaking(Handshake::FailureLength),
                        unread.skip(4),
                        more,
                        devices,
                    ),
                    None => {},
                }
            },
            Phase::Handshaking(Handshake::FailureLength) => {
                match field_length(unread.take(4)) {
                    Some(length) => lemma_drain_resumes(
                        Phase::Handshaking(Handshake::FailureMessage(length as u16)),
                        unread.skip(4),
                        more,
                        devices,
                    ),
                    None => {},
                }
            },
            Phase::Tracking(None) => {
                match field_length(unread.take(4)) {
                    Some(length) => lemma_drain_resumes(
                        Phase::Tracking(Some(length as u16)),
                        unread.skip(4),
                        more,
                        devices,
                    ),
                    None => {},
                }
            },
            Phase::Tracking(Some(length)) => {
                let next = payload_table(unread.take(length as int));
                let announced = notices_of(diff_between(devices, next));
                let later = drain(Phase::Tracking(None), unread.skip(length as int), next);
                lemma_drain_resumes(Phase::Tracking(None), unread.skip(length as int), more, next);
                if later.fault is None {
                    let rest = drain(later.phase, later.unread + more, later.devices);
                    assert(announced + (later.notices + rest.notices) =~= (announced
                        + later.notices) + rest.notices);
                }
            },
            _ => {},
        }
    } else {
        assert(progress == waiting(phase, unread, devices));
        assert(Seq::<Notice>::empty() + direct.notices =~= direct.notices);
    }
}

/// Chunk boundaries do not show: bytes that arrive in two chunks lead to the
/// state and to the notifications that the same bytes lead to in one chunk.
/// Where the first chunk brings a fault to light, the rest is not read.
pub proof fn lemma_received_in_two_chunks(state: MonitorView, first: Seq<u8>, second: Seq<u8>)
    requires
        state.phase is Handshaking || state.phase is Tracking,
    ensures
        ({
            let whole = step(state, EventView::Received(first + second));
            let one = step(state, EventView::Received(first));
            let two = step(one.0, EventView::Received(second));
            &&& one.1.fault is None ==> {
                &&& whole.0 == two.0
                &&& whole.1.notices == one.1.notices + two.1.notices
                &&& whole.1.fault == two.1.fault
                &&& whole.1.directive == two.1.directive
            }
            &&& one.1.fault is Some ==> whole == one
        }),
{
    assert((state.unread + first) + second =~= state.unread + (first + second));
    lemma_drain_resumes(state.phase, state.unread + first, second, state.devices);
    lemma_drain_outcome(state.phase, state.unread + first, state.devices);
}

/// The monitor never gives up: whatever the state and the event, a fault is
/// answered by a backoff, and the wake-up after a backoff starts a new
/// connection.
pub proof fn lemma_fault_leads_to_reconnect(state: MonitorView, event: EventView)
    ensures
        ({
            let (after, reaction) = step(state, event);
            let (woken, next) = step(after, EventView::Wake);
            &&& reaction.fault is Some <==> reaction.directive is Backoff
            &&& reaction.directive is Backoff ==> {
                &&& after.phase is Disconnected || after.phase is Connecting
                &&& woken.phase is Connecting
                &&& next.directive is Connect
                &&& next.fault is None
                &&& woken.devices == after.devices
            }
        }),
{
    if state.phase is Handshaking || state.phase is Tracking {
        if let EventView::Received(bytes) = event {
            lemma_drain_outcome(state.phase, state.unread + bytes, state.devices);
        }
    }
}

/// A frame that states the table that the monitor holds announces nothing
/// and leaves the table as it is.
pub proof fn lemma_repeated_frame_is_silent(payload: Seq<u8>, unread: Seq<u8>)
    requires
        payload.len() <= 0xFFFF,
    ensures
        drain(Phase::Tracking(Some(payload.len() as u16)), payload + unread, payload_table(payload))
            == drain(Phase::Tracking(None), unread, payload_table(payload)),
{
    let table = payload_table(payload);
    let all = payload + unread;
    assert(all.take(payload.len() as int) =~= payload);
    assert(all.skip(payload.len() as int) =~= unread);
    lemma_same_table_changes_nothing(table);
    let later = drain(Phase::Tracking(None), unread, table);
    assert(Seq::<Notice>::empty() + later.notices =~= later.notices);
}

} // verus!
