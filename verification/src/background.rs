//! The background reader: fills buffers from a source, ahead of the reader.

use crate::buffer::{progress, refilled, Buffer, BufferView, ReadOutcome, Refill};
use crate::channel::{Inbox, Look, Outbox, Polled};
use crate::message::{
    commands_in, finding, found_in, incoming, outgoing, searches, Command, Incoming, Links,
    SeekFrom,
};
use vstd::prelude::*;

verus! {

/// The half of a pair that fills buffers, for a [`SmartBuf`](crate::SmartBuf) to read.
///
/// It does not touch the source itself. It says what is to be done with the source, an
/// [`Action`], and is told what came of it, an [`Event`].
#[verifier::reject_recursive_types(E)]
pub struct BackgroundReader<E> {
    empty_recv: Inbox<Option<Buffer>>,
    full_send: Outbox<Result<Buffer, E>>,
    cmd_recv: Inbox<Command>,
    current_generation: u64,
    current_pos: u64,
    pending_seek: bool,
    phase: Phase,
    spare: Option<Buffer>,
}

/// What the background reader is in the middle of.
enum Phase {
    Ready,
    Seeking { generation: u64, pos: SeekFrom },
    Filling(Buffer),
    Stopped,
}

/// What a background reader asks for.
#[derive(Debug, Clone, Copy, PartialEq, Eq, Structural)]
pub enum Action {
    /// Seek in the source.
    Seek(SeekFrom),
    /// Read up to this many bytes of the source.
    Read(usize),
    /// Let others run for a while.
    Yield,
    /// Nothing more; the background reader has stopped.
    Stop,
}

/// What came of an [`Action`].
#[derive(Debug)]
pub enum Event<E> {
    /// Nothing was to be done with the source.
    Resume,
    /// The source now stands at this position.
    Sought(u64),
    /// The source could not seek.
    SeekFailed(E),
    /// The source was read.
    Read(ReadOutcome<E>),
}

/// What the background reader is in the middle of.
pub enum PhaseView {
    /// Between two actions on the source.
    Ready,
    /// A seek in the source, for a command of this generation.
    Seeking { generation: int, pos: SeekFrom },
    /// A read of the source into this buffer.
    Filling(BufferView),
    /// No more.
    Stopped,
}

/// The state of a [`BackgroundReader`].
#[verifier::ext_equal]
pub struct BackgroundView<E> {
    /// The generation that buffers are marked with.
    pub current_generation: int,
    /// The position in the source of the next buffer.
    pub current_pos: int,
    /// Whether a seek was done and no buffer taken since.
    pub pending_seek: bool,
    /// What is going on.
    pub phase: PhaseView,
    /// A buffer in hand that waits to be filled: a read into it was interrupted before it gave
    /// anything.
    pub spare: Option<BufferView>,
    /// The channels to the reader.
    pub links: Links,
    /// The looks for a command.
    pub command_looks: Seq<Look<Command>>,
    /// The looks for a buffer to be filled.
    pub buffer_looks: Seq<Look<Option<BufferView>>>,
    /// What was handed to the channel of filled buffers.
    pub sent: Seq<Incoming<E>>,
    /// For each of those messages, whether the channel took it.
    pub sent_took: Seq<bool>,
}

impl<E> BackgroundView<E> {
    /// The commands that were taken, in order.
    pub open spec fn commands(self) -> Seq<Command> {
        commands_in(self.command_looks)
    }

    /// What was taken from the channel of buffers to be filled, in order.
    pub open spec fn taken(self) -> Seq<Option<BufferView>> {
        found_in(self.buffer_looks)
    }

    /// The buffer in hand, as a sequence of at most one.
    pub open spec fn in_hand(self) -> Seq<BufferView> {
        match (self.phase, self.spare) {
            (PhaseView::Filling(b), _) => seq![b],
            (_, Some(b)) => seq![b],
            (_, None) => Seq::empty(),
        }
    }

    /// What holds of a background reader between calls.
    pub open spec fn wf(self) -> bool {
        &&& 0 <= self.current_generation <= u64::MAX
        &&& 0 <= self.current_pos <= u64::MAX
        &&& match self.phase {
            PhaseView::Seeking { generation, .. } => 0 <= generation <= u64::MAX,
            PhaseView::Filling(b) => {
                &&& b.wf()
                &&& b.end < b.capacity()
                &&& b.start_pos == self.current_pos
                &&& b.generation == self.current_generation
                &&& self.spare is None
            },
            _ => true,
        }
        &&& self.spare matches Some(b) ==> b.wf() && b.end == 0
        &&& forall|i: int|
            0 <= i < self.sent.len() ==> match #[trigger] self.sent[i] {
                Incoming::Buffer(b) => b.wf(),
                Incoming::Failed(_) => true,
                Incoming::Disconnected => false,
            }
    }

    /// Whether `event` is an answer to what was asked for.
    pub open spec fn awaits(self, event: Event<E>) -> bool {
        match (self.phase, event) {
            (PhaseView::Ready, Event::Resume) => true,
            (PhaseView::Seeking { .. }, Event::Sought(_)) => true,
            (PhaseView::Seeking { .. }, Event::SeekFailed(_)) => true,
            (PhaseView::Filling(b), Event::Read(ReadOutcome::Data(bytes))) => {
                &&& b.end + bytes@.len() <= b.capacity()
                &&& b.limit() + bytes@.len() <= u64::MAX
            },
            (PhaseView::Filling(_), Event::Read(_)) => true,
            _ => false,
        }
    }

    /// The state after `command` was taken.
    pub open spec fn after_command(self, command: Command) -> Self {
        BackgroundView {
            phase: match command {
                Command::Seek { generation, pos } => PhaseView::Seeking {
                    generation: generation as int,
                    pos,
                },
                Command::Stop => PhaseView::Stopped,
            },
            ..self
        }
    }

    /// What `command` asks of the source.
    pub open spec fn command_action(command: Command) -> Action {
        match command {
            Command::Seek { pos, .. } => Action::Seek(pos),
            Command::Stop => Action::Stop,
        }
    }

    /// The state after the buffer `b` was taken.
    pub open spec fn after_buffer(self, b: BufferView) -> Self {
        BackgroundView {
            pending_seek: false,
            spare: None,
            phase: PhaseView::Filling(
                BufferView {
                    start_pos: self.current_pos,
                    end: 0,
                    generation: self.current_generation,
                    ..b
                },
            ),
            ..self
        }
    }

    /// The state after a look for a buffer came to `found`.
    pub open spec fn after_search(self, found: Polled<Option<BufferView>>) -> Self {
        match found {
            Polled::Message(Some(b)) => self.after_buffer(b),
            Polled::Empty => self,
            Polled::Message(None) | Polled::Disconnected => self.deserted(),
        }
    }

    /// What is to be done when a look for a buffer came to `found`.
    pub open spec fn search_action(found: Polled<Option<BufferView>>) -> Action {
        match found {
            Polled::Message(Some(b)) => Action::Read(b.capacity() as usize),
            Polled::Empty => Action::Yield,
            Polled::Message(None) | Polled::Disconnected => Action::Stop,
        }
    }

    /// The state with nothing more to do.
    pub open spec fn stopped(self) -> Self {
        BackgroundView { phase: PhaseView::Stopped, ..self }
    }

    /// The state after no buffer could be had any more.
    pub open spec fn deserted(self) -> Self {
        BackgroundView { pending_seek: false, ..self.stopped() }
    }

    /// The state after `message` was handed to the channel of filled buffers, which took it or
    /// not.
    pub open spec fn sending(self, message: Incoming<E>, took: bool) -> Self {
        BackgroundView {
            sent: self.sent.push(message),
            sent_took: self.sent_took.push(took),
            ..self
        }
    }

    /// The state after `filled` was handed to the channel of filled buffers, which took it or not.
    pub open spec fn passing(self, filled: BufferView, took: bool) -> Self {
        BackgroundView {
            current_pos: filled.limit(),
            phase: PhaseView::Ready,
            ..self.sending(Incoming::Buffer(filled), took)
        }
    }

    /// The state after a read into `b` was interrupted before it gave anything.
    pub open spec fn interrupted(self, b: BufferView) -> Self {
        BackgroundView { phase: PhaseView::Ready, spare: Some(b), ..self }
    }

    /// How looking for work goes from this state to `later`, with `action` to be done next. One
    /// look for a command comes first. If it finds none, a buffer in hand is filled, or one look
    /// for a buffer follows, which is a wait straight after a seek.
    pub open spec fn polls(self, later: Self, action: Action) -> bool {
        let look = later.command_looks.last();
        let asked = BackgroundView { command_looks: self.command_looks.push(look), ..self };
        &&& look is Glance
        &&& match look.found() {
            Polled::Message(command) => {
                &&& later == asked.after_command(command)
                &&& action == Self::command_action(command)
            },
            _ => match self.spare {
                Some(b) => {
                    &&& later == asked.after_buffer(b)
                    &&& action == Action::Read(b.capacity() as usize)
                },
                None => {
                    let search = later.buffer_looks.last();
                    let searched = BackgroundView {
                        buffer_looks: self.buffer_looks.push(search),
                        ..asked
                    };
                    &&& search is Wait <==> self.pending_seek
                    &&& later == searched.after_search(search.found())
                    &&& action == Self::search_action(search.found())
                },
            },
        }
    }

    /// How the background reader goes from this state to `later` on `event`, with `action` to be
    /// done next.
    pub open spec fn serves(self, event: Event<E>, later: Self, action: Action) -> bool {
        let took = later.sent_took.last();
        match (self.phase, event) {
            (PhaseView::Seeking { generation, .. }, Event::Sought(pos)) => BackgroundView {
                current_generation: generation,
                current_pos: pos as int,
                pending_seek: true,
                phase: PhaseView::Ready,
                ..self
            }.polls(later, action),
            (PhaseView::Seeking { .. }, Event::SeekFailed(e)) => {
                later == self.sending(Incoming::Failed(e), took).stopped() && action
                    == Action::Stop
            },
            (PhaseView::Filling(b), Event::Read(outcome)) => {
                let filled = refilled(b, outcome);
                match progress(b, outcome) {
                    Refill::Wants(n) => {
                        &&& later == (BackgroundView { phase: PhaseView::Filling(filled), ..self })
                        &&& action == Action::Read(n)
                    },
                    Refill::Again => self.interrupted(b).polls(later, action),
                    Refill::Done => if took {
                        self.passing(filled, took).polls(later, action)
                    } else {
                        &&& later == self.passing(filled, took).stopped()
                        &&& action == Action::Stop
                    },
                    Refill::Failed(e) => {
                        later == self.sending(Incoming::Failed(e), took).stopped() && action
                            == Action::Stop
                    },
                }
            },
            (_, _) => self.polls(later, action),
        }
    }
}

impl Phase {
    spec fn view(self) -> PhaseView {
        match self {
            Phase::Ready => PhaseView::Ready,
            Phase::Seeking { generation, pos } => PhaseView::Seeking {
                generation: generation as int,
                pos,
            },
            Phase::Filling(b) => PhaseView::Filling(b@),
            Phase::Stopped => PhaseView::Stopped,
        }
    }
}

impl<E> View for BackgroundReader<E> {
    type V = BackgroundView<E>;

    closed spec fn view(&self) -> BackgroundView<E> {
        BackgroundView {
            current_generation: self.current_generation as int,
            current_pos: self.current_pos as int,
            pending_seek: self.pending_seek,
            phase: self.phase.view(),
            spare: match self.spare {
                Some(b) => Some(b@),
                None => None,
            },
            links: Links {
                commands: self.cmd_recv.id(),
                filled: self.full_send.id(),
                empty: self.empty_recv.id(),
            },
            command_looks: self.cmd_recv.looks(),
            buffer_looks: searches(self.empty_recv.looks()),
            sent: outgoing(self.full_send.sent()),
            sent_took: self.full_send.took(),
        }
    }
}

impl<E> BackgroundReader<E> {
    /// The end to receive commands at.
    pub closed spec fn command_end(&self) -> Inbox<Command> {
        self.cmd_recv
    }

    /// The end to send filled buffers on.
    pub closed spec fn filled_end(&self) -> Outbox<Result<Buffer, E>> {
        self.full_send
    }

    /// The end to receive buffers to be filled at.
    pub closed spec fn empty_end(&self) -> Inbox<Option<Buffer>> {
        self.empty_recv
    }

    /// The view of a background reader shows all that was done at its ends of the channels.
    pub proof fn view_shows_the_ends(&self)
        ensures
            self@.command_looks == self.command_end().looks(),
            self@.buffer_looks.len() == self.empty_end().looks().len(),
            forall|i: int|
                0 <= i < self@.buffer_looks.len() ==> {
                    let look = self.empty_end().looks()[i];
                    let shown = #[trigger] self@.buffer_looks[i];
                    &&& shown is Wait <==> look is Wait
                    &&& shown.found() == finding(look.found())
                },
            self@.sent.len() == self.filled_end().sent().len(),
            forall|i: int|
                0 <= i < self@.sent.len() ==> #[trigger] self@.sent[i] == incoming(
                    Some(self.filled_end().sent()[i]),
                ),
            self@.sent_took == self.filled_end().took(),
            self@.links.commands == self.command_end().id(),
            self@.links.filled == self.filled_end().id(),
            self@.links.empty == self.empty_end().id(),
    {
    }

    /// What holds of a background reader between calls.
    pub open spec fn wf(&self) -> bool {
        self@.wf()
    }

    /// A background reader over a source that stands at `start_pos`, with its ends of the three
    /// channels.
    pub(crate) fn new(
        empty_recv: Inbox<Option<Buffer>>,
        full_send: Outbox<Result<Buffer, E>>,
        cmd_recv: Inbox<Command>,
        start_pos: u64,
    ) -> (r: Self)
        ensures
            full_send.sent().len() == 0 ==> r.wf(),
            r@ == (BackgroundView {
                command_looks: cmd_recv.looks(),
                buffer_looks: searches(empty_recv.looks()),
                sent: outgoing(full_send.sent()),
                sent_took: full_send.took(),
                ..fresh::<E>(
                    start_pos as int,
                    Links {
                        commands: cmd_recv.id(),
                        filled: full_send.id(),
                        empty: empty_recv.id(),
                    },
                )
            }),
    {
        BackgroundReader {
            empty_recv,
            full_send,
            cmd_recv,
            current_generation: 0,
            current_pos: start_pos,
            pending_seek: false,
            phase: Phase::Ready,
            spare: None,
        }
    }

    /// Hands `message` to the channel of filled buffers; false if it takes no more.
    fn offer(&mut self, message: Result<Buffer, E>) -> (r: bool)
        ensures
            final(self)@ == old(self)@.sending(incoming(Some(message)), r),
    {
        let sent = self.full_send.send(message);
        proof {
            assert(self@.sent =~= old(self)@.sent.push(incoming(Some(message))));
        }
        sent.is_ok()
    }

    /// Takes up a command.
    pub fn take_command(&mut self, command: Command) -> (r: Action)
        requires
            old(self).wf(),
            old(self)@.phase is Ready,
        ensures
            final(self).wf(),
            final(self)@ == old(self)@.after_command(command),
            r == BackgroundView::<E>::command_action(command),
    {
        match command {
            Command::Seek { generation, pos } => {
                self.phase = Phase::Seeking { generation, pos };
                Action::Seek(pos)
            },
            Command::Stop => {
                self.phase = Phase::Stopped;
                Action::Stop
            },
        }
    }

    /// Takes up `buffer`, to be filled from where the source stands.
    fn fill(&mut self, buffer: Buffer) -> (r: Action)
        requires
            old(self).wf(),
            old(self)@.phase is Ready,
            old(self)@.spare is None,
        ensures
            final(self).wf(),
            final(self)@ == old(self)@.after_buffer(buffer@),
            r == Action::Read(buffer@.capacity() as usize),
    {
        let mut buffer = buffer;
        buffer.begin(self.current_pos, self.current_generation);
        proof {
            use_type_invariant(&buffer);
        }
        let capacity: usize = buffer.capacity();
        self.pending_seek = false;
        self.phase = Phase::Filling(buffer);
        Action::Read(capacity)
    }

    /// Takes up what was found among the buffers to be filled: a buffer is filled from where the
    /// source stands, and without a buffer now there may be one later.
    pub fn take_buffer(&mut self, found: Polled<Option<Buffer>>) -> (r: Action)
        requires
            old(self).wf(),
            old(self)@.phase is Ready,
            old(self)@.spare is None,
        ensures
            final(self).wf(),
            final(self)@ == old(self)@.after_search(finding(found)),
            r == BackgroundView::<E>::search_action(finding(found)),
    {
        match found {
            Polled::Message(Some(buffer)) => self.fill(buffer),
            Polled::Empty => Action::Yield,
            Polled::Message(None) | Polled::Disconnected => {
                self.pending_seek = false;
                self.phase = Phase::Stopped;
                Action::Stop
            },
        }
    }

    /// Looks for a command, then for a buffer unless one is in hand.
    fn poll(&mut self) -> (r: Action)
        requires
            old(self).wf(),
            old(self)@.phase is Ready,
        ensures
            final(self).wf(),
            old(self)@.polls(final(self)@, r),
    {
        if let Polled::Message(command) = self.cmd_recv.try_recv() {
            return self.take_command(command);
        }
        if let Some(buffer) = self.spare.take() {
            return self.fill(buffer);
        }
        let ghost asked = self@;
        let found: Polled<Option<Buffer>> = if self.pending_seek {
            match self.empty_recv.recv() {
                Some(message) => Polled::Message(message),
                None => Polled::Disconnected,
            }
        } else {
            self.empty_recv.try_recv()
        };
        proof {
            let search = self@.buffer_looks.last();
            assert(self@.buffer_looks =~= asked.buffer_looks.push(search));
            assert(search.found() == finding(found));
        }
        self.take_buffer(found)
    }

    /// Goes on after a filled buffer was handed to its channel: looks for work, or stops if the
    /// channel did not take the buffer.
    pub fn go_on(&mut self, sent: bool) -> (r: Action)
        requires
            old(self).wf(),
            old(self)@.phase is Ready,
        ensures
            final(self).wf(),
            if sent {
                old(self)@.polls(final(self)@, r)
            } else {
                final(self)@ == old(self)@.stopped() && r == Action::Stop
            },
    {
        if sent {
            self.poll()
        } else {
            self.phase = Phase::Stopped;
            Action::Stop
        }
    }

    /// Whether `event` is an answer to what was asked for.
    pub fn accepts(&self, event: &Event<E>) -> (r: bool)
        ensures
            r == self@.awaits(*event),
    {
        match (&self.phase, event) {
            (Phase::Ready, Event::Resume) => true,
            (Phase::Seeking { .. }, Event::Sought(_)) => true,
            (Phase::Seeking { .. }, Event::SeekFailed(_)) => true,
            (Phase::Filling(buffer), Event::Read(ReadOutcome::Data(bytes))) => {
                proof {
                    use_type_invariant(buffer);
                }
                let limit: u64 = buffer.start_pos() + buffer.end() as u64;
                bytes.len() <= buffer.capacity() - buffer.end() && bytes.len() as u64
                    <= u64::MAX - limit
            },
            (Phase::Filling(_), Event::Read(_)) => true,
            (_, _) => false,
        }
    }

    /// Goes on after `event`, and returns what is to be done next.
    pub fn serve(&mut self, event: Event<E>) -> (r: Action)
        requires
            old(self).wf(),
            old(self)@.awaits(event),
        ensures
            final(self).wf(),
            old(self)@.serves(event, final(self)@, r),
    {
        let mut phase = Phase::Ready;
        std::mem::swap(&mut phase, &mut self.phase);
        match (phase, event) {
            (Phase::Seeking { generation, .. }, Event::Sought(pos)) => {
                self.current_pos = pos;
                self.current_generation = generation;
                self.pending_seek = true;
                self.poll()
            },
            (Phase::Seeking { .. }, Event::SeekFailed(e)) => {
                let _ = self.offer(Err(e));
                self.phase = Phase::Stopped;
                Action::Stop
            },
            (Phase::Filling(mut buffer), Event::Read(outcome)) => {
                match buffer.refill(outcome) {
                    Refill::Wants(n) => {
                        self.phase = Phase::Filling(buffer);
                        Action::Read(n)
                    },
                    Refill::Again => {
                        proof {
                            use_type_invariant(&buffer);
                        }
                        self.spare = Some(buffer);
                        self.poll()
                    },
                    Refill::Done => {
                        proof {
                            use_type_invariant(&buffer);
                        }
                        self.current_pos = buffer.start_pos() + buffer.end() as u64;
                        let sent = self.offer(Ok(buffer));
                        proof {
                            assert(self@.sent.drop_last() =~= old(self)@.sent);
                        }
                        self.go_on(sent)
                    },
                    Refill::Failed(e) => {
                        let _ = self.offer(Err(e));
                        self.phase = Phase::Stopped;
                        Action::Stop
                    },
                }
            },
            (_, _) => self.poll(),
        }
    }
}

/// The state of a new background reader over a source that stands at `start`.
pub open spec fn fresh<E>(start: int, links: Links) -> BackgroundView<E> {
    BackgroundView {
        current_generation: 0,
        current_pos: start,
        pending_seek: false,
        phase: PhaseView::Ready,
        spare: None,
        links,
        command_looks: Seq::empty(),
        buffer_looks: Seq::empty(),
        sent: Seq::empty(),
        sent_took: Seq::empty(),
    }
}

} // verus!
