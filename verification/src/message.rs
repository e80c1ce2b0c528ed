//! What a reader and its background reader say to each other.

use crate::buffer::{Buffer, BufferView};
use crate::channel::{Look, Polled};
use vstd::prelude::*;

verus! {

/// A position to seek to.
#[derive(Debug, Clone, Copy, PartialEq, Eq, Structural)]
pub enum SeekFrom {
    /// This many bytes from the start of the stream.
    Start(u64),
    /// This many bytes from the end of the stream.
    End(i64),
    /// This many bytes from the current position.
    Current(i64),
}

/// An order to the background reader.
#[derive(Debug, Clone, Copy, PartialEq, Eq, Structural)]
pub enum Command {
    /// Go on at `pos`, and mark every buffer from there on with `generation`.
    Seek { generation: u64, pos: SeekFrom },
    /// Stop reading.
    Stop,
}

/// What came out of one wait for a buffer.
pub enum Incoming<E> {
    /// A buffer.
    Buffer(BufferView),
    /// The error with which the source failed.
    Failed(E),
    /// The background reader is gone.
    Disconnected,
}

impl<E> Incoming<E> {
    /// Whether this is a buffer of `generation`.
    pub open spec fn is_current(self, generation: int) -> bool {
        self matches Incoming::Buffer(b) && b.generation == generation
    }

    /// Whether this is a buffer of another generation.
    pub open spec fn is_stale(self, generation: int) -> bool {
        self matches Incoming::Buffer(b) && b.generation != generation
    }
}

/// The value of a message from the channel of filled buffers.
pub open spec fn incoming<E>(message: Option<Result<Buffer, E>>) -> Incoming<E> {
    match message {
        Some(Ok(b)) => Incoming::Buffer(b@),
        Some(Err(e)) => Incoming::Failed(e),
        None => Incoming::Disconnected,
    }
}

/// The values of the messages that were handed to the channel of filled buffers.
pub open spec fn outgoing<E>(sent: Seq<Result<Buffer, E>>) -> Seq<Incoming<E>> {
    Seq::new(sent.len(), |i: int| incoming(Some(sent[i])))
}

/// The value of what a look into the channel of filled buffers found.
pub open spec fn awaited<E>(look: Look<Result<Buffer, E>>) -> Incoming<E> {
    match look.found() {
        Polled::Message(message) => incoming(Some(message)),
        _ => Incoming::Disconnected,
    }
}

/// The values of what looks into the channel of filled buffers found.
pub open spec fn arrivals<E>(looks: Seq<Look<Result<Buffer, E>>>) -> Seq<Incoming<E>> {
    Seq::new(looks.len(), |i: int| awaited(looks[i]))
}

/// The value of a message to the channel of buffers to be filled.
pub open spec fn offer(message: Option<Buffer>) -> Option<BufferView> {
    match message {
        Some(b) => Some(b@),
        None => None,
    }
}

/// The values of the messages that were handed to the channel of buffers to be filled.
pub open spec fn offers(sent: Seq<Option<Buffer>>) -> Seq<Option<BufferView>> {
    Seq::new(sent.len(), |i: int| offer(sent[i]))
}

/// The values of messages that put `buffers` up for filling.
pub open spec fn offering(buffers: Seq<BufferView>) -> Seq<Option<BufferView>> {
    Seq::new(buffers.len(), |i: int| Some(buffers[i]))
}

/// The value of what was found in the channel of buffers to be filled.
pub open spec fn finding(found: Polled<Option<Buffer>>) -> Polled<Option<BufferView>> {
    match found {
        Polled::Message(message) => Polled::Message(offer(message)),
        Polled::Empty => Polled::Empty,
        Polled::Disconnected => Polled::Disconnected,
    }
}

/// The values of looks into the channel of buffers to be filled.
pub open spec fn searches(looks: Seq<Look<Option<Buffer>>>) -> Seq<Look<Option<BufferView>>> {
    Seq::new(
        looks.len(),
        |i: int|
            match looks[i] {
                Look::Glance(found) => Look::Glance(finding(found)),
                Look::Wait(Some(message)) => Look::Wait(Some(offer(message))),
                Look::Wait(None) => Look::Wait(None),
            },
    )
}

/// The commands that `looks` found, in order.
pub open spec fn commands_in(looks: Seq<Look<Command>>) -> Seq<Command>
    decreases looks.len(),
{
    if looks.len() == 0 {
        Seq::empty()
    } else {
        match looks.last().found() {
            Polled::Message(command) => commands_in(looks.drop_last()).push(command),
            _ => commands_in(looks.drop_last()),
        }
    }
}

/// The messages that `looks` found, in order.
pub open spec fn found_in(looks: Seq<Look<Option<BufferView>>>) -> Seq<Option<BufferView>>
    decreases looks.len(),
{
    if looks.len() == 0 {
        Seq::empty()
    } else {
        match looks.last().found() {
            Polled::Message(message) => found_in(looks.drop_last()).push(message),
            _ => found_in(looks.drop_last()),
        }
    }
}

/// The channels that join a reader to its background reader, by what tells them apart.
pub struct Links {
    /// The channel of commands.
    pub commands: int,
    /// The channel of filled buffers.
    pub filled: int,
    /// The channel of buffers to be filled.
    pub empty: int,
}

/// All the buffers among `messages`, in order.
pub open spec fn buffers_in<E>(messages: Seq<Incoming<E>>) -> Seq<BufferView>
    decreases messages.len(),
{
    if messages.len() == 0 {
        Seq::empty()
    } else {
        match messages.last() {
            Incoming::Buffer(b) => buffers_in(messages.drop_last()).push(b),
            _ => buffers_in(messages.drop_last()),
        }
    }
}

/// The buffers of `generation` among `messages`, in order.
pub open spec fn current_in<E>(generation: int, messages: Seq<Incoming<E>>) -> Seq<BufferView>
    decreases messages.len(),
{
    if messages.len() == 0 {
        Seq::empty()
    } else {
        match messages.last() {
            Incoming::Buffer(b) if b.generation == generation => current_in(
                generation,
                messages.drop_last(),
            ).push(b),
            _ => current_in(generation, messages.drop_last()),
        }
    }
}

/// How many buffers of other generations stand in a row at the end of `messages`.
pub open spec fn stale_run<E>(generation: int, messages: Seq<Incoming<E>>) -> nat
    decreases messages.len(),
{
    if messages.len() > 0 && messages.last().is_stale(generation) {
        stale_run(generation, messages.drop_last()) + 1
    } else {
        0
    }
}

/// Whether a wait for a buffer of `generation` that took `messages` ends without one: the source
/// has failed, the background reader is gone, or the outdated buffers can no longer be counted.
pub open spec fn gave_up<E>(generation: int, messages: Seq<Incoming<E>>) -> bool {
    messages.len() > 0 && (!(messages.last() is Buffer) || stale_run(generation, messages)
        >= u64::MAX)
}

/// The error with which a wait ends that gives up over `message`.
pub open spec fn verdict<E>(message: Incoming<E>) -> Error<E> {
    match message {
        Incoming::Buffer(_) => Error::Overrun,
        Incoming::Failed(e) => Error::Source(e),
        Incoming::Disconnected => Error::Disconnected,
    }
}

/// The bytes of `buffers`, one after the other.
pub open spec fn joined(buffers: Seq<BufferView>) -> Seq<u8>
    decreases buffers.len(),
{
    if buffers.len() == 0 {
        Seq::empty()
    } else {
        joined(buffers.drop_last()) + buffers.last().bytes()
    }
}

/// The buffers of two runs of messages, one after the other.
pub(crate) proof fn lemma_buffers_in_append<E>(a: Seq<Incoming<E>>, b: Seq<Incoming<E>>)
    ensures
        buffers_in(a + b) == buffers_in(a) + buffers_in(b),
    decreases b.len(),
{
    if b.len() == 0 {
        assert(a + b =~= a);
    } else {
        assert((a + b).drop_last() =~= a + b.drop_last());
        lemma_buffers_in_append(a, b.drop_last());
        assert(buffers_in(a + b) =~= buffers_in(a) + buffers_in(b));
    }
}

/// The buffers of one generation in two runs of messages, one after the other.
pub(crate) proof fn lemma_current_in_append<E>(
    generation: int,
    a: Seq<Incoming<E>>,
    b: Seq<Incoming<E>>,
)
    ensures
        current_in(generation, a + b) == current_in(generation, a) + current_in(generation, b),
    decreases b.len(),
{
    if b.len() == 0 {
        assert(a + b =~= a);
    } else {
        assert((a + b).drop_last() =~= a + b.drop_last());
        lemma_current_in_append(generation, a, b.drop_last());
        assert(current_in(generation, a + b) =~= current_in(generation, a) + current_in(
            generation,
            b,
        ));
    }
}

/// Where no message is a buffer of a generation, there are no buffers of it.
pub(crate) proof fn lemma_none_current<E>(generation: int, messages: Seq<Incoming<E>>)
    requires
        forall|j: int| 0 <= j < messages.len() ==> !(#[trigger] messages[j]).is_current(generation),
    ensures
        current_in(generation, messages) == Seq::<BufferView>::empty(),
    decreases messages.len(),
{
    if messages.len() > 0 {
        assert(!messages[messages.len() - 1].is_current(generation));
        assert forall|j: int| 0 <= j < messages.drop_last().len() implies !(
        #[trigger] messages.drop_last()[j]).is_current(generation) by {
            assert(messages.drop_last()[j] == messages[j]);
        }
        lemma_none_current(generation, messages.drop_last());
    }
}

/// A message that is not outdated ends a run of outdated buffers.
pub(crate) proof fn lemma_stale_run_append<E>(
    generation: int,
    a: Seq<Incoming<E>>,
    b: Seq<Incoming<E>>,
)
    requires
        a.len() == 0 || !a.last().is_stale(generation),
    ensures
        stale_run(generation, a + b) == stale_run(generation, b),
    decreases b.len(),
{
    if b.len() == 0 {
        assert(a + b =~= a);
    } else {
        assert((a + b).drop_last() =~= a + b.drop_last());
        lemma_stale_run_append(generation, a, b.drop_last());
    }
}

/// Commands as a reader issues them: every seek carries a higher generation than those before
/// it, and goes to a place that does not depend on where the background reader stands.
pub open spec fn ordered(commands: Seq<Command>) -> bool {
    &&& forall|i: int|
        0 <= i < commands.len() ==> (#[trigger] commands[i] matches Command::Seek {
            generation,
            pos,
        } ==> generation > 0 && !(pos is Current))
    &&& forall|i: int, j: int|
        0 <= i < j < commands.len() ==> (#[trigger] commands[i] matches Command::Seek {
            generation: a,
            ..
        } ==> (#[trigger] commands[j] matches Command::Seek { generation: b, .. } ==> a < b))
}

/// Why a read or a seek failed.
#[derive(Debug)]
pub enum Error<E> {
    /// The source failed with this error.
    Source(E),
    /// The background reader is gone, and no buffer is left.
    Disconnected,
    /// The background reader takes no more commands.
    BrokenPipe,
    /// The seek goes to a negative position.
    SeekBeforeStart,
    /// The seek goes past the last position that can be counted.
    SeekOverflow,
    /// No buffer is in hand after the seek.
    MissingBuffer,
    /// The buffer that came starts behind the position sought.
    SeekBeforeBuffer,
    /// The position sought is too far from the start of the buffer that came.
    SeekOffsetTooLarge,
    /// The buffer that came ends before the position sought.
    SeekOutsideBuffer,
    /// More outdated buffers came in a row than can be counted.
    Overrun,
}

/// The general category of an error.
#[derive(Debug, Clone, Copy, PartialEq, Eq, Structural)]
pub enum ErrorKind {
    UnexpectedEof,
    BrokenPipe,
    InvalidInput,
    Other,
}

impl<E> Error<E> {
    /// The category of the error; none for an error of the source, which has its own.
    pub open spec fn spec_kind(self) -> Option<ErrorKind> {
        match self {
            Error::Source(_) => None,
            Error::Disconnected => Some(ErrorKind::UnexpectedEof),
            Error::BrokenPipe => Some(ErrorKind::BrokenPipe),
            Error::SeekBeforeStart => Some(ErrorKind::InvalidInput),
            Error::SeekOverflow => Some(ErrorKind::InvalidInput),
            Error::MissingBuffer => Some(ErrorKind::UnexpectedEof),
            Error::SeekBeforeBuffer => Some(ErrorKind::InvalidInput),
            Error::SeekOffsetTooLarge => Some(ErrorKind::InvalidInput),
            Error::SeekOutsideBuffer => Some(ErrorKind::UnexpectedEof),
            Error::Overrun => Some(ErrorKind::Other),
        }
    }

    /// The category of the error; none for an error of the source, which has its own.
    pub fn kind(&self) -> (r: Option<ErrorKind>)
        ensures
            r == self.spec_kind(),
    {
        match self {
            Error::Source(_) => None,
            Error::Disconnected => Some(ErrorKind::UnexpectedEof),
            Error::BrokenPipe => Some(ErrorKind::BrokenPipe),
            Error::SeekBeforeStart => Some(ErrorKind::InvalidInput),
            Error::SeekOverflow => Some(ErrorKind::InvalidInput),
            Error::MissingBuffer => Some(ErrorKind::UnexpectedEof),
            Error::SeekBeforeBuffer => Some(ErrorKind::InvalidInput),
            Error::SeekOffsetTooLarge => Some(ErrorKind::InvalidInput),
            Error::SeekOutsideBuffer => Some(ErrorKind::UnexpectedEof),
            Error::Overrun => Some(ErrorKind::Other),
        }
    }

    /// What the error says; none for an error of the source, which speaks for itself.
    pub fn message(&self) -> (r: Option<&'static str>)
        ensures
            match *self {
                Error::Source(_) => r is None,
                Error::Disconnected => r matches Some(s) && s@ == "background thread terminated"@,
                Error::BrokenPipe => r matches Some(s) && s@ == "background thread terminated"@,
                Error::SeekBeforeStart => r matches Some(s) && s@ == "seek before start"@,
                Error::SeekOverflow => r matches Some(s) && s@ == "seek past the last position"@,
                Error::MissingBuffer => r matches Some(s) && s@ == "missing buffer after seek"@,
                Error::SeekBeforeBuffer => r matches Some(s) && s@ == "seek before buffer"@,
                Error::SeekOffsetTooLarge => r matches Some(s) && s@ == "seek offset too large"@,
                Error::SeekOutsideBuffer => r matches Some(s) && s@
                    == "background reader returned buffer not containing target position"@,
                Error::Overrun => r matches Some(s) && s@ == "too many outdated buffers"@,
            },
    {
        match self {
            Error::Source(_) => None,
            Error::Disconnected => Some("background thread terminated"),
            Error::BrokenPipe => Some("background thread terminated"),
            Error::SeekBeforeStart => Some("seek before start"),
            Error::SeekOverflow => Some("seek past the last position"),
            Error::MissingBuffer => Some("missing buffer after seek"),
            Error::SeekBeforeBuffer => Some("seek before buffer"),
            Error::SeekOffsetTooLarge => Some("seek offset too large"),
            Error::SeekOutsideBuffer => Some(
                "background reader returned buffer not containing target position",
            ),
            Error::Overrun => Some("too many outdated buffers"),
        }
    }
}

} // verus!
