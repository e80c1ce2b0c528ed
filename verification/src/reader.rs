//! The reader: takes filled buffers in, hands their bytes out, and gives the buffers back.

use crate::background::{fresh, BackgroundReader};
use crate::buffer::{Buffer, BufferView};
use crate::channel::{unbounded, Inbox, Look, Outbox};
use crate::message::{
    arrivals, awaited, buffers_in, current_in, gave_up, incoming, joined, lemma_buffers_in_append,
    lemma_current_in_append, lemma_none_current, lemma_stale_run_append, offering, offers, ordered,
    stale_run, verdict, Command, Error, Incoming, Links, SeekFrom,
};
use vstd::prelude::*;

verus! {

/// The size of each buffer, unless one is given.
const DEFAULT_BUF_SIZE: usize = 8192;

/// The number of buffers, unless one is given.
const DEFAULT_QUEUE_LEN: usize = 2;

/// A buffered reader with background pre-fetching and seek support.
///
/// It is one half of a pair: the other half, a [`BackgroundReader`](crate::BackgroundReader),
/// fills buffers from a source and sends them here.
#[verifier::reject_recursive_types(E)]
pub struct SmartBuf<E> {
    cmd_send: Outbox<Command>,
    connected: bool,
    buf_recv: Inbox<Result<Buffer, E>>,
    buf_send: Outbox<Option<Buffer>>,
    buffer: Option<Buffer>,
    buf_pos: usize,
    position: u64,
    current_generation: u64,
    next_generation: u64,
    bufsize: usize,
    failure: Option<Error<E>>,
}

/// The state of a [`SmartBuf`].
#[verifier::ext_equal]
pub struct ReaderView<E> {
    /// The buffer in hand.
    pub buffer: Option<BufferView>,
    /// How much of it has been read.
    pub buf_pos: int,
    /// The position in the stream of the next byte to read.
    pub position: int,
    /// The generation of the buffers that are still of use.
    pub current_generation: int,
    /// The generation of the next seek.
    pub next_generation: int,
    /// The size of each buffer.
    pub buffer_size: int,
    /// Whether commands can be sent.
    pub connected: bool,
    /// The error that the next call is to report.
    pub failure: Option<Error<E>>,
    /// The channels to the background reader.
    pub links: Links,
    /// What came out of each look for a filled buffer.
    pub received: Seq<Incoming<E>>,
    /// Whether each of those looks was a wait.
    pub patient: bool,
    /// What was handed to the channel of buffers to be filled.
    pub released: Seq<Option<BufferView>>,
    /// The commands that were handed to the channel of commands.
    pub commands: Seq<Command>,
    /// For each of those commands, whether the channel took it.
    pub commands_took: Seq<bool>,
}

/// How a seek begins.
#[derive(Debug, Clone, Copy, PartialEq, Eq, Structural)]
pub enum SeekStart {
    /// The seek is done, at this position.
    Done(u64),
    /// The background reader is to be sent `command`; the seek goes to `target`, if that is
    /// known.
    Ask { command: Command, target: Option<u64> },
}

impl<E> ReaderView<E> {
    /// The buffer in hand, as a sequence of at most one.
    pub open spec fn held(self) -> Seq<BufferView> {
        match self.buffer {
            Some(b) => seq![b],
            None => Seq::empty(),
        }
    }

    /// The bytes in hand that have not been read.
    pub open spec fn unread(self) -> Seq<u8> {
        match self.buffer {
            Some(b) => b.bytes().skip(self.buf_pos),
            None => Seq::empty(),
        }
    }

    /// What holds of a reader between calls.
    pub open spec fn wf(self) -> bool {
        &&& 0 <= self.position <= u64::MAX
        &&& 0 <= self.current_generation
        &&& self.next_generation == self.current_generation + 1
        &&& self.next_generation <= u64::MAX
        &&& 0 < self.buffer_size <= isize::MAX
        &&& match self.buffer {
            Some(b) => {
                &&& b.wf()
                &&& b.generation == self.current_generation
                &&& 0 <= self.buf_pos <= b.end
                &&& self.position == b.start_pos + self.buf_pos
            },
            None => self.buf_pos == 0,
        }
        &&& self.patient
        // Once the background reader is gone, nothing comes any more.
        &&& forall|i: int, j: int|
            0 <= i < j < self.received.len() && #[trigger] self.received[i] is Disconnected
                ==> #[trigger] self.received[j] is Disconnected
        // Once a command was not taken, none is any more.
        &&& forall|i: int, j: int|
            0 <= i < j < self.commands_took.len() && #[trigger] self.commands_took[j]
                ==> #[trigger] self.commands_took[i]
        &&& ordered(self.commands)
        &&& forall|i: int|
            0 <= i < self.commands.len() ==> (#[trigger] self.commands[i] matches Command::Seek {
                generation,
                ..
            } ==> generation <= self.current_generation)
    }

    /// What has come in between this state and a later one.
    pub open spec fn taken(self, later: Self) -> Seq<Incoming<E>> {
        later.received.skip(self.received.len() as int)
    }

    /// The state in the middle of a wait that has taken `taken`, none of it of use.
    pub open spec fn waiting(self, taken: Seq<Incoming<E>>) -> Self {
        ReaderView {
            buffer: None,
            buf_pos: 0,
            received: self.received + taken,
            released: self.released + offering(self.held() + buffers_in(taken)),
            ..self
        }
    }

    /// The state after one message was made use of, with no buffer in hand.
    pub open spec fn after_message(self, message: Incoming<E>) -> Self {
        match message {
            Incoming::Buffer(b) if b.generation == self.current_generation => ReaderView {
                buffer: Some(b),
                buf_pos: 0,
                position: b.start_pos,
                ..self
            },
            Incoming::Buffer(b) => ReaderView { released: self.released.push(Some(b)), ..self },
            _ => self,
        }
    }

    /// Whether a wait takes exactly `taken`: it goes on until a buffer of the current generation
    /// comes, or it gives up.
    pub open spec fn waits_for(self, taken: Seq<Incoming<E>>) -> bool {
        let g = self.current_generation;
        &&& taken.len() > 0
        &&& forall|j: int| 0 <= j < taken.len() - 1 ==> !(#[trigger] taken[j]).is_current(g)
        &&& forall|j: int| 0 <= j < taken.len() ==> !gave_up(g, #[trigger] taken.take(j))
        &&& taken.last().is_current(g) || gave_up(g, taken)
    }

    /// The state after a wait that took `taken`.
    pub open spec fn after_wait(self, taken: Seq<Incoming<E>>) -> Self {
        ReaderView {
            received: self.received + taken,
            ..self.waiting(taken.drop_last()).after_message(taken.last())
        }
    }

    /// What a wait that took `taken` comes to.
    pub open spec fn wait_result(self, taken: Seq<Incoming<E>>) -> Result<(), Error<E>> {
        if taken.last().is_current(self.current_generation) {
            Ok(())
        } else {
            Err(verdict(taken.last()))
        }
    }

    /// The buffer in hand and those of the current generation in `taken`, in order.
    pub open spec fn chain(self, taken: Seq<Incoming<E>>) -> Seq<BufferView> {
        self.held() + current_in(self.current_generation, taken)
    }

    /// The bytes to read next: those in hand, then those of the current generation in `taken`.
    pub open spec fn stream(self, taken: Seq<Incoming<E>>) -> Seq<u8> {
        self.unread() + joined(current_in(self.current_generation, taken))
    }

    /// Whether a read of `want` bytes that has taken `taken` waits for another buffer: it does as
    /// long as no more bytes than it wants have come, unless the last buffer is empty, which
    /// marks the end of the stream.
    pub open spec fn wants_more(self, want: int, taken: Seq<Incoming<E>>) -> bool {
        ||| self.chain(taken).len() == 0
        ||| self.chain(taken).last().end > 0 && self.stream(taken).len() <= want
    }

    /// How many bytes a read of `want` bytes that took `taken` hands out.
    pub open spec fn copied(self, want: int, taken: Seq<Incoming<E>>) -> int {
        if self.stream(taken).len() <= want {
            self.stream(taken).len() as int
        } else {
            want
        }
    }

    /// Whether a read of `want` bytes had reason to take each message of `taken`.
    pub open spec fn kept_wanting(self, want: int, taken: Seq<Incoming<E>>) -> bool {
        forall|j: int|
            0 <= j < taken.len() ==> self.wants_more(want, #[trigger] taken.take(j)) && !gave_up(
                self.current_generation,
                taken.take(j),
            )
    }

    /// The state after a read that took `taken` and handed out `n` bytes.
    pub open spec fn after_read(self, n: int, taken: Seq<Incoming<E>>) -> Self {
        let b = self.chain(taken).last();
        let buf_pos = b.end - (self.stream(taken).len() - n);
        ReaderView {
            buffer: Some(b),
            buf_pos,
            position: b.start_pos + buf_pos,
            received: self.received + taken,
            released: self.released + offering((self.held() + buffers_in(taken)).drop_last()),
            ..self
        }
    }

    /// The state after a read that took `taken`, gave up, and handed out what had come by then. The
    /// next call is to report why.
    pub open spec fn broken_off(self, taken: Seq<Incoming<E>>) -> Self {
        ReaderView {
            position: self.chain(taken).last().limit(),
            failure: Some(verdict(taken.last())),
            ..self.waiting(taken)
        }
    }

    /// The state after the error that was due was reported.
    pub open spec fn cleared(self) -> Self {
        ReaderView { failure: None, ..self }
    }

    /// How a read of `want` bytes goes from this state to `later`, with result `r`. An error means
    /// that nothing was read; one that comes after some bytes is left to the next call.
    pub open spec fn reads(self, want: int, later: Self, r: Result<usize, Error<E>>) -> bool {
        let taken = self.taken(later);
        if want == 0 {
            later == self && r == Ok::<usize, Error<E>>(0)
        } else if self.failure is Some {
            later == self.cleared() && r == Err::<usize, Error<E>>(self.failure.unwrap())
        } else {
            &&& self.kept_wanting(want, taken)
            &&& if !self.wants_more(want, taken) {
                &&& r == Ok::<usize, Error<E>>(self.copied(want, taken) as usize)
                &&& later == self.after_read(self.copied(want, taken), taken)
            } else if self.stream(taken).len() > 0 {
                &&& gave_up(self.current_generation, taken)
                &&& r == Ok::<usize, Error<E>>(self.stream(taken).len() as usize)
                &&& later == self.broken_off(taken)
            } else {
                &&& gave_up(self.current_generation, taken)
                &&& r == Err::<usize, Error<E>>(verdict(taken.last()))
                &&& later == self.waiting(taken)
            }
        }
    }
}

impl<E> ReaderView<E> {
    /// Whether a seek to `pos` goes to a negative position.
    pub open spec fn goes_before_start(self, pos: SeekFrom) -> bool {
        pos matches SeekFrom::Current(delta) && self.position + delta < 0
    }

    /// Whether a seek to `pos` goes past the last position that can be counted.
    pub open spec fn goes_too_far(self, pos: SeekFrom) -> bool {
        pos matches SeekFrom::Current(delta) && self.position + delta > u64::MAX
    }

    /// Whether a seek to `pos` is refused.
    pub open spec fn refuses(self, pos: SeekFrom) -> bool {
        self.goes_before_start(pos) || self.goes_too_far(pos)
    }

    /// The position that a seek to `pos` goes to, as far as this side can tell.
    pub open spec fn seek_target(self, pos: SeekFrom) -> Option<int> {
        match pos {
            SeekFrom::Start(n) => Some(n as int),
            SeekFrom::Current(delta) => Some(self.position + delta),
            SeekFrom::End(_) => None,
        }
    }

    /// Whether the buffer in hand holds the position `target`, or ends there.
    pub open spec fn reaches(self, target: int) -> bool {
        self.buffer matches Some(b) && b.start_pos <= target <= b.limit()
    }

    /// Whether a seek to `pos` stays within the buffer in hand.
    pub open spec fn stays_within(self, pos: SeekFrom) -> bool {
        self.seek_target(pos) matches Some(target) && self.reaches(target)
    }

    /// Whether a seek to `pos` can be done: one that goes to the background reader needs a number.
    pub open spec fn seekable(self, pos: SeekFrom) -> bool {
        ||| self.refuses(pos)
        ||| self.stays_within(pos)
        ||| self.failure is Some
        ||| self.next_generation < u64::MAX
    }

    /// The state at `target`, if the buffer in hand reaches there.
    pub open spec fn moved_to(self, target: int) -> Self {
        ReaderView {
            buf_pos: target - self.buffer.unwrap().start_pos,
            position: target,
            ..self
        }
    }

    /// The command for a seek to `pos`.
    pub open spec fn seek_command(self, pos: SeekFrom) -> Command {
        Command::Seek {
            generation: self.next_generation as u64,
            pos: match self.seek_target(pos) {
                Some(target) => SeekFrom::Start(target as u64),
                None => pos,
            },
        }
    }

    /// The state with a new generation begun and nothing in hand.
    pub open spec fn turned(self) -> Self {
        ReaderView {
            current_generation: self.next_generation,
            next_generation: self.next_generation + 1,
            ..self.waiting(Seq::empty())
        }
    }

    /// The state after `command` was handed to the channel, which took it or not.
    pub open spec fn ordering(self, command: Command, took: bool) -> Self {
        ReaderView {
            commands: self.commands.push(command),
            commands_took: self.commands_took.push(took),
            ..self
        }
    }

    /// What a seek to `target` comes to with the buffer in hand.
    pub open spec fn landing(self, target: Option<int>) -> Result<u64, Error<E>> {
        match (self.buffer, target) {
            (None, _) => Err(Error::MissingBuffer),
            (Some(b), None) => Ok(b.start_pos as u64),
            (Some(b), Some(t)) => if t < b.start_pos {
                Err(Error::SeekBeforeBuffer)
            } else if t - b.start_pos > usize::MAX {
                Err(Error::SeekOffsetTooLarge)
            } else if t > b.limit() {
                Err(Error::SeekOutsideBuffer)
            } else {
                Ok(t as u64)
            },
        }
    }

    /// The state after a seek to `target` with the buffer in hand.
    pub open spec fn landed(self, target: Option<int>) -> Self {
        match target {
            Some(t) if self.reaches(t) => self.moved_to(t),
            _ => self,
        }
    }

    /// How the wait for the buffer that comes for a seek to `target` goes from this state to
    /// `later`, with result `r`.
    pub open spec fn arrives(
        self,
        target: Option<int>,
        later: Self,
        r: Result<u64, Error<E>>,
    ) -> bool {
        let taken = self.taken(later);
        &&& self.waits_for(taken)
        &&& if taken.last().is_current(self.current_generation) {
            &&& later == self.after_wait(taken).landed(target)
            &&& r == self.after_wait(taken).landing(target)
        } else {
            &&& later == self.after_wait(taken)
            &&& r == Err::<u64, Error<E>>(verdict(taken.last()))
        }
    }

    /// How a seek to `pos` goes from this state to `later`, with result `r`.
    pub open spec fn seeks(self, pos: SeekFrom, later: Self, r: Result<u64, Error<E>>) -> bool {
        if self.goes_before_start(pos) {
            later == self && r == Err::<u64, Error<E>>(Error::SeekBeforeStart)
        } else if self.goes_too_far(pos) {
            later == self && r == Err::<u64, Error<E>>(Error::SeekOverflow)
        } else if self.stays_within(pos) {
            let target = self.seek_target(pos).unwrap();
            later == self.moved_to(target) && r == Ok::<u64, Error<E>>(target as u64)
        } else if self.failure is Some {
            later == self.cleared() && r == Err::<u64, Error<E>>(self.failure.unwrap())
        } else if !self.connected {
            later == self.turned() && r == Err::<u64, Error<E>>(Error::BrokenPipe)
        } else {
            let took = later.commands_took.last();
            let asked = self.turned().ordering(self.seek_command(pos), took);
            if took {
                asked.arrives(self.seek_target(pos), later, r)
            } else {
                later == asked && r == Err::<u64, Error<E>>(Error::BrokenPipe)
            }
        }
    }

    /// The state after the reader told the background reader to stop, if the channel took the
    /// command or not.
    pub open spec fn shut(self, took: bool) -> Self {
        let given_back = self.waiting(Seq::empty());
        if self.connected {
            ReaderView { connected: false, ..given_back.ordering(Command::Stop, took) }
        } else {
            given_back
        }
    }
}

/// The buffers that a background reader starts with: `queuelen` of size `bufsize`.
pub open spec fn pool(bufsize: int, queuelen: int) -> Seq<BufferView> {
    Seq::new(
        queuelen as nat,
        |i: int|
            BufferView {
                data: Seq::new(bufsize as nat, |j: int| 0u8),
                start_pos: i * bufsize,
                end: 0,
                generation: 0,
            },
    )
}

/// The state of a new reader over a source that stands at `start`.
pub open spec fn opened<E>(
    bufsize: int,
    queuelen: int,
    start: int,
    links: Links,
) -> ReaderView<E> {
    ReaderView {
        buffer: None,
        buf_pos: 0,
        position: start,
        current_generation: 0,
        next_generation: 1,
        buffer_size: bufsize,
        connected: true,
        failure: None,
        links,
        received: Seq::empty(),
        patient: true,
        released: offering(pool(bufsize, queuelen)),
        commands: Seq::empty(),
        commands_took: Seq::empty(),
    }
}

/// One wait more, in the middle of a read.
proof fn lemma_read_waits<E>(
    pre: ReaderView<E>,
    want: int,
    taken: Seq<Incoming<E>>,
    sub: Seq<Incoming<E>>,
)
    requires
        pre.kept_wanting(want, taken),
        pre.wants_more(want, taken),
        taken.len() == 0 || taken.last().is_current(pre.current_generation),
        pre.waits_for(sub),
    ensures
        pre.kept_wanting(want, taken + sub),
        sub.last().is_current(pre.current_generation) ==> {
            let b = sub.last()->Buffer_0;
            &&& pre.chain(taken + sub) == pre.chain(taken).push(b)
            &&& pre.stream(taken + sub) == pre.stream(taken) + b.bytes()
            &&& (taken + sub).last() == sub.last()
        },
        !sub.last().is_current(pre.current_generation) ==> {
            &&& pre.chain(taken + sub) == pre.chain(taken)
            &&& pre.stream(taken + sub) == pre.stream(taken)
            &&& gave_up(pre.current_generation, taken + sub)
            &&& (taken + sub).last() == sub.last()
        },
{
    let g = pre.current_generation;
    lemma_none_current(g, sub.drop_last());
    lemma_current_in_append(g, taken, sub);
    lemma_stale_run_append(g, taken, sub);
    assert forall|j: int| 0 <= j < (taken + sub).len() implies pre.wants_more(
        want,
        #[trigger] (taken + sub).take(j),
    ) && !gave_up(g, (taken + sub).take(j)) by {
        if j < taken.len() {
            assert((taken + sub).take(j) =~= taken.take(j));
        } else {
            let k = j - taken.len();
            assert((taken + sub).take(j) =~= taken + sub.take(k));
            lemma_none_current(g, sub.take(k));
            lemma_current_in_append(g, taken, sub.take(k));
            lemma_stale_run_append(g, taken, sub.take(k));
            assert(pre.chain((taken + sub).take(j)) =~= pre.chain(taken));
            assert(current_in(g, taken) + Seq::<BufferView>::empty() =~= current_in(g, taken));
            assert(!gave_up(g, sub.take(k)));
        }
    }
    assert(current_in(g, taken) + Seq::<BufferView>::empty() =~= current_in(g, taken));
    if sub.last().is_current(g) {
        let b = sub.last()->Buffer_0;
        assert(current_in(g, sub) =~= seq![b]);
        assert(current_in(g, taken + sub) =~= current_in(g, taken).push(b));
        assert(current_in(g, taken).push(b).drop_last() =~= current_in(g, taken));
        assert(pre.chain(taken + sub) =~= pre.chain(taken).push(b));
        assert(pre.stream(taken + sub) =~= pre.stream(taken) + b.bytes());
    } else {
        assert(current_in(g, sub) =~= Seq::<BufferView>::empty());
        assert(current_in(g, taken + sub) =~= current_in(g, taken));
    }
}

/// How a read of `want` bytes that began in `pre` stands in `now`: it has taken `taken`, and
/// handed out `total` bytes.
spec fn in_read<E>(
    pre: ReaderView<E>,
    now: ReaderView<E>,
    want: int,
    total: int,
    taken: Seq<Incoming<E>>,
) -> bool {
    &&& pre.wf()
    &&& now.wf()
    &&& now.received == pre.received + taken
    &&& now.current_generation == pre.current_generation
    &&& now.next_generation == pre.next_generation
    &&& now.buffer_size == pre.buffer_size
    &&& now.connected == pre.connected
    &&& now.failure is None
    &&& pre.failure is None
    &&& now.links == pre.links
    &&& now.commands == pre.commands
    &&& now.commands_took == pre.commands_took
    &&& now.released + offering(now.held()) == pre.released + offering(
        pre.held() + buffers_in(taken),
    )
    &&& pre.kept_wanting(want, taken)
    &&& taken.len() == 0 || taken.last().is_current(pre.current_generation)
    &&& match now.buffer {
        Some(b) => pre.chain(taken).len() > 0 && pre.chain(taken).last() == b,
        None => taken.len() == 0 && total == 0 && pre.buffer is None && now.position
            == pre.position,
    }
    &&& 0 <= total <= pre.stream(taken).len()
    &&& total <= want
    &&& pre.stream(taken).skip(total) == now.unread()
}

/// Whether all of a buffer that is not empty has been read.
spec fn used_up<E>(now: ReaderView<E>) -> bool {
    now.buffer matches Some(b) && b.end > 0 && now.buf_pos == b.end
}

/// What a wait in the middle of a read adds to the logs.
proof fn lemma_in_read_logs<E>(
    pre: ReaderView<E>,
    now: ReaderView<E>,
    later: ReaderView<E>,
    want: int,
    total: int,
    taken: Seq<Incoming<E>>,
    sub: Seq<Incoming<E>>,
)
    requires
        in_read(pre, now, want, total, taken),
        sub.len() > 0,
        later == now.after_wait(sub),
    ensures
        later.received == pre.received + (taken + sub),
        pre.taken(later) == taken + sub,
        later.released + offering(later.held()) == pre.released + offering(
            pre.held() + buffers_in(taken + sub),
        ),
{
    let all = taken + sub;
    assert(later.received =~= pre.received + all);
    assert(pre.taken(later) =~= all);
    lemma_buffers_in_append(taken, sub);
    assert(later.released + offering(later.held()) =~= now.released + offering(
        now.held() + buffers_in(sub),
    ));
    assert(now.released + offering(now.held() + buffers_in(sub)) =~= (now.released + offering(
        now.held(),
    )) + offering(buffers_in(sub)));
    assert((pre.released + offering(pre.held() + buffers_in(taken))) + offering(buffers_in(sub))
        =~= pre.released + offering(pre.held() + buffers_in(all)));
}

/// A wait in the middle of a read that brings a buffer.
proof fn lemma_in_read_goes_on<E>(
    pre: ReaderView<E>,
    now: ReaderView<E>,
    later: ReaderView<E>,
    want: int,
    total: int,
    taken: Seq<Incoming<E>>,
    sub: Seq<Incoming<E>>,
)
    requires
        in_read(pre, now, want, total, taken),
        now.buffer is None || used_up(now),
        now.waits_for(sub),
        sub.last().is_current(pre.current_generation),
        later == now.after_wait(sub),
        later.wf(),
    ensures
        in_read(pre, later, want, total, taken + sub),
        later.buffer is Some,
        !used_up(later),
        pre.taken(later) == taken + sub,
        pre.stream(taken + sub).take(total) == pre.stream(taken).take(total),
{
    let all = taken + sub;
    let b = sub.last()->Buffer_0;
    assert(now.unread().len() == 0);
    assert(pre.stream(taken).len() == total);
    lemma_read_waits(pre, want, taken, sub);
    lemma_in_read_logs(pre, now, later, want, total, taken, sub);
    assert(pre.stream(all).take(total) =~= pre.stream(taken).take(total));
    assert(pre.stream(all).skip(total) =~= b.bytes());
    assert(later.unread() =~= b.bytes());
}

/// A read that has handed nothing out, and used its buffer up, has moved nowhere.
proof fn lemma_in_read_nothing<E>(
    pre: ReaderView<E>,
    now: ReaderView<E>,
    want: int,
    taken: Seq<Incoming<E>>,
)
    requires
        in_read(pre, now, want, 0, taken),
        now.buffer is None || used_up(now),
    ensures
        now.position == pre.position,
        taken.len() == 0,
{
    if now.buffer is Some {
        let b = now.buffer.unwrap();
        let g = pre.current_generation;
        assert(now.unread().len() == 0);
        assert(pre.stream(taken).len() == 0);
        if taken.len() > 0 {
            assert(current_in(g, taken).last() == pre.chain(taken).last());
            assert(joined(current_in(g, taken)).len() >= b.bytes().len());
        } else {
            assert(pre.chain(taken) =~= pre.held());
            assert(pre.stream(taken) =~= pre.unread());
        }
    }
}

/// A wait in the middle of a read that brings no buffer.
proof fn lemma_in_read_gives_up<E>(
    pre: ReaderView<E>,
    now: ReaderView<E>,
    later: ReaderView<E>,
    want: int,
    total: int,
    taken: Seq<Incoming<E>>,
    sub: Seq<Incoming<E>>,
)
    requires
        in_read(pre, now, want, total, taken),
        0 < want <= usize::MAX,
        now.buffer is None || used_up(now),
        now.waits_for(sub),
        !sub.last().is_current(pre.current_generation),
        later == now.after_wait(sub),
        later.wf(),
    ensures
        total == 0 ==> pre.reads(want, later, Err::<usize, Error<E>>(verdict(sub.last()))),
        total > 0 ==> pre.reads(
            want,
            ReaderView { failure: Some(verdict(sub.last())), ..later },
            Ok::<usize, Error<E>>(total as usize),
        ),
        pre.taken(later) == taken + sub,
        pre.stream(taken + sub).take(total) == pre.stream(taken).take(total),
{
    let all = taken + sub;
    let end = ReaderView { failure: Some(verdict(sub.last())), ..later };
    assert(now.unread().len() == 0);
    assert(pre.stream(taken).len() == total);
    lemma_read_waits(pre, want, taken, sub);
    lemma_in_read_logs(pre, now, later, want, total, taken, sub);
    assert(later.held() =~= Seq::<BufferView>::empty());
    assert(later.released + offering(later.held()) =~= later.released);
    assert(pre.taken(end) =~= all);
    if total == 0 {
        lemma_in_read_nothing(pre, now, want, taken);
        assert(later =~= pre.waiting(all));
    } else {
        assert(end =~= pre.broken_off(all));
    }
}

/// A wait in the middle of a read.
proof fn lemma_in_read_wait<E>(
    pre: ReaderView<E>,
    now: ReaderView<E>,
    later: ReaderView<E>,
    want: int,
    total: int,
    taken: Seq<Incoming<E>>,
    sub: Seq<Incoming<E>>,
)
    requires
        in_read(pre, now, want, total, taken),
        0 < want <= usize::MAX,
        now.buffer is None || used_up(now),
        now.waits_for(sub),
        later == now.after_wait(sub),
        later.wf(),
    ensures
        sub.last().is_current(pre.current_generation) ==> {
            &&& in_read(pre, later, want, total, taken + sub)
            &&& later.buffer is Some
            &&& !used_up(later)
        },
        !sub.last().is_current(pre.current_generation) ==> {
            &&& total == 0 ==> pre.reads(want, later, Err::<usize, Error<E>>(verdict(sub.last())))
            &&& total > 0 ==> pre.reads(
                want,
                ReaderView { failure: Some(verdict(sub.last())), ..later },
                Ok::<usize, Error<E>>(total as usize),
            )
        },
        pre.taken(later) == taken + sub,
        pre.stream(taken + sub).take(total) == pre.stream(taken).take(total),
{
    if sub.last().is_current(pre.current_generation) {
        lemma_in_read_goes_on(pre, now, later, want, total, taken, sub);
    } else {
        lemma_in_read_gives_up(pre, now, later, want, total, taken, sub);
    }
}

/// Bytes copied in the middle of a read.
proof fn lemma_in_read_copy<E>(
    pre: ReaderView<E>,
    now: ReaderView<E>,
    later: ReaderView<E>,
    want: int,
    total: int,
    n: int,
    taken: Seq<Incoming<E>>,
    before: Seq<u8>,
    out: Seq<u8>,
)
    requires
        in_read(pre, now, want, total, taken),
        later.wf(),
        0 <= n <= now.unread().len(),
        want == before.len(),
        total + n <= want,
        now.buffer is Some,
        later == (ReaderView { buf_pos: now.buf_pos + n, position: now.position + n, ..now }),
        out == pre.stream(taken).take(total) + before.skip(total),
    ensures
        in_read(pre, later, want, total + n, taken),
        out.take(total) + now.unread().take(n) + out.skip(total + n) == pre.stream(taken).take(
            total + n,
        ) + before.skip(total + n),
{
    let stream = pre.stream(taken);
    assert(stream.take(total) + now.unread().take(n) =~= stream.take(total + n));
    assert(out.take(total) + now.unread().take(n) + out.skip(total + n) =~= stream.take(total + n)
        + before.skip(total + n));
    assert(stream.skip(total + n) =~= later.unread());
}

/// The end of a read.
proof fn lemma_in_read_done<E>(
    pre: ReaderView<E>,
    now: ReaderView<E>,
    want: int,
    total: int,
    taken: Seq<Incoming<E>>,
)
    requires
        in_read(pre, now, want, total, taken),
        0 < want <= usize::MAX,
        now.buffer is Some,
        now.buffer.unwrap().end == 0 || total == want && !used_up(now),
    ensures
        pre.reads(want, now, Ok::<usize, Error<E>>(total as usize)),
        pre.taken(now) == taken,
{
    assert(pre.taken(now) =~= taken);
    let all = pre.held() + buffers_in(taken);
    let sum = pre.released + offering(all);
    assert(now.released =~= (now.released + offering(now.held())).drop_last());
    assert(all.len() > 0) by {
        if taken.len() > 0 {
            assert(buffers_in(taken).len() > 0);
        } else {
            assert(pre.chain(taken) =~= pre.held());
        }
    }
    assert(sum.drop_last() =~= pre.released + offering(all.drop_last()));
    assert(pre.stream(taken).len() - total == now.unread().len());
    assert(now =~= pre.after_read(total, taken));
}

impl<E> View for SmartBuf<E> {
    type V = ReaderView<E>;

    closed spec fn view(&self) -> ReaderView<E> {
        ReaderView {
            buffer: match self.buffer {
                Some(b) => Some(b@),
                None => None,
            },
            buf_pos: self.buf_pos as int,
            position: self.position as int,
            current_generation: self.current_generation as int,
            next_generation: self.next_generation as int,
            buffer_size: self.bufsize as int,
            connected: self.connected,
            failure: self.failure,
            links: Links {
                commands: self.cmd_send.id(),
                filled: self.buf_recv.id(),
                empty: self.buf_send.id(),
            },
            received: arrivals(self.buf_recv.looks()),
            patient: forall|i: int|
                0 <= i < self.buf_recv.looks().len() ==> (
                #[trigger] self.buf_recv.looks()[i]) is Wait,
            released: offers(self.buf_send.sent()),
            commands: self.cmd_send.sent(),
            commands_took: self.cmd_send.took(),
        }
    }
}

impl<E> SmartBuf<E> {
    /// The end to send commands on.
    pub closed spec fn command_end(&self) -> Outbox<Command> {
        self.cmd_send
    }

    /// The end to receive filled buffers at.
    pub closed spec fn filled_end(&self) -> Inbox<Result<Buffer, E>> {
        self.buf_recv
    }

    /// The end to put buffers up for filling on.
    pub closed spec fn empty_end(&self) -> Outbox<Option<Buffer>> {
        self.buf_send
    }

    /// The view of a reader shows all that was done at its ends of the channels.
    pub proof fn view_shows_the_ends(&self)
        ensures
            self@.commands == self.command_end().sent(),
            self@.commands_took == self.command_end().took(),
            self@.received.len() == self.filled_end().looks().len(),
            forall|i: int|
                0 <= i < self@.received.len() ==> #[trigger] self@.received[i] == awaited(
                    self.filled_end().looks()[i],
                ),
            self@.patient ==> forall|i: int|
                0 <= i < self@.received.len() ==> (
                #[trigger] self.filled_end().looks()[i]) is Wait,
            self@.released.len() == self.empty_end().sent().len(),
            forall|i: int|
                0 <= i < self@.released.len() ==> #[trigger] self@.released[i] == match
                    self.empty_end().sent()[i] {
                    Some(b) => Some(b@),
                    None => None,
                },
            self@.links.commands == self.command_end().id(),
            self@.links.filled == self.filled_end().id(),
            self@.links.empty == self.empty_end().id(),
    {
    }

    /// What holds of a reader between calls.
    pub open spec fn wf(&self) -> bool {
        self@.wf()
    }

    /// Creates a reader with the default buffer size (8KB) and queue length (2), and the
    /// background reader that it is paired with, over a source that stands at `start_pos`.
    pub fn new(start_pos: u64) -> (r: (SmartBuf<E>, BackgroundReader<E>))
        ensures
            r.0.wf(),
            r.1.wf(),
            r.0@ == opened::<E>(8192, 2, start_pos as int, r.0@.links),
            r.1@ == fresh::<E>(start_pos as int, r.0@.links),
    {
        Self::with_capacity(DEFAULT_BUF_SIZE, DEFAULT_QUEUE_LEN, start_pos)
    }

    /// Creates a reader with the specified buffer size and queue length, and the background
    /// reader that it is paired with, over a source that stands at `start_pos`.
    ///
    /// `bufsize` is the size of each buffer chunk in bytes.
    /// `queuelen` is the number of buffers to keep in the queue (must be >= 1).
    pub fn with_capacity(bufsize: usize, queuelen: usize, start_pos: u64) -> (r: (
        SmartBuf<E>,
        BackgroundReader<E>,
    ))
        requires
            0 < bufsize <= isize::MAX,
            queuelen >= 1,
            (queuelen - 1) * bufsize <= usize::MAX,
        ensures
            r.0.wf(),
            r.1.wf(),
            r.0@ == opened::<E>(bufsize as int, queuelen as int, start_pos as int, r.0@.links),
            r.1@ == fresh::<E>(start_pos as int, r.0@.links),
    {
        let (cmd_send, cmd_recv) = unbounded();
        let (full_send, full_recv) = unbounded();
        let (empty_send, empty_recv) = unbounded();
        let mut reader = SmartBuf {
            cmd_send,
            connected: true,
            buf_recv: full_recv,
            buf_send: empty_send,
            buffer: None,
            buf_pos: 0,
            position: start_pos,
            current_generation: 0,
            next_generation: 1,
            bufsize,
            failure: None,
        };
        let ghost links = reader@.links;
        let ghost whole = pool(bufsize as int, queuelen as int);
        let mut i: usize = 0;
        proof {
            assert(reader@.released =~= offering(whole.take(0)));
            assert(reader@.received =~= Seq::<Incoming<E>>::empty());
        }
        while i < queuelen
            invariant
                i <= queuelen,
                0 < bufsize <= isize::MAX,
                (queuelen - 1) * bufsize <= usize::MAX,
                whole == pool(bufsize as int, queuelen as int),
                reader@ == (ReaderView {
                    released: offering(whole.take(i as int)),
                    ..opened::<E>(bufsize as int, queuelen as int, start_pos as int, links)
                }),
            decreases queuelen - i,
        {
            proof {
                assert(i * bufsize <= (queuelen - 1) * bufsize) by (nonlinear_arith)
                    requires
                        0 <= i <= queuelen - 1,
                        0 < bufsize,
                ;
            }
            let buffer = Buffer::new(bufsize, (i * bufsize) as u64);
            proof {
                assert(buffer@ == whole[i as int]);
                assert(offering(whole.take(i + 1)) =~= offering(whole.take(i as int)).push(
                    Some(buffer@),
                ));
            }
            reader.release(buffer);
            i += 1;
        }
        let background = BackgroundReader::new(empty_recv, full_send, cmd_recv, start_pos);
        proof {
            assert(whole.take(queuelen as int) =~= whole);
            assert(background@ =~= fresh::<E>(start_pos as int, links));
        }
        (reader, background)
    }

    /// Returns the current absolute position in the stream.
    pub fn position(&self) -> (r: u64)
        ensures
            r == self@.position,
    {
        self.position
    }

    /// Returns the buffer size.
    pub fn buffer_size(&self) -> (r: usize)
        ensures
            r == self@.buffer_size,
    {
        self.bufsize
    }

    /// Gives `buffer` back to be filled again.
    fn release(&mut self, buffer: Buffer)
        ensures
            final(self)@ == (ReaderView {
                released: old(self)@.released.push(Some(buffer@)),
                ..old(self)@
            }),
    {
        let ghost b = buffer@;
        let _ = self.buf_send.send(Some(buffer));
        proof {
            assert(self@.released =~= old(self)@.released.push(Some(b)));
        }
    }

    /// Gives the buffer in hand back; does nothing if there is none.
    pub fn return_current_buffer(&mut self)
        requires
            old(self).wf(),
        ensures
            final(self).wf(),
            final(self)@ == old(self)@.waiting(Seq::empty()),
            old(self)@.buffer is None ==> final(self)@ == old(self)@,
    {
        if let Some(buffer) = self.buffer.take() {
            self.release(buffer);
        }
        self.buf_pos = 0;
        proof {
            let held = old(self)@.held() + buffers_in(Seq::<Incoming<E>>::empty());
            assert(self@.released =~= old(self)@.released + offering(held));
            assert(self@ =~= old(self)@.waiting(Seq::empty()));
        }
    }

    /// Makes use of one message of the background reader: a buffer of the current generation is
    /// kept, any other buffer goes back at once. Returns `None` while there is nothing to go on
    /// with.
    pub fn accept(&mut self, message: Option<Result<Buffer, E>>) -> (r: Option<
        Result<(), Error<E>>,
    >)
        requires
            old(self).wf(),
            old(self)@.buffer is None,
        ensures
            final(self).wf(),
            final(self)@ == old(self)@.after_message(incoming(message)),
            match message {
                Some(Ok(b)) => if b@.generation == old(self)@.current_generation {
                    &&& r == Some(Ok::<(), Error<E>>(()))
                    &&& final(self)@.buffer == Some(b@)
                    &&& final(self)@.position == b@.start_pos
                    &&& final(self)@.released == old(self)@.released
                } else {
                    &&& r is None
                    &&& final(self)@.buffer is None
                    &&& final(self)@.position == old(self)@.position
                    &&& final(self)@.released == old(self)@.released.push(Some(b@))
                },
                Some(Err(e)) => {
                    &&& r == Some(Err::<(), Error<E>>(Error::Source(e)))
                    &&& final(self)@ == old(self)@
                },
                None => {
                    &&& r == Some(Err::<(), Error<E>>(Error::Disconnected))
                    &&& final(self)@ == old(self)@
                },
            },
            incoming(message).is_current(old(self)@.current_generation) ==> r == Some(
                Ok::<(), Error<E>>(()),
            ),
            incoming(message).is_stale(old(self)@.current_generation) ==> r is None,
            !(incoming(message) is Buffer) ==> r == Some(
                Err::<(), Error<E>>(verdict(incoming(message))),
            ),
    {
        match message {
            Some(Ok(buffer)) => {
                proof {
                    use_type_invariant(&buffer);
                }
                if buffer.generation() != self.current_generation {
                    self.release(buffer);
                    None
                } else {
                    self.position = buffer.start_pos();
                    self.buf_pos = 0;
                    self.buffer = Some(buffer);
                    Some(Ok(()))
                }
            },
            Some(Err(e)) => Some(Err(Error::Source(e))),
            None => Some(Err(Error::Disconnected)),
        }
    }

    /// Waits for the next buffer of the current generation, and takes it in hand in place of the
    /// one before.
    pub fn get_next_buffer(&mut self) -> (r: Result<(), Error<E>>)
        requires
            old(self).wf(),
        ensures
            final(self).wf(),
            old(self)@.waits_for(old(self)@.taken(final(self)@)),
            final(self)@ == old(self)@.after_wait(old(self)@.taken(final(self)@)),
            r == old(self)@.wait_result(old(self)@.taken(final(self)@)),
    {
        let ghost pre = self@;
        let ghost mut taken: Seq<Incoming<E>> = Seq::empty();
        self.return_current_buffer();
        for count in 0..u64::MAX
            invariant
                self.wf(),
                pre == old(self)@,
                self@ == pre.waiting(taken),
                taken.len() == count == stale_run(pre.current_generation, taken),
                forall|j: int|
                    0 <= j < taken.len() ==> (#[trigger] taken[j]).is_stale(pre.current_generation),
                forall|j: int|
                    0 <= j < taken.len() ==> !gave_up(
                        pre.current_generation,
                        #[trigger] taken.take(j),
                    ),
        {
            let ghost before = taken;
            let ghost now = self@;
            let message = self.buf_recv.recv();
            let ghost m = incoming(message);
            proof {
                taken = before.push(m);
                assert(awaited(Look::Wait(message)) == m);
                assert(self@.received =~= now.received.push(m));
                assert(taken.drop_last() =~= before);
                assert(self@.received =~= pre.received + taken);
            }
            let done = self.accept(message);
            proof {
                assert(pre.taken(self@) =~= taken);
                assert forall|j: int| 0 <= j < taken.len() implies !gave_up(
                    pre.current_generation,
                    #[trigger] taken.take(j),
                ) by {
                    if j < before.len() {
                        assert(taken.take(j) =~= before.take(j));
                    } else {
                        assert(taken.take(j) =~= before);
                    }
                }
                assert(self@ =~= pre.after_wait(taken));
            }
            match done {
                Some(r) => {
                    return r;
                },
                None => {},
            }
            proof {
                assert(self@ =~= pre.waiting(taken));
            }
        }
        proof {
            assert(pre.taken(self@) =~= taken);
            assert(taken.last().is_stale(pre.current_generation));
            assert(self@ =~= pre.after_wait(taken));
        }
        Err(Error::Overrun)
    }

    /// Waits for a buffer unless one is in hand.
    fn ensure_buffer(&mut self) -> (r: Result<(), Error<E>>)
        requires
            old(self).wf(),
        ensures
            final(self).wf(),
            old(self)@.buffer is Some ==> final(self)@ == old(self)@ && r == Ok::<(), Error<E>>(()),
            old(self)@.buffer is None ==> {
                let taken = old(self)@.taken(final(self)@);
                &&& old(self)@.waits_for(taken)
                &&& final(self)@ == old(self)@.after_wait(taken)
                &&& r == old(self)@.wait_result(taken)
            },
    {
        if self.buffer.is_none() {
            self.get_next_buffer()
        } else {
            Ok(())
        }
    }

    /// Waits for the buffer behind the one in hand.
    fn advance_buffer(&mut self) -> (r: Result<(), Error<E>>)
        requires
            old(self).wf(),
        ensures
            final(self).wf(),
            old(self)@.waits_for(old(self)@.taken(final(self)@)),
            final(self)@ == old(self)@.after_wait(old(self)@.taken(final(self)@)),
            r == old(self)@.wait_result(old(self)@.taken(final(self)@)),
    {
        let ghost pre = self@;
        self.return_current_buffer();
        let ghost mid = self@;
        let r = self.get_next_buffer();
        proof {
            let taken = mid.taken(self@);
            let rest = taken.drop_last();
            assert(pre.received + Seq::<Incoming<E>>::empty() =~= pre.received);
            assert(pre.taken(self@) =~= taken);
            assert(mid.waiting(rest).released =~= pre.waiting(rest).released);
            assert(mid.waiting(rest) =~= pre.waiting(rest));
        }
        r
    }

    /// Copies what is in hand into `out`, from offset `at` on, as far as both last.
    fn copy_out(&mut self, out: &mut [u8], at: usize) -> (n: usize)
        requires
            old(self).wf(),
            old(self)@.buffer is Some,
            at <= old(out)@.len(),
        ensures
            final(self).wf(),
            n == (if old(self)@.unread().len() <= old(out)@.len() - at {
                old(self)@.unread().len() as int
            } else {
                old(out)@.len() - at
            }),
            final(out)@ == old(out)@.take(at as int) + old(self)@.unread().take(n as int) + old(
                out,
            )@.skip(at + n),
            final(self)@ == (ReaderView {
                buf_pos: old(self)@.buf_pos + n,
                position: old(self)@.position + n,
                ..old(self)@
            }),
    {
        let room: usize = out.len() - at;
        match &self.buffer {
            Some(buffer) => {
                proof {
                    use_type_invariant(buffer);
                }
                let available: usize = buffer.end() - self.buf_pos;
                let n: usize = if available <= room {
                    available
                } else {
                    room
                };
                buffer.copy_to(self.buf_pos, n, out, at);
                let start: u64 = buffer.start_pos();
                proof {
                    assert(old(self)@.unread().take(n as int) =~= old(
                        self,
                    )@.buffer.unwrap().bytes().subrange(self.buf_pos as int, self.buf_pos + n));
                }
                self.buf_pos = self.buf_pos + n;
                self.position = start + self.buf_pos as u64;
                n
            },
            None => 0,
        }
    }

    /// Ends a read that has handed `total` bytes out with the error `e`, which is reported at once
    /// if there are none.
    fn break_off(&mut self, total: usize, e: Error<E>) -> (r: Result<usize, Error<E>>)
        requires
            old(self).wf(),
        ensures
            final(self).wf(),
            if total == 0 {
                final(self)@ == old(self)@ && r == Err::<usize, Error<E>>(e)
            } else {
                &&& final(self)@ == (ReaderView { failure: Some(e), ..old(self)@ })
                &&& r == Ok::<usize, Error<E>>(total)
            },
    {
        if total == 0 {
            Err(e)
        } else {
            self.failure = Some(e);
            Ok(total)
        }
    }

    /// Reads bytes of the stream into `buf`, and returns how many: fewer than `buf` has room for
    /// only where an empty buffer marks the end of the stream, or where the stream breaks off. An
    /// error means that nothing was read.
    pub fn read(&mut self, buf: &mut [u8]) -> (r: Result<usize, Error<E>>)
        requires
            old(self).wf(),
        ensures
            final(self).wf(),
            old(self)@.reads(old(buf)@.len() as int, final(self)@, r),
            ({
                let taken = old(self)@.taken(final(self)@);
                let n = match r {
                    Ok(n) => n as int,
                    Err(_) => 0,
                };
                final(buf)@ == old(self)@.stream(taken).take(n) + old(buf)@.skip(n)
            }),
    {
        let want: usize = buf.len();
        let ghost pre = self@;
        let ghost before = buf@;
        if want == 0 {
            proof {
                assert(pre.taken(self@) =~= Seq::<Incoming<E>>::empty());
            }
            return Ok(0);
        }
        if let Some(e) = self.failure.take() {
            proof {
                assert(pre.taken(self@) =~= Seq::<Incoming<E>>::empty());
                assert(self@ =~= pre.cleared());
            }
            return Err(e);
        }
        let mut total: usize = 0;
        let mut at_end: bool = false;
        let ghost mut taken: Seq<Incoming<E>> = Seq::empty();
        proof {
            assert(pre.chain(taken) =~= pre.held());
            assert(pre.stream(taken) =~= pre.unread());
            assert(pre.stream(taken).skip(0) =~= pre.unread());
        }
        while total < want && !at_end
            invariant
                pre == old(self)@,
                before == old(buf)@,
                in_read(pre, self@, want as int, total as int, taken),
                want == before.len() == buf@.len(),
                total <= want,
                buf@ == pre.stream(taken).take(total as int) + before.skip(total as int),
                total > 0 ==> self@.buffer is Some && !used_up(self@),
                at_end ==> self@.buffer is Some && self@.buffer.unwrap().end == 0,
            decreases
                want - total,
                (if at_end {
                    0int
                } else {
                    1int
                }),
                (if used_up(self@) {
                    1int
                } else {
                    0int
                }),
        {
            let ghost now = self@;
            let ensured = self.ensure_buffer();
            proof {
                if now.buffer is None {
                    lemma_in_read_wait(
                        pre,
                        now,
                        self@,
                        want as int,
                        total as int,
                        taken,
                        now.taken(self@),
                    );
                    taken = taken + now.taken(self@);
                }
            }
            match ensured {
                Ok(()) => {},
                Err(e) => {
                    return self.break_off(total, e);
                },
            }
            let end: usize = match &self.buffer {
                Some(b) => b.end(),
                None => 0,
            };
            if end == 0 {
                at_end = true;
            } else if self.buf_pos >= end {
                let ghost now = self@;
                let advanced = self.advance_buffer();
                proof {
                    lemma_in_read_wait(
                        pre,
                        now,
                        self@,
                        want as int,
                        total as int,
                        taken,
                        now.taken(self@),
                    );
                    taken = taken + now.taken(self@);
                }
                match advanced {
                    Ok(()) => {},
                    Err(e) => {
                        return self.break_off(total, e);
                    },
                }
            } else {
                let ghost now = self@;
                let ghost out = buf@;
                let n: usize = self.copy_out(buf, total);
                proof {
                    lemma_in_read_copy(
                        pre,
                        now,
                        self@,
                        want as int,
                        total as int,
                        n as int,
                        taken,
                        before,
                        out,
                    );
                }
                total = total + n;
                if self.buf_pos >= end {
                    let ghost now = self@;
                    let advanced = self.advance_buffer();
                    proof {
                        lemma_in_read_wait(
                            pre,
                            now,
                            self@,
                            want as int,
                            total as int,
                            taken,
                            now.taken(self@),
                        );
                        taken = taken + now.taken(self@);
                    }
                    match advanced {
                        Ok(()) => {},
                        Err(e) => {
                            return self.break_off(total, e);
                        },
                    }
                }
            }
        }
        proof {
            lemma_in_read_done(pre, self@, want as int, total as int, taken);
        }
        Ok(total)
    }

    /// Where a seek to `pos` goes, as far as this side can tell, unless it is refused.
    fn target_of(&self, pos: SeekFrom) -> (r: Result<Option<u64>, Error<E>>)
        ensures
            match r {
                Ok(None) => !self@.refuses(pos) && self@.seek_target(pos) is None,
                Ok(Some(t)) => !self@.refuses(pos) && self@.seek_target(pos) == Some(t as int),
                Err(e) => if self@.goes_before_start(pos) {
                    e == Error::<E>::SeekBeforeStart
                } else {
                    self@.goes_too_far(pos) && e == Error::<E>::SeekOverflow
                },
            },
    {
        match pos {
            SeekFrom::Start(n) => Ok(Some(n)),
            SeekFrom::Current(delta) => {
                let sum: i128 = self.position as i128 + delta as i128;
                if sum < 0 {
                    Err(Error::SeekBeforeStart)
                } else if sum > u64::MAX as i128 {
                    Err(Error::SeekOverflow)
                } else {
                    Ok(Some(sum as u64))
                }
            },
            SeekFrom::End(_) => Ok(None),
        }
    }

    /// How far `target` is from the start of the buffer in hand, if that reaches there.
    fn offset_of(&self, target: u64) -> (r: Option<usize>)
        ensures
            match r {
                Some(offset) => self@.reaches(target as int) && offset == target
                    - self@.buffer.unwrap().start_pos,
                None => !self@.reaches(target as int),
            },
    {
        match &self.buffer {
            Some(buffer) => {
                let start: u64 = buffer.start_pos();
                let end: usize = buffer.end();
                if target >= start && target - start <= end as u64 {
                    Some((target - start) as usize)
                } else {
                    None
                }
            },
            None => None,
        }
    }

    /// Whether a seek to `pos` can be done: one that goes to the background reader needs a
    /// number, and these can run out.
    pub fn can_seek(&self, pos: SeekFrom) -> (r: bool)
        ensures
            r == self@.seekable(pos),
    {
        match self.target_of(pos) {
            Err(_) => true,
            Ok(None) => self.failure.is_some() || self.next_generation < u64::MAX,
            Ok(Some(target)) => self.offset_of(target).is_some() || self.failure.is_some()
                || self.next_generation < u64::MAX,
        }
    }

    /// Does the part of a seek to `pos` that needs no one else: the seek is refused, or done
    /// within the buffer in hand, or an error that is due is reported, or a command is due.
    pub fn begin_seek(&mut self, pos: SeekFrom) -> (r: Result<SeekStart, Error<E>>)
        requires
            old(self).wf(),
            old(self)@.seekable(pos),
        ensures
            final(self).wf(),
            if old(self)@.goes_before_start(pos) {
                final(self)@ == old(self)@ && r == Err::<SeekStart, Error<E>>(
                    Error::SeekBeforeStart,
                )
            } else if old(self)@.goes_too_far(pos) {
                final(self)@ == old(self)@ && r == Err::<SeekStart, Error<E>>(Error::SeekOverflow)
            } else if old(self)@.stays_within(pos) {
                let target = old(self)@.seek_target(pos).unwrap();
                final(self)@ == old(self)@.moved_to(target) && r == Ok::<SeekStart, Error<E>>(
                    SeekStart::Done(target as u64),
                )
            } else if old(self)@.failure is Some {
                final(self)@ == old(self)@.cleared() && r == Err::<SeekStart, Error<E>>(
                    old(self)@.failure.unwrap(),
                )
            } else {
                &&& final(self)@ == old(self)@.turned()
                &&& r matches Ok(SeekStart::Ask { command, target }) && command == old(
                    self,
                )@.seek_command(pos) && match target {
                    Some(t) => old(self)@.seek_target(pos) == Some(t as int),
                    None => old(self)@.seek_target(pos) is None,
                }
            },
    {
        let target: Option<u64> = match self.target_of(pos) {
            Ok(target) => target,
            Err(e) => {
                return Err(e);
            },
        };
        if let Some(t) = target {
            if let Some(offset) = self.offset_of(t) {
                self.buf_pos = offset;
                self.position = t;
                return Ok(SeekStart::Done(t));
            }
        }
        if let Some(e) = self.failure.take() {
            return Err(e);
        }
        let generation: u64 = self.next_generation;
        self.return_current_buffer();
        self.next_generation = generation + 1;
        self.current_generation = generation;
        let command = Command::Seek {
            generation,
            pos: match target {
                Some(t) => SeekFrom::Start(t),
                None => pos,
            },
        };
        Ok(SeekStart::Ask { command, target })
    }

    /// Goes to `target` within the buffer that came for it; without a target, stays at the start
    /// of that buffer.
    pub fn land(&mut self, target: Option<u64>) -> (r: Result<u64, Error<E>>)
        requires
            old(self).wf(),
            old(self)@.buf_pos == 0,
        ensures
            final(self).wf(),
            ({
                let t = match target {
                    Some(t) => Some(t as int),
                    None => None,
                };
                final(self)@ == old(self)@.landed(t) && r == old(self)@.landing(t)
            }),
    {
        match &self.buffer {
            Some(buffer) => {
                proof {
                    use_type_invariant(buffer);
                }
                let start: u64 = buffer.start_pos();
                let end: usize = buffer.end();
                match target {
                    Some(t) => {
                        if t < start {
                            return Err(Error::SeekBeforeBuffer);
                        }
                        let offset: u64 = t - start;
                        if offset > usize::MAX as u64 {
                            return Err(Error::SeekOffsetTooLarge);
                        }
                        if offset as usize > end {
                            return Err(Error::SeekOutsideBuffer);
                        }
                        self.buf_pos = offset as usize;
                        self.position = t;
                        Ok(t)
                    },
                    None => Ok(start),
                }
            },
            None => Err(Error::MissingBuffer),
        }
    }

    /// Does the rest of a seek to `target`, once its command was handed to the channel: waits for
    /// the buffer that comes for it, unless the channel did not take the command.
    pub fn finish_seek(&mut self, sent: Result<(), Command>, target: Option<u64>) -> (r: Result<
        u64,
        Error<E>,
    >)
        requires
            old(self).wf(),
        ensures
            final(self).wf(),
            match sent {
                Err(_) => final(self)@ == old(self)@ && r == Err::<u64, Error<E>>(
                    Error::BrokenPipe,
                ),
                Ok(()) => {
                    let t = match target {
                        Some(t) => Some(t as int),
                        None => None,
                    };
                    old(self)@.arrives(t, final(self)@, r)
                },
            },
    {
        if sent.is_err() {
            return Err(Error::BrokenPipe);
        }
        match self.get_next_buffer() {
            Ok(()) => self.land(target),
            Err(e) => Err(e),
        }
    }

    /// Moves to the position `pos`, and returns where that is from the start of the stream. A
    /// seek within the buffer in hand is done at once; any other goes to the background reader.
    pub fn seek(&mut self, pos: SeekFrom) -> (r: Result<u64, Error<E>>)
        requires
            old(self).wf(),
            old(self)@.seekable(pos),
        ensures
            final(self).wf(),
            old(self)@.seeks(pos, final(self)@, r),
    {
        match self.begin_seek(pos) {
            Err(e) => Err(e),
            Ok(SeekStart::Done(target)) => Ok(target),
            Ok(SeekStart::Ask { command, target }) => {
                if !self.connected {
                    return Err(Error::BrokenPipe);
                }
                let sent = self.cmd_send.send(command);
                self.finish_seek(sent, target)
            },
        }
    }

    /// Gives the buffer in hand back and tells the background reader to stop.
    pub fn shut_down(&mut self)
        requires
            old(self).wf(),
        ensures
            final(self).wf(),
            final(self)@ == old(self)@.shut(final(self)@.commands_took.last()),
    {
        self.return_current_buffer();
        if self.connected {
            let _ = self.cmd_send.send(Command::Stop);
            self.connected = false;
        }
    }
}

} // verus!
