//! What a reader and its background reader keep to together, over a source with fixed contents.

use crate::background::{fresh, Action, BackgroundView, Event, PhaseView};
use crate::buffer::{progress, refilled, BufferView, ReadOutcome, Refill};
use crate::channel::{Look, Polled};
use crate::message::{
    buffers_in, commands_in, current_in, found_in, gave_up, joined, lemma_buffers_in_append,
    lemma_none_current, offering, ordered, stale_run, verdict, Command, Error, Incoming, Links,
    SeekFrom,
};
use crate::reader::{opened, pool, ReaderView};
use vstd::prelude::*;

verus! {

/// A source with fixed contents, and where it stood at first.
pub struct Source {
    pub data: Seq<u8>,
    pub start: int,
}

impl Source {
    /// The length of the source.
    pub open spec fn len(self) -> int {
        self.data.len() as int
    }

    /// What holds of every source: it stands where a position can be counted.
    pub open spec fn wf(self) -> bool {
        0 <= self.start <= u64::MAX
    }
}

/// Whether `b` holds the bytes of `data` at its place.
pub open spec fn copies(b: BufferView, data: Seq<u8>) -> bool {
    forall|i: int|
        0 <= i < b.end ==> b.start_pos + i < data.len() && #[trigger] b.data[i] == data[b.start_pos
            + i]
}

/// Where a seek to `pos` goes in a source of `len` bytes. A command never asks for a place
/// relative to the current one.
pub open spec fn place(pos: SeekFrom, len: int) -> int {
    match pos {
        SeekFrom::Start(n) => n as int,
        SeekFrom::End(offset) => len + offset,
        SeekFrom::Current(delta) => delta as int,
    }
}

/// Where the buffers of `generation` begin in `source`, after `commands`: at the place of the seek
/// with that generation, or where the source stood at first.
pub open spec fn beginning(commands: Seq<Command>, generation: int, source: Source) -> int
    decreases commands.len(),
{
    if commands.len() == 0 {
        source.start
    } else {
        match commands.last() {
            Command::Seek { generation: g, pos } if g == generation => place(pos, source.len()),
            _ => beginning(commands.drop_last(), generation, source),
        }
    }
}

/// The generation of the last seek among `commands`, or zero.
pub open spec fn last_generation(commands: Seq<Command>) -> int
    decreases commands.len(),
{
    if commands.len() == 0 {
        0
    } else {
        match commands.last() {
            Command::Seek { generation, .. } => generation as int,
            Command::Stop => last_generation(commands.drop_last()),
        }
    }
}

/// Where the buffer at index `i` of `sent` is to begin: behind the buffer before it, if that is
/// of the same generation, else where the generation begins.
pub open spec fn due_start<E>(
    sent: Seq<Incoming<E>>,
    i: int,
    generation: int,
    commands: Seq<Command>,
    source: Source,
) -> int {
    if i > 0 && sent[i - 1].is_current(generation) {
        sent[i - 1]->Buffer_0.limit()
    } else {
        beginning(commands, generation, source)
    }
}

/// Whether a buffer at index `i` of `sent` begins where it is to.
pub open spec fn well_placed<E>(
    sent: Seq<Incoming<E>>,
    i: int,
    commands: Seq<Command>,
    source: Source,
) -> bool {
    sent[i] matches Incoming::Buffer(x) ==> x.start_pos == due_start(
        sent,
        i,
        x.generation,
        commands,
        source,
    )
}

/// Whether a background reader has sent nothing but the contents of its source: each buffer holds
/// the bytes at its place, the buffers of a generation follow on each other without a gap from the
/// place that its seek asked for, and the generations come in order. Straight after a seek, none
/// of its generation was sent.
pub open spec fn faithful<E>(b: BackgroundView<E>, source: Source) -> bool {
    &&& b.wf()
    &&& source.wf()
    &&& ordered(b.commands())
    &&& forall|i: int|
        0 <= i < b.sent.len() ==> (#[trigger] b.sent[i] matches Incoming::Buffer(x) ==> {
            &&& copies(x, source.data)
            &&& x.generation <= b.current_generation
        })
    &&& forall|i: int|
        0 <= i < b.sent.len() ==> #[trigger] well_placed(b.sent, i, b.commands(), source)
    &&& forall|i: int, j: int|
        0 <= i < j < b.sent.len() ==> (#[trigger] b.sent[i] matches Incoming::Buffer(x) ==> (
        #[trigger] b.sent[j] matches Incoming::Buffer(y) ==> x.generation <= y.generation))
    &&& forall|i: int|
        0 <= i < b.sent.len() - (if b.phase is Stopped {
            1int
        } else {
            0int
        }) ==> #[trigger] b.sent[i] is Buffer
    &&& b.current_generation <= last_generation(b.commands())
    &&& !(b.phase is Stopped) ==> b.current_pos == due_start(
        b.sent,
        b.sent.len() as int,
        b.current_generation,
        b.commands(),
        source,
    )
    &&& b.pending_seek ==> {
        &&& !(b.phase is Filling)
        &&& b.current_generation > 0
        &&& forall|i: int|
            0 <= i < b.sent.len() ==> !(#[trigger] b.sent[i]).is_current(b.current_generation)
    }
    &&& match b.phase {
        PhaseView::Ready => b.current_generation == last_generation(b.commands()),
        PhaseView::Seeking { generation, pos } => {
            &&& b.commands().len() > 0
            &&& b.commands().last() == Command::Seek { generation: generation as u64, pos }
            &&& b.current_generation == last_generation(b.commands().drop_last())
        },
        PhaseView::Filling(x) => b.current_generation == last_generation(b.commands()) && copies(
            x,
            source.data,
        ),
        PhaseView::Stopped => true,
    }
}

/// Whether `event` is what a source with the contents `data` answers to what `b` asked for. A
/// read may give any part of what is wanted, but nothing only at the end of the source, and it may
/// be interrupted or fail.
pub open spec fn answers<E>(data: Seq<u8>, b: BackgroundView<E>, event: Event<E>) -> bool {
    match (b.phase, event) {
        (PhaseView::Seeking { pos, .. }, Event::Sought(p)) => p == place(pos, data.len() as int),
        (PhaseView::Filling(x), Event::Read(ReadOutcome::Data(bytes))) => {
            if bytes@.len() == 0 {
                x.limit() >= data.len()
            } else {
                &&& x.limit() + bytes@.len() <= data.len()
                &&& bytes@ == data.subrange(x.limit(), x.limit() + bytes@.len())
            }
        },
        _ => true,
    }
}

proof fn lemma_last_generation(commands: Seq<Command>, bound: int)
    requires
        bound >= 0,
        forall|i: int|
            0 <= i < commands.len() ==> (#[trigger] commands[i] matches Command::Seek {
                generation,
                ..
            } ==> generation <= bound),
    ensures
        0 <= last_generation(commands) <= bound,
    decreases commands.len(),
{
    if commands.len() > 0 {
        assert(commands.last() == commands[commands.len() - 1]);
        assert forall|i: int| 0 <= i < commands.drop_last().len() implies (
        #[trigger] commands.drop_last()[i] matches Command::Seek { generation, .. }
            ==> generation <= bound) by {
            assert(commands.drop_last()[i] == commands[i]);
        }
        lemma_last_generation(commands.drop_last(), bound);
    }
}

/// A new seek has a higher generation than the seeks before it.
proof fn lemma_newer(commands: Seq<Command>, command: Command)
    requires
        ordered(commands.push(command)),
    ensures
        command matches Command::Seek { generation, .. } ==> last_generation(commands)
            < generation,
        0 <= last_generation(commands),
{
    let all = commands.push(command);
    assert(all[commands.len() as int] == command);
    assert forall|i: int| 0 <= i < commands.len() implies #[trigger] commands[i] == all[i] by {}
    match command {
        Command::Seek { generation, .. } => {
            lemma_last_generation(commands, generation - 1);
        },
        Command::Stop => {
            lemma_last_generation(commands, u64::MAX as int);
        },
    }
}

/// What one look more adds to the commands that were found.
pub(crate) proof fn lemma_commands_push(looks: Seq<Look<Command>>, look: Look<Command>)
    ensures
        commands_in(looks.push(look)) == match look.found() {
            Polled::Message(command) => commands_in(looks).push(command),
            _ => commands_in(looks),
        },
{
    assert(looks.push(look).drop_last() =~= looks);
}

/// What one look more adds to the buffers that were found.
pub(crate) proof fn lemma_found_push(
    looks: Seq<Look<Option<BufferView>>>,
    look: Look<Option<BufferView>>,
)
    ensures
        found_in(looks.push(look)) == match look.found() {
            Polled::Message(message) => found_in(looks).push(message),
            _ => found_in(looks),
        },
{
    assert(looks.push(look).drop_last() =~= looks);
}

/// A command that waits, a buffer that waits, or neither: looking for work keeps to the source.
proof fn lemma_polls_faithful<E>(
    b: BackgroundView<E>,
    later: BackgroundView<E>,
    action: Action,
    source: Source,
)
    requires
        faithful(b, source),
        b.phase is Ready,
        b.polls(later, action),
        later.wf(),
        ordered(later.commands()),
    ensures
        faithful(later, source),
{
    let look = later.command_looks.last();
    lemma_commands_push(b.command_looks, look);
    if let Polled::Message(c) = look.found() {
        assert(b.commands().push(c).drop_last() =~= b.commands());
        lemma_newer(b.commands(), c);
    }
    assert forall|i: int| 0 <= i < later.sent.len() implies #[trigger] well_placed(
        later.sent,
        i,
        later.commands(),
        source,
    ) by {
        assert(well_placed(b.sent, i, b.commands(), source));
    }
}

/// A seek that was done keeps to the source.
proof fn lemma_sought_faithful<E>(
    b: BackgroundView<E>,
    later: BackgroundView<E>,
    p: u64,
    source: Source,
)
    requires
        faithful(b, source),
        b.phase matches PhaseView::Seeking { generation, pos } && p == place(
            pos,
            source.len(),
        ) && later == (BackgroundView {
            current_generation: generation,
            current_pos: p as int,
            pending_seek: true,
            phase: PhaseView::Ready,
            ..b
        }),
    ensures
        faithful(later, source),
{
    assert(b.commands().drop_last().push(b.commands().last()) =~= b.commands());
    lemma_newer(b.commands().drop_last(), b.commands().last());
    let n = b.sent.len() as int;
    if n > 0 {
        assert(!b.sent[n - 1].is_current(later.current_generation));
    }
}

/// A read that gives part of the contents of the source keeps to it.
proof fn lemma_refilled_copies<E>(x: BufferView, outcome: ReadOutcome<E>, data: Seq<u8>)
    requires
        x.wf(),
        copies(x, data),
        outcome matches ReadOutcome::Data(bytes) ==> {
            &&& x.end + bytes@.len() <= x.capacity()
            &&& bytes@.len() > 0 ==> x.limit() + bytes@.len() <= data.len() && bytes@
                == data.subrange(x.limit(), x.limit() + bytes@.len())
        },
    ensures
        copies(refilled(x, outcome), data),
{
    let filled = refilled(x, outcome);
    assert forall|i: int| 0 <= i < filled.end implies filled.start_pos + i < data.len()
        && #[trigger] filled.data[i] == data[filled.start_pos + i] by {
        if i < x.end {
            assert(filled.data[i] == x.data[i]);
        } else {
            assert(filled.data[i] == outcome->Data_0@[i - x.end]);
        }
    }
}

/// A buffer sent on keeps to the source.
proof fn lemma_sent_faithful<E>(
    b: BackgroundView<E>,
    filled: BufferView,
    took: bool,
    later: BackgroundView<E>,
    source: Source,
)
    requires
        faithful(b, source),
        b.phase is Filling,
        filled.wf(),
        copies(filled, source.data),
        filled.start_pos == b.current_pos,
        filled.generation == b.current_generation,
        later == b.passing(filled, took),
    ensures
        faithful(later, source),
{
    let n = b.sent.len() as int;
    assert(later.sent.drop_last() =~= b.sent);
    assert forall|i: int| 0 <= i < later.sent.len() implies #[trigger] well_placed(
        later.sent,
        i,
        later.commands(),
        source,
    ) by {
        if i < n {
            assert(well_placed(b.sent, i, b.commands(), source));
            assert(later.sent[i] == b.sent[i]);
            if i > 0 {
                assert(later.sent[i - 1] == b.sent[i - 1]);
            }
        } else if n > 0 {
            assert(later.sent[n - 1] == b.sent[n - 1]);
        }
    }
}

/// An error sent on keeps to the source.
proof fn lemma_failed_faithful<E>(
    b: BackgroundView<E>,
    e: E,
    took: bool,
    later: BackgroundView<E>,
    source: Source,
)
    requires
        faithful(b, source),
        !(b.phase is Stopped),
        later == b.sending(Incoming::Failed(e), took).stopped(),
    ensures
        faithful(later, source),
{
    let n = b.sent.len() as int;
    assert forall|i: int| 0 <= i < later.sent.len() implies #[trigger] well_placed(
        later.sent,
        i,
        later.commands(),
        source,
    ) by {
        if i < n {
            assert(well_placed(b.sent, i, b.commands(), source));
            assert(later.sent[i] == b.sent[i]);
            if i > 0 {
                assert(later.sent[i - 1] == b.sent[i - 1]);
            }
        }
    }
}

/// A new background reader has sent nothing amiss.
pub proof fn fresh_is_faithful<E>(source: Source, links: Links)
    requires
        source.wf(),
    ensures
        faithful(fresh::<E>(source.start, links), source),
        marks_the_end(fresh::<E>(source.start, links), source),
{
}

/// Whatever a background reader does next, it goes on sending nothing but the contents of its
/// source.
pub proof fn serving_stays_faithful<E>(
    b: BackgroundView<E>,
    event: Event<E>,
    later: BackgroundView<E>,
    action: Action,
    source: Source,
)
    requires
        faithful(b, source),
        b.awaits(event),
        answers(source.data, b, event),
        b.serves(event, later, action),
        later.wf(),
        ordered(later.commands()),
    ensures
        faithful(later, source),
{
    match (b.phase, event) {
        (PhaseView::Seeking { generation, pos }, Event::Sought(p)) => {
            let mid = BackgroundView {
                current_generation: generation,
                current_pos: p as int,
                pending_seek: true,
                phase: PhaseView::Ready,
                ..b
            };
            lemma_sought_faithful(b, mid, p, source);
            lemma_polls_faithful(mid, later, action, source);
        },
        (PhaseView::Seeking { .. }, Event::SeekFailed(e)) => {
            lemma_failed_faithful(b, e, later.sent_took.last(), later, source);
        },
        (PhaseView::Filling(x), Event::Read(outcome)) => {
            let filled = refilled(x, outcome);
            let took = later.sent_took.last();
            match progress(x, outcome) {
                Refill::Wants(_) => {
                    lemma_refilled_copies(x, outcome, source.data);
                    assert forall|i: int| 0 <= i < later.sent.len() implies #[trigger] well_placed(
                        later.sent,
                        i,
                        later.commands(),
                        source,
                    ) by {
                        assert(well_placed(b.sent, i, b.commands(), source));
                    }
                },
                Refill::Again => {
                    let mid = b.interrupted(x);
                    assert forall|i: int| 0 <= i < mid.sent.len() implies #[trigger] well_placed(
                        mid.sent,
                        i,
                        mid.commands(),
                        source,
                    ) by {
                        assert(well_placed(b.sent, i, b.commands(), source));
                    }
                    assert(faithful(mid, source));
                    lemma_polls_faithful(mid, later, action, source);
                },
                Refill::Done => {
                    let mid = b.passing(filled, took);
                    lemma_refilled_copies(x, outcome, source.data);
                    lemma_sent_faithful(b, filled, took, mid, source);
                    if took {
                        lemma_polls_faithful(mid, later, action, source);
                    }
                },
                Refill::Failed(e) => {
                    lemma_failed_faithful(b, e, took, later, source);
                },
            }
        },
        (_, _) => {
            lemma_polls_faithful(b, later, action, source);
        },
    }
}

/// Whether a background reader has sent an empty buffer only at the end of its source.
pub open spec fn marks_the_end<E>(b: BackgroundView<E>, source: Source) -> bool {
    forall|i: int|
        0 <= i < b.sent.len() ==> (#[trigger] b.sent[i] matches Incoming::Buffer(x) ==> x.end == 0
            ==> x.start_pos >= source.len())
}

/// Whatever a background reader does next, it sends an empty buffer only at the end of its
/// source.
pub proof fn serving_marks_the_end<E>(
    b: BackgroundView<E>,
    event: Event<E>,
    later: BackgroundView<E>,
    action: Action,
    source: Source,
)
    requires
        marks_the_end(b, source),
        b.wf(),
        b.awaits(event),
        answers(source.data, b, event),
        b.serves(event, later, action),
    ensures
        marks_the_end(later, source),
{
}

/// The commands that a background reader takes come before the buffers: it looks for a buffer only
/// after a look that found no command.
pub proof fn commands_come_first<E>(
    b: BackgroundView<E>,
    event: Event<E>,
    later: BackgroundView<E>,
    action: Action,
)
    requires
        b.serves(event, later, action),
        later.buffer_looks != b.buffer_looks,
    ensures
        later.command_looks == b.command_looks.push(later.command_looks.last()),
        !(later.command_looks.last().found() is Message),
        later.buffer_looks == b.buffer_looks.push(later.buffer_looks.last()),
        later.commands() == b.commands(),
{
    lemma_commands_push(b.command_looks, later.command_looks.last());
}

/// A background reader asks for a seek in the source only when it has just taken a command for it:
/// before the reader's first seek it asks for none.
pub proof fn seeks_only_on_command<E>(
    b: BackgroundView<E>,
    event: Event<E>,
    later: BackgroundView<E>,
    action: Action,
)
    requires
        b.serves(event, later, action),
        action is Seek,
    ensures
        later.commands() == b.commands().push(later.commands().last()),
        later.commands().last() matches Command::Seek { pos, .. } && action == Action::Seek(pos),
        later.buffer_looks == b.buffer_looks,
{
    lemma_commands_push(b.command_looks, later.command_looks.last());
}

/// The buffers that a background reader has sent on or has in hand.
pub open spec fn onward<E>(b: BackgroundView<E>) -> Seq<BufferView> {
    buffers_in(b.sent) + b.in_hand()
}

/// Whether all of `sent` are buffers.
pub open spec fn without_error<E>(sent: Seq<Incoming<E>>) -> bool {
    forall|i: int| 0 <= i < sent.len() ==> #[trigger] sent[i] is Buffer
}

/// Whether the first of `taken` are `buffers`, each with the room it had.
pub open spec fn matches_room(taken: Seq<Option<BufferView>>, buffers: Seq<BufferView>) -> bool {
    &&& buffers.len() <= taken.len()
    &&& forall|i: int|
        0 <= i < buffers.len() ==> (#[trigger] taken[i] matches Some(t) && t.capacity()
            == buffers[i].capacity())
}

/// Whether a background reader has sent its buffers on in the order in which it took them, each
/// with the room it had. As long as it runs, each buffer that it took was sent on or is in hand,
/// and so it is after it stopped without an error; it may then have taken the sign that no buffer
/// follows.
pub open spec fn relays<E>(b: BackgroundView<E>) -> bool {
    let n = onward(b).len();
    &&& matches_room(b.taken(), onward(b))
    &&& !(b.phase is Stopped) ==> b.taken().len() == n
    &&& without_error(b.sent) ==> b.taken().len() == n || b.taken().len() == n + 1
        && b.taken().last() is None
    &&& b.sent_took.len() == b.sent.len()
    &&& forall|i: int|
        0 <= i < b.sent_took.len() - (if b.phase is Stopped {
            1int
        } else {
            0int
        }) ==> #[trigger] b.sent_took[i]
}

/// Looking for work keeps the buffers in order.
proof fn lemma_polls_relays<E>(b: BackgroundView<E>, later: BackgroundView<E>, action: Action)
    requires
        relays(b),
        b.phase is Ready,
        b.polls(later, action),
    ensures
        relays(later),
{
    if !(later.command_looks.last().found() is Message) {
        if let Some(x) = b.spare {
            let y = later.phase->Filling_0;
            assert(onward(later) =~= buffers_in(b.sent).push(y));
            assert(onward(b) =~= buffers_in(b.sent).push(x));
            assert(matches_room(later.taken(), onward(later))) by {
                assert forall|i: int| 0 <= i < onward(later).len() implies (
                #[trigger] later.taken()[i] matches Some(t) && t.capacity() == onward(
                    later,
                )[i].capacity()) by {
                    assert(b.taken()[i] == later.taken()[i]);
                }
            }
        } else {
            let search = later.buffer_looks.last();
            lemma_found_push(b.buffer_looks, search);
            assert(onward(b) =~= buffers_in(b.sent));
            if let Polled::Message(Some(x)) = search.found() {
                assert(later.taken() == b.taken().push(Some(x)));
                assert(onward(later) == onward(b).push(later.phase->Filling_0));
            } else {
                assert(onward(later) =~= onward(b));
            }
            assert(matches_room(later.taken(), onward(later))) by {
                assert forall|i: int| 0 <= i < onward(later).len() implies (
                #[trigger] later.taken()[i] matches Some(t) && t.capacity() == onward(
                    later,
                )[i].capacity()) by {
                    if i < onward(b).len() {
                        assert(later.taken()[i] == b.taken()[i]);
                    }
                }
            }
        }
    } else {
        assert(onward(later) =~= onward(b));
    }
}

/// A new background reader has sent on what it took.
pub proof fn fresh_relays<E>(start: int, links: Links)
    ensures
        relays(fresh::<E>(start, links)),
{
}

/// Whatever a background reader does next, it goes on sending its buffers on in the order in which
/// it took them, each with the room it had.
pub proof fn serving_stays_relaying<E>(
    b: BackgroundView<E>,
    event: Event<E>,
    later: BackgroundView<E>,
    action: Action,
)
    requires
        relays(b),
        b.wf(),
        b.awaits(event),
        b.serves(event, later, action),
    ensures
        relays(later),
{
    let took = later.sent_took.last();
    match (b.phase, event) {
        (PhaseView::Seeking { generation, .. }, Event::Sought(pos)) => {
            let mid = BackgroundView {
                current_generation: generation,
                current_pos: pos as int,
                pending_seek: true,
                phase: PhaseView::Ready,
                ..b
            };
            assert(onward(mid) =~= onward(b));
            lemma_polls_relays(mid, later, action);
        },
        (PhaseView::Seeking { .. }, Event::SeekFailed(e)) => {
            assert(later.sent.drop_last() =~= b.sent);
            assert(onward(later) =~= onward(b));
            assert(!(later.sent[b.sent.len() as int] is Buffer));
        },
        (PhaseView::Filling(x), Event::Read(outcome)) => {
            let filled = refilled(x, outcome);
            assert(onward(b) =~= buffers_in(b.sent).push(x));
            match progress(x, outcome) {
                Refill::Wants(_) => {
                    assert(onward(later) =~= buffers_in(b.sent).push(filled));
                    assert(onward(later).drop_last() =~= onward(b).drop_last());
                    lemma_same_rooms(b, later);
                },
                Refill::Again => {
                    let mid = b.interrupted(x);
                    assert(onward(mid) =~= onward(b));
                    lemma_polls_relays(mid, later, action);
                },
                Refill::Done => {
                    let mid = b.passing(filled, took);
                    assert(mid.sent.drop_last() =~= b.sent);
                    assert(onward(mid) =~= buffers_in(b.sent).push(filled));
                    assert(onward(mid).drop_last() =~= onward(b).drop_last());
                    lemma_same_rooms(b, mid);
                    if took {
                        assert(relays(mid));
                        lemma_polls_relays(mid, later, action);
                    } else {
                        assert(onward(later) =~= onward(mid));
                    }
                },
                Refill::Failed(e) => {
                    assert(later.sent.drop_last() =~= b.sent);
                    assert(onward(later) =~= buffers_in(b.sent));
                    assert(!(later.sent[b.sent.len() as int] is Buffer));
                    assert forall|i: int| 0 <= i < onward(later).len() implies (
                    #[trigger] later.taken()[i] matches Some(t) && t.capacity() == onward(
                        later,
                    )[i].capacity()) by {
                        assert(b.taken()[i] == later.taken()[i]);
                        assert(onward(later)[i] == onward(b)[i]);
                    }
                },
            }
        },
        (_, _) => {
            lemma_polls_relays(b, later, action);
        },
    }
}

/// A background reader that stopped without an error, while it had no buffer in hand, has sent on
/// all the buffers that it took, each once, in the order taken and with its room unchanged. It may
/// have taken one message more, the sign that no buffer follows.
pub proof fn all_that_was_taken_was_sent<E>(b: BackgroundView<E>)
    requires
        relays(b),
        without_error(b.sent),
        b.in_hand().len() == 0,
    ensures
        buffers_in(b.sent).len() == b.sent.len(),
        b.taken().len() == b.sent.len() || b.taken().len() == b.sent.len() + 1
            && b.taken().last() is None,
        forall|i: int|
            0 <= i < b.sent.len() ==> (#[trigger] b.taken()[i] matches Some(t) && b.sent[i]
                == Incoming::<E>::Buffer(buffers_in(b.sent)[i]) && t.capacity()
                == b.sent[i]->Buffer_0.capacity()),
{
    assert(onward(b) =~= buffers_in(b.sent));
    lemma_only_buffers(b.sent);
}

/// Where all messages are buffers, they are the buffers among them.
proof fn lemma_only_buffers<E>(sent: Seq<Incoming<E>>)
    requires
        without_error(sent),
    ensures
        buffers_in(sent).len() == sent.len(),
        forall|i: int|
            0 <= i < sent.len() ==> #[trigger] sent[i] == Incoming::<E>::Buffer(
                buffers_in(sent)[i],
            ),
    decreases sent.len(),
{
    if sent.len() > 0 {
        let rest = sent.drop_last();
        assert(sent[sent.len() - 1] is Buffer);
        assert forall|i: int| 0 <= i < rest.len() implies #[trigger] rest[i] is Buffer by {
            assert(rest[i] == sent[i]);
        }
        lemma_only_buffers(rest);
        assert forall|i: int| 0 <= i < sent.len() implies #[trigger] sent[i] == Incoming::<
            E,
        >::Buffer(buffers_in(sent)[i]) by {
            if i < rest.len() {
                assert(rest[i] == sent[i]);
            }
        }
    }
}

/// A buffer that was filled on, or handed over, keeps its room.
proof fn lemma_same_rooms<E>(b: BackgroundView<E>, later: BackgroundView<E>)
    requires
        matches_room(b.taken(), onward(b)),
        later.taken() == b.taken(),
        onward(later).len() == onward(b).len(),
        onward(later).drop_last() == onward(b).drop_last(),
        onward(b).len() > 0,
        onward(later).last().capacity() == onward(b).last().capacity(),
    ensures
        matches_room(later.taken(), onward(later)),
{
    assert forall|i: int| 0 <= i < onward(later).len() implies (
    #[trigger] later.taken()[i] matches Some(t) && t.capacity() == onward(
        later,
    )[i].capacity()) by {
        assert(b.taken()[i] == later.taken()[i]);
        if i < onward(later).len() - 1 {
            assert(onward(later).drop_last()[i] == onward(b).drop_last()[i]);
        }
    }
}

/// Whether the two halves of a pair fit together over `source`: they are joined by the same
/// channels, the channels deliver in order what was sent, and the background reader keeps to its
/// source.
pub open spec fn in_step<E>(
    front: ReaderView<E>,
    back: BackgroundView<E>,
    source: Source,
) -> bool {
    &&& front.wf()
    &&& faithful(back, source)
    &&& front.links == back.links
    &&& front.received.is_prefix_of(back.sent)
    &&& back.commands().is_prefix_of(front.commands)
}

/// Whether a reader knows its place in the stream: it has in hand the buffer that came last, or is
/// where the source stood at first. Only a stream that broke off leaves it with neither.
pub open spec fn placed<E>(front: ReaderView<E>, source: Source) -> bool {
    ||| front.buffer is Some && front.received.len() > 0 && front.received.last()
        == Incoming::<E>::Buffer(front.buffer.unwrap())
    ||| front.buffer is None && front.received.len() == 0 && front.current_generation == 0
        && front.position == source.start
}

/// A new pair is in step.
pub proof fn opened_in_step<E>(bufsize: int, queuelen: int, source: Source, links: Links)
    requires
        0 < bufsize <= isize::MAX,
        queuelen >= 1,
        source.wf(),
    ensures
        in_step(
            opened::<E>(bufsize, queuelen, source.start, links),
            fresh::<E>(source.start, links),
            source,
        ),
        placed(opened::<E>(bufsize, queuelen, source.start, links), source),
{
}

/// No buffer that was sent is newer than the last seek of the reader.
proof fn lemma_none_newer<E>(front: ReaderView<E>, back: BackgroundView<E>, source: Source, i: int)
    requires
        in_step(front, back, source),
        0 <= i < back.sent.len(),
    ensures
        back.sent[i] matches Incoming::Buffer(x) ==> x.generation <= front.current_generation,
        last_generation(back.commands()) <= front.current_generation,
{
    assert forall|k: int| 0 <= k < back.commands().len() implies (
    #[trigger] back.commands()[k] matches Command::Seek { generation, .. } ==> generation
        <= front.current_generation) by {
        assert(back.commands()[k] == front.commands[k]);
    }
    lemma_last_generation(back.commands(), front.current_generation);
}

/// Before any seek, buffers begin where the source stood at first.
proof fn lemma_beginning_zero(commands: Seq<Command>, source: Source)
    requires
        ordered(commands),
    ensures
        beginning(commands, 0, source) == source.start,
    decreases commands.len(),
{
    if commands.len() > 0 {
        assert(commands.last() == commands[commands.len() - 1]);
        let rest = commands.drop_last();
        assert forall|i: int| 0 <= i < rest.len() implies #[trigger] rest[i] == commands[i] by {}
        assert(ordered(rest));
        lemma_beginning_zero(rest, source);
    }
}

/// What a reader that knows its place takes in is the stream from its position on.
proof fn lemma_stream<E>(
    pre: ReaderView<E>,
    post: ReaderView<E>,
    back: BackgroundView<E>,
    source: Source,
    taken: Seq<Incoming<E>>,
    m: int,
)
    requires
        pre.wf(),
        placed(pre, source),
        in_step(post, back, source),
        post.current_generation == pre.current_generation,
        post.received == pre.received + taken,
        0 <= m <= taken.len(),
        forall|j: int| 0 <= j < m ==> #[trigger] taken[j] is Buffer,
    ensures
        pre.stream(taken.take(m)).len() > 0 ==> pre.position + pre.stream(taken.take(m)).len()
            <= source.len(),
        forall|i: int|
            0 <= i < pre.stream(taken.take(m)).len() ==> #[trigger] pre.stream(taken.take(m))[i]
                == source.data[pre.position + i],
        pre.chain(taken.take(m)).len() > 0 ==> {
            &&& pre.chain(taken.take(m)).last().limit() == pre.position + pre.stream(
                taken.take(m),
            ).len()
            &&& pre.chain(taken.take(m)).last().generation == pre.current_generation
            &&& m > 0 ==> taken[m - 1] == Incoming::<E>::Buffer(pre.chain(taken.take(m)).last())
        },
        m > 0 ==> pre.chain(taken.take(m)).len() > 0,
    decreases m,
{
    let g = pre.current_generation;
    let k = pre.received.len() as int;
    let data = source.data;
    if m == 0 {
        assert(taken.take(0) =~= Seq::<Incoming<E>>::empty());
        assert(pre.stream(taken.take(0)) =~= pre.unread());
        assert(pre.chain(taken.take(0)) =~= pre.held());
        if pre.buffer is Some {
            let b = pre.buffer.unwrap();
            assert(pre.received[k - 1] == Incoming::<E>::Buffer(b));
            assert(post.received[k - 1] == back.sent[k - 1]);
            assert(copies(b, data));
            assert forall|i: int| 0 <= i < pre.unread().len() implies #[trigger] pre.unread()[i]
                == data[pre.position + i] by {
                assert(pre.unread()[i] == b.data[pre.buf_pos + i]);
            }
            if pre.unread().len() > 0 {
                assert(b.data[b.end - 1] == data[b.start_pos + b.end - 1]);
            }
        }
    } else {
        lemma_stream(pre, post, back, source, taken, m - 1);
        let before = taken.take(m - 1);
        let b = taken[m - 1]->Buffer_0;
        let at = k + m - 1;
        assert(taken.take(m).drop_last() =~= before);
        assert(post.received[at] == taken[m - 1]);
        assert(back.sent[at] == taken[m - 1]);
        lemma_none_newer(post, back, source, at);
        assert(well_placed(back.sent, at, back.commands(), source));
        assert(b.wf());
        if at > 0 {
            let a = pre.chain(before).last();
            assert(back.sent[at - 1] == post.received[at - 1]);
            if m == 1 {
                assert(before =~= Seq::<Incoming<E>>::empty());
                assert(pre.chain(before) =~= pre.held());
                assert(pre.received[k - 1] == post.received[k - 1]);
            } else {
                assert(taken[m - 2] == post.received[at - 1]);
            }
            assert(back.sent[at - 1] == Incoming::<E>::Buffer(a));
            assert(b.generation == g);
        } else {
            assert(before =~= Seq::<Incoming<E>>::empty());
            lemma_beginning_zero(back.commands(), source);
            assert(pre.stream(before) =~= Seq::<u8>::empty());
        }
        assert(current_in(g, taken.take(m)) == current_in(g, before).push(b));
        assert(current_in(g, before).push(b).drop_last() =~= current_in(g, before));
        assert(pre.chain(taken.take(m)) =~= pre.chain(before).push(b));
        assert(pre.stream(taken.take(m)) =~= pre.stream(before) + b.bytes());
        assert(b.start_pos == pre.position + pre.stream(before).len());
        if b.end > 0 {
            assert(b.data[b.end - 1] == data[b.start_pos + b.end - 1]);
        }
        let stream = pre.stream(taken.take(m));
        assert forall|i: int| 0 <= i < stream.len() implies #[trigger] stream[i]
            == data[pre.position + i] by {
            let n = pre.stream(before).len() as int;
            if i < n {
                assert(pre.stream(before)[i] == data[pre.position + i]);
            } else {
                assert(b.bytes()[i - n] == b.data[i - n]);
            }
        }
    }
}

/// A read takes nothing but buffers, up to the message that ends it. A read that goes well ends
/// with a buffer of its generation.
pub(crate) proof fn lemma_all_buffers<E>(pre: ReaderView<E>, want: int, taken: Seq<Incoming<E>>)
    requires
        pre.kept_wanting(want, taken),
    ensures
        forall|j: int| 0 <= j < taken.len() - 1 ==> #[trigger] taken[j] is Buffer,
        taken.len() > 0 && !pre.wants_more(want, taken) ==> taken.last().is_current(
            pre.current_generation,
        ),
{
    let g = pre.current_generation;
    assert forall|j: int| 0 <= j < taken.len() - 1 implies #[trigger] taken[j] is Buffer by {
        assert(!gave_up(g, taken.take(j + 1)));
        assert(taken.take(j + 1).last() == taken[j]);
    }
    if taken.len() > 0 && !taken.last().is_current(g) {
        let j = taken.len() - 1;
        assert(taken.take(j) =~= taken.drop_last());
        assert(pre.wants_more(want, taken.take(j)));
        assert(current_in(g, taken) == current_in(g, taken.drop_last()));
    }
}

/// What `read` hands out is the stream: the bytes of the source from the reader's position on,
/// which moves by as many. The reader goes on knowing its place, unless the stream broke off.
pub proof fn read_gives_the_stream<E>(
    pre: ReaderView<E>,
    post: ReaderView<E>,
    back: BackgroundView<E>,
    source: Source,
    want: int,
    n: usize,
)
    requires
        0 <= want <= usize::MAX,
        pre.wf(),
        placed(pre, source),
        pre.reads(want, post, Ok::<usize, Error<E>>(n)),
        in_step(post, back, source),
    ensures
        n <= want,
        post.position == pre.position + n,
        post.failure is None || want == 0 ==> placed(post, source),
        n > 0 ==> {
            &&& pre.position + n <= source.len()
            &&& pre.stream(pre.taken(post)).take(n as int) == source.data.subrange(
                pre.position,
                pre.position + n,
            )
        },
{
    let taken = pre.taken(post);
    if want > 0 {
        let k = taken.len() as int;
        lemma_all_buffers(pre, want, taken);
        assert(post.received =~= pre.received + taken);
        let m = if pre.wants_more(want, taken) {
            k - 1
        } else {
            k
        };
        lemma_stream(pre, post, back, source, taken, m);
        if m < k {
            let g = pre.current_generation;
            assert(taken.take(m) =~= taken.drop_last());
            if taken.last().is_current(g) {
                // A buffer of the current generation is no reason to give up.
                assert(stale_run(g, taken) == 0);
            }
            assert(current_in(g, taken) == current_in(g, taken.drop_last()));
        } else {
            assert(taken.take(m) =~= taken);
        }
        if n > 0 {
            assert(pre.stream(taken)[n - 1] == source.data[pre.position + n - 1]);
            assert(pre.stream(taken).take(n as int) =~= source.data.subrange(
                pre.position,
                pre.position + n,
            ));
        }
    }
}

/// A read gives as many bytes as are asked for, or all that are left in the source, unless the
/// stream breaks off.
pub proof fn read_is_short_only_at_the_end<E>(
    pre: ReaderView<E>,
    post: ReaderView<E>,
    back: BackgroundView<E>,
    source: Source,
    want: int,
    n: usize,
)
    requires
        0 <= want <= usize::MAX,
        pre.wf(),
        placed(pre, source),
        pre.reads(want, post, Ok::<usize, Error<E>>(n)),
        post.failure is None,
        in_step(post, back, source),
        marks_the_end(back, source),
    ensures
        n == (if pre.position + want <= source.len() {
            want
        } else if pre.position <= source.len() {
            source.len() - pre.position
        } else {
            0
        }),
{
    read_gives_the_stream(pre, post, back, source, want, n);
    if n < want {
        let taken = pre.taken(post);
        let b = pre.chain(taken).last();
        assert(b.end == 0);
        let at = post.received.len() - 1;
        assert(post.received[at] == Incoming::<E>::Buffer(b));
        assert(back.sent[at] == post.received[at]);
    }
}

/// A read that gives nothing, where something was asked for, is at the end of the source.
pub proof fn nothing_means_the_end<E>(
    pre: ReaderView<E>,
    post: ReaderView<E>,
    back: BackgroundView<E>,
    source: Source,
    want: int,
)
    requires
        0 < want <= usize::MAX,
        pre.wf(),
        placed(pre, source),
        pre.reads(want, post, Ok::<usize, Error<E>>(0)),
        in_step(post, back, source),
        marks_the_end(back, source),
    ensures
        pre.position >= source.len(),
        post.position == pre.position,
        placed(post, source),
{
    read_gives_the_stream(pre, post, back, source, want, 0);
    read_is_short_only_at_the_end(pre, post, back, source, want, 0);
}

/// The first buffer that comes for a seek begins where the seek goes.
proof fn lemma_arrival<E>(
    pre: ReaderView<E>,
    pre_back: BackgroundView<E>,
    post: ReaderView<E>,
    back: BackgroundView<E>,
    source: Source,
    pos: SeekFrom,
    taken: Seq<Incoming<E>>,
)
    requires
        in_step(pre, pre_back, source),
        in_step(post, back, source),
        pre.next_generation < u64::MAX,
        post.commands == pre.commands.push(pre.seek_command(pos)),
        post.received == pre.received + taken,
        pre.turned().ordering(pre.seek_command(pos), true).waits_for(taken),
        taken.last().is_current(pre.next_generation),
    ensures
        taken.last()->Buffer_0.start_pos == place(pre.seek_command(pos)->Seek_pos, source.len()),
        post.received.last() == taken.last(),
{
    let g = pre.next_generation;
    let command = pre.seek_command(pos);
    let k = pre.received.len() as int;
    let at = k + taken.len() - 1;
    let x = taken.last()->Buffer_0;
    assert(post.received[at] == taken.last());
    assert(back.sent[at] == post.received[at]);
    assert(well_placed(back.sent, at, back.commands(), source));
    if at > 0 {
        assert(back.sent[at - 1] == post.received[at - 1]);
        if taken.len() > 1 {
            assert(post.received[at - 1] == taken[taken.len() - 2]);
        } else {
            assert(post.received[at - 1] == pre.received[k - 1]);
            assert(pre_back.sent[k - 1] == pre.received[k - 1]);
            lemma_none_newer(pre, pre_back, source, k - 1);
        }
    }
    assert(x.start_pos == beginning(back.commands(), g, source));
    if back.commands().len() <= pre.commands.len() {
        assert forall|i: int| 0 <= i < back.commands().len() implies (
        #[trigger] back.commands()[i] matches Command::Seek { generation, .. } ==> generation
            <= pre.current_generation) by {
            assert(back.commands()[i] == post.commands[i]);
            assert(post.commands[i] == pre.commands[i]);
        }
        lemma_last_generation(back.commands(), pre.current_generation);
    }
    assert(back.commands() =~= post.commands);
    assert(back.commands().last() == command);
}

/// A seek that succeeds goes where it says: to the given distance from the start of the source,
/// from the reader's position, or from the end of the source. The reader knows its place there,
/// if it did before or the seek went to the background reader.
pub proof fn seek_goes_where_it_says<E>(
    pre: ReaderView<E>,
    pre_back: BackgroundView<E>,
    post: ReaderView<E>,
    back: BackgroundView<E>,
    source: Source,
    pos: SeekFrom,
    q: u64,
)
    requires
        in_step(pre, pre_back, source),
        pre.seekable(pos),
        pre.seeks(pos, post, Ok::<u64, Error<E>>(q)),
        in_step(post, back, source),
    ensures
        post.position == q,
        q == (match pos {
            SeekFrom::Start(n) => n as int,
            SeekFrom::Current(delta) => pre.position + delta,
            SeekFrom::End(offset) => source.len() + offset,
        }),
        placed(pre, source) || !pre.stays_within(pos) ==> placed(post, source),
        post.failure == pre.failure,
{
    if !pre.stays_within(pos) {
        let taken = pre.taken(post);
        assert(post.received =~= pre.received + taken);
        lemma_arrival(pre, pre_back, post, back, source, pos, taken);
    }
}

/// A run of outdated buffers is no longer than what came.
pub(crate) proof fn lemma_stale_run_bound<E>(generation: int, messages: Seq<Incoming<E>>)
    ensures
        stale_run(generation, messages) <= messages.len(),
    decreases messages.len(),
{
    if messages.len() > 0 {
        lemma_stale_run_bound(generation, messages.drop_last());
    }
}

/// A seek of a pair in step, with no error due, is refused exactly if it goes to a negative
/// position or past the last one that can be counted. It fails only with an error of the source,
/// for want of someone to take the command, or if more buffers came than can be counted. The
/// buffer that comes for it always holds the position sought.
pub proof fn seek_finds_its_place<E>(
    pre: ReaderView<E>,
    pre_back: BackgroundView<E>,
    post: ReaderView<E>,
    back: BackgroundView<E>,
    source: Source,
    pos: SeekFrom,
    e: Error<E>,
)
    requires
        in_step(pre, pre_back, source),
        pre.seekable(pos),
        pre.failure is None,
        pre.seeks(pos, post, Err::<u64, Error<E>>(e)),
        in_step(post, back, source),
    ensures
        e is SeekBeforeStart <==> (pos matches SeekFrom::Current(delta) && pre.position + delta
            < 0),
        e is SeekOverflow <==> (pos matches SeekFrom::Current(delta) && pre.position + delta
            > u64::MAX),
        match e {
            Error::SeekBeforeStart => post == pre,
            Error::SeekOverflow => post == pre,
            Error::Source(x) => back.sent.contains(Incoming::Failed(x)),
            Error::BrokenPipe => {
                &&& post.received == pre.received
                &&& !pre.connected || !post.commands_took.last()
            },
            Error::Overrun => back.sent.len() >= u64::MAX,
            _ => false,
        },
{
    if !pre.refuses(pos) && pre.connected {
        let asked = pre.turned().ordering(pre.seek_command(pos), post.commands_took.last());
        let taken = pre.taken(post);
        assert(asked.received =~= pre.received);
        if post.commands_took.last() {
            assert(post.received =~= pre.received + taken);
            let at = post.received.len() - 1;
            assert(post.received[at] == taken.last());
            assert(back.sent[at] == post.received[at]);
            lemma_stale_run_bound(pre.next_generation, taken);
            if taken.last().is_current(pre.next_generation) {
                lemma_arrival(pre, pre_back, post, back, source, pos, taken);
            }
        }
    } else {
        assert(pre.turned().received =~= pre.received);
    }
}

/// A read of a pair in step, with no error due, fails only with an error of the source, or if more
/// buffers came than can be counted. It has then read nothing.
pub proof fn read_fails_with_the_source<E>(
    pre: ReaderView<E>,
    post: ReaderView<E>,
    back: BackgroundView<E>,
    source: Source,
    want: int,
    e: Error<E>,
)
    requires
        0 <= want <= usize::MAX,
        pre.wf(),
        pre.failure is None,
        pre.reads(want, post, Err::<usize, Error<E>>(e)),
        in_step(post, back, source),
    ensures
        post.position == pre.position,
        match e {
            Error::Source(x) => back.sent.contains(Incoming::Failed(x)),
            Error::Overrun => back.sent.len() >= u64::MAX,
            _ => false,
        },
{
    let taken = pre.taken(post);
    assert(post.received =~= pre.received + taken);
    let at = post.received.len() - 1;
    assert(post.received[at] == taken.last());
    assert(back.sent[at] == post.received[at]);
    lemma_stale_run_bound(pre.current_generation, taken);
}

/// Where a stream breaks off after some bytes, they are handed out, and the next read says why. It
/// takes nothing in, and moves nowhere.
pub proof fn breaking_off_is_told_next<E>(
    pre: ReaderView<E>,
    mid: ReaderView<E>,
    post: ReaderView<E>,
    mid_want: int,
    want: int,
    n: usize,
    r: Result<usize, Error<E>>,
)
    requires
        0 <= mid_want <= usize::MAX,
        pre.failure is None,
        pre.reads(mid_want, mid, Ok::<usize, Error<E>>(n)),
        mid.failure is Some,
        want > 0,
        mid.reads(want, post, r),
    ensures
        n > 0,
        r == Err::<usize, Error<E>>(verdict(mid.received.last())),
        post == mid.cleared(),
{
    let taken = pre.taken(mid);
    assert(mid.received =~= pre.received + taken);
    assert(mid.received.last() == taken.last());
}

/// A read after a seek gives the bytes of the source at the place that the seek went to.
pub proof fn read_after_seek<E>(
    pre: ReaderView<E>,
    pre_back: BackgroundView<E>,
    mid: ReaderView<E>,
    mid_back: BackgroundView<E>,
    post: ReaderView<E>,
    back: BackgroundView<E>,
    source: Source,
    pos: SeekFrom,
    q: u64,
    want: int,
    n: usize,
)
    requires
        0 <= want <= usize::MAX,
        in_step(pre, pre_back, source),
        placed(pre, source) || !pre.stays_within(pos),
        pre.seekable(pos),
        pre.seeks(pos, mid, Ok::<u64, Error<E>>(q)),
        in_step(mid, mid_back, source),
        mid.reads(want, post, Ok::<usize, Error<E>>(n)),
        in_step(post, back, source),
    ensures
        n > 0 ==> q + n <= source.len() && mid.stream(mid.taken(post)).take(n as int)
            == source.data.subrange(q as int, q + n),
        post.position == q + n,
{
    seek_goes_where_it_says(pre, pre_back, mid, mid_back, source, pos, q);
    read_gives_the_stream(mid, post, back, source, want, n);
}

/// A relative seek and its opposite come back to the same place, and a read then gives the same
/// bytes of the source as one before would have.
pub proof fn seek_there_and_back<E>(
    pre: ReaderView<E>,
    pre_back: BackgroundView<E>,
    mid: ReaderView<E>,
    mid_back: BackgroundView<E>,
    post: ReaderView<E>,
    post_back: BackgroundView<E>,
    end: ReaderView<E>,
    back: BackgroundView<E>,
    source: Source,
    delta: i64,
    p: u64,
    q: u64,
    want: int,
    n: usize,
)
    requires
        delta > i64::MIN,
        0 <= want <= usize::MAX,
        in_step(pre, pre_back, source),
        placed(pre, source),
        pre.seekable(SeekFrom::Current(delta)),
        pre.seeks(SeekFrom::Current(delta), mid, Ok::<u64, Error<E>>(p)),
        in_step(mid, mid_back, source),
        mid.seekable(SeekFrom::Current((-delta) as i64)),
        mid.seeks(SeekFrom::Current((-delta) as i64), post, Ok::<u64, Error<E>>(q)),
        in_step(post, post_back, source),
        post.reads(want, end, Ok::<usize, Error<E>>(n)),
        in_step(end, back, source),
    ensures
        p == pre.position + delta,
        q == pre.position,
        post.position == pre.position,
        n > 0 ==> post.stream(post.taken(end)).take(n as int) == source.data.subrange(
            pre.position,
            pre.position + n,
        ),
{
    let again = SeekFrom::Current((-delta) as i64);
    seek_goes_where_it_says(pre, pre_back, mid, mid_back, source, SeekFrom::Current(delta), p);
    seek_goes_where_it_says(mid, mid_back, post, post_back, source, again, q);
    read_gives_the_stream(post, end, back, source, want, n);
}

/// A seek that is refused, or stays within the buffer in hand, asks nothing of the background
/// reader: nothing is handed to a channel, and nothing is looked for.
pub proof fn seek_within_the_buffer_is_local<E>(
    pre: ReaderView<E>,
    post: ReaderView<E>,
    pos: SeekFrom,
    r: Result<u64, Error<E>>,
)
    requires
        pre.wf(),
        pre.stays_within(pos) || pre.refuses(pos),
        pre.seeks(pos, post, r),
    ensures
        pre.refuses(pos) ==> post == pre && r is Err,
        !pre.refuses(pos) ==> r == Ok::<u64, Error<E>>(post.position as u64) && pre.seek_target(pos)
            == Some(post.position),
        post.buffer == pre.buffer,
        post.current_generation == pre.current_generation,
        post.next_generation == pre.next_generation,
        post.commands == pre.commands,
        post.received == pre.received,
        post.released == pre.released,
{
}

/// A seek to where the reader stands changes nothing while a buffer is in hand.
pub proof fn seek_to_here_changes_nothing<E>(
    pre: ReaderView<E>,
    post: ReaderView<E>,
    r: Result<u64, Error<E>>,
)
    requires
        pre.wf(),
        pre.buffer is Some,
        pre.seeks(SeekFrom::Current(0), post, r),
    ensures
        post == pre,
        r == Ok::<u64, Error<E>>(pre.position as u64),
{
}

/// To give the buffer in hand back twice does no more than to do so once.
pub proof fn giving_back_twice_is_once<E>(pre: ReaderView<E>)
    ensures
        pre.waiting(Seq::empty()).waiting(Seq::empty()) == pre.waiting(Seq::empty()),
{
    let once = pre.waiting(Seq::empty());
    let none = once.held() + buffers_in(Seq::<Incoming<E>>::empty());
    assert(none =~= Seq::<BufferView>::empty());
    assert(once.released + offering(none) =~= once.released);
    assert(once.waiting(Seq::empty()) =~= once);
}

/// One read, with what it gave and how the pair stood after it.
pub struct Reading<E> {
    pub want: int,
    pub n: usize,
    pub post: ReaderView<E>,
    pub back: BackgroundView<E>,
}

/// The state after `calls`.
pub open spec fn state_after<E>(pre: ReaderView<E>, calls: Seq<Reading<E>>) -> ReaderView<E> {
    if calls.len() == 0 {
        pre
    } else {
        calls.last().post
    }
}

/// Whether `calls` are reads in a row that all went well, of a pair in step.
pub open spec fn reads_in_a_row<E>(
    pre: ReaderView<E>,
    calls: Seq<Reading<E>>,
    source: Source,
) -> bool
    decreases calls.len(),
{
    calls.len() == 0 || {
        let call = calls.last();
        &&& reads_in_a_row(pre, calls.drop_last(), source)
        &&& 0 <= call.want <= usize::MAX
        &&& state_after(pre, calls.drop_last()).reads(
            call.want,
            call.post,
            Ok::<usize, Error<E>>(call.n),
        )
        &&& in_step(call.post, call.back, source)
    }
}

/// The bytes that `calls` handed out, one after the other.
pub open spec fn handed_out<E>(pre: ReaderView<E>, calls: Seq<Reading<E>>) -> Seq<u8>
    decreases calls.len(),
{
    if calls.len() == 0 {
        Seq::empty()
    } else {
        let before = state_after(pre, calls.drop_last());
        let call = calls.last();
        handed_out(pre, calls.drop_last()) + before.stream(before.taken(call.post)).take(
            call.n as int,
        )
    }
}

/// How many bytes `calls` handed out.
pub open spec fn total<E>(calls: Seq<Reading<E>>) -> int
    decreases calls.len(),
{
    if calls.len() == 0 {
        0
    } else {
        total(calls.drop_last()) + calls.last().n
    }
}

/// Any number of reads in a row, of any sizes, give bytes that follow on each other in the source,
/// and the position moves by as many.
pub proof fn reads_follow_on<E>(pre: ReaderView<E>, calls: Seq<Reading<E>>, source: Source)
    requires
        pre.wf(),
        placed(pre, source),
        pre.failure is None,
        reads_in_a_row(pre, calls, source),
    ensures
        state_after(pre, calls).wf(),
        state_after(pre, calls).position == pre.position + total(calls),
        handed_out(pre, calls).len() == total(calls),
        total(calls) > 0 ==> {
            &&& pre.position + total(calls) <= source.len()
            &&& handed_out(pre, calls) == source.data.subrange(
                pre.position,
                pre.position + total(calls),
            )
        },
        state_after(pre, calls).failure is None ==> placed(state_after(pre, calls), source),
    decreases calls.len(),
{
    if calls.len() > 0 {
        let rest = calls.drop_last();
        let call = calls.last();
        reads_follow_on(pre, rest, source);
        let before = state_after(pre, rest);
        let n = call.n;
        let out = before.stream(before.taken(call.post)).take(n as int);
        if call.want > 0 {
            read_gives_the_stream(before, call.post, call.back, source, call.want, n);
        }
        if n > 0 {
            assert(handed_out(pre, calls) =~= source.data.subrange(
                pre.position,
                pre.position + total(calls),
            ));
        } else {
            assert(out =~= Seq::<u8>::empty());
            assert(handed_out(pre, calls) =~= handed_out(pre, rest));
        }
    }
}

/// After a seek and any number of reads, the position is the seek's result and the counts of the
/// reads since.
pub proof fn position_adds_up<E>(
    pre: ReaderView<E>,
    pre_back: BackgroundView<E>,
    mid: ReaderView<E>,
    mid_back: BackgroundView<E>,
    calls: Seq<Reading<E>>,
    source: Source,
    pos: SeekFrom,
    q: u64,
)
    requires
        in_step(pre, pre_back, source),
        placed(pre, source) || !pre.stays_within(pos),
        pre.failure is None,
        pre.seekable(pos),
        pre.seeks(pos, mid, Ok::<u64, Error<E>>(q)),
        in_step(mid, mid_back, source),
        reads_in_a_row(mid, calls, source),
    ensures
        state_after(mid, calls).position == q + total(calls),
{
    seek_goes_where_it_says(pre, pre_back, mid, mid_back, source, pos, q);
    reads_follow_on(mid, calls, source);
}

/// Reads until one gives nothing give the whole source from the reader's position on, whatever
/// their sizes and whatever pieces the source gave.
pub proof fn reads_until_nothing_give_it_all<E>(
    pre: ReaderView<E>,
    calls: Seq<Reading<E>>,
    source: Source,
)
    requires
        pre.wf(),
        placed(pre, source),
        pre.failure is None,
        pre.position <= source.len(),
        reads_in_a_row(pre, calls, source),
        calls.len() > 0,
        calls.last().want > 0,
        calls.last().n == 0,
        marks_the_end(calls.last().back, source),
    ensures
        handed_out(pre, calls) == source.data.skip(pre.position),
        state_after(pre, calls).position == source.len(),
{
    let rest = calls.drop_last();
    let call = calls.last();
    let before = state_after(pre, rest);
    reads_follow_on(pre, rest, source);
    nothing_means_the_end(before, call.post, call.back, source, call.want);
    reads_follow_on(pre, calls, source);
    if total(calls) == 0 {
        assert(handed_out(pre, calls) =~= Seq::<u8>::empty());
    }
    assert(handed_out(pre, calls) =~= source.data.skip(pre.position));
}

/// What a background reader has sent of one generation, buffer after buffer, is the source from
/// where that generation begins on.
pub proof fn what_is_sent_is_the_source<E>(b: BackgroundView<E>, source: Source, generation: int)
    requires
        faithful(b, source),
    ensures
        ({
            let sent = joined(current_in(generation, b.sent));
            let begin = beginning(b.commands(), generation, source);
            sent.len() > 0 ==> begin >= 0 && begin + sent.len() <= source.len() && sent
                == source.data.subrange(begin, begin + sent.len())
        }),
{
    lemma_sent(b, source, generation, b.sent.len() as int);
    assert(b.sent.take(b.sent.len() as int) =~= b.sent);
    let sent = joined(current_in(generation, b.sent));
    let begin = beginning(b.commands(), generation, source);
    if sent.len() > 0 {
        assert(sent =~= source.data.subrange(begin, begin + sent.len()));
    }
}

/// What the first `k` messages of a background reader hold of one generation.
proof fn lemma_sent<E>(b: BackgroundView<E>, source: Source, generation: int, k: int)
    requires
        faithful(b, source),
        0 <= k <= b.sent.len(),
    ensures
        ({
            let run = current_in(generation, b.sent.take(k));
            let begin = beginning(b.commands(), generation, source);
            &&& run.len() > 0 ==> joined(run).len() == run.last().limit() - begin && begin >= 0
            &&& run.len() == 0 ==> joined(run).len() == 0
            &&& joined(run).len() > 0 ==> begin + joined(run).len() <= source.len()
            &&& forall|i: int|
                0 <= i < joined(run).len() ==> #[trigger] joined(run)[i] == source.data[begin + i]
        }),
    decreases k,
{
    let begin = beginning(b.commands(), generation, source);
    if k > 0 {
        lemma_sent(b, source, generation, k - 1);
        let all = b.sent.take(k);
        let rest = b.sent.take(k - 1);
        let before = current_in(generation, rest);
        assert(all.drop_last() =~= rest);
        assert(all.last() == b.sent[k - 1]);
        if b.sent[k - 1].is_current(generation) {
            let x = b.sent[k - 1]->Buffer_0;
            assert(current_in(generation, all) == before.push(x));
            assert(before.push(x).drop_last() =~= before);
            assert(well_placed(b.sent, k - 1, b.commands(), source));
            if k > 1 && b.sent[k - 2].is_current(generation) {
                assert(rest.drop_last().push(b.sent[k - 2]) =~= rest);
                assert(before.last() == b.sent[k - 2]->Buffer_0);
            } else {
                assert forall|j: int| 0 <= j < rest.len() implies !(
                #[trigger] rest[j]).is_current(generation) by {
                    assert(rest[j] == b.sent[j]);
                    if j < k - 2 {
                        assert(b.sent[k - 2] is Buffer);
                    }
                }
                lemma_none_current(generation, rest);
            }
            assert(x.start_pos == begin + joined(before).len());
            if x.end > 0 {
                assert(x.data[x.end - 1] == source.data[x.start_pos + x.end - 1]);
            }
            let run = before.push(x);
            assert(joined(run) == joined(before) + x.bytes());
            assert forall|i: int| 0 <= i < joined(run).len() implies #[trigger] joined(run)[i]
                == source.data[begin + i] by {
                let n = joined(before).len() as int;
                if i < n {
                    assert(joined(run)[i] == joined(before)[i]);
                } else {
                    assert(joined(run)[i] == x.data[i - n]);
                }
            }
        }
    }
}

/// Whether every buffer of `pool` and every buffer that came in is in the reader's hand or was put
/// up for filling, once and in order.
pub open spec fn conserves<E>(front: ReaderView<E>, pool: Seq<BufferView>) -> bool {
    front.released + offering(front.held()) == offering(pool + buffers_in(front.received))
}

/// A new reader has put its whole pool up for filling.
pub proof fn opened_conserves<E>(bufsize: int, queuelen: int, start: int, links: Links)
    ensures
        conserves(opened::<E>(bufsize, queuelen, start, links), pool(bufsize, queuelen)),
{
    let front = opened::<E>(bufsize, queuelen, start, links);
    let whole = pool(bufsize, queuelen);
    assert(front.released + offering(front.held()) =~= offering(
        whole + buffers_in(front.received),
    ));
}

/// What comes in and is put up again or kept leaves the buffers conserved.
proof fn lemma_conserves<E>(
    pre: ReaderView<E>,
    post: ReaderView<E>,
    whole: Seq<BufferView>,
    taken: Seq<Incoming<E>>,
)
    requires
        conserves(pre, whole),
        post.received == pre.received + taken,
        post.released + offering(post.held()) == pre.released + offering(
            pre.held() + buffers_in(taken),
        ),
    ensures
        conserves(post, whole),
{
    lemma_buffers_in_append(pre.received, taken);
    assert(pre.released + offering(pre.held() + buffers_in(taken)) =~= (pre.released + offering(
        pre.held(),
    )) + offering(buffers_in(taken)));
    assert(offering(whole + buffers_in(pre.received)) + offering(buffers_in(taken)) =~= offering(
        whole + buffers_in(post.received),
    ));
}

/// No read loses a buffer or makes one.
pub proof fn reading_conserves<E>(
    pre: ReaderView<E>,
    post: ReaderView<E>,
    whole: Seq<BufferView>,
    want: int,
    r: Result<usize, Error<E>>,
)
    requires
        conserves(pre, whole),
        pre.reads(want, post, r),
    ensures
        conserves(post, whole),
{
    if want != 0 && pre.failure is None {
        let taken = pre.taken(post);
        let all = pre.held() + buffers_in(taken);
        assert(post.received =~= pre.received + taken);
        lemma_all_buffers(pre, want, taken);
        if pre.wants_more(want, taken) {
            assert(post.released + offering(post.held()) =~= pre.released + offering(all));
        } else {
            if taken.len() > 0 {
                assert(buffers_in(taken).last() == pre.chain(taken).last());
            } else {
                assert(pre.chain(taken) =~= pre.held());
            }
            assert(all.drop_last().push(pre.chain(taken).last()) =~= all);
            assert(post.released + offering(post.held()) =~= pre.released + offering(all));
        }
        lemma_conserves(pre, post, whole, taken);
    }
}

/// No seek loses a buffer or makes one.
pub proof fn seeking_conserves<E>(
    pre: ReaderView<E>,
    post: ReaderView<E>,
    whole: Seq<BufferView>,
    pos: SeekFrom,
    r: Result<u64, Error<E>>,
)
    requires
        conserves(pre, whole),
        pre.seeks(pos, post, r),
    ensures
        conserves(post, whole),
{
    if !pre.refuses(pos) && !pre.stays_within(pos) && pre.failure is None {
        let none = Seq::<Incoming<E>>::empty();
        let turned = pre.turned();
        assert(turned.received =~= pre.received + none);
        assert(turned.released + offering(turned.held()) =~= pre.released + offering(
            pre.held() + buffers_in(none),
        ));
        lemma_conserves(pre, turned, whole, none);
        if pre.connected && post.commands_took.last() {
            let taken = pre.taken(post);
            let rest = taken.drop_last();
            assert(turned.received =~= pre.received);
            assert(post.received =~= turned.received + taken);
            let waited = turned.waiting(rest);
            assert(post.released + offering(post.held()) =~= waited.released + offering(
                buffers_in(taken).skip(buffers_in(rest).len() as int),
            ));
            assert(waited.released =~= turned.released + offering(buffers_in(rest)));
            assert(post.released + offering(post.held()) =~= turned.released + offering(
                turned.held() + buffers_in(taken),
            ));
            lemma_conserves(turned, post, whole, taken);
        } else {
            assert(post.held() =~= turned.held());
        }
    }
}

/// To shut down loses no buffer and makes none.
pub proof fn shutting_down_conserves<E>(pre: ReaderView<E>, whole: Seq<BufferView>, took: bool)
    requires
        conserves(pre, whole),
    ensures
        conserves(pre.shut(took), whole),
{
    let none = Seq::<Incoming<E>>::empty();
    let post = pre.shut(took);
    assert(post.released + offering(post.held()) =~= pre.released + offering(
        pre.held() + buffers_in(none),
    ));
    lemma_conserves(pre, post, whole, none);
}

/// No buffer is lost and none is made: as long as the background reader runs, each buffer of the
/// pool waits to be filled, is being filled, waits to be read, or is in the reader's hand.
pub proof fn buffers_are_conserved<E>(
    front: ReaderView<E>,
    back: BackgroundView<E>,
    whole: Seq<BufferView>,
)
    requires
        conserves(front, whole),
        relays(back),
        !(back.phase is Stopped),
    ensures
        whole.len() == (front.released.len() - back.taken().len()) + back.in_hand().len() + (
        buffers_in(back.sent).len() - buffers_in(front.received).len()) + front.held().len(),
{
    assert((front.released + offering(front.held())).len() == offering(
        whole + buffers_in(front.received),
    ).len());
}

/// The two halves never wait for each other: if the reader has no buffer in hand and the
/// background reader has none either, then a buffer waits to be filled or a filled one waits to be
/// read.
pub proof fn one_half_can_go_on<E>(
    front: ReaderView<E>,
    back: BackgroundView<E>,
    whole: Seq<BufferView>,
)
    requires
        conserves(front, whole),
        whole.len() > 0,
        relays(back),
        front.buffer is None,
        back.in_hand().len() == 0,
        !(back.phase is Stopped),
    ensures
        front.released.len() > back.taken().len() || buffers_in(back.sent).len() > buffers_in(
            front.received,
        ).len(),
{
    buffers_are_conserved(front, back, whole);
}

/// The buffers among valid messages are valid.
proof fn lemma_buffers_in_wf<E>(messages: Seq<Incoming<E>>)
    requires
        forall|i: int|
            0 <= i < messages.len() ==> (#[trigger] messages[i] matches Incoming::Buffer(b)
                ==> b.wf()),
    ensures
        forall|i: int|
            0 <= i < buffers_in(messages).len() ==> (#[trigger] buffers_in(messages)[i]).wf(),
    decreases messages.len(),
{
    if messages.len() > 0 {
        let rest = messages.drop_last();
        assert(messages[messages.len() - 1] == messages.last());
        assert forall|i: int| 0 <= i < rest.len() implies (
        #[trigger] rest[i] matches Incoming::Buffer(b) ==> b.wf()) by {
            assert(rest[i] == messages[i]);
        }
        lemma_buffers_in_wf(rest);
        assert forall|i: int| 0 <= i < buffers_in(messages).len() implies (
        #[trigger] buffers_in(messages)[i]).wf() by {
            if i < buffers_in(rest).len() {
                assert(buffers_in(messages)[i] == buffers_in(rest)[i]);
            }
        }
    }
}

/// Every buffer that goes round has the room that those of the pool had.
proof fn lemma_same_room<E>(
    front: ReaderView<E>,
    back: BackgroundView<E>,
    bufsize: int,
    queuelen: int,
    i: int,
)
    requires
        bufsize > 0,
        queuelen >= 1,
        conserves(front, pool(bufsize, queuelen)),
        relays(back),
        back.taken().is_prefix_of(front.released),
        front.received.is_prefix_of(back.sent),
        0 <= i < queuelen + buffers_in(front.received).len(),
    ensures
        (pool(bufsize, queuelen) + buffers_in(front.received))[i].capacity() == bufsize,
    decreases i,
{
    if i >= queuelen {
        let whole = pool(bufsize, queuelen);
        let round = whole + buffers_in(front.received);
        let k = i - queuelen;
        lemma_buffers_in_append(front.received, back.sent.skip(front.received.len() as int));
        assert(front.received + back.sent.skip(front.received.len() as int) =~= back.sent);
        assert(round[i] == buffers_in(front.received)[k]);
        assert(round[i] == onward(back)[k]);
        assert(back.taken()[k] == front.released[k]);
        assert((front.released + offering(front.held()))[k] == offering(round)[k]);
        assert(back.taken()[k] == Some(round[k]));
        lemma_same_room(front, back, bufsize, queuelen, k);
    }
}

/// Buffers hold no more than they have room for.
proof fn lemma_joined_bound(buffers: Seq<BufferView>, size: int)
    requires
        size >= 0,
        forall|i: int|
            0 <= i < buffers.len() ==> (#[trigger] buffers[i]).wf() && buffers[i].capacity()
                == size,
    ensures
        joined(buffers).len() <= buffers.len() * size,
    decreases buffers.len(),
{
    if buffers.len() > 0 {
        let rest = buffers.drop_last();
        assert(buffers.last() == buffers[buffers.len() - 1]);
        assert forall|i: int| 0 <= i < rest.len() implies (#[trigger] rest[i]).wf()
            && rest[i].capacity() == size by {
            assert(rest[i] == buffers[i]);
        }
        lemma_joined_bound(rest, size);
        assert(rest.len() * size + size == buffers.len() * size) by (nonlinear_arith)
            requires
                rest.len() == buffers.len() - 1,
        ;
    } else {
        assert(buffers.len() * size == 0) by (nonlinear_arith)
            requires
                buffers.len() == 0,
        ;
    }
}

/// No more than `queuelen` times `bufsize` bytes are read ahead: that many at most are in the
/// reader's hand and unread, wait to be read, or are in the buffer that is being filled.
pub proof fn reading_ahead_is_bounded<E>(
    front: ReaderView<E>,
    back: BackgroundView<E>,
    bufsize: int,
    queuelen: int,
)
    requires
        bufsize > 0,
        queuelen >= 1,
        front.wf(),
        back.wf(),
        conserves(front, pool(bufsize, queuelen)),
        relays(back),
        back.taken().is_prefix_of(front.released),
        front.received.is_prefix_of(back.sent),
    ensures
        joined(onward(back).skip(buffers_in(front.received).len() as int)).len()
            + front.unread().len() <= queuelen * bufsize,
{
    let whole = pool(bufsize, queuelen);
    let came = buffers_in(front.received);
    let round = whole + came;
    let ahead = onward(back).skip(came.len() as int);
    lemma_buffers_in_append(front.received, back.sent.skip(front.received.len() as int));
    assert(front.received + back.sent.skip(front.received.len() as int) =~= back.sent);
    lemma_buffers_in_wf(back.sent);
    assert((front.released + offering(front.held())).len() == offering(round).len());
    let held = front.held().len() as int;
    assert(ahead.len() + held <= queuelen);
    if let Some(b) = front.buffer {
        let k = front.released.len() as int;
        assert((front.released + offering(front.held()))[k] == offering(round)[k]);
        assert(b == round[k]);
        lemma_same_room(front, back, bufsize, queuelen, k);
        assert(front.unread().len() <= bufsize);
    }
    assert forall|i: int| 0 <= i < ahead.len() implies (#[trigger] ahead[i]).wf()
        && ahead[i].capacity() == bufsize by {
        let k = came.len() + i;
        assert(ahead[i] == onward(back)[k]);
        if k < buffers_in(back.sent).len() {
            assert(buffers_in(back.sent)[k].wf());
        }
        assert(back.taken()[k] == front.released[k]);
        assert((front.released + offering(front.held()))[k] == offering(round)[k]);
        assert(back.taken()[k] == Some(round[k]));
        lemma_same_room(front, back, bufsize, queuelen, k);
    }
    lemma_joined_bound(ahead, bufsize);
    assert(ahead.len() * bufsize + held * bufsize <= queuelen * bufsize) by (nonlinear_arith)
        requires
            ahead.len() + held <= queuelen,
            bufsize > 0,
    ;
    assert(held == 1 ==> held * bufsize == bufsize) by (nonlinear_arith);
    assert(held == 0 ==> held * bufsize == 0) by (nonlinear_arith);
}

/// A pair stays in step whatever the background reader does next, if the commands that it takes
/// are those that the reader sent.
pub proof fn serving_stays_in_step<E>(
    front: ReaderView<E>,
    back: BackgroundView<E>,
    event: Event<E>,
    later: BackgroundView<E>,
    action: Action,
    source: Source,
)
    requires
        in_step(front, back, source),
        back.awaits(event),
        answers(source.data, back, event),
        back.serves(event, later, action),
        later.wf(),
        later.commands().is_prefix_of(front.commands),
    ensures
        in_step(front, later, source),
{
    assert forall|i: int| 0 <= i < later.commands().len() implies #[trigger] later.commands()[i]
        == front.commands[i] by {}
    assert(ordered(later.commands()));
    serving_stays_faithful(back, event, later, action, source);
}

/// A pair stays in step over a read, if what came in is what the background reader sent.
pub proof fn reading_stays_in_step<E>(
    pre: ReaderView<E>,
    post: ReaderView<E>,
    back: BackgroundView<E>,
    source: Source,
    want: int,
    r: Result<usize, Error<E>>,
)
    requires
        in_step(pre, back, source),
        pre.reads(want, post, r),
        post.wf(),
        post.received.is_prefix_of(back.sent),
    ensures
        in_step(post, back, source),
{
}

/// The state in which a seek to `pos` waits for what comes, if the channel took its command or
/// not.
pub open spec fn asking<E>(pre: ReaderView<E>, pos: SeekFrom, took: bool) -> ReaderView<E> {
    if pre.refuses(pos) || pre.stays_within(pos) || pre.failure is Some {
        pre
    } else if pre.connected {
        pre.turned().ordering(pre.seek_command(pos), took)
    } else {
        pre.turned()
    }
}

/// A pair is in step while a seek waits.
pub proof fn asking_stays_in_step<E>(
    pre: ReaderView<E>,
    back: BackgroundView<E>,
    source: Source,
    pos: SeekFrom,
    took: bool,
)
    requires
        in_step(pre, back, source),
        pre.seekable(pos),
        took ==> !pre.commands_took.contains(false),
    ensures
        in_step(asking(pre, pos, took), back, source),
{
    let asked = asking(pre, pos, took);
    assert(asked.received =~= pre.received);
    assert forall|i: int, j: int|
        0 <= i < j < asked.commands_took.len() && #[trigger] asked.commands_took[j]
            implies #[trigger] asked.commands_took[i] by {
        if j < pre.commands_took.len() {
            assert(pre.commands_took[j] && pre.commands_took[i]);
        } else if !asked.commands_took[i] {
            assert(pre.commands_took[i] == false);
            assert(pre.commands_took.contains(false));
        }
    }
}

/// A pair stays in step over a seek, if it was while the seek waited, and what came in is what
/// the background reader sent.
pub proof fn seeking_stays_in_step<E>(
    pre: ReaderView<E>,
    post: ReaderView<E>,
    back: BackgroundView<E>,
    source: Source,
    pos: SeekFrom,
    r: Result<u64, Error<E>>,
)
    requires
        in_step(asking(pre, pos, post.commands_took.last()), back, source),
        pre.seeks(pos, post, r),
        post.wf(),
        post.received.is_prefix_of(back.sent),
    ensures
        in_step(post, back, source),
{
}

/// A pair stays in step when the reader shuts down.
pub proof fn shutting_down_stays_in_step<E>(
    pre: ReaderView<E>,
    back: BackgroundView<E>,
    source: Source,
    took: bool,
)
    requires
        in_step(pre, back, source),
        took ==> !pre.commands_took.contains(false),
    ensures
        in_step(pre.shut(took), back, source),
{
    let post = pre.shut(took);
    assert(post.received =~= pre.received);
    assert forall|i: int, j: int|
        0 <= i < j < post.commands_took.len() && #[trigger] post.commands_took[j]
            implies #[trigger] post.commands_took[i] by {
        if j < pre.commands_took.len() {
            assert(pre.commands_took[j] && pre.commands_took[i]);
        } else if !post.commands_took[i] {
            assert(pre.commands_took[i] == false);
            assert(pre.commands_took.contains(false));
        }
    }
}

/// Whether a background reader has done all the seeks that its reader asked for, and does not wait
/// for a buffer on account of one.
pub open spec fn caught_up<E>(front: ReaderView<E>, back: BackgroundView<E>) -> bool {
    &&& back.current_generation == front.current_generation
    &&& !back.pending_seek
    &&& !(back.phase is Seeking)
}

/// While a reader knows its place, between two calls, its background reader has done all the seeks
/// that were asked for, and does not wait for a buffer on account of one.
pub proof fn placed_means_caught_up<E>(
    front: ReaderView<E>,
    back: BackgroundView<E>,
    source: Source,
)
    requires
        in_step(front, back, source),
        placed(front, source),
        !(back.phase is Stopped),
    ensures
        caught_up(front, back),
{
    assert forall|k: int| 0 <= k < back.commands().len() implies (
    #[trigger] back.commands()[k] matches Command::Seek { generation, .. } ==> generation
        <= front.current_generation) by {
        assert(back.commands()[k] == front.commands[k]);
    }
    lemma_last_generation(back.commands(), front.current_generation);
    if front.buffer is Some {
        let at = front.received.len() - 1;
        assert(back.sent[at] == front.received[at]);
    }
    if back.phase is Seeking {
        let rest = back.commands().drop_last();
        assert(rest.push(back.commands().last()) =~= back.commands());
        lemma_newer(rest, back.commands().last());
        assert(back.commands()[back.commands().len() - 1] == back.commands().last());
    }
}

/// A background reader that has caught up stays so, or stops, as long as its reader asks for no
/// other seek. It never waits for a buffer then, but comes back to look for a command: a reader
/// that shuts down while it knows its place is not kept waiting for want of a buffer.
pub proof fn caught_up_never_waits<E>(
    front: ReaderView<E>,
    back: BackgroundView<E>,
    event: Event<E>,
    later: BackgroundView<E>,
    action: Action,
    source: Source,
)
    requires
        in_step(front, back, source),
        caught_up(front, back),
        !(back.phase is Stopped),
        back.awaits(event),
        answers(source.data, back, event),
        back.serves(event, later, action),
        later.wf(),
        later.commands().is_prefix_of(front.commands),
    ensures
        later.phase is Stopped || caught_up(front, later),
        !(action is Seek),
        later.buffer_looks == back.buffer_looks || later.buffer_looks == back.buffer_looks.push(
            later.buffer_looks.last(),
        ) && later.buffer_looks.last() is Glance,
        // Unless it asks for more of the same buffer, a look for a command was made.
        later.phase is Stopped || later.command_looks.len() > back.command_looks.len() || (
        back.phase is Filling && later.phase is Filling && later.phase->Filling_0.end
            > back.phase->Filling_0.end),
{
    let look = later.command_looks.last();
    lemma_commands_push(back.command_looks, look);
    if later.command_looks != back.command_looks {
        if let Polled::Message(Command::Seek { generation, pos }) = look.found() {
            let all = later.commands();
            let n = back.commands().len() as int;
            assert(all[n] == Command::Seek { generation, pos });
            assert(front.commands[n] == all[n]);
            assert forall|i: int| 0 <= i < all.len() implies #[trigger] all[i]
                == front.commands[i] by {}
            assert(ordered(all));
            lemma_newer(back.commands(), all[n]);
        }
    }
}

/// Once its reader has shut down, what a background reader takes next as a command is the order to
/// stop, if it has caught up.
pub proof fn shutting_down_is_obeyed<E>(
    front: ReaderView<E>,
    back: BackgroundView<E>,
    event: Event<E>,
    later: BackgroundView<E>,
    action: Action,
    source: Source,
)
    requires
        in_step(front, back, source),
        caught_up(front, back),
        !(back.phase is Stopped),
        back.awaits(event),
        answers(source.data, back, event),
        back.serves(event, later, action),
        later.wf(),
        later.commands().is_prefix_of(front.commands),
        later.commands() != back.commands(),
    ensures
        later.commands().last() == Command::Stop,
        later.phase is Stopped,
        action == Action::Stop,
{
    caught_up_never_waits(front, back, event, later, action, source);
    let look = later.command_looks.last();
    lemma_commands_push(back.command_looks, look);
}

/// Once its background reader is gone, a reader with nothing in hand fails in every read of
/// something, and stays where it is.
pub proof fn reads_fail_once_it_is_gone<E>(
    pre: ReaderView<E>,
    post: ReaderView<E>,
    want: int,
    r: Result<usize, Error<E>>,
)
    requires
        0 < want <= usize::MAX,
        pre.wf(),
        pre.buffer is None,
        pre.failure is None,
        pre.received.contains(Incoming::Disconnected),
        pre.reads(want, post, r),
        post.wf(),
    ensures
        r == Err::<usize, Error<E>>(Error::Disconnected),
        post.buffer is None,
        post.failure is None,
        post.position == pre.position,
        post.received.contains(Incoming::Disconnected),
{
    let taken = pre.taken(post);
    let k = pre.received.len() as int;
    let i = choose|i: int| 0 <= i < k && pre.received[i] == Incoming::<E>::Disconnected;
    assert(taken.len() > 0) by {
        if taken.len() == 0 {
            assert(pre.chain(taken) =~= pre.held());
        }
    }
    assert(post.received =~= pre.received + taken);
    assert(post.received[i] is Disconnected);
    assert(post.received[k] == taken[0]);
    assert(taken[0] is Disconnected);
    if taken.len() > 1 {
        assert(taken.take(1).last() == taken[0]);
        assert(gave_up(pre.current_generation, taken.take(1)));
    }
    assert(taken =~= seq![Incoming::<E>::Disconnected]);
    assert(taken.drop_last() =~= Seq::<Incoming<E>>::empty());
    assert(pre.stream(taken) =~= Seq::<u8>::empty());
    assert(post.received[i] == Incoming::<E>::Disconnected);
}

/// A read that fails for want of the background reader has found it gone, and so does every later
/// one.
pub proof fn gone_is_found_out<E>(
    pre: ReaderView<E>,
    post: ReaderView<E>,
    want: int,
)
    requires
        0 < want <= usize::MAX,
        pre.wf(),
        pre.failure is None,
        pre.reads(want, post, Err::<usize, Error<E>>(Error::Disconnected)),
    ensures
        post.buffer is None,
        post.failure is None,
        post.received.contains(Incoming::Disconnected),
        post.position == pre.position,
{
    let taken = pre.taken(post);
    assert(post.received =~= pre.received + taken);
    assert(post.received[post.received.len() - 1] == taken.last());
}

/// A wait for a buffer, once the background reader is gone, ends at once and brings nothing.
pub proof fn waits_end_once_it_is_gone<E>(
    pre: ReaderView<E>,
    post: ReaderView<E>,
    taken: Seq<Incoming<E>>,
)
    requires
        pre.wf(),
        pre.received.contains(Incoming::Disconnected),
        pre.waits_for(taken),
        post == pre.after_wait(taken),
        post.wf(),
    ensures
        taken == seq![Incoming::<E>::Disconnected],
        pre.wait_result(taken) == Err::<(), Error<E>>(Error::Disconnected),
        post.buffer is None,
        post.position == pre.position,
        post.received.contains(Incoming::Disconnected),
{
    let k = pre.received.len() as int;
    let i = choose|i: int| 0 <= i < k && pre.received[i] == Incoming::<E>::Disconnected;
    assert(post.received[i] is Disconnected);
    assert(post.received[k] == taken[0]);
    if taken.len() > 1 {
        assert(taken.take(1).last() == taken[0]);
        assert(gave_up(pre.current_generation, taken.take(1)));
    }
    assert(taken =~= seq![Incoming::<E>::Disconnected]);
    assert(post.received[i] == Incoming::<E>::Disconnected);
}

/// Once its background reader is gone, a reader with nothing in hand and no error due fails in
/// every seek that is not refused.
pub proof fn seeks_fail_once_it_is_gone<E>(
    pre: ReaderView<E>,
    post: ReaderView<E>,
    pos: SeekFrom,
    r: Result<u64, Error<E>>,
)
    requires
        pre.wf(),
        pre.buffer is None,
        pre.failure is None,
        !pre.refuses(pos),
        pre.received.contains(Incoming::Disconnected),
        pre.seeks(pos, post, r),
        post.wf(),
    ensures
        r == Err::<u64, Error<E>>(Error::Disconnected) || r == Err::<u64, Error<E>>(
            Error::BrokenPipe,
        ),
        post.buffer is None,
        post.failure is None,
        post.position == pre.position,
        post.received.contains(Incoming::Disconnected),
{
    let turned = pre.turned();
    assert(turned.received =~= pre.received);
    if pre.connected && post.commands_took.last() {
        let asked = turned.ordering(pre.seek_command(pos), true);
        let taken = asked.taken(post);
        let k = pre.received.len() as int;
        let i = choose|i: int| 0 <= i < k && pre.received[i] == Incoming::<E>::Disconnected;
        assert(post.received[i] is Disconnected);
        assert(post.received[k] == taken[0]);
        if taken.len() > 1 {
            assert(taken.take(1).last() == taken[0]);
            assert(gave_up(asked.current_generation, taken.take(1)));
        }
        assert(taken =~= seq![Incoming::<E>::Disconnected]);
        assert(post.received[i] == Incoming::<E>::Disconnected);
    }
}

/// Once a command was not taken, every seek that goes to the background reader fails in the same
/// way.
pub proof fn seeks_fail_once_a_command_was_not_taken<E>(
    pre: ReaderView<E>,
    post: ReaderView<E>,
    pos: SeekFrom,
    r: Result<u64, Error<E>>,
)
    requires
        pre.wf(),
        pre.failure is None,
        !pre.refuses(pos),
        !pre.stays_within(pos),
        pre.commands_took.contains(false),
        pre.seeks(pos, post, r),
        post.wf(),
    ensures
        r == Err::<u64, Error<E>>(Error::BrokenPipe),
        post.commands_took.contains(false),
{
    let n = pre.commands_took.len() as int;
    let i = choose|i: int| 0 <= i < n && pre.commands_took[i] == false;
    assert(post.commands_took[i] == false);
    if pre.connected {
        assert(post.commands_took[n] == post.commands_took.last());
    }
}

} // verus!
