//! What each operation promises, from whatever state it starts: how its result and the state after
//! it relate to what went in and what came out of the channels.

use crate::background::{fresh, Action, BackgroundView, Event, PhaseView};
use crate::buffer::{progress, refilled, Buffer, BufferView, ReadOutcome, Refill};
use crate::channel::{Look, Polled};
use crate::laws::{
    in_step, lemma_all_buffers, lemma_commands_push, lemma_stale_run_bound, Source,
};
use crate::message::{
    arrivals, awaited, buffers_in, commands_in, current_in, finding, found_in, gave_up, incoming,
    joined, offer, offering, offers, outgoing, searches, stale_run, verdict, Command, Error,
    ErrorKind, Incoming, Links, SeekFrom,
};
use crate::reader::{opened, ReaderView};
use vstd::prelude::*;

verus! {

// The background reader.

/// Whether the step from `b` to `later` looked for a buffer, and found that none will come: the
/// channel is closed, or the sign that no buffer follows came.
pub open spec fn found_no_more_buffers<E>(b: BackgroundView<E>, later: BackgroundView<E>) -> bool {
    ||| later.buffer_looks == b.buffer_looks.push(Look::Glance(Polled::Disconnected))
    ||| later.buffer_looks == b.buffer_looks.push(Look::Glance(Polled::Message(None)))
    ||| later.buffer_looks == b.buffer_looks.push(Look::Wait(None))
    ||| later.buffer_looks == b.buffer_looks.push(Look::Wait(Some(None)))
}

/// Whether the step from `b` to `later` took the order to stop.
pub open spec fn took_a_stop<E>(b: BackgroundView<E>, later: BackgroundView<E>) -> bool {
    later.command_looks == b.command_looks.push(Look::Glance(Polled::Message(Command::Stop)))
}

/// A background reader stops exactly for a cause: it was told to, no buffer will come any more, a
/// seek or a read of the source failed, or the channel of filled buffers did not take what it
/// sent. Otherwise it goes on, however much it has read.
pub proof fn stops_only_for_a_cause<E>(
    b: BackgroundView<E>,
    event: Event<E>,
    later: BackgroundView<E>,
    action: Action,
)
    requires
        b.awaits(event),
        b.serves(event, later, action),
    ensures
        later.phase is Stopped <==> action is Stop,
        later.phase is Stopped <==> {
            ||| took_a_stop(b, later)
            ||| found_no_more_buffers(b, later)
            ||| event is SeekFailed
            ||| event matches Event::Read(outcome) && outcome is Failed
            ||| later.sent.len() > b.sent.len() && !later.sent_took.last()
        },
{
    let looks = b.command_looks;
    let searched = b.buffer_looks;
    assert(later.command_looks != looks ==> later.command_looks == looks.push(
        later.command_looks.last(),
    ));
    assert(looks.push(later.command_looks.last()).len() == looks.len() + 1);
    assert(searched.push(later.buffer_looks.last()).len() == searched.len() + 1);
    if took_a_stop(b, later) {
        assert(later.command_looks.last() == Look::Glance(Polled::Message(Command::Stop)));
    }
    if found_no_more_buffers(b, later) {
        assert(later.buffer_looks.len() == searched.len() + 1);
    }
}

/// Whether there was a cause to stop, at any time so far.
pub open spec fn had_cause_to_stop<E>(b: BackgroundView<E>) -> bool {
    ||| exists|i: int|
        0 <= i < b.command_looks.len() && #[trigger] b.command_looks[i] == Look::Glance(
            Polled::Message(Command::Stop),
        )
    ||| exists|i: int|
        0 <= i < b.buffer_looks.len() && match (#[trigger] b.buffer_looks[i]).found() {
            Polled::Message(message) => message is None,
            Polled::Empty => false,
            Polled::Disconnected => true,
        }
    ||| exists|i: int| 0 <= i < b.sent.len() && #[trigger] b.sent[i] is Failed
    ||| exists|i: int| 0 <= i < b.sent_took.len() && !#[trigger] b.sent_took[i]
}

/// A background reader that has stopped had a cause for it.
pub proof fn what_has_stopped_had_a_cause<E>(
    b: BackgroundView<E>,
    event: Event<E>,
    later: BackgroundView<E>,
    action: Action,
)
    requires
        b.awaits(event),
        b.serves(event, later, action),
        b.sent.len() == b.sent_took.len(),
    ensures
        later.phase is Stopped ==> had_cause_to_stop(later),
        had_cause_to_stop(b) ==> had_cause_to_stop(later),
        later.sent.len() == later.sent_took.len(),
{
    stops_only_for_a_cause(b, event, later, action);
    only_grows(b, event, later, action);
    if had_cause_to_stop(b) {
        if exists|i: int|
            0 <= i < b.command_looks.len() && #[trigger] b.command_looks[i] == Look::Glance(
                Polled::Message(Command::Stop),
            ) {
            let i = choose|i: int|
                0 <= i < b.command_looks.len() && #[trigger] b.command_looks[i] == Look::Glance(
                    Polled::Message(Command::Stop),
                );
            assert(later.command_looks[i] == b.command_looks[i]);
        } else if exists|i: int|
            0 <= i < b.buffer_looks.len() && match (#[trigger] b.buffer_looks[i]).found() {
                Polled::Message(message) => message is None,
                Polled::Empty => false,
                Polled::Disconnected => true,
            } {
            let i = choose|i: int|
                0 <= i < b.buffer_looks.len() && match (#[trigger] b.buffer_looks[i]).found() {
                    Polled::Message(message) => message is None,
                    Polled::Empty => false,
                    Polled::Disconnected => true,
                };
            assert(later.buffer_looks[i] == b.buffer_looks[i]);
        } else if exists|i: int| 0 <= i < b.sent.len() && #[trigger] b.sent[i] is Failed {
            let i = choose|i: int| 0 <= i < b.sent.len() && #[trigger] b.sent[i] is Failed;
            assert(later.sent[i] == b.sent[i]);
        } else {
            let i = choose|i: int| 0 <= i < b.sent_took.len() && !#[trigger] b.sent_took[i];
            assert(later.sent_took[i] == b.sent_took[i]);
        }
    }
    if later.phase is Stopped {
        let c = later.command_looks.len() - 1;
        let s = later.buffer_looks.len() - 1;
        let m = later.sent.len() - 1;
        if took_a_stop(b, later) {
            assert(later.command_looks[c] == Look::Glance(Polled::Message(Command::Stop)));
        } else if found_no_more_buffers(b, later) {
            assert(later.buffer_looks[s] == later.buffer_looks.last());
        } else if later.sent.len() > b.sent.len() && !later.sent_took.last() {
            assert(!later.sent_took[m]);
        } else {
            assert(later.sent[m] is Failed);
        }
    }
}

/// A look that found a command is among those whose commands were taken.
proof fn lemma_found_command(looks: Seq<Look<Command>>, i: int)
    requires
        0 <= i < looks.len(),
        looks[i].found() is Message,
    ensures
        commands_in(looks).contains(looks[i].found()->Message_0),
    decreases looks.len(),
{
    let rest = looks.drop_last();
    let all = commands_in(looks);
    if i < rest.len() {
        lemma_found_command(rest, i);
        let c = looks[i].found()->Message_0;
        assert(rest[i] == looks[i]);
        let k = choose|k: int| 0 <= k < commands_in(rest).len() && commands_in(rest)[k] == c;
        assert(all[k] == c);
    } else {
        assert(all[all.len() - 1] == looks[i].found()->Message_0);
    }
}

/// A look that found a message is among those whose messages were taken.
proof fn lemma_found_message(looks: Seq<Look<Option<BufferView>>>, i: int)
    requires
        0 <= i < looks.len(),
        looks[i].found() is Message,
    ensures
        found_in(looks).contains(looks[i].found()->Message_0),
    decreases looks.len(),
{
    let rest = looks.drop_last();
    let all = found_in(looks);
    if i < rest.len() {
        lemma_found_message(rest, i);
        let m = looks[i].found()->Message_0;
        assert(rest[i] == looks[i]);
        let k = choose|k: int| 0 <= k < found_in(rest).len() && found_in(rest)[k] == m;
        assert(all[k] == m);
    } else {
        assert(all[all.len() - 1] == looks[i].found()->Message_0);
    }
}

/// As long as its reader sends no order to stop, keeps its ends of the channels, and the source
/// does not fail, a background reader goes on, so that its reader never finds it gone.
pub proof fn goes_on_as_long_as_it_is_wanted<E>(front: ReaderView<E>, back: BackgroundView<E>)
    requires
        back.phase is Stopped ==> had_cause_to_stop(back),
        back.commands().is_prefix_of(front.commands),
        forall|i: int| 0 <= i < front.commands.len() ==> #[trigger] front.commands[i] is Seek,
        back.taken().is_prefix_of(front.released),
        forall|i: int| 0 <= i < front.released.len() ==> #[trigger] front.released[i] is Some,
        forall|i: int|
            0 <= i < back.buffer_looks.len() ==> !((
            #[trigger] back.buffer_looks[i]).found() is Disconnected),
        forall|i: int| 0 <= i < back.sent.len() ==> !(#[trigger] back.sent[i] is Failed),
        forall|i: int| 0 <= i < back.sent_took.len() ==> #[trigger] back.sent_took[i],
    ensures
        !(back.phase is Stopped),
{
    if back.phase is Stopped {
        if exists|i: int|
            0 <= i < back.command_looks.len() && #[trigger] back.command_looks[i] == Look::Glance(
                Polled::Message(Command::Stop),
            ) {
            let i = choose|i: int|
                0 <= i < back.command_looks.len() && #[trigger] back.command_looks[i]
                    == Look::Glance(Polled::Message(Command::Stop));
            lemma_found_command(back.command_looks, i);
            let all = back.commands();
            let k = choose|k: int| 0 <= k < all.len() && all[k] == Command::Stop;
            assert(all[k] == front.commands[k]);
        } else {
            let i = choose|i: int|
                0 <= i < back.buffer_looks.len() && match (
                #[trigger] back.buffer_looks[i]).found() {
                    Polled::Message(message) => message is None,
                    Polled::Empty => false,
                    Polled::Disconnected => true,
                };
            lemma_found_message(back.buffer_looks, i);
            let all = back.taken();
            let m = back.buffer_looks[i].found()->Message_0;
            let k = choose|k: int| 0 <= k < all.len() && all[k] == m;
            assert(all[k] == front.released[k]);
        }
    }
}

/// A step adds to the logs of a background reader, and changes nothing that stands there.
pub proof fn only_grows<E>(
    b: BackgroundView<E>,
    event: Event<E>,
    later: BackgroundView<E>,
    action: Action,
)
    requires
        b.awaits(event),
        b.serves(event, later, action),
    ensures
        later.links == b.links,
        b.command_looks.is_prefix_of(later.command_looks),
        b.buffer_looks.is_prefix_of(later.buffer_looks),
        b.sent.is_prefix_of(later.sent),
        b.sent_took.is_prefix_of(later.sent_took),
        later.command_looks.len() <= b.command_looks.len() + 1,
        later.buffer_looks.len() <= b.buffer_looks.len() + 1,
        later.sent.len() <= b.sent.len() + 1,
        later.sent_took.len() - b.sent_took.len() == later.sent.len() - b.sent.len(),
{
}

/// What is asked for fits what is going on: to fill a buffer, the source is asked for all the room
/// that is left in it, which is never nothing; on a seek, for the place of the command; and only
/// with no work at hand is there nothing to do.
pub proof fn asks_for_what_is_going_on<E>(
    b: BackgroundView<E>,
    event: Event<E>,
    later: BackgroundView<E>,
    action: Action,
)
    requires
        b.wf(),
        b.awaits(event),
        b.serves(event, later, action),
        later.wf(),
    ensures
        match later.phase {
            PhaseView::Filling(x) => {
                action matches Action::Read(n) && n == x.data.len() - x.end && n > 0
            },
            PhaseView::Seeking { pos, .. } => action == Action::Seek(pos),
            PhaseView::Ready => action == Action::Yield,
            PhaseView::Stopped => action == Action::Stop,
        },
{
}

/// What a background reader asked for is what it accepts as an answer: any part of the bytes that
/// it wanted, an interruption or a failure of the read, any result of the seek, or to go on.
pub proof fn accepts_what_it_asked_for<E>(
    b: BackgroundView<E>,
    event: Event<E>,
    later: BackgroundView<E>,
    action: Action,
    answer: Event<E>,
)
    requires
        b.wf(),
        b.awaits(event),
        b.serves(event, later, action),
        later.wf(),
    ensures
        later.awaits(answer) <==> match (action, answer) {
            (Action::Read(n), Event::Read(ReadOutcome::Data(bytes))) => {
                &&& bytes@.len() <= n
                &&& later.phase->Filling_0.start_pos + later.phase->Filling_0.end + bytes@.len()
                    <= u64::MAX
            },
            (Action::Read(_), Event::Read(_)) => true,
            (Action::Seek(_), Event::Sought(_)) => true,
            (Action::Seek(_), Event::SeekFailed(_)) => true,
            (Action::Yield, Event::Resume) => true,
            _ => false,
        },
{
}

/// A new background reader stands where its source does, has done nothing yet, and starts when it
/// is told to go on.
pub proof fn a_new_background_reader<E>(start: int, links: Links)
    ensures
        ({
            let b = fresh::<E>(start, links);
            &&& b.current_pos == start
            &&& b.current_generation == 0
            &&& !b.pending_seek
            &&& b.phase is Ready
            &&& b.spare is None
            &&& b.links == links
            &&& b.command_looks.len() == 0
            &&& b.buffer_looks.len() == 0
            &&& b.sent.len() == 0
            &&& b.sent_took.len() == 0
            &&& b.awaits(Event::Resume)
        }),
{
}

/// A command to seek has the source sought in at its place; the order to stop ends the work.
/// Neither touches what is in hand or what was sent.
pub proof fn a_command_is_obeyed<E>(b: BackgroundView<E>, command: Command)
    ensures
        ({
            let later = b.after_command(command);
            let action = BackgroundView::<E>::command_action(command);
            &&& match command {
                Command::Seek { generation, pos } => {
                    &&& later.phase == PhaseView::Seeking { generation: generation as int, pos }
                    &&& action == Action::Seek(pos)
                },
                Command::Stop => later.phase is Stopped && action == Action::Stop,
            }
            &&& later.spare == b.spare
            &&& later.current_pos == b.current_pos
            &&& later.current_generation == b.current_generation
            &&& later.pending_seek == b.pending_seek
            &&& later.links == b.links
            &&& later.command_looks == b.command_looks
            &&& later.buffer_looks == b.buffer_looks
            &&& later.sent == b.sent
            &&& later.sent_took == b.sent_took
        }),
{
}

/// A buffer that was found is filled as a whole, from where the source stands and for the
/// generation that is current; without one, the background reader waits for its turn, or stops if
/// none will come.
pub proof fn a_found_buffer_is_filled<E>(b: BackgroundView<E>, found: Polled<Option<BufferView>>)
    ensures
        ({
            let later = b.after_search(found);
            let action = BackgroundView::<E>::search_action(found);
            &&& match found {
                Polled::Message(Some(t)) => {
                    &&& later.phase matches PhaseView::Filling(x) && x.data == t.data && x.end == 0
                        && x.start_pos == b.current_pos && x.generation == b.current_generation
                    &&& action == Action::Read(t.data.len() as usize)
                    &&& !later.pending_seek
                    &&& later.spare is None
                },
                Polled::Empty => later == b && action == Action::Yield,
                _ => later.phase is Stopped && action == Action::Stop && later.spare == b.spare,
            }
            &&& later.current_pos == b.current_pos
            &&& later.current_generation == b.current_generation
            &&& later.links == b.links
            &&& later.command_looks == b.command_looks
            &&& later.buffer_looks == b.buffer_looks
            &&& later.sent == b.sent
            &&& later.sent_took == b.sent_took
        }),
{
}

/// Whether the step from `b` to `later` looked for work in order, with `wait` if a buffer had to be
/// waited for and `spare` in hand.
pub open spec fn looked_for_work<E>(
    b: BackgroundView<E>,
    later: BackgroundView<E>,
    wait: bool,
    spare: Option<BufferView>,
    action: Action,
) -> bool {
    let look = later.command_looks.last();
    let search = later.buffer_looks.last();
    &&& later.command_looks == b.command_looks.push(look)
    &&& look matches Look::Glance(found) && match found {
        Polled::Message(Command::Seek { generation, pos }) => {
            &&& action == Action::Seek(pos)
            &&& later.phase == PhaseView::Seeking { generation: generation as int, pos }
            &&& later.buffer_looks == b.buffer_looks
            &&& later.spare == spare
            &&& later.pending_seek == wait
        },
        Polled::Message(Command::Stop) => {
            &&& action == Action::Stop
            &&& later.buffer_looks == b.buffer_looks
        },
        _ => match spare {
            Some(t) => {
                &&& later.buffer_looks == b.buffer_looks
                &&& later.phase matches PhaseView::Filling(x) && x.data == t.data && x.end == 0
                    && x.start_pos == later.current_pos && x.generation == later.current_generation
                &&& action == Action::Read(t.data.len() as usize)
                &&& !later.pending_seek
                &&& later.spare is None
            },
            None => {
                &&& later.buffer_looks == b.buffer_looks.push(search)
                &&& search is Wait <==> wait
                &&& match search.found() {
                    Polled::Message(Some(t)) => {
                        &&& later.phase matches PhaseView::Filling(x) && x.data == t.data && x.end
                            == 0 && x.start_pos == later.current_pos && x.generation
                            == later.current_generation
                        &&& action == Action::Read(t.data.len() as usize)
                        &&& !later.pending_seek
                        &&& later.spare is None
                    },
                    Polled::Empty => {
                        &&& action == Action::Yield
                        &&& later.phase is Ready
                        &&& !later.pending_seek
                        &&& later.spare is None
                    },
                    _ => action == Action::Stop && later.phase is Stopped,
                }
            },
        },
    }
}

/// To look for work is to look for a command, and then, unless a buffer is in hand, for a buffer,
/// with a wait exactly if a seek was done and no buffer taken since. It sends nothing, and moves
/// nowhere.
pub proof fn work_is_looked_for_in_order<E>(
    b: BackgroundView<E>,
    later: BackgroundView<E>,
    action: Action,
)
    requires
        b.phase is Ready,
        b.polls(later, action),
    ensures
        looked_for_work(b, later, b.pending_seek, b.spare, action),
        later.current_pos == b.current_pos,
        later.current_generation == b.current_generation,
        later.sent == b.sent,
        later.sent_took == b.sent_took,
        later.links == b.links,
{
}

/// A background reader that is told to go on looks for work.
pub proof fn going_on_looks_for_work<E>(
    b: BackgroundView<E>,
    later: BackgroundView<E>,
    action: Action,
)
    requires
        b.awaits(Event::Resume),
        b.serves(Event::Resume, later, action),
    ensures
        looked_for_work(b, later, b.pending_seek, b.spare, action),
        later.current_pos == b.current_pos,
        later.current_generation == b.current_generation,
        later.sent == b.sent,
{
    work_is_looked_for_in_order(b, later, action);
}

/// A seek that was done puts the background reader where the source then stands, for the
/// generation of its command, and it looks for work, with a wait for a buffer. One that failed is
/// told to the reader, and ends the work.
pub proof fn a_seek_moves_on<E>(
    b: BackgroundView<E>,
    later: BackgroundView<E>,
    action: Action,
    p: u64,
)
    requires
        b.awaits(Event::Sought(p)),
        b.serves(Event::Sought(p), later, action),
    ensures
        later.current_pos == p,
        later.current_generation == b.phase->Seeking_generation,
        later.sent == b.sent,
        looked_for_work(b, later, true, b.spare, action),
{
}

/// An error of the source is told to the reader as it is, and nothing else is done.
pub proof fn an_error_is_passed_on<E>(
    b: BackgroundView<E>,
    later: BackgroundView<E>,
    action: Action,
    e: E,
    event: Event<E>,
)
    requires
        event == Event::SeekFailed(e) || event == Event::Read(ReadOutcome::Failed(e)),
        b.awaits(event),
        b.serves(event, later, action),
    ensures
        later.sent == b.sent.push(Incoming::Failed(e)),
        action == Action::Stop,
        later.command_looks == b.command_looks,
        later.buffer_looks == b.buffer_looks,
{
}

/// What a read of the source gives goes into the buffer behind what is there. As long as the
/// source gives something and there is room left, the buffer is filled on and nothing else is done;
/// else the buffer is sent as it is, the background reader stands behind it, and looks for work if
/// the channel took it.
pub proof fn what_is_read_is_sent<E>(
    b: BackgroundView<E>,
    later: BackgroundView<E>,
    action: Action,
    bytes: Vec<u8>,
)
    requires
        b.wf(),
        b.awaits(Event::Read(ReadOutcome::Data(bytes))),
        b.serves(Event::Read(ReadOutcome::Data(bytes)), later, action),
    ensures
        ({
            let x = b.phase->Filling_0;
            let on = bytes@.len() > 0 && x.end + bytes@.len() < x.data.len();
            let y = if on {
                later.phase->Filling_0
            } else {
                later.sent.last()->Buffer_0
            };
            &&& y.data.take(y.end) == x.data.take(x.end) + bytes@
            &&& y.end == x.end + bytes@.len()
            &&& y.data.len() == x.data.len()
            &&& y.start_pos == x.start_pos
            &&& y.generation == x.generation
            &&& if on {
                &&& later.phase is Filling
                &&& later.sent == b.sent
                &&& later.command_looks == b.command_looks
                &&& later.buffer_looks == b.buffer_looks
                &&& later.current_pos == b.current_pos
                &&& later.pending_seek == b.pending_seek
                &&& later.spare == b.spare
            } else {
                &&& later.sent == b.sent.push(Incoming::Buffer(y))
                &&& later.sent_took == b.sent_took.push(later.sent_took.last())
                &&& later.current_pos == y.start_pos + y.end
                &&& later.sent_took.last() ==> looked_for_work(
                    b,
                    later,
                    b.pending_seek,
                    None,
                    action,
                )
                &&& !later.sent_took.last() ==> action == Action::Stop && later.command_looks
                    == b.command_looks && later.buffer_looks == b.buffer_looks
            }
            &&& later.current_generation == b.current_generation
        }),
{
    let x = b.phase->Filling_0;
    let outcome = ReadOutcome::<E>::Data(bytes);
    assert(refilled(x, outcome).data.take(x.end + bytes@.len()) =~= x.data.take(x.end) + bytes@);
}

/// An interruption loses nothing: what was read before is sent as it is; if there is nothing yet,
/// nothing is sent, the buffer is kept, and the background reader looks for work.
pub proof fn an_interruption_loses_nothing<E>(
    b: BackgroundView<E>,
    later: BackgroundView<E>,
    action: Action,
)
    requires
        b.wf(),
        b.awaits(Event::Read(ReadOutcome::Interrupted)),
        b.serves(Event::Read(ReadOutcome::Interrupted), later, action),
    ensures
        ({
            let x = b.phase->Filling_0;
            &&& later.current_generation == b.current_generation
            &&& later.current_pos == x.start_pos + x.end
            &&& if x.end == 0 {
                &&& later.sent == b.sent
                &&& looked_for_work(b, later, b.pending_seek, Some(x), action)
            } else {
                &&& later.sent == b.sent.push(Incoming::Buffer(x))
                &&& later.sent_took.last() ==> looked_for_work(
                    b,
                    later,
                    b.pending_seek,
                    None,
                    action,
                )
                &&& !later.sent_took.last() ==> action == Action::Stop
            }
        }),
{
}

/// A refill adds what was read behind what is there, keeps the room and the place of the buffer,
/// and asks for just the room left until nothing comes or none is left.
pub proof fn a_refill_adds_what_was_read<E>(x: BufferView, outcome: ReadOutcome<E>)
    requires
        x.wf(),
        outcome matches ReadOutcome::Data(bytes) ==> x.end + bytes@.len() <= x.data.len(),
    ensures
        ({
            let y = refilled(x, outcome);
            let r = progress(x, outcome);
            &&& y.data.len() == x.data.len()
            &&& y.start_pos == x.start_pos
            &&& y.generation == x.generation
            &&& match outcome {
                ReadOutcome::Data(bytes) => {
                    &&& y.end == x.end + bytes@.len()
                    &&& y.data.take(y.end) == x.data.take(x.end) + bytes@
                    &&& if bytes@.len() > 0 && y.end < y.data.len() {
                        r matches Refill::Wants(n) && n == y.data.len() - y.end
                    } else {
                        r is Done
                    }
                },
                ReadOutcome::Interrupted => {
                    &&& y == x
                    &&& if x.end == 0 {
                        r is Again
                    } else {
                        r is Done
                    }
                },
                ReadOutcome::Failed(e) => y.end == 0 && r == Refill::Failed(e),
            }
        }),
{
    if let ReadOutcome::Data(bytes) = outcome {
        assert(refilled(x, outcome).data.take(x.end + bytes@.len()) =~= x.data.take(x.end)
            + bytes@);
    }
}

// The reader.

/// Whether `later` differs from `pre` in nothing that a read or a seek has to leave alone: it is
/// as connected as before, by the same channels, with buffers of the same size.
pub open spec fn keeps_its_ends<E>(pre: ReaderView<E>, later: ReaderView<E>) -> bool {
    &&& later.connected == pre.connected
    &&& later.links == pre.links
    &&& later.buffer_size == pre.buffer_size
    &&& later.patient == pre.patient
    &&& pre.received.is_prefix_of(later.received)
    &&& pre.released.is_prefix_of(later.released)
    &&& pre.commands.is_prefix_of(later.commands)
    &&& pre.commands_took.is_prefix_of(later.commands_took)
}

/// Whether `e` is the error of a wait that took `taken` in and ended with the last of it: an error
/// of the source, the background reader gone, or more outdated buffers than can be counted.
pub open spec fn ends_a_wait<E>(e: Error<E>, taken: Seq<Incoming<E>>) -> bool {
    &&& taken.len() > 0
    &&& match taken.last() {
        Incoming::Failed(x) => e == Error::Source(x),
        Incoming::Disconnected => e == Error::<E>::Disconnected,
        Incoming::Buffer(_) => e == Error::<E>::Overrun && taken.len() >= u64::MAX,
    }
}

/// A new reader stands where its source does, is connected, and has put up `queuelen` buffers of
/// `bufsize` bytes for filling.
pub proof fn a_new_reader<E>(bufsize: int, queuelen: int, start: int, links: Links)
    requires
        bufsize > 0,
        queuelen >= 1,
    ensures
        ({
            let r = opened::<E>(bufsize, queuelen, start, links);
            &&& r.buffer is None
            &&& r.buf_pos == 0
            &&& r.position == start
            &&& r.current_generation == 0
            &&& r.next_generation == 1
            &&& r.buffer_size == bufsize
            &&& r.connected
            &&& r.failure is None
            &&& r.links == links
            &&& r.patient
            &&& r.received.len() == 0
            &&& r.commands.len() == 0
            &&& r.commands_took.len() == 0
            &&& r.released.len() == queuelen
            &&& forall|i: int|
                0 <= i < queuelen ==> (#[trigger] r.released[i] matches Some(b) && b.data.len()
                    == bufsize && b.end == 0 && b.generation == 0)
        }),
{
}

/// A read leaves the channels, the generations and the commands of a reader alone: only shutting
/// down disconnects it.
pub proof fn a_read_keeps_its_ends<E>(
    pre: ReaderView<E>,
    post: ReaderView<E>,
    want: int,
    r: Result<usize, Error<E>>,
)
    requires
        pre.reads(want, post, r),
    ensures
        keeps_its_ends(pre, post),
        post.commands == pre.commands,
        post.commands_took == pre.commands_took,
        post.current_generation == pre.current_generation,
        post.next_generation == pre.next_generation,
{
    if want != 0 && pre.failure is None {
        assert(pre.received.is_prefix_of(pre.received + pre.taken(post)));
    }
}

/// A read of nothing does nothing, and an error that is due is told once, with nothing done.
pub proof fn a_read_tells_what_is_due<E>(
    pre: ReaderView<E>,
    post: ReaderView<E>,
    want: int,
    r: Result<usize, Error<E>>,
)
    requires
        pre.reads(want, post, r),
    ensures
        want == 0 ==> post == pre && r == Ok::<usize, Error<E>>(0),
        want != 0 && pre.failure is Some ==> {
            &&& r == Err::<usize, Error<E>>(pre.failure.unwrap())
            &&& post.failure is None
            &&& post.buffer == pre.buffer
            &&& post.buf_pos == pre.buf_pos
            &&& post.position == pre.position
            &&& post.received == pre.received
            &&& post.released == pre.released
        },
{
}

/// A read fails, or leaves an error for the next call, only where a wait for a buffer failed, and
/// with the error of that wait. A failed read has read nothing and moved nowhere; one that leaves
/// an error behind has read something.
pub proof fn a_read_fails_only_where_a_wait_does<E>(
    pre: ReaderView<E>,
    post: ReaderView<E>,
    want: int,
    r: Result<usize, Error<E>>,
)
    requires
        0 < want <= usize::MAX,
        pre.wf(),
        pre.failure is None,
        pre.reads(want, post, r),
    ensures
        ({
            let taken = post.received.skip(pre.received.len() as int);
            &&& r matches Err(e) ==> {
                &&& ends_a_wait(e, taken)
                &&& post.position == pre.position
                &&& post.failure is None
                &&& post.buffer is None
            }
            &&& r matches Ok(n) ==> (post.failure matches Some(e) ==> {
                &&& ends_a_wait(e, taken)
                &&& n > 0
                &&& post.buffer is None
                // It stands behind the last buffer that it read.
                &&& {
                    let run = current_in(pre.current_generation, taken);
                    let last = if run.len() > 0 {
                        run.last()
                    } else {
                        pre.buffer.unwrap()
                    };
                    post.position == last.start_pos + last.end
                }
            })
        }),
{
    let taken = pre.taken(post);
    let run = current_in(pre.current_generation, taken);
    assert(run.len() > 0 ==> pre.chain(taken).last() == run.last());
    assert(run.len() == 0 ==> pre.chain(taken) =~= pre.held());
    lemma_stale_run_bound(pre.current_generation, taken);
}

/// A read that goes well gives no more than is wanted, and less only where an empty buffer ended
/// it. It then has in hand the buffer that came last, or the one from before if none came, and
/// never one that is used up.
pub proof fn a_read_gives_what_is_wanted<E>(
    pre: ReaderView<E>,
    post: ReaderView<E>,
    want: int,
    n: usize,
)
    requires
        0 < want <= usize::MAX,
        pre.wf(),
        post.wf(),
        pre.failure is None,
        pre.reads(want, post, Ok::<usize, Error<E>>(n)),
        post.failure is None,
    ensures
        n <= want,
        post.buffer is Some,
        n < want ==> post.buffer.unwrap().end == 0,
        post.buffer.unwrap().end > 0 ==> post.buf_pos < post.buffer.unwrap().end,
        post.received.len() == pre.received.len() ==> post.buffer == pre.buffer && post.buf_pos
            == pre.buf_pos + n,
        post.received.len() > pre.received.len() ==> post.received.last()
            == Incoming::<E>::Buffer(post.buffer.unwrap()),
        post.position == post.buffer.unwrap().start_pos + post.buf_pos,
{
    let taken = pre.taken(post);
    lemma_all_buffers(pre, want, taken);
    if taken.len() == 0 {
        assert(pre.chain(taken) =~= pre.held());
        assert(pre.stream(taken) =~= pre.unread());
    } else {
        assert(post.received =~= pre.received + taken);
        assert(taken.drop_last().push(taken.last()) =~= taken);
        assert(pre.chain(taken).last() == taken.last()->Buffer_0);
    }
}

/// A read waits for no buffer that it does not need: none while more is in hand than is wanted, or
/// at the end of the stream, and none once more than is wanted has come or an empty buffer has.
pub proof fn a_read_waits_for_no_more_than_it_needs<E>(
    pre: ReaderView<E>,
    post: ReaderView<E>,
    want: int,
    r: Result<usize, Error<E>>,
)
    requires
        0 < want <= usize::MAX,
        pre.wf(),
        pre.failure is None,
        pre.reads(want, post, r),
    ensures
        ({
            let taken = post.received.skip(pre.received.len() as int);
            let g = pre.current_generation;
            &&& pre.buffer matches Some(b) ==> {
                &&& b.end - pre.buf_pos > want ==> taken.len() == 0
                &&& b.end == 0 ==> taken.len() == 0
            }
            &&& forall|j: int|
                0 <= j < taken.len() - 1 ==> (#[trigger] taken[j] matches Incoming::Buffer(x) && (
                x.generation == g ==> x.end > 0))
            &&& taken.len() > 0 ==> pre.unread().len() + joined(
                current_in(g, taken.drop_last()),
            ).len() <= want || current_in(g, taken.drop_last()).len() == 0
        }),
{
    let taken = pre.taken(post);
    let g = pre.current_generation;
    lemma_all_buffers(pre, want, taken);
    if taken.len() > 0 {
        let none = Seq::<Incoming<E>>::empty();
        assert(taken.take(0) =~= none);
        assert(pre.chain(none) =~= pre.held());
        assert(pre.stream(none) =~= pre.unread());
        assert(pre.wants_more(want, taken.take(0)));
        assert forall|j: int| 0 <= j < taken.len() - 1 implies (
        #[trigger] taken[j] matches Incoming::Buffer(x) && (x.generation == g ==> x.end > 0)) by {
            let upto = taken.take(j + 1);
            assert(upto.drop_last() =~= taken.take(j));
            assert(upto.last() == taken[j]);
            assert(pre.wants_more(want, upto));
            if taken[j].is_current(g) {
                assert(pre.chain(upto).last() == taken[j]->Buffer_0);
            }
        }
        let k = taken.len() - 1;
        assert(taken.take(k) =~= taken.drop_last());
        assert(pre.wants_more(want, taken.take(k)));
    }
}

/// No byte is lost over a read, and none comes twice: what was in hand and what came is what was
/// handed out and what is in hand.
pub proof fn a_read_loses_no_byte<E>(
    pre: ReaderView<E>,
    post: ReaderView<E>,
    want: int,
    r: Result<usize, Error<E>>,
)
    requires
        0 <= want <= usize::MAX,
        pre.wf(),
        post.wf(),
        pre.failure is None,
        pre.reads(want, post, r),
    ensures
        ({
            let taken = post.received.skip(pre.received.len() as int);
            let came = pre.unread() + joined(current_in(pre.current_generation, taken));
            let n = match r {
                Ok(n) => n as int,
                Err(_) => 0,
            };
            n <= came.len() && came == pre.stream(pre.taken(post)).take(n) + post.unread()
        }),
{
    let taken = pre.taken(post);
    let came = pre.unread() + joined(current_in(pre.current_generation, taken));
    if want == 0 {
        assert(taken =~= Seq::<Incoming<E>>::empty());
        assert(came =~= pre.stream(taken).take(0) + post.unread());
    } else if pre.wants_more(want, taken) {
        let n = came.len() as int;
        assert(came =~= came.take(n) + Seq::<u8>::empty());
        assert(post.unread() =~= Seq::<u8>::empty());
        assert(came.take(n) =~= came);
    } else {
        let n = pre.copied(want, taken);
        let b = post.buffer.unwrap();
        lemma_all_buffers(pre, want, taken);
        lemma_tail(pre, taken, b);
        assert(came =~= came.take(n) + post.unread());
    }
}

/// What has come ends with the buffer that came last, or the rest of the one in hand.
proof fn lemma_tail<E>(pre: ReaderView<E>, taken: Seq<Incoming<E>>, b: BufferView)
    requires
        pre.wf(),
        b.wf(),
        pre.chain(taken).len() > 0,
        pre.chain(taken).last() == b,
        taken.len() > 0 ==> taken.last().is_current(pre.current_generation),
    ensures
        ({
            let came = pre.stream(taken);
            &&& taken.len() > 0 ==> b.end <= came.len()
            &&& forall|k: int|
                0 <= k <= b.end && k <= came.len() && (taken.len() == 0 ==> b.end - k
                    >= pre.buf_pos) ==> b.bytes().skip(b.end - k) == #[trigger] came.skip(
                    came.len() - k,
                )
        }),
{
    let came = pre.stream(taken);
    if taken.len() > 0 {
        let run = current_in(pre.current_generation, taken);
        assert(run.last() == b);
        assert(joined(run) == joined(run.drop_last()) + b.bytes());
    } else {
        assert(pre.chain(taken) =~= pre.held());
        assert(came =~= pre.unread());
    }
    assert forall|k: int|
        0 <= k <= b.end && k <= came.len() && (taken.len() == 0 ==> b.end - k >= pre.buf_pos)
            implies b.bytes().skip(b.end - k) == #[trigger] came.skip(came.len() - k) by {
        assert(b.bytes().skip(b.end - k) =~= came.skip(came.len() - k));
    }
}

/// Over a source that does not fail, every read of a pair in step goes well, and leaves no error
/// for the next.
pub proof fn reads_go_well_over_a_sound_source<E>(
    pre: ReaderView<E>,
    post: ReaderView<E>,
    back: BackgroundView<E>,
    source: Source,
    want: int,
    r: Result<usize, Error<E>>,
)
    requires
        0 <= want <= usize::MAX,
        pre.wf(),
        pre.failure is None,
        pre.reads(want, post, r),
        in_step(post, back, source),
        back.sent.len() < u64::MAX,
        forall|i: int| 0 <= i < back.sent.len() ==> !(#[trigger] back.sent[i] is Failed),
    ensures
        r is Ok,
        post.failure is None,
{
    if want > 0 {
        a_read_fails_only_where_a_wait_does(pre, post, want, r);
        let taken = pre.taken(post);
        if r is Err || post.failure is Some {
            let at = post.received.len() - 1;
            assert(post.received[at] == taken.last());
            assert(back.sent[at] == post.received[at]);
        }
    }
}

/// A wait for a buffer gives back the buffer in hand, then every outdated one that comes, in order,
/// and ends with the first of the current generation, which it takes in hand, or with an error.
pub proof fn a_wait_ends_with_the_first_current_buffer<E>(
    pre: ReaderView<E>,
    taken: Seq<Incoming<E>>,
)
    requires
        pre.waits_for(taken),
    ensures
        ({
            let post = pre.after_wait(taken);
            let r = pre.wait_result(taken);
            &&& taken.len() > 0
            &&& forall|j: int|
                0 <= j < taken.len() - 1 ==> (#[trigger] taken[j] matches Incoming::Buffer(x)
                    && x.generation != pre.current_generation)
            &&& keeps_its_ends(pre, post)
            &&& post.received == pre.received + taken
            &&& post.commands == pre.commands
            &&& post.commands_took == pre.commands_took
            &&& post.current_generation == pre.current_generation
            &&& post.next_generation == pre.next_generation
            &&& post.failure == pre.failure
            &&& post.buf_pos == 0
            &&& match taken.last() {
                Incoming::Buffer(b) if b.generation == pre.current_generation => {
                    &&& r is Ok
                    &&& post.buffer == Some(b)
                    &&& post.position == b.start_pos
                },
                _ => {
                    &&& r matches Err(e) && ends_a_wait(e, taken)
                    &&& post.buffer is None
                    &&& post.position == pre.position
                },
            }
            &&& gives_back(pre, post, taken)
        }),
{
    let g = pre.current_generation;
    let post = pre.after_wait(taken);
    let rest = taken.drop_last();
    lemma_stale_run_bound(g, taken);
    assert forall|j: int| 0 <= j < taken.len() - 1 implies (
    #[trigger] taken[j] matches Incoming::Buffer(x) && x.generation != g) by {
        assert(!gave_up(g, taken.take(j + 1)));
        assert(taken.take(j + 1).last() == taken[j]);
    }
    assert(pre.received.is_prefix_of(pre.received + taken));
    assert(gives_back(pre, post, taken));
}

/// Whether, from `pre` to `post`, the buffer in hand and those of `taken` were put up for filling,
/// each once and in order, but for the one that is then in hand.
pub open spec fn gives_back<E>(
    pre: ReaderView<E>,
    post: ReaderView<E>,
    taken: Seq<Incoming<E>>,
) -> bool {
    let before = match pre.buffer {
        Some(b) => seq![b],
        None => Seq::empty(),
    };
    let all = before + buffers_in(taken);
    let kept: int = if post.buffer is Some {
        1
    } else {
        0
    };
    &&& kept <= all.len()
    &&& post.buffer matches Some(b) ==> all.last() == b
    &&& post.released.len() == pre.released.len() + all.len() - kept
    &&& forall|i: int|
        0 <= i < pre.released.len() ==> #[trigger] post.released[i] == pre.released[i]
    &&& forall|i: int|
        0 <= i < all.len() - kept ==> #[trigger] post.released[pre.released.len() + i] == Some(
            all[i],
        )
}

/// A read gives back every buffer that it is done with.
pub proof fn a_read_gives_buffers_back<E>(
    pre: ReaderView<E>,
    post: ReaderView<E>,
    want: int,
    r: Result<usize, Error<E>>,
)
    requires
        want > 0,
        pre.failure is None,
        pre.reads(want, post, r),
    ensures
        gives_back(pre, post, post.received.skip(pre.received.len() as int)),
{
    let taken = pre.taken(post);
    lemma_all_buffers(pre, want, taken);
    assert(taken == post.received.skip(pre.received.len() as int));
    if !pre.wants_more(want, taken) {
        if taken.len() > 0 {
            assert(buffers_in(taken).last() == pre.chain(taken).last());
        } else {
            assert(pre.chain(taken) =~= pre.held());
        }
    }
}

/// To give the buffer in hand back is to put it up for filling, once, and to do nothing else.
pub proof fn giving_back_does_nothing_else<E>(pre: ReaderView<E>)
    ensures
        ({
            let post = pre.waiting(Seq::empty());
            &&& post.buffer is None
            &&& post.buf_pos == 0
            &&& post.released == match pre.buffer {
                Some(b) => pre.released.push(Some(b)),
                None => pre.released,
            }
            &&& keeps_its_ends(pre, post)
            &&& post.position == pre.position
            &&& post.current_generation == pre.current_generation
            &&& post.next_generation == pre.next_generation
            &&& post.failure == pre.failure
            &&& post.received == pre.received
            &&& post.commands == pre.commands
            &&& post.commands_took == pre.commands_took
        }),
{
    let post = pre.waiting(Seq::empty());
    assert(post.received =~= pre.received);
    assert(post.released =~= match pre.buffer {
        Some(b) => pre.released.push(Some(b)),
        None => pre.released,
    });
}

/// To shut down a connected reader gives the buffer in hand back and sends the order to stop,
/// whatever is in hand, and disconnects the reader. Nothing else changes, and one that was shut
/// down before sends nothing.
pub proof fn shutting_down_sends_a_stop<E>(pre: ReaderView<E>, took: bool)
    ensures
        ({
            let post = pre.shut(took);
            &&& !post.connected
            &&& post.buffer is None
            &&& post.released == match pre.buffer {
                Some(b) => pre.released.push(Some(b)),
                None => pre.released,
            }
            &&& post.commands == if pre.connected {
                pre.commands.push(Command::Stop)
            } else {
                pre.commands
            }
            &&& post.commands_took == if pre.connected {
                pre.commands_took.push(took)
            } else {
                pre.commands_took
            }
            &&& post.received == pre.received
            &&& post.links == pre.links
            &&& post.position == pre.position
            &&& post.current_generation == pre.current_generation
            &&& post.next_generation == pre.next_generation
            &&& post.buffer_size == pre.buffer_size
            &&& post.failure == pre.failure
        }),
{
    giving_back_does_nothing_else(pre);
}

/// Where a seek to `pos` goes from the position `p`, unless it is counted from the end.
pub open spec fn destination(p: int, pos: SeekFrom) -> Option<int> {
    match pos {
        SeekFrom::Start(n) => Some(n as int),
        SeekFrom::Current(delta) => Some(p + delta),
        SeekFrom::End(_) => None,
    }
}

/// Whether `target` is a place that can be counted, and within the buffer in hand or at its end.
pub open spec fn within<E>(pre: ReaderView<E>, target: Option<int>) -> bool {
    target matches Some(t) && pre.buffer matches Some(b) && b.start_pos <= t <= b.start_pos + b.end
}

/// A seek leaves the channels alone but for its command: it does not disconnect the reader. It
/// sends a command, one, with the next generation and the place sought, exactly if it is not
/// refused, leaves the buffer in hand, no error is due, and the reader is connected.
pub proof fn a_seek_sends_its_command<E>(
    pre: ReaderView<E>,
    post: ReaderView<E>,
    pos: SeekFrom,
    r: Result<u64, Error<E>>,
)
    requires
        pre.wf(),
        pre.seekable(pos),
        pre.seeks(pos, post, r),
    ensures
        keeps_its_ends(pre, post),
        ({
            let target = destination(pre.position, pos);
            let refused = target matches Some(t) && (t < 0 || t > u64::MAX);
            let leaves = !refused && !within(pre, target) && pre.failure is None;
            &&& leaves ==> {
                &&& post.current_generation == pre.next_generation
                &&& post.next_generation == pre.next_generation + 1
            }
            &&& !leaves ==> {
                &&& post.current_generation == pre.current_generation
                &&& post.next_generation == pre.next_generation
                &&& post.received == pre.received
                &&& post.released == pre.released
                &&& post.buffer == pre.buffer
            }
            &&& if leaves && pre.connected {
                &&& post.commands_took == pre.commands_took.push(post.commands_took.last())
                &&& post.commands.len() == pre.commands.len() + 1
                &&& post.commands.last() matches Command::Seek { generation, pos: place }
                    && generation == pre.next_generation && match target {
                    Some(t) => place matches SeekFrom::Start(n) && n == t,
                    None => place == pos,
                }
            } else {
                &&& post.commands == pre.commands
                &&& post.commands_took == pre.commands_took
            }
        }),
{
    let turned = pre.turned();
    assert(turned.received =~= pre.received);
    if pre.failure is None && !pre.refuses(pos) && !pre.stays_within(pos) {
        if pre.connected && post.commands_took.last() {
            let asked = turned.ordering(pre.seek_command(pos), true);
            let taken = asked.taken(post);
            assert(pre.received.is_prefix_of(asked.received + taken));
            assert(post.received == asked.received + taken);
        }
    }
}

/// A seek comes to what it says, or says why not: it is refused exactly where its place cannot be
/// counted; within the buffer in hand it always goes well; an error that is due is told; a command
/// that cannot be sent breaks it off; and else it ends with the first buffer that comes for it, and
/// goes well if that holds its place, or with the error of the wait.
pub proof fn a_seek_comes_to_what_it_says<E>(
    pre: ReaderView<E>,
    post: ReaderView<E>,
    pos: SeekFrom,
    r: Result<u64, Error<E>>,
)
    requires
        pre.wf(),
        post.wf(),
        pre.seekable(pos),
        pre.seeks(pos, post, r),
    ensures
        ({
            let target = destination(pre.position, pos);
            let taken = post.received.skip(pre.received.len() as int);
            if target matches Some(t) && t < 0 {
                r == Err::<u64, Error<E>>(Error::SeekBeforeStart) && post == pre
            } else if target matches Some(t) && t > u64::MAX {
                r == Err::<u64, Error<E>>(Error::SeekOverflow) && post == pre
            } else if within(pre, target) {
                &&& r matches Ok(q) && q == target.unwrap() && post.position == q
                &&& post.buf_pos == target.unwrap() - pre.buffer.unwrap().start_pos
                &&& post.failure == pre.failure
            } else if pre.failure is Some {
                &&& r == Err::<u64, Error<E>>(pre.failure.unwrap())
                &&& post.failure is None
                &&& post.position == pre.position
                &&& post.buf_pos == pre.buf_pos
            } else if !pre.connected || !post.commands_took.last() {
                &&& r == Err::<u64, Error<E>>(Error::BrokenPipe)
                &&& taken.len() == 0
                &&& post.buffer is None
                &&& post.position == pre.position
                &&& post.failure is None
                &&& gives_back(pre, post, taken)
            } else {
                &&& taken.len() > 0
                &&& forall|j: int|
                    0 <= j < taken.len() - 1 ==> (#[trigger] taken[j] matches Incoming::Buffer(x)
                        && x.generation != pre.next_generation)
                &&& gives_back(pre, post, taken)
                &&& post.failure is None
                &&& match taken.last() {
                    Incoming::Buffer(b) if b.generation == pre.next_generation => {
                        &&& post.buffer == Some(b)
                        &&& match target {
                            None => r matches Ok(q) && q == b.start_pos && post.position == q
                                && post.buf_pos == 0,
                            Some(t) => if b.start_pos <= t <= b.start_pos + b.end {
                                r matches Ok(q) && q == t && post.position == t && post.buf_pos == t
                                    - b.start_pos
                            } else {
                                &&& r matches Err(e) && match e {
                                    Error::SeekBeforeBuffer => t < b.start_pos,
                                    Error::SeekOffsetTooLarge => t - b.start_pos > usize::MAX,
                                    Error::SeekOutsideBuffer => t > b.start_pos + b.end,
                                    _ => false,
                                }
                                &&& post.position == b.start_pos
                            },
                        }
                    },
                    _ => {
                        &&& r matches Err(e) && ends_a_wait(e, taken)
                        &&& post.buffer is None
                        &&& post.position == pre.position
                    },
                }
            }
        }),
{
    let target = destination(pre.position, pos);
    let taken = post.received.skip(pre.received.len() as int);
    let turned = pre.turned();
    assert(turned.received =~= pre.received);
    if !pre.refuses(pos) && !pre.stays_within(pos) && pre.failure is None {
        if pre.connected && post.commands_took.last() {
            let asked = turned.ordering(pre.seek_command(pos), true);
            assert(asked.taken(post) == taken);
            a_wait_ends_with_the_first_current_buffer(asked, taken);
            let mid = asked.after_wait(taken);
            lemma_given_back_in_two(pre, asked, mid, taken);
            assert(gives_back(pre, post, taken));
        } else {
            assert(taken =~= Seq::<Incoming<E>>::empty());
            assert(gives_back(pre, post, taken));
        }
    }
}

/// The wait for the buffer that comes for a seek ends with the first one of the current generation,
/// and lands in it, or ends with the error of the wait.
pub proof fn an_arrival_lands<E>(
    pre: ReaderView<E>,
    post: ReaderView<E>,
    target: Option<int>,
    r: Result<u64, Error<E>>,
)
    requires
        pre.wf(),
        post.wf(),
        target matches Some(t) ==> 0 <= t <= u64::MAX,
        pre.arrives(target, post, r),
    ensures
        keeps_its_ends(pre, post),
        ({
            let taken = post.received.skip(pre.received.len() as int);
            &&& taken.len() > 0
            &&& forall|j: int|
                0 <= j < taken.len() - 1 ==> (#[trigger] taken[j] matches Incoming::Buffer(x)
                    && x.generation != pre.current_generation)
            &&& gives_back(pre, post, taken)
            &&& post.failure == pre.failure
            &&& post.commands == pre.commands
            &&& post.current_generation == pre.current_generation
            &&& match taken.last() {
                Incoming::Buffer(b) if b.generation == pre.current_generation => {
                    &&& post.buffer == Some(b)
                    &&& r matches Ok(q) ==> q == post.position && (target matches Some(t) ==> q
                        == t) && (target is None ==> q == b.start_pos)
                    &&& r is Ok <==> (target matches Some(t) ==> b.start_pos <= t <= b.start_pos
                        + b.end)
                },
                _ => {
                    &&& r matches Err(e) && ends_a_wait(e, taken)
                    &&& post.buffer is None
                    &&& post.position == pre.position
                },
            }
        }),
{
    let taken = pre.taken(post);
    a_wait_ends_with_the_first_current_buffer(pre, taken);
    assert(gives_back(pre, post, taken));
}

/// To give the buffer in hand back, and then what comes, gives both back.
proof fn lemma_given_back_in_two<E>(
    pre: ReaderView<E>,
    mid: ReaderView<E>,
    post: ReaderView<E>,
    taken: Seq<Incoming<E>>,
)
    requires
        mid.buffer is None,
        mid.released == match pre.buffer {
            Some(b) => pre.released.push(Some(b)),
            None => pre.released,
        } || mid.released == pre.waiting(Seq::empty()).released,
        gives_back(mid, post, taken),
    ensures
        gives_back(pre, post, taken),
{
    giving_back_does_nothing_else(pre);
    let before: Seq<BufferView> = match pre.buffer {
        Some(b) => seq![b],
        None => Seq::empty(),
    };
    let all = before + buffers_in(taken);
    let kept: int = if post.buffer is Some {
        1
    } else {
        0
    };
    let late = Seq::<BufferView>::empty() + buffers_in(taken);
    assert(late =~= buffers_in(taken));
    assert forall|i: int| 0 <= i < all.len() - kept implies #[trigger] post.released[
        pre.released.len() + i] == Some(all[i]) by {
        if i < before.len() {
            assert(post.released[pre.released.len() + i] == mid.released[pre.released.len() + i]);
        } else {
            let k = i - before.len();
            assert(post.released[mid.released.len() + k] == Some(late[k]));
        }
    }
    assert forall|i: int| 0 <= i < pre.released.len() implies #[trigger] post.released[i]
        == pre.released[i] by {
        assert(post.released[i] == mid.released[i]);
    }
}

/// Over a source that does not fail, a connected reader's seek of a pair in step goes well wherever
/// its place can be counted, if the channel takes the command.
pub proof fn seeks_go_well_over_a_sound_source<E>(
    pre: ReaderView<E>,
    pre_back: BackgroundView<E>,
    post: ReaderView<E>,
    back: BackgroundView<E>,
    source: Source,
    pos: SeekFrom,
    r: Result<u64, Error<E>>,
)
    requires
        in_step(pre, pre_back, source),
        pre.seekable(pos),
        pre.failure is None,
        pre.connected,
        pre.seeks(pos, post, r),
        in_step(post, back, source),
        back.sent.len() < u64::MAX,
        forall|i: int| 0 <= i < back.sent.len() ==> !(#[trigger] back.sent[i] is Failed),
        forall|i: int| 0 <= i < post.commands_took.len() ==> #[trigger] post.commands_took[i],
        destination(pre.position, pos) matches Some(t) ==> 0 <= t <= u64::MAX,
    ensures
        r is Ok,
        post.connected,
        post.failure is None,
{
    a_seek_sends_its_command(pre, post, pos, r);
    a_seek_comes_to_what_it_says(pre, post, pos, r);
    if let Err(e) = r {
        assert(post.commands_took[post.commands_took.len() - 1]);
        crate::laws::seek_finds_its_place(pre, pre_back, post, back, source, pos, e);
    }
}

/// A seek can be made as long as generations can be numbered, and always where it needs none.
pub proof fn a_seek_can_be_made<E>(pre: ReaderView<E>, pos: SeekFrom)
    ensures
        pre.seekable(pos) <==> {
            let target = destination(pre.position, pos);
            ||| pre.next_generation < u64::MAX
            ||| pos is Current && (target.unwrap() < 0 || target.unwrap() > u64::MAX)
            ||| within(pre, target)
            ||| pre.failure is Some
        },
{
}

/// The part of a seek that needs no one else leaves the reader connected, and but for the buffer
/// and the generations as it was.
pub proof fn a_new_generation_keeps_the_rest<E>(pre: ReaderView<E>)
    ensures
        ({
            let post = pre.turned();
            &&& keeps_its_ends(pre, post)
            &&& post.current_generation == pre.next_generation
            &&& post.next_generation == pre.next_generation + 1
            &&& post.buffer is None
            &&& post.buf_pos == 0
            &&& post.position == pre.position
            &&& post.failure == pre.failure
            &&& post.received == pre.received
            &&& post.commands == pre.commands
            &&& post.commands_took == pre.commands_took
            &&& post.released == match pre.buffer {
                Some(b) => pre.released.push(Some(b)),
                None => pre.released,
            }
        }),
{
    giving_back_does_nothing_else(pre);
    assert(pre.turned().released == pre.waiting(Seq::empty()).released);
}

/// A seek within the buffer in hand moves within it, and does nothing else.
pub proof fn a_move_does_nothing_else<E>(pre: ReaderView<E>, target: int)
    requires
        pre.buffer is Some,
    ensures
        ({
            let post = pre.moved_to(target);
            &&& post.position == target
            &&& post.buf_pos == target - pre.buffer.unwrap().start_pos
            &&& post == (ReaderView { position: post.position, buf_pos: post.buf_pos, ..pre })
        }),
{
}

/// To land at a place goes well exactly if the buffer in hand holds it or ends there; without a
/// place, the reader stays at the start of the buffer.
pub proof fn landing_finds_its_place<E>(pre: ReaderView<E>, target: Option<int>)
    requires
        pre.wf(),
        pre.buf_pos == 0,
        target matches Some(t) ==> 0 <= t <= u64::MAX,
    ensures
        ({
            let post = pre.landed(target);
            let r = pre.landing(target);
            match (pre.buffer, target) {
                (None, _) => r == Err::<u64, Error<E>>(Error::MissingBuffer) && post == pre,
                (Some(b), None) => r matches Ok(q) && q == b.start_pos && post == pre,
                (Some(b), Some(t)) => if b.start_pos <= t <= b.start_pos + b.end {
                    &&& r matches Ok(q) && q == t
                    &&& post == (ReaderView { position: t, buf_pos: t - b.start_pos, ..pre })
                } else {
                    &&& r matches Err(e) && match e {
                        Error::SeekBeforeBuffer => t < b.start_pos,
                        Error::SeekOffsetTooLarge => t - b.start_pos > usize::MAX,
                        Error::SeekOutsideBuffer => t > b.start_pos + b.end,
                        _ => false,
                    }
                    &&& post == pre
                },
            }
        }),
{
}

/// A message is made use of as what it is: a buffer of the current generation is taken in hand, at
/// its start; another buffer is given back; and nothing else changes the reader.
pub proof fn a_message_is_made_use_of<E>(pre: ReaderView<E>, message: Incoming<E>)
    requires
        pre.buffer is None,
    ensures
        ({
            let post = pre.after_message(message);
            match message {
                Incoming::Buffer(b) if b.generation == pre.current_generation => post == (
                ReaderView { buffer: Some(b), buf_pos: 0, position: b.start_pos, ..pre }),
                Incoming::Buffer(b) => post == (ReaderView {
                    released: pre.released.push(Some(b)),
                    ..pre
                }),
                _ => post == pre,
            }
        }),
{
}

// What passes between the two.

/// A message has one value, whoever sends it, finds it or is handed it: that of the buffer or the
/// error in it.
pub proof fn a_message_keeps_its_value<E>(
    sent: Seq<Result<Buffer, E>>,
    message: Option<Result<Buffer, E>>,
    i: int,
)
    requires
        0 <= i < sent.len(),
    ensures
        incoming(message) == match message {
            Some(Ok(b)) => Incoming::Buffer(b@),
            Some(Err(e)) => Incoming::Failed(e),
            None => Incoming::Disconnected,
        },
        awaited(Look::Wait(message)) == incoming(message),
        outgoing(sent).len() == sent.len(),
        outgoing(sent)[i] == incoming(Some(sent[i])),
{
}

/// What came in is what the looks found, in order.
pub proof fn arrivals_are_what_was_found<E>(looks: Seq<Look<Result<Buffer, E>>>, i: int)
    requires
        0 <= i < looks.len(),
    ensures
        arrivals(looks).len() == looks.len(),
        looks[i] matches Look::Wait(message) ==> arrivals(looks)[i] == incoming(message),
{
}

/// A buffer holds the first bytes of its data, from its place on; what is unread of it are those
/// behind what was read.
pub proof fn what_is_in_hand<E>(b: BufferView, front: ReaderView<E>)
    requires
        b.wf(),
        front.wf(),
    ensures
        b.bytes() == b.data.take(b.end),
        b.limit() == b.start_pos + b.end,
        b.capacity() == b.data.len(),
        b.end <= b.data.len(),
        front.held() == match front.buffer {
            Some(x) => seq![x],
            None => Seq::empty(),
        },
        front.unread() == match front.buffer {
            Some(x) => x.data.subrange(front.buf_pos, x.end),
            None => Seq::empty(),
        },
        front.buffer matches Some(x) ==> {
            &&& front.position == x.start_pos + front.buf_pos
            &&& 0 <= front.buf_pos <= x.end
            &&& x.generation == front.current_generation
        },
{
    if let Some(x) = front.buffer {
        assert(front.unread() =~= x.data.subrange(front.buf_pos, x.end));
    }
}

/// A buffer that is put up for filling has one value, whoever offers it or finds it.
pub proof fn an_offer_keeps_its_value(
    sent: Seq<Option<Buffer>>,
    looks: Seq<Look<Option<Buffer>>>,
    buffers: Seq<BufferView>,
    message: Option<Buffer>,
    i: int,
)
    ensures
        offer(message) == match message {
            Some(b) => Some(b@),
            None => None,
        },
        finding(Polled::Message(message)) == Polled::Message(offer(message)),
        finding(Polled::Empty) == Polled::<Option<BufferView>>::Empty,
        finding(Polled::Disconnected) == Polled::<Option<BufferView>>::Disconnected,
        offers(sent).len() == sent.len(),
        0 <= i < sent.len() ==> offers(sent)[i] == offer(sent[i]),
        offering(buffers).len() == buffers.len(),
        0 <= i < buffers.len() ==> offering(buffers)[i] == Some(buffers[i]),
        searches(looks).len() == looks.len(),
        0 <= i < looks.len() ==> {
            &&& searches(looks)[i] is Wait <==> looks[i] is Wait
            &&& searches(looks)[i].found() == finding(looks[i].found())
        },
{
}

/// The lists that are drawn from the logs leave nothing out and add nothing.
pub proof fn lists_leave_nothing_out<E>(
    messages: Seq<Incoming<E>>,
    message: Incoming<E>,
    looks: Seq<Look<Command>>,
    look: Look<Command>,
    searched: Seq<Look<Option<BufferView>>>,
    search: Look<Option<BufferView>>,
    generation: int,
    buffers: Seq<BufferView>,
    b: BufferView,
)
    ensures
        buffers_in(Seq::<Incoming<E>>::empty()).len() == 0,
        buffers_in(messages.push(message)) == match message {
            Incoming::Buffer(x) => buffers_in(messages).push(x),
            _ => buffers_in(messages),
        },
        current_in(generation, Seq::<Incoming<E>>::empty()).len() == 0,
        current_in(generation, messages.push(message)) == match message {
            Incoming::Buffer(x) if x.generation == generation => current_in(
                generation,
                messages,
            ).push(x),
            _ => current_in(generation, messages),
        },
        commands_in(Seq::empty()).len() == 0,
        commands_in(looks.push(look)) == match look.found() {
            Polled::Message(command) => commands_in(looks).push(command),
            _ => commands_in(looks),
        },
        found_in(Seq::empty()).len() == 0,
        found_in(searched.push(search)) == match search.found() {
            Polled::Message(x) => found_in(searched).push(x),
            _ => found_in(searched),
        },
        joined(Seq::empty()).len() == 0,
        joined(buffers.push(b)) == joined(buffers) + b.data.take(b.end),
{
    assert(messages.push(message).drop_last() =~= messages);
    assert(buffers.push(b).drop_last() =~= buffers);
    lemma_commands_push(looks, look);
    crate::laws::lemma_found_push(searched, search);
}

/// A wait gives up over outdated buffers only after more than can be counted in a row, and else
/// exactly over a failure.
pub proof fn a_wait_gives_up_only_over_a_failure<E>(generation: int, messages: Seq<Incoming<E>>)
    requires
        messages.len() > 0,
    ensures
        !(messages.last() is Buffer) ==> gave_up(generation, messages),
        messages.last() is Buffer && gave_up(generation, messages) ==> messages.len() >= u64::MAX
            && !messages.last().is_current(generation),
        stale_run(generation, messages) <= messages.len(),
        verdict(messages.last()) == match messages.last() {
            Incoming::Failed(e) => Error::Source(e),
            Incoming::Disconnected => Error::Disconnected,
            Incoming::Buffer(_) => Error::Overrun,
        },
{
    lemma_stale_run_bound(generation, messages);
}

/// The kind of an error: an end that was not expected where the background reader or its buffer is
/// missing, a broken pipe where no command can be sent, and an invalid input where the place cannot
/// be had.
pub proof fn errors_are_of_their_kind<E>(e: Error<E>)
    ensures
        e.spec_kind() is None <==> e is Source,
        e.spec_kind() == Some(ErrorKind::UnexpectedEof) <==> e is Disconnected || e is MissingBuffer
            || e is SeekOutsideBuffer,
        e.spec_kind() == Some(ErrorKind::BrokenPipe) <==> e is BrokenPipe,
        e.spec_kind() == Some(ErrorKind::InvalidInput) <==> e is SeekBeforeStart
            || e is SeekOverflow || e is SeekBeforeBuffer || e is SeekOffsetTooLarge,
{
}

} // verus!
