//! The two halves of a pair, one call at a time.

use smartbuf::{
    Action, BackgroundReader, Buffer, Command, Error, ErrorKind, Event, Polled, ReadOutcome,
    Refill, SeekFrom, SeekStart, SmartBuf,
};

/// The bytes that a buffer holds.
fn bytes_of(buffer: &Buffer) -> Vec<u8> {
    let mut out = vec![0; buffer.end()];
    buffer.copy_to(0, buffer.end(), &mut out, 0);
    out
}

/// A buffer with room for `size` bytes that holds `bytes`, from `start_pos` on.
fn filled(size: usize, start_pos: u64, generation: u64, bytes: &[u8]) -> Buffer {
    let mut buffer = Buffer::new(size, 0);
    buffer.begin(start_pos, generation);
    buffer.refill::<()>(ReadOutcome::Data(bytes.to_vec()));
    buffer
}

/// A reader with `buffer` in hand, and the background reader that it is paired with.
fn holding(buffer: Buffer) -> (SmartBuf<&'static str>, BackgroundReader<&'static str>) {
    let (mut reader, background) = SmartBuf::with_capacity(8, 2, 0);
    assert!(matches!(reader.accept(Some(Ok(buffer))), Some(Ok(()))));
    (reader, background)
}

fn data<E>(bytes: &[u8]) -> Event<E> {
    Event::Read(ReadOutcome::Data(bytes.to_vec()))
}

#[test]
fn new_buffer_is_empty() {
    let buffer = Buffer::new(4, 10);
    assert_eq!(buffer.start_pos(), 10);
    assert_eq!(buffer.end(), 0);
    assert_eq!(buffer.generation(), 0);
    assert_eq!(buffer.capacity(), 4);
}

#[test]
fn refill_goes_on_until_full() {
    let mut buffer = Buffer::new(4, 10);
    let r = buffer.refill::<()>(ReadOutcome::Data(vec![7, 8, 9]));
    assert!(matches!(r, Refill::Wants(1)));
    assert_eq!(bytes_of(&buffer), [7, 8, 9]);
    let r = buffer.refill::<()>(ReadOutcome::Data(vec![1]));
    assert!(matches!(r, Refill::Done));
    assert_eq!(bytes_of(&buffer), [7, 8, 9, 1]);
    assert_eq!(buffer.start_pos(), 10);
}

#[test]
fn refill_is_done_at_the_end_of_the_source() {
    let mut buffer = Buffer::new(4, 0);
    assert!(matches!(buffer.refill::<()>(ReadOutcome::Data(vec![7])), Refill::Wants(3)));
    assert!(matches!(buffer.refill::<()>(ReadOutcome::Data(vec![])), Refill::Done));
    assert_eq!(bytes_of(&buffer), [7]);
}

#[test]
fn refill_keeps_what_was_read_before_an_interruption() {
    let mut buffer = Buffer::new(4, 0);
    assert!(matches!(buffer.refill::<()>(ReadOutcome::Data(vec![7, 8])), Refill::Wants(2)));
    assert!(matches!(buffer.refill::<()>(ReadOutcome::Interrupted), Refill::Done));
    assert_eq!(bytes_of(&buffer), [7, 8]);
}

#[test]
fn refill_asks_again_when_nothing_came_before_an_interruption() {
    let mut buffer = Buffer::new(4, 0);
    assert!(matches!(buffer.refill::<()>(ReadOutcome::Interrupted), Refill::Again));
    assert_eq!(buffer.end(), 0);
    assert!(matches!(buffer.refill::<()>(ReadOutcome::Data(vec![7, 8])), Refill::Wants(2)));
}

#[test]
fn refill_drops_what_was_read_before_a_failure() {
    let mut buffer = Buffer::new(4, 0);
    assert!(matches!(buffer.refill::<&str>(ReadOutcome::Data(vec![7, 8])), Refill::Wants(2)));
    assert!(matches!(buffer.refill(ReadOutcome::Failed("broken")), Refill::Failed("broken")));
    assert_eq!(buffer.end(), 0);
}

#[test]
fn begin_empties_a_buffer() {
    let mut buffer = filled(4, 0, 0, &[7, 8]);
    buffer.begin(20, 3);
    assert_eq!(buffer.start_pos(), 20);
    assert_eq!(buffer.generation(), 3);
    assert_eq!(buffer.end(), 0);
    assert_eq!(buffer.capacity(), 4);
}

#[test]
fn copy_to_touches_only_its_place() {
    let buffer = filled(8, 0, 0, &[1, 2, 3, 4, 5]);
    let mut out = [9; 6];
    buffer.copy_to(1, 3, &mut out, 2);
    assert_eq!(out, [9, 9, 2, 3, 4, 9]);
}

#[test]
fn default_sizes() {
    let (reader, mut background) = SmartBuf::<()>::new(0);
    assert_eq!(reader.buffer_size(), 8192);
    assert_eq!(reader.position(), 0);
    assert_eq!(background.serve(Event::Resume), Action::Read(8192));
    assert_eq!(background.serve(data(&[0; 8192])), Action::Read(8192));
    assert_eq!(background.serve(data(&[0; 8192])), Action::Yield);
}

#[test]
fn accept_takes_a_current_buffer_in_hand() {
    let (mut reader, _background) = holding(filled(8, 20, 0, &[1, 2, 3]));
    assert_eq!(reader.position(), 20);
    let mut out = [0; 2];
    assert!(matches!(reader.read(&mut out), Ok(2)));
    assert_eq!(out, [1, 2]);
    assert_eq!(reader.position(), 22);
}

#[test]
fn accept_gives_an_outdated_buffer_back() {
    let (mut reader, mut background) = SmartBuf::<()>::with_capacity(4, 1, 0);
    assert_eq!(background.serve(Event::Resume), Action::Read(4));
    assert_eq!(background.serve(data(&[1, 2, 3, 4])), Action::Yield);
    assert!(reader.accept(Some(Ok(filled(6, 0, 5, &[1])))).is_none());
    assert_eq!(reader.position(), 0);
    assert_eq!(background.serve(Event::Resume), Action::Read(6));
}

#[test]
fn accept_reports_failure() {
    let (mut reader, _background) = SmartBuf::<&str>::with_capacity(4, 1, 0);
    assert!(matches!(reader.accept(Some(Err("broken"))), Some(Err(Error::Source("broken")))));
    assert!(matches!(reader.accept(None), Some(Err(Error::Disconnected))));
}

#[test]
fn begin_seek_refuses_a_negative_position() {
    let (mut reader, _background) = holding(filled(8, 20, 0, &[1, 2, 3]));
    let r = reader.begin_seek(SeekFrom::Current(-21));
    assert!(matches!(r, Err(Error::SeekBeforeStart)));
    assert_eq!(reader.position(), 20);
    let mut out = [0; 2];
    assert!(matches!(reader.read(&mut out), Ok(2)));
    assert_eq!(out, [1, 2]);
}

#[test]
fn begin_seek_stays_within_the_buffer() {
    let (mut reader, _background) = holding(filled(8, 20, 0, &[1, 2, 3]));
    assert_eq!(reader.begin_seek(SeekFrom::Start(22)).unwrap(), SeekStart::Done(22));
    assert_eq!(reader.position(), 22);
    assert_eq!(reader.begin_seek(SeekFrom::Current(1)).unwrap(), SeekStart::Done(23));
    assert_eq!(reader.begin_seek(SeekFrom::Current(-3)).unwrap(), SeekStart::Done(20));
    assert_eq!(reader.begin_seek(SeekFrom::Current(0)).unwrap(), SeekStart::Done(20));
    let mut out = [0; 2];
    assert!(matches!(reader.read(&mut out), Ok(2)));
    assert_eq!(out, [1, 2]);
}

#[test]
fn begin_seek_asks_for_what_is_not_in_hand() {
    let (mut reader, _background) = holding(filled(8, 20, 0, &[1, 2, 3]));
    assert_eq!(
        reader.begin_seek(SeekFrom::Current(4)).unwrap(),
        SeekStart::Ask {
            command: Command::Seek { generation: 1, pos: SeekFrom::Start(24) },
            target: Some(24),
        }
    );
    assert_eq!(
        reader.begin_seek(SeekFrom::Start(20)).unwrap(),
        SeekStart::Ask {
            command: Command::Seek { generation: 2, pos: SeekFrom::Start(20) },
            target: Some(20),
        }
    );
    assert_eq!(
        reader.begin_seek(SeekFrom::End(-5)).unwrap(),
        SeekStart::Ask {
            command: Command::Seek { generation: 3, pos: SeekFrom::End(-5) },
            target: None,
        }
    );
}

#[test]
fn begin_seek_refuses_a_position_past_the_last_one() {
    let (mut reader, _background) = holding(filled(8, u64::MAX - 4, 0, &[]));
    assert!(reader.can_seek(SeekFrom::Current(5)));
    let r = reader.begin_seek(SeekFrom::Current(5));
    assert!(matches!(r, Err(Error::SeekOverflow)));
    assert_eq!(reader.position(), u64::MAX - 4);
    assert_eq!(
        reader.begin_seek(SeekFrom::Current(4)).unwrap(),
        SeekStart::Ask {
            command: Command::Seek { generation: 1, pos: SeekFrom::Start(u64::MAX) },
            target: Some(u64::MAX),
        }
    );
}

#[test]
fn land_within_the_buffer() {
    let (mut reader, _background) = holding(filled(8, 20, 0, &[1, 2, 3]));
    assert!(matches!(reader.land(Some(22)), Ok(22)));
    assert_eq!(reader.position(), 22);
    let mut out = [0; 1];
    let (mut reader, _background) = holding(filled(8, 20, 0, &[1, 2, 3]));
    assert!(matches!(reader.land(None), Ok(20)));
    assert!(matches!(reader.read(&mut out), Ok(1)));
    assert_eq!(out, [1]);
}

#[test]
fn land_outside_the_buffer() {
    let (mut reader, _background) = holding(filled(8, 20, 0, &[1, 2, 3]));
    assert!(matches!(reader.land(Some(19)), Err(Error::SeekBeforeBuffer)));
    assert!(matches!(reader.land(Some(24)), Err(Error::SeekOutsideBuffer)));
    assert_eq!(reader.position(), 20);
}

#[test]
fn land_without_a_buffer() {
    let (mut reader, _background) = SmartBuf::<()>::with_capacity(4, 1, 0);
    assert!(matches!(reader.land(Some(0)), Err(Error::MissingBuffer)));
    assert!(matches!(reader.land(None), Err(Error::MissingBuffer)));
}

#[test]
fn finish_seek_without_a_taker() {
    let (mut reader, _background) = SmartBuf::<()>::with_capacity(4, 1, 0);
    let command = Command::Seek { generation: 1, pos: SeekFrom::Start(3) };
    assert!(matches!(reader.finish_seek(Err(command), Some(3)), Err(Error::BrokenPipe)));
}

#[test]
fn finish_seek_takes_the_buffer_that_came() {
    let (mut reader, mut background) = SmartBuf::<()>::with_capacity(4, 1, 0);
    assert_eq!(background.serve(Event::Resume), Action::Read(4));
    assert_eq!(background.serve(data(&[1, 2, 3, 4])), Action::Yield);
    assert!(matches!(reader.finish_seek(Ok(()), Some(2)), Ok(2)));
    let mut out = [0; 1];
    assert!(matches!(reader.read(&mut out), Ok(1)));
    assert_eq!(out, [3]);
}

#[test]
fn seek_after_the_background_reader_is_gone() {
    let (mut reader, background) = SmartBuf::<()>::with_capacity(4, 1, 0);
    drop(background);
    assert!(matches!(reader.seek(SeekFrom::Start(3)), Err(Error::BrokenPipe)));
}

#[test]
fn read_after_the_background_reader_is_gone() {
    let (mut reader, mut background) = SmartBuf::<()>::with_capacity(4, 2, 0);
    assert_eq!(background.serve(Event::Resume), Action::Read(4));
    assert_eq!(background.serve(data(&[1, 2, 3, 4])), Action::Read(4));
    drop(background);
    // What was sent before still comes.
    let mut out = [0; 3];
    assert!(matches!(reader.read(&mut out), Ok(3)));
    assert_eq!(out, [1, 2, 3]);
    // The last byte is handed out, and the next read fails.
    let mut out = [0; 3];
    assert!(matches!(reader.read(&mut out), Ok(1)));
    assert_eq!(out, [4, 0, 0]);
    assert_eq!(reader.position(), 4);
    assert!(matches!(reader.read(&mut out), Err(Error::Disconnected)));
    assert!(matches!(reader.read(&mut out), Err(Error::Disconnected)));
    assert_eq!(out, [4, 0, 0]);
    assert_eq!(reader.position(), 4);
}

#[test]
fn shut_down_sends_a_stop() {
    let (mut reader, mut background) = holding(filled(8, 0, 0, &[1]));
    reader.shut_down();
    assert_eq!(background.serve(Event::Resume), Action::Stop);
    assert!(matches!(reader.seek(SeekFrom::Start(3)), Err(Error::BrokenPipe)));
}

#[test]
fn shut_down_gives_the_buffer_back() {
    let (mut reader, mut background) = SmartBuf::<()>::with_capacity(4, 1, 0);
    assert_eq!(background.serve(Event::Resume), Action::Read(4));
    assert_eq!(background.serve(data(&[1, 2, 3, 4])), Action::Yield);
    let mut out = [0; 1];
    assert!(matches!(reader.read(&mut out), Ok(1)));
    assert_eq!(background.serve(Event::Resume), Action::Yield);
    reader.shut_down();
    // Commands come first.
    assert_eq!(background.serve(Event::Resume), Action::Stop);
}

#[test]
fn background_fills_ahead() {
    let (mut reader, mut background) = SmartBuf::<()>::with_capacity(2, 3, 0);
    assert_eq!(background.serve(Event::Resume), Action::Read(2));
    assert_eq!(background.serve(data(&[0])), Action::Read(1));
    assert_eq!(background.serve(data(&[1])), Action::Read(2));
    assert_eq!(background.serve(data(&[2, 3])), Action::Read(2));
    assert_eq!(background.serve(data(&[4, 5])), Action::Yield);
    let mut out = [0; 5];
    assert!(matches!(reader.read(&mut out), Ok(5)));
    assert_eq!(out, [0, 1, 2, 3, 4]);
    assert_eq!(reader.position(), 5);
}

#[test]
fn buffers_go_round() {
    let (mut reader, mut background) = SmartBuf::<()>::with_capacity(2, 2, 0);
    assert_eq!(background.serve(Event::Resume), Action::Read(2));
    assert_eq!(background.serve(data(&[0, 1])), Action::Read(2));
    assert_eq!(background.serve(data(&[2, 3])), Action::Yield);
    // Both buffers are on the way to the reader; reading the first one up frees it.
    let mut out = [0; 2];
    assert!(matches!(reader.read(&mut out), Ok(2)));
    assert_eq!(out, [0, 1]);
    assert_eq!(background.serve(Event::Resume), Action::Read(2));
    assert_eq!(background.serve(data(&[4, 5])), Action::Yield);
    assert!(matches!(reader.read(&mut out), Ok(2)));
    assert_eq!(out, [2, 3]);
    assert_eq!(background.serve(Event::Resume), Action::Read(2));
}

#[test]
fn background_marks_the_end_with_an_empty_buffer() {
    let (mut reader, mut background) = SmartBuf::<()>::with_capacity(4, 2, 0);
    assert_eq!(background.serve(Event::Resume), Action::Read(4));
    assert_eq!(background.serve(data(&[1])), Action::Read(3));
    assert_eq!(background.serve(data(&[])), Action::Read(4));
    assert_eq!(background.serve(data(&[])), Action::Yield);
    let mut out = [0; 5];
    assert!(matches!(reader.read(&mut out), Ok(1)));
    assert_eq!(out, [1, 0, 0, 0, 0]);
    assert!(matches!(reader.read(&mut out), Ok(0)));
    assert_eq!(reader.position(), 1);
}

#[test]
fn background_takes_a_seek_and_marks_what_follows() {
    let (mut reader, mut background) = SmartBuf::<()>::with_capacity(4, 2, 0);
    let command = Command::Seek { generation: 1, pos: SeekFrom::Start(30) };
    assert_eq!(background.take_command(command), Action::Seek(SeekFrom::Start(30)));
    assert_eq!(background.serve(Event::Sought(30)), Action::Read(4));
    assert_eq!(background.serve(data(&[1, 2, 3, 4])), Action::Read(4));
    assert_eq!(background.serve(data(&[5, 6, 7, 8])), Action::Yield);
    assert_eq!(
        reader.begin_seek(SeekFrom::Start(30)).unwrap(),
        SeekStart::Ask { command, target: Some(30) }
    );
    assert!(matches!(reader.finish_seek(Ok(()), Some(30)), Ok(30)));
    let mut out = [0; 5];
    assert!(matches!(reader.read(&mut out), Ok(5)));
    assert_eq!(out, [1, 2, 3, 4, 5]);
    assert_eq!(reader.position(), 35);
}

#[test]
fn background_stops_when_told_to() {
    let (_reader, mut background) = SmartBuf::<()>::with_capacity(4, 2, 0);
    assert_eq!(background.take_command(Command::Stop), Action::Stop);
}

#[test]
fn background_stops_when_a_seek_fails() {
    let (mut reader, mut background) = SmartBuf::<&str>::with_capacity(4, 2, 0);
    let command = Command::Seek { generation: 1, pos: SeekFrom::End(-9) };
    assert_eq!(background.take_command(command), Action::Seek(SeekFrom::End(-9)));
    assert_eq!(background.serve(Event::SeekFailed("too far")), Action::Stop);
    let mut out = [0; 5];
    assert!(matches!(reader.read(&mut out), Err(Error::Source("too far"))));
}

#[test]
fn background_stops_when_a_read_fails() {
    let (mut reader, mut background) = SmartBuf::<&str>::with_capacity(2, 2, 0);
    assert_eq!(background.serve(Event::Resume), Action::Read(2));
    assert_eq!(background.serve(data(&[1, 2])), Action::Read(2));
    assert_eq!(background.serve(Event::Read(ReadOutcome::Failed("broken"))), Action::Stop);
    let mut out = [0; 3];
    assert!(matches!(reader.read(&mut out), Ok(2)));
    assert_eq!(out, [1, 2, 0]);
    assert_eq!(reader.position(), 2);
    assert!(matches!(reader.read(&mut []), Ok(0)));
    assert!(matches!(reader.read(&mut out), Err(Error::Source("broken"))));
    assert_eq!(reader.position(), 2);
}

#[test]
fn a_seek_reports_the_error_that_is_due() {
    let (mut reader, mut background) = SmartBuf::<&str>::with_capacity(2, 2, 0);
    assert_eq!(background.serve(Event::Resume), Action::Read(2));
    assert_eq!(background.serve(data(&[1, 2])), Action::Read(2));
    assert_eq!(background.serve(Event::Read(ReadOutcome::Failed("broken"))), Action::Stop);
    let mut out = [0; 2];
    assert!(matches!(reader.read(&mut out), Ok(2)));
    // A refused seek is refused all the same.
    assert!(matches!(reader.seek(SeekFrom::Current(-3)), Err(Error::SeekBeforeStart)));
    assert!(reader.can_seek(SeekFrom::Start(0)));
    assert!(matches!(reader.seek(SeekFrom::Start(0)), Err(Error::Source("broken"))));
    drop(background);
    assert!(matches!(reader.seek(SeekFrom::Start(0)), Err(Error::BrokenPipe)));
}

#[test]
fn background_sends_what_it_has_when_interrupted() {
    let (mut reader, mut background) = SmartBuf::<()>::with_capacity(4, 2, 0);
    assert_eq!(background.serve(Event::Resume), Action::Read(4));
    assert_eq!(background.serve(data(&[1])), Action::Read(3));
    assert_eq!(background.serve(Event::Read(ReadOutcome::Interrupted)), Action::Read(4));
    assert_eq!(background.serve(data(&[2, 3, 4, 5])), Action::Yield);
    let mut out = [0; 3];
    assert!(matches!(reader.read(&mut out), Ok(3)));
    assert_eq!(out, [1, 2, 3]);
}

#[test]
fn background_asks_again_when_interrupted_at_first() {
    let (mut reader, mut background) = SmartBuf::<()>::with_capacity(4, 2, 0);
    assert_eq!(background.serve(Event::Resume), Action::Read(4));
    assert_eq!(background.serve(Event::Read(ReadOutcome::Interrupted)), Action::Read(4));
    assert_eq!(background.serve(data(&[1, 2, 3, 4])), Action::Read(4));
    let mut out = [0; 3];
    assert!(matches!(reader.read(&mut out), Ok(3)));
    assert_eq!(out, [1, 2, 3]);
}

#[test]
fn background_looks_for_a_command_when_interrupted_at_first() {
    let (mut reader, mut background) = SmartBuf::<()>::with_capacity(4, 2, 0);
    assert_eq!(background.serve(Event::Resume), Action::Read(4));
    assert_eq!(background.serve(Event::Read(ReadOutcome::Interrupted)), Action::Read(4));
    reader.shut_down();
    assert_eq!(background.serve(Event::Read(ReadOutcome::Interrupted)), Action::Stop);
}

#[test]
fn background_keeps_its_buffer_when_interrupted_at_first() {
    let (mut reader, mut background) = SmartBuf::<()>::with_capacity(4, 1, 0);
    assert_eq!(background.serve(Event::Resume), Action::Read(4));
    // The one buffer there is stays in hand.
    for _ in 0..3 {
        assert_eq!(background.serve(Event::Read(ReadOutcome::Interrupted)), Action::Read(4));
    }
    assert_eq!(background.serve(data(&[1, 2, 3, 4])), Action::Yield);
    let mut out = [0; 3];
    assert!(matches!(reader.read(&mut out), Ok(3)));
    assert_eq!(out, [1, 2, 3]);
}

#[test]
fn giving_a_buffer_back_twice_is_once() {
    let (mut reader, mut background) = SmartBuf::<()>::with_capacity(4, 1, 0);
    assert_eq!(background.serve(Event::Resume), Action::Read(4));
    assert_eq!(background.serve(data(&[1, 2, 3, 4])), Action::Yield);
    assert!(matches!(reader.get_next_buffer(), Ok(())));
    assert_eq!(background.serve(Event::Resume), Action::Yield);
    reader.return_current_buffer();
    reader.return_current_buffer();
    assert_eq!(background.serve(Event::Resume), Action::Read(4));
    assert_eq!(background.serve(data(&[5, 6, 7, 8])), Action::Yield);
}

#[test]
fn what_is_gone_stays_gone() {
    let (mut reader, background) = SmartBuf::<()>::with_capacity(4, 1, 0);
    drop(background);
    let mut out = [0; 3];
    for _ in 0..3 {
        assert!(matches!(reader.read(&mut out), Err(Error::Disconnected)));
        assert!(matches!(reader.get_next_buffer(), Err(Error::Disconnected)));
        assert!(matches!(reader.seek(SeekFrom::Start(3)), Err(Error::BrokenPipe)));
        assert!(matches!(reader.seek(SeekFrom::End(0)), Err(Error::BrokenPipe)));
        assert_eq!(reader.position(), 0);
    }
}

#[test]
fn refills_in_turn_give_it_all() {
    let source: Vec<u8> = (0..20).collect();
    let mut at = 0;
    let mut all = vec![];
    for size in [3, 7, 1, 6, 5, 4].iter().cycle() {
        let mut buffer = Buffer::new(*size, at as u64);
        let mut room = *size;
        loop {
            // The source gives at most two bytes at a time.
            let n = room.min(2).min(source.len() - at);
            let r = buffer.refill::<()>(ReadOutcome::Data(source[at..at + n].to_vec()));
            at += n;
            match r {
                Refill::Wants(n) => room = n,
                _ => break,
            }
        }
        if buffer.end() == 0 {
            break;
        }
        all.extend_from_slice(&bytes_of(&buffer));
        assert_eq!(all.len(), at);
    }
    assert_eq!(all, source);
}

#[test]
fn a_source_may_stand_anywhere() {
    let (mut reader, mut background) = SmartBuf::<()>::with_capacity(4, 2, 20);
    assert_eq!(reader.position(), 20);
    assert_eq!(background.serve(Event::Resume), Action::Read(4));
    assert_eq!(background.serve(data(&[1, 2, 3, 4])), Action::Read(4));
    let mut out = [0; 3];
    assert!(matches!(reader.read(&mut out), Ok(3)));
    assert_eq!(out, [1, 2, 3]);
    assert_eq!(reader.position(), 23);
    assert_eq!(reader.begin_seek(SeekFrom::Start(21)).unwrap(), SeekStart::Done(21));
    assert!(matches!(
        reader.begin_seek(SeekFrom::Start(0)),
        Ok(SeekStart::Ask { target: Some(0), .. })
    ));
}

#[test]
fn commands_come_before_buffers() {
    let (mut reader, mut background) = SmartBuf::<()>::with_capacity(4, 3, 0);
    assert_eq!(background.serve(Event::Resume), Action::Read(4));
    reader.shut_down();
    // Two buffers still wait to be filled.
    assert_eq!(background.serve(data(&[1, 2, 3, 4])), Action::Stop);
}

#[test]
fn background_stops_when_the_reader_is_gone() {
    let (reader, mut background) = SmartBuf::<()>::with_capacity(4, 1, 0);
    assert_eq!(background.serve(Event::Resume), Action::Read(4));
    drop(reader);
    assert_eq!(background.serve(data(&[1, 2, 3, 4])), Action::Stop);
}

#[test]
fn background_stops_when_no_buffer_will_come() {
    let (reader, mut background) = SmartBuf::<()>::with_capacity(4, 1, 0);
    assert_eq!(background.serve(Event::Resume), Action::Read(4));
    assert_eq!(background.serve(data(&[1, 2, 3, 4])), Action::Yield);
    drop(reader);
    assert_eq!(background.serve(Event::Resume), Action::Stop);
}

#[test]
fn background_takes_what_it_finds() {
    let (_reader, mut background) = SmartBuf::<()>::with_capacity(4, 1, 0);
    assert_eq!(background.take_buffer(Polled::Empty), Action::Yield);
    assert_eq!(
        background.take_buffer(Polled::Message(Some(Buffer::new(6, 0)))),
        Action::Read(6)
    );
    let (_reader, mut background) = SmartBuf::<()>::with_capacity(4, 1, 0);
    assert_eq!(background.take_buffer(Polled::Message(None)), Action::Stop);
    let (_reader, mut background) = SmartBuf::<()>::with_capacity(4, 1, 0);
    assert_eq!(background.take_buffer(Polled::Disconnected), Action::Stop);
}

#[test]
fn background_goes_on_if_the_buffer_was_taken() {
    let (_reader, mut background) = SmartBuf::<()>::with_capacity(4, 1, 0);
    assert_eq!(background.go_on(true), Action::Read(4));
    let (_reader, mut background) = SmartBuf::<()>::with_capacity(4, 1, 0);
    assert_eq!(background.go_on(false), Action::Stop);
}

#[test]
fn background_accepts_only_an_answer() {
    let (_reader, mut background) = SmartBuf::<()>::with_capacity(4, 1, 0);
    assert!(background.accepts(&Event::Resume));
    assert!(!background.accepts(&Event::Sought(0)));
    assert!(!background.accepts(&data(&[1])));
    assert_eq!(background.serve(Event::Resume), Action::Read(4));
    assert!(!background.accepts(&Event::Resume));
    assert!(!background.accepts(&Event::SeekFailed(())));
    assert!(background.accepts(&data(&[1, 2, 3, 4])));
    assert!(!background.accepts(&data(&[1, 2, 3, 4, 5])));
    assert!(background.accepts(&Event::Read(ReadOutcome::Interrupted)));
    assert!(background.accepts(&Event::Read(ReadOutcome::Failed(()))));
}

#[test]
fn background_does_not_read_past_the_last_position() {
    let (_reader, mut background) = SmartBuf::<()>::with_capacity(4, 1, 0);
    let pos = SeekFrom::Start(u64::MAX - 2);
    assert_eq!(
        background.take_command(Command::Seek { generation: 1, pos }),
        Action::Seek(pos)
    );
    assert!(background.accepts(&Event::Sought(u64::MAX - 2)));
    assert!(background.accepts(&Event::SeekFailed(())));
    assert_eq!(background.serve(Event::Sought(u64::MAX - 2)), Action::Read(4));
    assert!(background.accepts(&data(&[1, 2])));
    assert!(!background.accepts(&data(&[1, 2, 3])));
}

#[test]
fn errors_have_a_kind_and_a_message() {
    let cases: Vec<(Error<()>, ErrorKind, &str)> = vec![
        (Error::Disconnected, ErrorKind::UnexpectedEof, "background thread terminated"),
        (Error::BrokenPipe, ErrorKind::BrokenPipe, "background thread terminated"),
        (Error::SeekBeforeStart, ErrorKind::InvalidInput, "seek before start"),
        (Error::SeekOverflow, ErrorKind::InvalidInput, "seek past the last position"),
        (Error::MissingBuffer, ErrorKind::UnexpectedEof, "missing buffer after seek"),
        (Error::SeekBeforeBuffer, ErrorKind::InvalidInput, "seek before buffer"),
        (Error::SeekOffsetTooLarge, ErrorKind::InvalidInput, "seek offset too large"),
        (
            Error::SeekOutsideBuffer,
            ErrorKind::UnexpectedEof,
            "background reader returned buffer not containing target position",
        ),
        (Error::Overrun, ErrorKind::Other, "too many outdated buffers"),
    ];
    for (error, kind, message) in cases {
        assert_eq!(error.kind(), Some(kind));
        assert_eq!(error.message(), Some(message));
    }
    assert_eq!(Error::Source(()).kind(), None);
    assert_eq!(Error::Source(()).message(), None);
}
