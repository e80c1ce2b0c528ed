//! A reader and its background reader in two threads, over a source in memory.

use crossbeam_utils::Backoff;
use smartbuf::{Action, BackgroundReader, Error, ErrorKind, Event, ReadOutcome, SmartBuf};
use std::io::{self, Cursor, Read, Seek, SeekFrom};
use std::sync::atomic::{AtomicUsize, Ordering};
use std::sync::Arc;

/// A `SmartBuf` with the traits of `std::io`.
struct Reader {
    inner: SmartBuf<io::Error>,
}

impl Read for Reader {
    fn read(&mut self, buf: &mut [u8]) -> io::Result<usize> {
        self.inner.read(buf).map_err(io_error)
    }
}

impl Seek for Reader {
    fn seek(&mut self, pos: SeekFrom) -> io::Result<u64> {
        let pos = match pos {
            SeekFrom::Start(n) => smartbuf::SeekFrom::Start(n),
            SeekFrom::End(n) => smartbuf::SeekFrom::End(n),
            SeekFrom::Current(n) => smartbuf::SeekFrom::Current(n),
        };
        assert!(self.inner.can_seek(pos));
        self.inner.seek(pos).map_err(io_error)
    }
}

impl Reader {
    fn position(&self) -> u64 {
        self.inner.position()
    }

    fn buffer_size(&self) -> usize {
        self.inner.buffer_size()
    }
}

impl Drop for Reader {
    fn drop(&mut self) {
        self.inner.shut_down();
    }
}

fn io_error(e: Error<io::Error>) -> io::Error {
    let kind = match e.kind() {
        Some(ErrorKind::UnexpectedEof) => io::ErrorKind::UnexpectedEof,
        Some(ErrorKind::BrokenPipe) => io::ErrorKind::BrokenPipe,
        Some(ErrorKind::InvalidInput) => io::ErrorKind::InvalidInput,
        Some(ErrorKind::Other) => io::ErrorKind::Other,
        None => io::ErrorKind::Other,
    };
    let message = e.message();
    match e {
        Error::Source(e) => e,
        _ => io::Error::new(kind, message.unwrap()),
    }
}

/// Does what the background reader asks for, until it stops.
fn run<R: Read + Seek>(mut background: BackgroundReader<io::Error>, mut source: R) {
    let backoff = Backoff::new();
    let mut event = Event::Resume;
    loop {
        assert!(background.accepts(&event));
        event = match background.serve(event) {
            Action::Seek(pos) => {
                let pos = match pos {
                    smartbuf::SeekFrom::Start(n) => SeekFrom::Start(n),
                    smartbuf::SeekFrom::End(n) => SeekFrom::End(n),
                    smartbuf::SeekFrom::Current(n) => SeekFrom::Current(n),
                };
                match source.seek(pos) {
                    Ok(p) => Event::Sought(p),
                    Err(e) => Event::SeekFailed(e),
                }
            }
            Action::Read(n) => {
                let mut bytes = vec![0; n];
                match source.read(&mut bytes) {
                    Ok(n) => {
                        bytes.truncate(n);
                        Event::Read(ReadOutcome::Data(bytes))
                    }
                    Err(e) if e.kind() == io::ErrorKind::Interrupted => {
                        Event::Read(ReadOutcome::Interrupted)
                    }
                    Err(e) => Event::Read(ReadOutcome::Failed(e)),
                }
            }
            Action::Yield => {
                backoff.snooze();
                Event::Resume
            }
            Action::Stop => return,
        };
    }
}

/// Runs a pair over `source`: the background reader in a thread of its own, the reader in `test`.
fn with_pair<R: Read + Seek + Send>(
    pair: (SmartBuf<io::Error>, BackgroundReader<io::Error>),
    source: R,
    test: impl FnOnce(Reader),
) {
    let (inner, background) = pair;
    crossbeam_utils::thread::scope(|scope| {
        let handle = scope.spawn(move |_| run(background, source));
        test(Reader { inner });
        handle.join().unwrap();
    })
    .unwrap();
}

fn with_reader<R: Read + Seek + Send>(
    bufsize: usize,
    queuelen: usize,
    mut source: R,
    test: impl FnOnce(Reader),
) {
    let start = source.stream_position().unwrap();
    with_pair(SmartBuf::with_capacity(bufsize, queuelen, start), source, test);
}

fn with_default_reader<R: Read + Seek + Send>(mut source: R, test: impl FnOnce(Reader)) {
    let start = source.stream_position().unwrap();
    with_pair(SmartBuf::new(start), source, test);
}

#[test]
fn basic_read() {
    let data = vec![0, 1, 2, 3, 4, 5, 6, 7, 8, 9];
    let cursor: Cursor<Vec<u8>> = Cursor::new(data.clone());
    with_reader(4, 2, cursor, |mut reader| {
        let mut buf = vec![0; 5];
        let n = reader.read(&mut buf).unwrap();
        assert_eq!(n, 5);
        assert_eq!(&buf[..n], &data[..5]);
    });
}

#[test]
fn seek_within_buffer() {
    let data: Vec<u8> = (0..20).collect();
    let cursor: Cursor<Vec<u8>> = Cursor::new(data.clone());
    with_reader(10, 2, cursor, |mut reader| {
        // Read some data to fill buffer
        let mut buf = vec![0; 5];
        reader.read(&mut buf).unwrap();

        // Seek back within the buffer
        reader.seek(SeekFrom::Start(2)).unwrap();

        let mut buf = vec![0; 3];
        reader.read(&mut buf).unwrap();
        assert_eq!(&buf, &[2, 3, 4]);
    });
}

#[test]
fn seek_outside_buffer() {
    let data: Vec<u8> = (0..30).collect();
    let cursor = Cursor::new(data.clone());
    with_reader(10, 2, cursor, |mut reader| {
        // Read initial data
        let mut buf = vec![0; 5];
        reader.read(&mut buf).unwrap();

        // Seek to position outside current buffer
        reader.seek(SeekFrom::Start(20)).unwrap();

        let mut buf = vec![0; 5];
        reader.read(&mut buf).unwrap();
        assert_eq!(&buf, &[20, 21, 22, 23, 24]);
    });
}

#[test]
fn seek_current_forward() {
    let data: Vec<u8> = (0..20).collect();
    let cursor = Cursor::new(data.clone());
    with_reader(10, 2, cursor, |mut reader| {
        reader.seek(SeekFrom::Current(5)).unwrap();
        assert_eq!(reader.position(), 5);

        let mut buf = vec![0; 3];
        reader.read(&mut buf).unwrap();
        assert_eq!(&buf, &[5, 6, 7]);
    });
}

#[test]
fn seek_current_backward() {
    let data: Vec<u8> = (0..20).collect();
    let cursor = Cursor::new(data.clone());
    with_reader(10, 2, cursor, |mut reader| {
        // Read forward
        let mut buf = vec![0; 10];
        reader.read(&mut buf).unwrap();
        assert_eq!(reader.position(), 10);

        // Seek backward within buffer
        reader.seek(SeekFrom::Current(-5)).unwrap();
        assert_eq!(reader.position(), 5);

        let mut buf = vec![0; 3];
        reader.read(&mut buf).unwrap();
        assert_eq!(&buf, &[5, 6, 7]);
    });
}

#[test]
fn read_to_eof() {
    let data: Vec<u8> = (0..25).collect();
    let cursor = Cursor::new(data.clone());
    with_reader(10, 2, cursor, |mut reader| {
        // Read first buffer
        let mut buf = vec![0; 10];
        let n = reader.read(&mut buf).unwrap();
        assert_eq!(n, 10);
        assert_eq!(&buf[..n], &data[..10]);

        // Read second buffer
        let mut buf = vec![0; 10];
        let n = reader.read(&mut buf).unwrap();
        assert_eq!(n, 10);
        assert_eq!(&buf[..n], &data[10..20]);

        // Read past EOF
        let mut buf = vec![0; 10];
        let n = reader.read(&mut buf).unwrap();
        assert_eq!(n, 5);
        assert_eq!(&buf[..n], &data[20..25]);

        // Read again past EOF should return 0
        let mut buf = vec![0; 10];
        let n = reader.read(&mut buf).unwrap();
        assert_eq!(n, 0);
    });
}

#[test]
fn small_capacity() {
    let data: Vec<u8> = (0..8).collect();
    let cursor: Cursor<Vec<u8>> = Cursor::new(data.clone());
    with_reader(2, 2, cursor, |mut reader| {
        let mut buf = vec![0; 3];
        let n = reader.read(&mut buf).unwrap();
        assert_eq!(n, 3);
        assert_eq!(&buf[..n], &data[..3]);

        let mut buf = vec![0; 2];
        let n = reader.read(&mut buf).unwrap();
        assert_eq!(n, 2);
        assert_eq!(&buf[..n], &data[3..5]);

        let mut buf = vec![0; 1];
        let n = reader.read(&mut buf).unwrap();
        assert_eq!(n, 1);
        assert_eq!(&buf[..n], &data[5..6]);
    });
}

#[test]
fn seek_start_multiple() {
    let data: Vec<u8> = (0..20).collect();
    let cursor: Cursor<Vec<u8>> = Cursor::new(data.clone());
    with_reader(10, 2, cursor, |mut reader| {
        // Seek to middle
        reader.seek(SeekFrom::Start(5)).unwrap();
        let mut buf = vec![0; 4];
        reader.read(&mut buf).unwrap();
        assert_eq!(&buf, &[5, 6, 7, 8]);

        // Seek back to start
        reader.seek(SeekFrom::Start(0)).unwrap();
        let mut buf = vec![0; 4];
        reader.read(&mut buf).unwrap();
        assert_eq!(&buf, &[0, 1, 2, 3]);

        // Seek forward again
        reader.seek(SeekFrom::Start(15)).unwrap();
        let mut buf = vec![0; 4];
        reader.read(&mut buf).unwrap();
        assert_eq!(&buf, &[15, 16, 17, 18]);

        // Seek back to start again
        reader.seek(SeekFrom::Start(0)).unwrap();
        let mut buf = vec![0; 4];
        reader.read(&mut buf).unwrap();
        assert_eq!(&buf, &[0, 1, 2, 3]);
    });
}

#[test]
fn seek_end() {
    let data: Vec<u8> = (0..17).collect();
    let cursor: Cursor<Vec<u8>> = Cursor::new(data.clone());
    with_reader(5, 2, cursor, |mut reader| {
        // Seek from end
        reader.seek(SeekFrom::End(-6)).unwrap();
        let mut buf = vec![0; 8];
        let n = reader.read(&mut buf).unwrap();
        assert_eq!(n, 6);
        assert_eq!(&buf[..n], &data[11..17]);

        // Seek to end
        reader.seek(SeekFrom::End(0)).unwrap();
        let mut buf = vec![0; 8];
        let n = reader.read(&mut buf).unwrap();
        assert_eq!(n, 0);
    });
}

#[test]
fn read_empty_buffer() {
    let data: Vec<u8> = (0..10).collect();
    let cursor: Cursor<Vec<u8>> = Cursor::new(data.clone());
    with_reader(5, 2, cursor, |mut reader| {
        let mut buf = vec![0; 0];
        let n = reader.read(&mut buf).unwrap();
        assert_eq!(n, 0);
    });
}

#[test]
fn seek_beyond_buffer_boundary() {
    let data: Vec<u8> = (0..30).collect();
    let cursor: Cursor<Vec<u8>> = Cursor::new(data.clone());
    with_reader(10, 2, cursor, |mut reader| {
        // Read to fill buffer starting at 0
        let mut buf = vec![0; 5];
        reader.read(&mut buf).unwrap();
        assert_eq!(reader.position(), 5);

        // Seek backward beyond buffer start (should trigger background seek)
        reader.seek(SeekFrom::Start(0)).unwrap();
        let mut buf = vec![0; 3];
        reader.read(&mut buf).unwrap();
        assert_eq!(&buf, &[0, 1, 2]);

        // Seek forward beyond current buffer
        reader.seek(SeekFrom::Start(25)).unwrap();
        let mut buf = vec![0; 5];
        reader.read(&mut buf).unwrap();
        assert_eq!(&buf, &[25, 26, 27, 28, 29]);
    });
}

#[test]
fn large_read_spans_multiple_buffers() {
    let data: Vec<u8> = (0..100).collect();
    let cursor: Cursor<Vec<u8>> = Cursor::new(data.clone());
    with_reader(10, 3, cursor, |mut reader| {
        // Read more than one buffer size
        let mut buf = vec![0; 25];
        let n = reader.read(&mut buf).unwrap();
        assert_eq!(n, 25);
        assert_eq!(&buf[..n], &data[..25]);
        assert_eq!(reader.position(), 25);
    });
}

#[test]
fn multiple_sequential_seeks() {
    let data: Vec<u8> = (0..50).collect();
    let cursor: Cursor<Vec<u8>> = Cursor::new(data.clone());
    with_reader(10, 2, cursor, |mut reader| {
        // Sequence of seeks and reads
        reader.seek(SeekFrom::Start(10)).unwrap();
        let mut buf = vec![0; 5];
        reader.read(&mut buf).unwrap();
        assert_eq!(&buf, &[10, 11, 12, 13, 14]);

        reader.seek(SeekFrom::Start(20)).unwrap();
        let mut buf = vec![0; 5];
        reader.read(&mut buf).unwrap();
        assert_eq!(&buf, &[20, 21, 22, 23, 24]);

        reader.seek(SeekFrom::Start(5)).unwrap();
        let mut buf = vec![0; 5];
        reader.read(&mut buf).unwrap();
        assert_eq!(&buf, &[5, 6, 7, 8, 9]);

        reader.seek(SeekFrom::Start(40)).unwrap();
        let mut buf = vec![0; 5];
        reader.read(&mut buf).unwrap();
        assert_eq!(&buf, &[40, 41, 42, 43, 44]);
    });
}

#[test]
fn seek_current_large_forward() {
    let data: Vec<u8> = (0..50).collect();
    let cursor: Cursor<Vec<u8>> = Cursor::new(data.clone());
    with_reader(10, 2, cursor, |mut reader| {
        // Initial read
        let mut buf = vec![0; 5];
        reader.read(&mut buf).unwrap();
        assert_eq!(reader.position(), 5);

        // Seek forward beyond buffer
        reader.seek(SeekFrom::Current(20)).unwrap();
        assert_eq!(reader.position(), 25);

        let mut buf = vec![0; 5];
        reader.read(&mut buf).unwrap();
        assert_eq!(&buf, &[25, 26, 27, 28, 29]);
    });
}

#[test]
fn seek_current_large_backward() {
    let data: Vec<u8> = (0..50).collect();
    let cursor: Cursor<Vec<u8>> = Cursor::new(data.clone());
    with_reader(10, 2, cursor, |mut reader| {
        // Read forward
        reader.seek(SeekFrom::Start(30)).unwrap();
        let mut buf = vec![0; 5];
        reader.read(&mut buf).unwrap();
        assert_eq!(reader.position(), 35);

        // Seek backward beyond buffer (should trigger background seek)
        reader.seek(SeekFrom::Current(-30)).unwrap();
        assert_eq!(reader.position(), 5);

        let mut buf = vec![0; 5];
        reader.read(&mut buf).unwrap();
        assert_eq!(&buf, &[5, 6, 7, 8, 9]);
    });
}

#[test]
fn position_tracking() {
    let data: Vec<u8> = (0..30).collect();
    let cursor: Cursor<Vec<u8>> = Cursor::new(data.clone());
    with_reader(10, 2, cursor, |mut reader| {
        assert_eq!(reader.position(), 0);

        reader.seek(SeekFrom::Start(10)).unwrap();
        assert_eq!(reader.position(), 10);

        let mut buf = vec![0; 5];
        reader.read(&mut buf).unwrap();
        assert_eq!(reader.position(), 15);

        reader.seek(SeekFrom::Current(-3)).unwrap();
        assert_eq!(reader.position(), 12);

        let mut buf = vec![0; 2];
        reader.read(&mut buf).unwrap();
        assert_eq!(reader.position(), 14);
    });
}

#[test]
fn read_at_buffer_boundary() {
    let data: Vec<u8> = (0..30).collect();
    let cursor: Cursor<Vec<u8>> = Cursor::new(data.clone());
    with_reader(10, 2, cursor, |mut reader| {
        // Read exactly one buffer
        let mut buf = vec![0; 10];
        let n = reader.read(&mut buf).unwrap();
        assert_eq!(n, 10);
        assert_eq!(&buf, &data[..10]);

        // Read exactly one more buffer
        let mut buf = vec![0; 10];
        let n = reader.read(&mut buf).unwrap();
        assert_eq!(n, 10);
        assert_eq!(&buf, &data[10..20]);
    });
}

#[test]
fn seek_to_same_position() {
    let data: Vec<u8> = (0..20).collect();
    let cursor: Cursor<Vec<u8>> = Cursor::new(data.clone());
    with_reader(10, 2, cursor, |mut reader| {
        reader.seek(SeekFrom::Start(5)).unwrap();
        assert_eq!(reader.position(), 5);

        // Seek to same position
        reader.seek(SeekFrom::Start(5)).unwrap();
        assert_eq!(reader.position(), 5);

        let mut buf = vec![0; 3];
        reader.read(&mut buf).unwrap();
        assert_eq!(&buf, &[5, 6, 7]);
    });
}

#[test]
fn read_to_end() {
    let data: Vec<u8> = (0..100).collect();
    let cursor: Cursor<Vec<u8>> = Cursor::new(data.clone());
    with_reader(20, 2, cursor, |mut reader| {
        let mut result = Vec::new();
        reader.read_to_end(&mut result).unwrap();
        assert_eq!(result, data);
    });
}

#[test]
fn read_exact() {
    let data: Vec<u8> = (0..50).collect();
    let cursor: Cursor<Vec<u8>> = Cursor::new(data.clone());
    with_reader(10, 2, cursor, |mut reader| {
        let mut buf = vec![0; 30];
        reader.read_exact(&mut buf).unwrap();
        assert_eq!(&buf, &data[..30]);
        assert_eq!(reader.position(), 30);
    });
}

#[test]
fn read_exact_partial() {
    let data: Vec<u8> = (0..15).collect();
    let cursor: Cursor<Vec<u8>> = Cursor::new(data);
    with_reader(5, 2, cursor, |mut reader| {
        let mut buf = vec![0; 10];
        reader.read_exact(&mut buf).unwrap();

        // Should fail on second read_exact since we've exhausted data
        let mut buf2 = vec![0; 10];
        assert!(reader.read_exact(&mut buf2).is_err());
    });
}

#[test]
fn various_buffer_sizes() {
    let text = b"The quick brown fox jumps over the lazy dog";
    let n = text.len() + 3;

    // Test various combinations of buffer sizes and queue lengths
    for channel_bufsize in (1..n.min(20)).step_by(3) {
        for queuelen in (1..n.min(10)).step_by(2) {
            let data = text.to_vec();
            let cursor = Cursor::new(data.clone());
            with_reader(channel_bufsize, queuelen, cursor, |mut reader| {
                let mut result = Vec::new();
                reader.read_to_end(&mut result).unwrap();
                assert_eq!(
                    result, data,
                    "Failed at bufsize: {}, queuelen: {}",
                    channel_bufsize, queuelen
                );
            });
        }
    }
}

#[test]
fn seek_start_comprehensive() {
    let data: Vec<u8> = (0..17).collect();
    let cursor = Cursor::new(data.clone());
    with_reader(10, 2, cursor, |mut reader| {
        // Seek to position 3 and read
        reader.seek(SeekFrom::Start(3)).unwrap();
        let mut buf = [0; 8];
        reader.read(&mut buf).unwrap();
        assert_eq!(&buf, &[3, 4, 5, 6, 7, 8, 9, 10]);

        // Seek back to start
        reader.seek(SeekFrom::Start(0)).unwrap();
        let mut buf = [0; 8];
        reader.read(&mut buf).unwrap();
        assert_eq!(&buf, &[0, 1, 2, 3, 4, 5, 6, 7]);

        // Seek to near end
        reader.seek(SeekFrom::Start(13)).unwrap();
        let mut buf = [0; 8];
        let n = reader.read(&mut buf).unwrap();
        assert_eq!(n, 4);
        assert_eq!(&buf[..n], &[13, 14, 15, 16]);

        // Seek back to start again
        reader.seek(SeekFrom::Start(0)).unwrap();
        let mut buf = [0; 8];
        reader.read(&mut buf).unwrap();
        assert_eq!(&buf, &[0, 1, 2, 3, 4, 5, 6, 7]);
    });
}

#[test]
fn seek_current_comprehensive() {
    let data: Vec<u8> = (0..17).collect();
    let cursor = Cursor::new(data.clone());
    with_reader(20, 2, cursor, |mut reader| {
        // Seek forward from start
        reader.seek(SeekFrom::Current(2)).unwrap();
        let mut buf = [0; 8];
        reader.read(&mut buf).unwrap();
        assert_eq!(&buf, &[2, 3, 4, 5, 6, 7, 8, 9]);

        // Seek forward again
        reader.seek(SeekFrom::Current(6)).unwrap();
        let mut buf = [0; 8];
        let n = reader.read(&mut buf).unwrap();
        assert_eq!(n, 1);
        assert_eq!(&buf[..n], &[16]);
    });
}

#[test]
fn seek_current_negative_comprehensive() {
    let data: Vec<u8> = (0..17).collect();
    let cursor = Cursor::new(data.clone());
    with_reader(3, 2, cursor, |mut reader| {
        // Read forward first
        reader.seek(SeekFrom::Current(4)).unwrap();
        let mut buf = [0; 4];
        reader.read(&mut buf).unwrap();
        assert_eq!(&buf, &[4, 5, 6, 7]);

        // Seek backward within buffer
        reader.seek(SeekFrom::Current(-2)).unwrap();
        let mut buf = [0; 4];
        reader.read(&mut buf).unwrap();
        assert_eq!(&buf, &[6, 7, 8, 9]);
    });
}

#[test]
fn multiple_small_reads() {
    let data: Vec<u8> = (0..50).collect();
    let cursor = Cursor::new(data.clone());
    with_reader(10, 2, cursor, |mut reader| {
        // Read in small chunks
        for i in 0..10 {
            let mut buf = [0; 5];
            let n = reader.read(&mut buf).unwrap();
            assert_eq!(n, 5);
            assert_eq!(&buf, &data[i * 5..(i + 1) * 5]);
        }
    });
}

#[test]
fn read_across_buffer_boundaries() {
    let data: Vec<u8> = (0..30).collect();
    let cursor = Cursor::new(data.clone());
    with_reader(10, 2, cursor, |mut reader| {
        // Read that spans exactly 2 buffers
        let mut buf = vec![0; 20];
        let n = reader.read(&mut buf).unwrap();
        assert_eq!(n, 20);
        assert_eq!(&buf[..n], &data[..20]);

        // Next read should get remaining data
        let mut buf = vec![0; 20];
        let n = reader.read(&mut buf).unwrap();
        assert_eq!(n, 10);
        assert_eq!(&buf[..n], &data[20..30]);
    });
}

#[test]
fn seek_and_read_sequence() {
    let data: Vec<u8> = (0..40).collect();
    let cursor = Cursor::new(data.clone());
    with_reader(8, 2, cursor, |mut reader| {
        // Read, seek, read sequence
        let mut buf = [0; 5];
        reader.read(&mut buf).unwrap();
        assert_eq!(&buf, &[0, 1, 2, 3, 4]);

        reader.seek(SeekFrom::Start(20)).unwrap();
        reader.read(&mut buf).unwrap();
        assert_eq!(&buf, &[20, 21, 22, 23, 24]);

        reader.seek(SeekFrom::Start(10)).unwrap();
        reader.read(&mut buf).unwrap();
        assert_eq!(&buf, &[10, 11, 12, 13, 14]);

        reader.seek(SeekFrom::Start(0)).unwrap();
        reader.read(&mut buf).unwrap();
        assert_eq!(&buf, &[0, 1, 2, 3, 4]);
    });
}

#[test]
fn default_constructor() {
    let data: Vec<u8> = (0..100).collect();
    let cursor = Cursor::new(data.clone());
    with_default_reader(cursor, |mut reader| {
        let mut result = Vec::new();
        reader.read_to_end(&mut result).unwrap();
        assert_eq!(result.len(), 100);
        assert_eq!(&result[..10], &[0, 1, 2, 3, 4, 5, 6, 7, 8, 9]);
    });
}

#[test]
fn buffer_size_accessor() {
    let data: Vec<u8> = (0..10).collect();
    let cursor = Cursor::new(data);
    with_reader(123, 2, cursor, |reader| {
        assert_eq!(reader.buffer_size(), 123);
    });
}

#[test]
fn read_after_seek_to_end() {
    let data: Vec<u8> = (0..10).collect();
    let cursor = Cursor::new(data);
    with_reader(5, 2, cursor, |mut reader| {
        // Seek to end
        reader.seek(SeekFrom::End(0)).unwrap();
        let mut buf = [0; 5];
        let n = reader.read(&mut buf).unwrap();
        assert_eq!(n, 0);
    });
}

#[test]
fn seek_from_end_negative() {
    let data: Vec<u8> = (0..20).collect();
    let cursor = Cursor::new(data.clone());
    with_reader(5, 2, cursor, |mut reader| {
        // Seek from end with negative offset
        reader.seek(SeekFrom::End(-5)).unwrap();
        let mut buf = [0; 10];
        let n = reader.read(&mut buf).unwrap();
        assert_eq!(n, 5);
        assert_eq!(&buf[..n], &[15, 16, 17, 18, 19]);
    });
}

#[test]
fn seek_current_zero() {
    let data: Vec<u8> = (0..20).collect();
    let cursor = Cursor::new(data.clone());
    with_reader(10, 2, cursor, |mut reader| {
        // Read some data
        let mut buf = [0; 5];
        reader.read(&mut buf).unwrap();
        assert_eq!(reader.position(), 5);

        // Seek current by 0 (should be no-op)
        reader.seek(SeekFrom::Current(0)).unwrap();
        assert_eq!(reader.position(), 5);

        // Should continue reading from same position
        reader.read(&mut buf).unwrap();
        assert_eq!(&buf, &[5, 6, 7, 8, 9]);
    });
}

#[test]
fn large_queue_length() {
    let data: Vec<u8> = (0..100).collect();
    let cursor = Cursor::new(data.clone());
    with_reader(10, 10, cursor, |mut reader| {
        let mut result = Vec::new();
        reader.read_to_end(&mut result).unwrap();
        assert_eq!(result, data);
    });
}

#[test]
fn seek_to_very_end_then_read() {
    let data: Vec<u8> = (0..25).collect();
    let cursor = Cursor::new(data.clone());
    with_reader(10, 2, cursor, |mut reader| {
        // Seek to end
        reader.seek(SeekFrom::End(0)).unwrap();

        // Try to read - should get 0 bytes
        let mut buf = [0; 10];
        let n = reader.read(&mut buf).unwrap();
        assert_eq!(n, 0);

        // Seek back a bit
        reader.seek(SeekFrom::End(-5)).unwrap();
        let n = reader.read(&mut buf).unwrap();
        assert_eq!(n, 5);
        assert_eq!(&buf[..n], &[20, 21, 22, 23, 24]);
    });
}

#[test]
fn deadlock_test_queue_length_one() {
    // Test with minimal buffer pool
    let data: Vec<u8> = (0..100).collect();
    let cursor = Cursor::new(data.clone());
    with_reader(10, 1, cursor, |mut reader| {
        // Read through multiple buffers with queue length of 1
        // This exercises the buffer return/acquire cycle
        for _ in 0..10 {
            let mut buf = vec![0; 10];
            let n = reader.read(&mut buf).unwrap();
            assert!(n > 0);
        }
    });
}

#[test]
fn deadlock_test_rapid_successive_seeks() {
    // Test rapid successive seeks that might cause command queue issues
    let data: Vec<u8> = (0..100).collect();
    let cursor = Cursor::new(data.clone());
    with_reader(10, 2, cursor, |mut reader| {
        // Rapid seeks without waiting for each to complete
        for i in 0..20 {
            let pos = (i * 5) % 100;
            reader.seek(SeekFrom::Start(pos)).unwrap();
            let mut buf = vec![0; 3];
            let n = reader.read(&mut buf).unwrap();
            assert!(n > 0);
            assert_eq!(buf[0], pos as u8);
        }
    });
}

#[test]
fn deadlock_test_seek_while_reading() {
    // Test seeks interspersed with reads
    let data: Vec<u8> = (0..200).collect();
    let cursor = Cursor::new(data.clone());
    with_reader(10, 2, cursor, |mut reader| {
        // Read some data
        let mut buf = vec![0; 5];
        reader.read(&mut buf).unwrap();
        assert_eq!(buf, &[0, 1, 2, 3, 4]);

        // Seek while we have a buffer
        reader.seek(SeekFrom::Start(50)).unwrap();
        reader.read(&mut buf).unwrap();
        assert_eq!(buf, &[50, 51, 52, 53, 54]);

        // Read more, then seek again
        reader.read(&mut buf).unwrap();
        reader.seek(SeekFrom::Start(100)).unwrap();
        reader.read(&mut buf).unwrap();
        assert_eq!(buf, &[100, 101, 102, 103, 104]);
    });
}

#[test]
fn deadlock_test_multiple_seeks_no_read() {
    // Test multiple seeks in a row without reading
    let data: Vec<u8> = (0..100).collect();
    let cursor = Cursor::new(data.clone());
    with_reader(10, 2, cursor, |mut reader| {
        // Chain seeks without reading
        reader.seek(SeekFrom::Start(10)).unwrap();
        reader.seek(SeekFrom::Start(20)).unwrap();
        reader.seek(SeekFrom::Start(30)).unwrap();
        reader.seek(SeekFrom::Start(40)).unwrap();
        reader.seek(SeekFrom::Start(50)).unwrap();

        // Now read to verify we're at the right position
        let mut buf = vec![0; 5];
        reader.read(&mut buf).unwrap();
        assert_eq!(buf, &[50, 51, 52, 53, 54]);
    });
}

#[test]
fn deadlock_test_seek_current_rapid() {
    // Test rapid SeekFrom::Current operations
    let data: Vec<u8> = (0..100).collect();
    let cursor = Cursor::new(data.clone());
    with_reader(10, 2, cursor, |mut reader| {
        // Rapid SeekFrom::Current operations
        reader.seek(SeekFrom::Current(10)).unwrap();
        reader.seek(SeekFrom::Current(10)).unwrap();
        reader.seek(SeekFrom::Current(10)).unwrap();
        reader.seek(SeekFrom::Current(-10)).unwrap();
        reader.seek(SeekFrom::Current(5)).unwrap();

        let mut buf = vec![0; 5];
        reader.read(&mut buf).unwrap();
        assert_eq!(buf, &[25, 26, 27, 28, 29]);
    });
}

#[test]
fn deadlock_test_seek_end_rapid() {
    // Test rapid SeekFrom::End operations
    let data: Vec<u8> = (0..100).collect();
    let cursor = Cursor::new(data.clone());
    with_reader(10, 2, cursor, |mut reader| {
        // Multiple SeekFrom::End operations
        reader.seek(SeekFrom::End(-10)).unwrap();
        reader.seek(SeekFrom::End(-20)).unwrap();
        reader.seek(SeekFrom::End(-5)).unwrap();

        let mut buf = vec![0; 5];
        reader.read(&mut buf).unwrap();
        assert_eq!(buf, &[95, 96, 97, 98, 99]);
    });
}

#[test]
fn deadlock_test_interleaved_read_seek() {
    // Test interleaving reads and seeks
    let data: Vec<u8> = (0..200).collect();
    let cursor = Cursor::new(data.clone());
    with_reader(10, 2, cursor, |mut reader| {
        let mut buf = vec![0; 3];

        reader.read(&mut buf).unwrap();
        reader.seek(SeekFrom::Start(50)).unwrap();
        reader.read(&mut buf).unwrap();
        reader.seek(SeekFrom::Start(100)).unwrap();
        reader.read(&mut buf).unwrap();
        reader.seek(SeekFrom::Start(150)).unwrap();
        reader.read(&mut buf).unwrap();
        reader.seek(SeekFrom::Start(0)).unwrap();
        reader.read(&mut buf).unwrap();

        assert_eq!(buf, &[0, 1, 2]);
    });
}

#[test]
fn deadlock_test_background_thread_waiting_on_seek() {
    // Test scenario where background thread is waiting for buffer during seek
    let data: Vec<u8> = (0..100).collect();
    let cursor = Cursor::new(data.clone());
    with_reader(5, 1, cursor, |mut reader| {
        // Read to consume all buffers
        let mut buf = vec![0; 5];
        reader.read(&mut buf).unwrap();

        // Seek - this should work even with queue length 1
        reader.seek(SeekFrom::Start(50)).unwrap();

        // Read to verify seek worked
        reader.read(&mut buf).unwrap();
        assert_eq!(buf, &[50, 51, 52, 53, 54]);
    });
}

#[test]
fn deadlock_test_seek_without_buffer() {
    // Test seek when we don't have a current buffer
    let data: Vec<u8> = (0..100).collect();
    let cursor = Cursor::new(data.clone());
    with_reader(10, 2, cursor, |mut reader| {
        // Seek immediately without reading first (no buffer held)
        reader.seek(SeekFrom::Start(50)).unwrap();

        let mut buf = vec![0; 5];
        reader.read(&mut buf).unwrap();
        assert_eq!(buf, &[50, 51, 52, 53, 54]);
    });
}

#[test]
fn deadlock_test_drop_while_processing() {
    // Test dropping SmartBuf while background thread is processing
    // This should not deadlock - background thread should detect Stop command
    let data: Vec<u8> = (0..255).cycle().take(1000).collect();
    let cursor = Cursor::new(data);

    // Create and immediately drop
    {
        with_reader(10, 2, cursor, |reader| {
            drop(reader);
        });
    }
    // If we get here, no deadlock occurred
}

#[test]
fn deadlock_test_drop_during_read() {
    // Test dropping while reading is in progress
    let data: Vec<u8> = (0..100).collect();
    let cursor = Cursor::new(data);
    with_reader(10, 2, cursor, |mut reader| {
        // Start reading
        let mut buf = vec![0; 5];
        reader.read(&mut buf).unwrap();

        // Drop immediately after read
        drop(reader);
        // If we get here, no deadlock occurred
    });
}

#[test]
fn deadlock_test_drop_during_seek() {
    // Test dropping while seek is in progress
    let data: Vec<u8> = (0..100).collect();
    let cursor = Cursor::new(data);
    with_reader(10, 2, cursor, |mut reader| {
        // Start seek
        reader.seek(SeekFrom::Start(50)).unwrap();

        // Drop immediately after seek
        drop(reader);
        // If we get here, no deadlock occurred
    });
}

#[test]
fn deadlock_test_stress_rapid_operations() {
    // Stress test with rapid operations
    let data: Vec<u8> = (0..255).cycle().take(500).collect();
    let cursor = Cursor::new(data.clone());
    with_reader(10, 2, cursor, |mut reader| {
        // Mix of reads and seeks
        for i in 0..50 {
            if i % 3 == 0 {
                reader.seek(SeekFrom::Start((i * 10) as u64)).unwrap();
            }
            let mut buf = vec![0; 3];
            let n = reader.read(&mut buf).unwrap();
            assert!(n > 0);
        }
    });
}

#[test]
fn deadlock_test_seek_to_same_position_multiple_times() {
    // Test seeking to the same position multiple times
    let data: Vec<u8> = (0..100).collect();
    let cursor = Cursor::new(data.clone());
    with_reader(10, 2, cursor, |mut reader| {
        // Seek to same position multiple times
        for _ in 0..10 {
            reader.seek(SeekFrom::Start(50)).unwrap();
        }

        let mut buf = vec![0; 5];
        reader.read(&mut buf).unwrap();
        assert_eq!(buf, &[50, 51, 52, 53, 54]);
    });
}

#[test]
fn deadlock_test_seek_forward_then_backward_rapidly() {
    // Test alternating forward and backward seeks
    let data: Vec<u8> = (0..100).collect();
    let cursor = Cursor::new(data.clone());
    with_reader(10, 2, cursor, |mut reader| {
        // Alternate forward and backward
        reader.seek(SeekFrom::Start(50)).unwrap();
        reader.seek(SeekFrom::Start(10)).unwrap();
        reader.seek(SeekFrom::Start(80)).unwrap();
        reader.seek(SeekFrom::Start(20)).unwrap();
        reader.seek(SeekFrom::Start(90)).unwrap();

        let mut buf = vec![0; 5];
        reader.read(&mut buf).unwrap();
        assert_eq!(buf, &[90, 91, 92, 93, 94]);
    });
}

#[test]
fn deadlock_test_read_large_spanning_multiple_buffers_after_seek() {
    // Test reading large amount that spans buffers after a seek
    let data: Vec<u8> = (0..200).collect();
    let cursor = Cursor::new(data.clone());
    with_reader(10, 2, cursor, |mut reader| {
        // Seek to middle
        reader.seek(SeekFrom::Start(100)).unwrap();

        // Read large amount that spans multiple buffers
        let mut buf = vec![0; 50];
        let n = reader.read(&mut buf).unwrap();
        assert_eq!(n, 50);
        assert_eq!(&buf, &data[100..150]);
    });
}

#[test]
fn deadlock_test_seek_while_buffer_is_full() {
    // Test seeking when we have a full buffer
    let data: Vec<u8> = (0..100).collect();
    let cursor = Cursor::new(data.clone());
    with_reader(10, 2, cursor, |mut reader| {
        // Read to fill buffer
        let mut buf = vec![0; 10];
        reader.read(&mut buf).unwrap();

        // Seek while we have a full buffer
        reader.seek(SeekFrom::Start(50)).unwrap();

        // Read again
        reader.read(&mut buf).unwrap();
        assert_eq!(buf, &[50, 51, 52, 53, 54, 55, 56, 57, 58, 59]);
    });
}

#[test]
fn deadlock_test_seek_while_buffer_is_partially_read() {
    // Test seeking when we have a partially read buffer
    let data: Vec<u8> = (0..100).collect();
    let cursor = Cursor::new(data.clone());
    with_reader(10, 2, cursor, |mut reader| {
        // Read part of buffer
        let mut buf = vec![0; 5];
        reader.read(&mut buf).unwrap();
        assert_eq!(buf, &[0, 1, 2, 3, 4]);

        // Seek while we have a partially read buffer
        reader.seek(SeekFrom::Start(50)).unwrap();

        // Read again
        reader.read(&mut buf).unwrap();
        assert_eq!(buf, &[50, 51, 52, 53, 54]);
    });
}

#[test]
fn deadlock_test_multiple_seek_current_operations() {
    // Test multiple SeekFrom::Current operations in sequence
    let data: Vec<u8> = (0..100).collect();
    let cursor = Cursor::new(data.clone());
    with_reader(10, 2, cursor, |mut reader| {
        // Chain SeekFrom::Current operations
        reader.seek(SeekFrom::Current(10)).unwrap();
        reader.seek(SeekFrom::Current(10)).unwrap();
        reader.seek(SeekFrom::Current(-5)).unwrap();
        reader.seek(SeekFrom::Current(15)).unwrap();

        let mut buf = vec![0; 5];
        reader.read(&mut buf).unwrap();
        assert_eq!(buf, &[30, 31, 32, 33, 34]);
    });
}

#[test]
fn deadlock_test_seek_end_then_seek_start() {
    // Test seeking to end then to start
    let data: Vec<u8> = (0..100).collect();
    let cursor = Cursor::new(data.clone());
    with_reader(10, 2, cursor, |mut reader| {
        reader.seek(SeekFrom::End(0)).unwrap();
        reader.seek(SeekFrom::Start(0)).unwrap();

        let mut buf = vec![0; 5];
        reader.read(&mut buf).unwrap();
        assert_eq!(buf, &[0, 1, 2, 3, 4]);
    });
}

#[test]
fn deadlock_test_seek_current_negative_beyond_buffer() {
    // Test SeekFrom::Current with large negative value
    let data: Vec<u8> = (0..100).collect();
    let cursor = Cursor::new(data.clone());
    with_reader(10, 2, cursor, |mut reader| {
        // Read forward
        reader.seek(SeekFrom::Start(50)).unwrap();
        let mut buf = vec![0; 5];
        reader.read(&mut buf).unwrap();

        // Seek backward beyond current buffer
        reader.seek(SeekFrom::Current(-40)).unwrap();

        reader.read(&mut buf).unwrap();
        assert_eq!(buf, &[15, 16, 17, 18, 19]);
    });
}

#[test]
fn deadlock_test_minimal_buffer_size() {
    // Test with minimal buffer size (1 byte)
    let data: Vec<u8> = (0..50).collect();
    let cursor = Cursor::new(data.clone());
    with_reader(1, 1, cursor, |mut reader| {
        // Read and seek operations
        for i in 0..10 {
            reader.seek(SeekFrom::Start(i)).unwrap();
            let mut buf = vec![0; 1];
            let n = reader.read(&mut buf).unwrap();
            assert_eq!(n, 1);
            assert_eq!(buf[0], i as u8);
        }
    });
}

#[test]
fn deadlock_test_all_buffers_in_use() {
    // Test scenario where all buffers are in use
    let data: Vec<u8> = (0..200).collect();
    let cursor = Cursor::new(data.clone());
    with_reader(10, 2, cursor, |mut reader| {
        // Read through multiple buffers to ensure all are in use
        for _ in 0..10 {
            let mut buf = vec![0; 10];
            reader.read(&mut buf).unwrap();
        }

        // Now seek - should still work
        reader.seek(SeekFrom::Start(0)).unwrap();
        let mut buf = vec![0; 5];
        reader.read(&mut buf).unwrap();
        assert_eq!(buf, &[0, 1, 2, 3, 4]);
    });
}

#[test]
fn deadlock_test_rapid_seek_current_forward_backward() {
    // Test rapid SeekFrom::Current with forward and backward
    let data: Vec<u8> = (0..200).collect();
    let cursor = Cursor::new(data.clone());
    with_reader(10, 2, cursor, |mut reader| {
        // Rapid forward and backward seeks
        reader.seek(SeekFrom::Current(20)).unwrap();
        reader.seek(SeekFrom::Current(20)).unwrap();
        reader.seek(SeekFrom::Current(-10)).unwrap();
        reader.seek(SeekFrom::Current(20)).unwrap();
        reader.seek(SeekFrom::Current(-15)).unwrap();

        let mut buf = vec![0; 5];
        reader.read(&mut buf).unwrap();
        assert_eq!(buf, &[35, 36, 37, 38, 39]);
    });
}

#[test]
fn deadlock_test_seek_after_eof() {
    // Test seeking after reaching EOF
    let data: Vec<u8> = (0..50).collect();
    let cursor = Cursor::new(data.clone());
    with_reader(10, 2, cursor, |mut reader| {
        // Read to EOF
        let mut buf = vec![0; 100];
        reader.read(&mut buf).unwrap();

        // Seek after EOF
        reader.seek(SeekFrom::Start(10)).unwrap();
        reader.read(&mut buf).unwrap();
        assert_eq!(&buf[..40], &data[10..50]);
    });
}

#[test]
fn edge_case_empty_file() {
    // Test with empty file
    let data: Vec<u8> = vec![];
    let cursor = Cursor::new(data);
    with_reader(10, 2, cursor, |mut reader| {
        // Read should return 0
        let mut buf = vec![0; 10];
        let n = reader.read(&mut buf).unwrap();
        assert_eq!(n, 0);

        // Seek to start should work
        reader.seek(SeekFrom::Start(0)).unwrap();
        assert_eq!(reader.position(), 0);

        // Read again should return 0
        let n = reader.read(&mut buf).unwrap();
        assert_eq!(n, 0);
    });
}

#[test]
fn edge_case_buffer_larger_than_file() {
    // Test with buffer size larger than file size
    let data: Vec<u8> = (0..10).collect();
    let cursor = Cursor::new(data.clone());
    with_reader(100, 2, cursor, |mut reader| {
        // Should read entire file in one buffer
        let mut buf = vec![0; 100];
        let n = reader.read(&mut buf).unwrap();
        assert_eq!(n, 10);
        assert_eq!(&buf[..n], &data[..]);
    });
}

#[test]
fn edge_case_seek_to_file_end() {
    // Test seeking to exactly the end of file
    let data: Vec<u8> = (0..20).collect();
    let cursor = Cursor::new(data.clone());
    with_reader(10, 2, cursor, |mut reader| {
        // Seek to end
        reader.seek(SeekFrom::Start(20)).unwrap();
        assert_eq!(reader.position(), 20);

        // Read should return 0
        let mut buf = vec![0; 10];
        let n = reader.read(&mut buf).unwrap();
        assert_eq!(n, 0);
    });
}

#[test]
fn edge_case_seek_beyond_file_end() {
    // Test seeking beyond file end
    let data: Vec<u8> = (0..20).collect();
    let cursor = Cursor::new(data.clone());
    with_reader(10, 2, cursor, |mut reader| {
        // Seek beyond end
        reader.seek(SeekFrom::Start(50)).unwrap();
        assert_eq!(reader.position(), 50);

        // Read should return 0 (EOF)
        let mut buf = vec![0; 10];
        let n = reader.read(&mut buf).unwrap();
        assert_eq!(n, 0);
    });
}

#[test]
fn edge_case_read_exactly_buffer_size() {
    // Test reading exactly buffer size
    let data: Vec<u8> = (0..30).collect();
    let cursor = Cursor::new(data.clone());
    with_reader(10, 2, cursor, |mut reader| {
        // Read exactly one buffer
        let mut buf = vec![0; 10];
        let n = reader.read(&mut buf).unwrap();
        assert_eq!(n, 10);
        assert_eq!(&buf, &data[..10]);

        // Next read should get next buffer
        let n = reader.read(&mut buf).unwrap();
        assert_eq!(n, 10);
        assert_eq!(&buf, &data[10..20]);
    });
}

#[test]
fn edge_case_read_multiple_of_buffer_size() {
    // Test reading multiple times buffer size
    let data: Vec<u8> = (0..100).collect();
    let cursor = Cursor::new(data.clone());
    with_reader(10, 2, cursor, |mut reader| {
        // Read exactly 5 buffers worth
        let mut buf = vec![0; 50];
        let n = reader.read(&mut buf).unwrap();
        assert_eq!(n, 50);
        assert_eq!(&buf, &data[..50]);
    });
}

#[test]
fn edge_case_seek_current_zero() {
    // Test SeekFrom::Current(0) - should be no-op
    let data: Vec<u8> = (0..20).collect();
    let cursor = Cursor::new(data.clone());
    with_reader(10, 2, cursor, |mut reader| {
        // Read some
        let mut buf = vec![0; 5];
        reader.read(&mut buf).unwrap();
        assert_eq!(reader.position(), 5);

        // Seek current by 0
        reader.seek(SeekFrom::Current(0)).unwrap();
        assert_eq!(reader.position(), 5);

        // Should continue reading from same position
        reader.read(&mut buf).unwrap();
        assert_eq!(buf, &[5, 6, 7, 8, 9]);
    });
}

#[test]
fn edge_case_seek_current_large_forward() {
    // Test SeekFrom::Current with very large forward value
    let data: Vec<u8> = (0..200).collect();
    let cursor = Cursor::new(data.clone());
    with_reader(10, 2, cursor, |mut reader| {
        reader.seek(SeekFrom::Current(100)).unwrap();
        assert_eq!(reader.position(), 100);

        let mut buf = vec![0; 5];
        reader.read(&mut buf).unwrap();
        assert_eq!(buf, &[100, 101, 102, 103, 104]);
    });
}

#[test]
fn edge_case_seek_current_large_backward() {
    // Test SeekFrom::Current with very large backward value
    let data: Vec<u8> = (0..200).collect();
    let cursor = Cursor::new(data.clone());
    with_reader(10, 2, cursor, |mut reader| {
        // Move forward first
        reader.seek(SeekFrom::Start(100)).unwrap();
        assert_eq!(reader.position(), 100);

        // Seek backward
        reader.seek(SeekFrom::Current(-80)).unwrap();
        assert_eq!(reader.position(), 20);

        let mut buf = vec![0; 5];
        reader.read(&mut buf).unwrap();
        assert_eq!(buf, &[20, 21, 22, 23, 24]);
    });
}

#[test]
fn edge_case_seek_from_end_positive() {
    // Test SeekFrom::End with positive offset
    let data: Vec<u8> = (0..20).collect();
    let cursor = Cursor::new(data.clone());
    with_reader(10, 2, cursor, |mut reader| {
        // Seek from end with positive offset (beyond end)
        let pos = reader.seek(SeekFrom::End(10)).unwrap();
        // The position should be file_size + offset = 20 + 10 = 30
        // The seek operation returns the actual position
        assert_eq!(pos, 30);

        // Position should match what was returned
        assert_eq!(reader.position(), pos);

        // Read should return 0 (EOF)
        let mut buf = vec![0; 10];
        let n = reader.read(&mut buf).unwrap();
        assert_eq!(n, 0);
    });
}

#[test]
fn edge_case_seek_from_end_at_start() {
    // Test SeekFrom::End(-file_size) should go to start
    let data: Vec<u8> = (0..20).collect();
    let cursor = Cursor::new(data.clone());
    with_reader(10, 2, cursor, |mut reader| {
        reader.seek(SeekFrom::End(-20)).unwrap();
        assert_eq!(reader.position(), 0);

        let mut buf = vec![0; 5];
        reader.read(&mut buf).unwrap();
        assert_eq!(buf, &[0, 1, 2, 3, 4]);
    });
}

#[test]
fn edge_case_seek_from_end_beyond_start() {
    // Test SeekFrom::End with offset larger than file size
    let data: Vec<u8> = (0..20).collect();
    let cursor = Cursor::new(data.clone());
    with_reader(10, 2, cursor, |mut reader| {
        // This should cause an error due to overflow
        assert!(reader.seek(SeekFrom::End(-100)).is_err());
    });
}

#[test]
fn edge_case_position_tracking_through_multiple_operations() {
    // Test position tracking accuracy through complex operations
    let data: Vec<u8> = (0..100).collect();
    let cursor = Cursor::new(data.clone());
    with_reader(10, 2, cursor, |mut reader| {
        assert_eq!(reader.position(), 0);

        // Read
        let mut buf = vec![0; 5];
        reader.read(&mut buf).unwrap();
        assert_eq!(reader.position(), 5);

        // Seek
        reader.seek(SeekFrom::Start(20)).unwrap();
        assert_eq!(reader.position(), 20);

        // Read
        reader.read(&mut buf).unwrap();
        assert_eq!(reader.position(), 25);

        // Seek current
        reader.seek(SeekFrom::Current(-10)).unwrap();
        assert_eq!(reader.position(), 15);

        // Read
        reader.read(&mut buf).unwrap();
        assert_eq!(reader.position(), 20);
    });
}

#[test]
fn edge_case_read_zero_bytes() {
    // Test reading zero bytes
    let data: Vec<u8> = (0..20).collect();
    let cursor = Cursor::new(data.clone());
    with_reader(10, 2, cursor, |mut reader| {
        // Read zero bytes should return 0 immediately
        let mut buf = vec![0; 0];
        let n = reader.read(&mut buf).unwrap();
        assert_eq!(n, 0);

        // Position should not change
        assert_eq!(reader.position(), 0);
    });
}

#[test]
fn edge_case_read_exact_insufficient_data() {
    // Test read_exact when there's insufficient data
    let data: Vec<u8> = (0..10).collect();
    let cursor = Cursor::new(data.clone());
    with_reader(5, 2, cursor, |mut reader| {
        // Try to read more than available
        let mut buf = vec![0; 20];
        let result = reader.read_exact(&mut buf);
        assert!(result.is_err());
    });
}

#[test]
fn edge_case_read_exact_exact_amount() {
    // Test read_exact with exact amount available
    let data: Vec<u8> = (0..20).collect();
    let cursor = Cursor::new(data.clone());
    with_reader(10, 2, cursor, |mut reader| {
        // Read exact amount
        let mut buf = vec![0; 20];
        reader.read_exact(&mut buf).unwrap();
        assert_eq!(&buf, &data[..]);
    });
}

#[test]
fn edge_case_seek_to_same_position_multiple_times() {
    // Test seeking to same position repeatedly
    let data: Vec<u8> = (0..20).collect();
    let cursor = Cursor::new(data.clone());
    with_reader(10, 2, cursor, |mut reader| {
        // Seek to same position multiple times
        for _ in 0..5 {
            reader.seek(SeekFrom::Start(10)).unwrap();
            assert_eq!(reader.position(), 10);
        }

        // Should still read correctly
        let mut buf = vec![0; 5];
        reader.read(&mut buf).unwrap();
        assert_eq!(buf, &[10, 11, 12, 13, 14]);
    });
}

#[test]
fn edge_case_seek_within_buffer_multiple_times() {
    // Test seeking within buffer multiple times
    let data: Vec<u8> = (0..20).collect();
    let cursor = Cursor::new(data.clone());
    with_reader(20, 2, cursor, |mut reader| {
        // Read to fill buffer
        let mut buf = vec![0; 10];
        reader.read(&mut buf).unwrap();

        // Seek within buffer multiple times
        reader.seek(SeekFrom::Start(5)).unwrap();
        reader.seek(SeekFrom::Start(3)).unwrap();
        reader.seek(SeekFrom::Start(7)).unwrap();
        reader.seek(SeekFrom::Start(2)).unwrap();

        // Should read from last seek position
        reader.read(&mut buf).unwrap();
        assert_eq!(&buf[..5], &[2, 3, 4, 5, 6]);
    });
}

#[test]
fn edge_case_read_to_end_multiple_times() {
    // Test read_to_end called multiple times
    let data: Vec<u8> = (0..20).collect();
    let cursor = Cursor::new(data.clone());
    with_reader(10, 2, cursor, |mut reader| {
        // First read_to_end
        let mut result = Vec::new();
        reader.read_to_end(&mut result).unwrap();
        assert_eq!(result, data.clone());

        // Second read_to_end should return empty
        let mut result2 = Vec::new();
        reader.read_to_end(&mut result2).unwrap();
        assert_eq!(result2, vec![]);
    });
}

#[test]
fn edge_case_seek_after_read_to_end() {
    // Test seeking after read_to_end
    let data: Vec<u8> = (0..20).collect();
    let cursor = Cursor::new(data.clone());
    with_reader(10, 2, cursor, |mut reader| {
        // Read to end
        let mut result = Vec::new();
        reader.read_to_end(&mut result).unwrap();

        // Seek back
        reader.seek(SeekFrom::Start(5)).unwrap();

        // Should be able to read again
        let mut buf = vec![0; 5];
        reader.read(&mut buf).unwrap();
        assert_eq!(buf, &[5, 6, 7, 8, 9]);
    });
}

#[test]
fn edge_case_large_queue_length() {
    // Test with very large queue length
    let data: Vec<u8> = (0..100).collect();
    let cursor = Cursor::new(data.clone());
    with_reader(10, 20, cursor, |mut reader| {
        // Should work normally
        let mut result = Vec::new();
        reader.read_to_end(&mut result).unwrap();
        assert_eq!(result, data);
    });
}

#[test]
fn edge_case_very_small_buffer_size() {
    // Test with very small buffer size (1 byte)
    let data: Vec<u8> = (0..20).collect();
    let cursor = Cursor::new(data.clone());
    with_reader(1, 2, cursor, |mut reader| {
        // Read should work
        let mut buf = vec![0; 20];
        let n = reader.read(&mut buf).unwrap();
        assert_eq!(n, 20);
        assert_eq!(&buf[..n], &data[..]);
    });
}

#[test]
fn edge_case_read_single_byte_multiple_times() {
    // Test reading one byte at a time
    let data: Vec<u8> = (0..20).collect();
    let cursor = Cursor::new(data.clone());
    with_reader(10, 2, cursor, |mut reader| {
        // Read one byte at a time
        for i in 0..20 {
            let mut buf = vec![0; 1];
            let n = reader.read(&mut buf).unwrap();
            assert_eq!(n, 1);
            assert_eq!(buf[0], i);
            assert_eq!(reader.position(), (i + 1) as u64);
        }
    });
}

#[test]
fn edge_case_seek_then_read_partial() {
    // Test seeking then reading only part of buffer
    let data: Vec<u8> = (0..20).collect();
    let cursor = Cursor::new(data.clone());
    with_reader(10, 2, cursor, |mut reader| {
        // Seek to middle
        reader.seek(SeekFrom::Start(10)).unwrap();

        // Read only part of buffer
        let mut buf = vec![0; 3];
        reader.read(&mut buf).unwrap();
        assert_eq!(buf, &[10, 11, 12]);

        // Seek again and read more
        reader.seek(SeekFrom::Start(15)).unwrap();
        reader.read(&mut buf).unwrap();
        assert_eq!(buf, &[15, 16, 17]);
    });
}

#[test]
fn edge_case_seek_current_at_start() {
    // Test SeekFrom::Current at start of file
    let data: Vec<u8> = (0..20).collect();
    let cursor = Cursor::new(data.clone());
    with_reader(10, 2, cursor, |mut reader| {
        // Seek from current at start
        reader.seek(SeekFrom::Current(5)).unwrap();
        assert_eq!(reader.position(), 5);

        let mut buf = vec![0; 5];
        reader.read(&mut buf).unwrap();
        assert_eq!(buf, &[5, 6, 7, 8, 9]);
    });
}

#[test]
fn edge_case_seek_current_negative_at_start() {
    // Test SeekFrom::Current with negative at start (should error)
    let data: Vec<u8> = (0..20).collect();
    let cursor = Cursor::new(data.clone());
    with_reader(10, 2, cursor, |mut reader| {
        // Should error due to overflow
        assert!(reader.seek(SeekFrom::Current(-1)).is_err());
    });
}

#[test]
fn edge_case_buffer_exactly_one_byte() {
    // Test with buffer size of 1 and queue length of 1
    let data: Vec<u8> = (0..10).collect();
    let cursor = Cursor::new(data.clone());
    with_reader(1, 1, cursor, |mut reader| {
        // Should still work
        let mut result = Vec::new();
        reader.read_to_end(&mut result).unwrap();
        assert_eq!(result, data);
    });
}

#[test]
fn edge_case_seek_from_end_zero() {
    // Test SeekFrom::End(0) - should go to end
    let data: Vec<u8> = (0..20).collect();
    let cursor = Cursor::new(data.clone());
    with_reader(10, 2, cursor, |mut reader| {
        // SeekFrom::End(0) should position at end of file
        let pos = reader.seek(SeekFrom::End(0)).unwrap();
        // The position should be file_size = 20
        assert_eq!(pos, 20);
        assert_eq!(reader.position(), 20);

        // Read should return 0
        let mut buf = vec![0; 10];
        let n = reader.read(&mut buf).unwrap();
        assert_eq!(n, 0);
    });
}

#[test]
fn edge_case_read_after_seek_to_exact_end() {
    // Test reading after seeking to exact end
    let data: Vec<u8> = (0..20).collect();
    let cursor = Cursor::new(data.clone());
    with_reader(10, 2, cursor, |mut reader| {
        reader.seek(SeekFrom::Start(20)).unwrap();
        assert_eq!(reader.position(), 20);

        // Read should return 0
        let mut buf = vec![0; 10];
        let n = reader.read(&mut buf).unwrap();
        assert_eq!(n, 0);

        // Seek back and read should work
        reader.seek(SeekFrom::Start(10)).unwrap();
        let n = reader.read(&mut buf).unwrap();
        assert_eq!(n, 10);
        assert_eq!(&buf, &data[10..20]);
    });
}

/// A source that gives at most `step` bytes at a time, counts its seeks, and meets `trouble` when
/// it has given `quiet` bytes.
struct Slow {
    inner: Cursor<Vec<u8>>,
    step: usize,
    seeks: Arc<AtomicUsize>,
    quiet: usize,
    trouble: Option<io::ErrorKind>,
}

impl Slow {
    fn new(data: Vec<u8>, step: usize) -> Slow {
        Slow {
            inner: Cursor::new(data),
            step,
            seeks: Arc::new(AtomicUsize::new(0)),
            quiet: 0,
            trouble: None,
        }
    }

    fn with_trouble(self, quiet: usize, trouble: io::ErrorKind) -> Slow {
        Slow { quiet, trouble: Some(trouble), ..self }
    }
}

impl Read for Slow {
    fn read(&mut self, buf: &mut [u8]) -> io::Result<usize> {
        if self.quiet == 0 {
            if let Some(kind) = self.trouble.take() {
                return Err(io::Error::new(kind, "trouble"));
            }
        }
        let mut n = buf.len().min(self.step);
        if self.trouble.is_some() {
            n = n.min(self.quiet);
        }
        let n = self.inner.read(&mut buf[..n])?;
        if self.trouble.is_some() {
            self.quiet -= n;
        }
        Ok(n)
    }
}

impl Seek for Slow {
    fn seek(&mut self, pos: SeekFrom) -> io::Result<u64> {
        self.seeks.fetch_add(1, Ordering::SeqCst);
        self.inner.seek(pos)
    }
}

#[test]
fn short_reads_of_the_source_do_not_show() {
    let data: Vec<u8> = (0..50).collect();
    with_reader(10, 2, Slow::new(data.clone(), 3), |mut reader| {
        let mut buf = [0; 25];
        assert_eq!(reader.read(&mut buf).unwrap(), 25);
        assert_eq!(&buf[..], &data[..25]);
        // Fewer bytes than wanted come only at the end.
        let mut buf = [0; 40];
        assert_eq!(reader.read(&mut buf).unwrap(), 25);
        assert_eq!(&buf[..25], &data[25..]);
        assert_eq!(reader.position(), 50);
        assert_eq!(reader.read(&mut buf).unwrap(), 0);
        assert_eq!(reader.position(), 50);
    });
}

#[test]
fn reads_in_a_row_follow_on() {
    let data: Vec<u8> = (0..100).collect();
    with_reader(7, 3, Cursor::new(data.clone()), |mut reader| {
        let mut all = vec![];
        for n in 1..10 {
            let mut buf = vec![0; n];
            assert_eq!(reader.read(&mut buf).unwrap(), n);
            all.extend_from_slice(&buf);
            assert_eq!(reader.position(), all.len() as u64);
        }
        assert_eq!(&all[..], &data[..45]);
    });
}

#[test]
fn a_read_after_a_seek_starts_there() {
    let data: Vec<u8> = (0..100).collect();
    with_reader(8, 2, Cursor::new(data.clone()), |mut reader| {
        for (pos, at) in [
            (SeekFrom::Start(63), 63),
            (SeekFrom::Current(-40), 33),
            (SeekFrom::End(-20), 80),
            (SeekFrom::Current(-87), 3),
            (SeekFrom::End(-100), 0),
        ] {
            assert_eq!(reader.seek(pos).unwrap(), at as u64);
            assert_eq!(reader.position(), at as u64);
            let mut buf = [0; 10];
            assert_eq!(reader.read(&mut buf).unwrap(), 10);
            assert_eq!(&buf[..], &data[at..at + 10]);
        }
    });
}

#[test]
fn a_seek_within_the_buffer_leaves_the_source_alone() {
    let data: Vec<u8> = (0..40).collect();
    let source = Slow::new(data, 40);
    let seeks = source.seeks.clone();
    with_reader(10, 2, source, |mut reader| {
        let mut buf = [0; 5];
        reader.read(&mut buf).unwrap();
        let before = seeks.load(Ordering::SeqCst);
        assert_eq!(reader.seek(SeekFrom::Start(9)).unwrap(), 9);
        assert_eq!(reader.seek(SeekFrom::Current(-9)).unwrap(), 0);
        assert_eq!(reader.seek(SeekFrom::Current(0)).unwrap(), 0);
        assert_eq!(reader.seek(SeekFrom::Start(10)).unwrap(), 10);
        assert!(reader.seek(SeekFrom::Current(-11)).is_err());
        assert_eq!(seeks.load(Ordering::SeqCst), before);
        assert_eq!(reader.seek(SeekFrom::Start(11)).unwrap(), 11);
        assert_eq!(seeks.load(Ordering::SeqCst), before + 1);
        reader.read(&mut buf).unwrap();
        assert_eq!(buf, [11, 12, 13, 14, 15]);
    });
}

#[test]
fn a_refused_seek_changes_nothing() {
    let data: Vec<u8> = (0..40).collect();
    with_reader(10, 2, Cursor::new(data), |mut reader| {
        let mut buf = [0; 5];
        reader.read(&mut buf).unwrap();
        let e = reader.seek(SeekFrom::Current(-6)).unwrap_err();
        assert_eq!(e.kind(), io::ErrorKind::InvalidInput);
        assert_eq!(e.to_string(), "seek before start");
        assert_eq!(reader.position(), 5);
        reader.read(&mut buf).unwrap();
        assert_eq!(buf, [5, 6, 7, 8, 9]);
    });
}

#[test]
fn a_seek_past_the_last_position_is_refused() {
    let data: Vec<u8> = (0..40).collect();
    with_reader(10, 2, Cursor::new(data), |mut reader| {
        assert_eq!(reader.seek(SeekFrom::Start(u64::MAX)).unwrap(), u64::MAX);
        let mut buf = [0; 3];
        assert_eq!(reader.read(&mut buf).unwrap(), 0);
        let e = reader.seek(SeekFrom::Current(1)).unwrap_err();
        assert_eq!(e.kind(), io::ErrorKind::InvalidInput);
        assert_eq!(e.to_string(), "seek past the last position");
        assert_eq!(reader.position(), u64::MAX);
        assert_eq!(reader.seek(SeekFrom::Start(5)).unwrap(), 5);
        assert_eq!(reader.read(&mut buf).unwrap(), 3);
        assert_eq!(buf, [5, 6, 7]);
    });
}

#[test]
fn a_source_that_does_not_stand_at_its_start() {
    let mut cursor = Cursor::new(vec![10, 11, 12, 13, 14, 15]);
    cursor.set_position(2);
    with_reader(4, 1, cursor, |mut reader| {
        assert_eq!(reader.position(), 2);
        let mut buf = [0; 1];
        assert_eq!(reader.read(&mut buf).unwrap(), 1);
        assert_eq!(buf, [12]);
        assert_eq!(reader.position(), 3);
        assert_eq!(reader.seek(SeekFrom::Start(0)).unwrap(), 0);
        assert_eq!(reader.read(&mut buf).unwrap(), 1);
        assert_eq!(buf, [10]);
    });
    let mut cursor = Cursor::new(vec![10, 11, 12, 13, 14, 15]);
    cursor.set_position(2);
    with_default_reader(cursor, |mut reader| {
        assert_eq!(reader.seek(SeekFrom::Current(-1)).unwrap(), 1);
        let mut all = vec![];
        reader.read_to_end(&mut all).unwrap();
        assert_eq!(all, [11, 12, 13, 14, 15]);
    });
}

#[test]
fn a_seek_and_its_opposite_come_back() {
    let data: Vec<u8> = (0..100).collect();
    with_reader(8, 2, Cursor::new(data.clone()), |mut reader| {
        reader.seek(SeekFrom::Start(40)).unwrap();
        for delta in [1, 7, 8, 9, 55, -1, -40] {
            reader.seek(SeekFrom::Current(delta)).unwrap();
            assert_eq!(reader.position() as i64, 40 + delta);
            assert_eq!(reader.seek(SeekFrom::Current(-delta)).unwrap(), 40);
            let mut buf = [0; 3];
            assert_eq!(reader.read(&mut buf).unwrap(), 3);
            assert_eq!(&buf[..], &data[40..43]);
            reader.seek(SeekFrom::Start(40)).unwrap();
        }
    });
}

#[test]
fn reads_until_nothing_give_it_all() {
    let data: Vec<u8> = (0..100).collect();
    for step in [1, 3, 10, 100] {
        for want in [1, 7, 10, 33] {
            with_reader(10, 2, Slow::new(data.clone(), step), |mut reader| {
                let mut all = vec![];
                loop {
                    let mut buf = vec![0; want];
                    let n = reader.read(&mut buf).unwrap();
                    if n == 0 {
                        break;
                    }
                    all.extend_from_slice(&buf[..n]);
                    assert_eq!(reader.position(), all.len() as u64);
                }
                assert_eq!(all, data);
            });
        }
    }
}

#[test]
fn an_error_of_the_source_comes_through() {
    let data: Vec<u8> = (0..40).collect();
    let source = Slow::new(data, 40).with_trouble(14, io::ErrorKind::PermissionDenied);
    with_reader(10, 2, source, |mut reader| {
        let mut buf = [0; 8];
        assert_eq!(reader.read(&mut buf).unwrap(), 8);
        // The rest of the first buffer is handed out before the error.
        let mut buf = [0; 8];
        assert_eq!(reader.read(&mut buf).unwrap(), 2);
        assert_eq!(buf, [8, 9, 0, 0, 0, 0, 0, 0]);
        assert_eq!(reader.position(), 10);
        let e = reader.read(&mut buf).unwrap_err();
        assert_eq!(e.kind(), io::ErrorKind::PermissionDenied);
        assert_eq!(e.to_string(), "trouble");
        assert_eq!(reader.position(), 10);
        let e = reader.read(&mut buf).unwrap_err();
        assert_eq!(e.kind(), io::ErrorKind::UnexpectedEof);
        assert_eq!(e.to_string(), "background thread terminated");
        let e = reader.seek(SeekFrom::Start(20)).unwrap_err();
        assert_eq!(e.to_string(), "background thread terminated");
    });
}

#[test]
fn a_failed_seek_of_the_source_ends_the_reader() {
    let data: Vec<u8> = (0..40).collect();
    with_reader(10, 2, Cursor::new(data), |mut reader| {
        let e = reader.seek(SeekFrom::End(-41)).unwrap_err();
        assert_eq!(e.kind(), io::ErrorKind::InvalidInput);
        let mut buf = [0; 8];
        let e = reader.read(&mut buf).unwrap_err();
        assert_eq!(e.kind(), io::ErrorKind::UnexpectedEof);
    });
}

#[test]
fn an_interruption_does_not_show() {
    let data: Vec<u8> = (0..40).collect();
    // Before the first byte, within a buffer, at the start of one, and at the end.
    for quiet in [0, 14, 20, 40] {
        let source = Slow::new(data.clone(), 40).with_trouble(quiet, io::ErrorKind::Interrupted);
        with_reader(10, 2, source, |mut reader| {
            let mut buf = [0; 40];
            assert_eq!(reader.read(&mut buf).unwrap(), 40);
            assert_eq!(&buf[..], &data[..]);
            assert_eq!(reader.read(&mut buf).unwrap(), 0);
        });
    }
}

/// A source that is interrupted again and again, until it is sought in if `wakes`.
struct Interrupted {
    inner: Cursor<Vec<u8>>,
    wakes: bool,
    awake: bool,
}

impl Read for Interrupted {
    fn read(&mut self, buf: &mut [u8]) -> io::Result<usize> {
        if self.awake {
            self.inner.read(buf)
        } else {
            Err(io::Error::new(io::ErrorKind::Interrupted, "not now"))
        }
    }
}

impl Seek for Interrupted {
    fn seek(&mut self, pos: SeekFrom) -> io::Result<u64> {
        self.awake = self.wakes && pos != SeekFrom::Current(0);
        self.inner.seek(pos)
    }
}

#[test]
fn a_reader_ends_while_its_source_is_interrupted_without_end() {
    let inner = Cursor::new((0..40).collect());
    with_reader(10, 2, Interrupted { inner, wakes: false, awake: false }, |reader| {
        assert_eq!(reader.position(), 0);
        drop(reader);
    });
}

#[test]
fn a_seek_is_done_while_the_source_is_interrupted_without_end() {
    let inner = Cursor::new((0..40).collect());
    with_reader(10, 1, Interrupted { inner, wakes: true, awake: false }, |mut reader| {
        assert_eq!(reader.seek(SeekFrom::Start(25)).unwrap(), 25);
        let mut buf = [0; 20];
        assert_eq!(reader.read(&mut buf).unwrap(), 15);
        assert_eq!(&buf[..3], &[25, 26, 27]);
    });
}
