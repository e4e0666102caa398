use thread_io::ending::{first_failure, Ending};
use thread_io::fuzz::Config;
use thread_io::read::{
    finish_reading, read_chunks, BackgroundReader, Buffer, ChunkStep, ReadOutcome, ReadReply, Reader, RefillStep,
};
use thread_io::write::{
    finish_writing, BackgroundWriter, Chunk, Handled, Message, Reply, WriteStep, Writer,
};

fn filled_buffer(size: usize, chunks: &[&[u8]]) -> Buffer {
    let mut buffer = Buffer::new(size);
    let mut room = buffer.start_refill();
    for chunk in chunks {
        assert!(chunk.len() <= room);
        match buffer.refill(ReadOutcome::Bytes(chunk.to_vec())) {
            RefillStep::Read(next) => room = next,
            RefillStep::Ready => return buffer,
            RefillStep::Failed => panic!("no failure expected"),
        }
    }
    assert!(matches!(buffer.refill(ReadOutcome::Bytes(vec![])), RefillStep::Ready));
    buffer
}

/// Reads everything the reader holds into slices of `room` bytes.
fn read_all(reader: &mut Reader, room: usize) -> (Vec<u8>, usize, usize) {
    let mut out = vec![];
    let mut interruptions = 0;
    let mut given_back = 0;
    while !reader.needs_buffer() {
        let mut buf = vec![0u8; room];
        let (reply, recycled) = reader.read(&mut buf);
        match reply {
            ReadReply::Bytes(n) => out.extend_from_slice(&buf[..n]),
            ReadReply::Interrupted => interruptions += 1,
        }
        if recycled.is_some() {
            given_back += 1;
        }
    }
    (out, interruptions, given_back)
}

#[test]
fn refill_steps() {
    let mut buffer = Buffer::new(5);
    assert_eq!(buffer.start_refill(), 5);
    assert!(matches!(buffer.refill(ReadOutcome::Bytes(b"ab".to_vec())), RefillStep::Read(3)));
    assert!(matches!(buffer.refill(ReadOutcome::Bytes(b"cde".to_vec())), RefillStep::Ready));

    let mut buffer = Buffer::new(5);
    buffer.start_refill();
    assert!(matches!(buffer.refill(ReadOutcome::Bytes(b"a".to_vec())), RefillStep::Read(4)));
    assert!(matches!(buffer.refill(ReadOutcome::Failed), RefillStep::Failed));

    let mut buffer = Buffer::new(5);
    buffer.start_refill();
    assert!(matches!(buffer.refill(ReadOutcome::Interrupted), RefillStep::Ready));
}

#[test]
fn failed_refill_keeps_fill_length() {
    let mut buffer = filled_buffer(8, &[b"abc"]);
    let room = buffer.start_refill();
    assert_eq!(room, 8);
    assert!(matches!(buffer.refill(ReadOutcome::Bytes(b"Th".to_vec())), RefillStep::Read(6)));
    assert!(matches!(buffer.refill(ReadOutcome::Failed), RefillStep::Failed));
    // The fill length of the last completed refill is kept.
    let (mut reader, _) = Reader::new(8, 1);
    reader.install(buffer);
    let mut buf = [0u8; 8];
    let (reply, _) = reader.read(&mut buf);
    assert!(matches!(reply, ReadReply::Bytes(3)));
    assert_eq!(&buf[..3], b"Thc");
}

#[test]
fn reading_after_a_reported_failure_is_refused() {
    let (mut reader, buffers) = Reader::new(0, 0);
    assert!(buffers.is_empty());
    assert!(reader.can_read());
    reader.record_failure();
    assert!(!reader.can_read());
}

#[test]
fn background_reader_steps() {
    let mut background = BackgroundReader::new();
    assert!(!background.stopped());
    assert!(background.receive(Some(Buffer::new(2))).is_some());
    assert!(!background.stopped());
    background.refilled(false);
    assert!(!background.stopped());
    background.refilled(true);
    assert!(background.stopped());

    let mut background = BackgroundReader::new();
    assert!(background.receive(None).is_none());
    assert!(background.stopped());
}

#[test]
fn reading_keeps_order_for_every_slice_size() {
    let text = b"The quick brown fox";
    for room in 1..25 {
        let (mut reader, _) = Reader::new(4, 1);
        let mut out = vec![];
        for part in text.chunks(7) {
            reader.install(filled_buffer(7, &[&part[..part.len() / 2], &part[part.len() / 2..]]));
            let (bytes, interruptions, given_back) = read_all(&mut reader, room);
            assert_eq!(interruptions, 0);
            assert_eq!(given_back, 1);
            out.extend_from_slice(&bytes);
        }
        assert_eq!(out.as_slice(), &text[..]);
    }
}

#[test]
fn interruption_is_reported_once_after_the_bytes() {
    let mut buffer = Buffer::new(8);
    buffer.start_refill();
    assert!(matches!(buffer.refill(ReadOutcome::Bytes(b"abc".to_vec())), RefillStep::Read(5)));
    assert!(matches!(buffer.refill(ReadOutcome::Interrupted), RefillStep::Ready));

    let (mut reader, _) = Reader::new(8, 1);
    reader.install(buffer);
    let mut buf = [0u8; 8];
    let (reply, recycled) = reader.read(&mut buf);
    assert!(matches!(reply, ReadReply::Bytes(3)));
    assert!(recycled.is_none());
    assert_eq!(&buf[..3], b"abc");
    let (reply, recycled) = reader.read(&mut buf);
    assert!(matches!(reply, ReadReply::Interrupted));
    assert!(recycled.is_some());
    assert!(reader.needs_buffer());
}

#[test]
fn empty_buffer_is_end_of_input() {
    let (mut reader, buffers) = Reader::new(3, 2);
    assert_eq!(buffers.len(), 2);
    reader.install(filled_buffer(3, &[]));
    let mut buf = [7u8; 2];
    let (reply, recycled) = reader.read(&mut buf);
    assert!(matches!(reply, ReadReply::Bytes(0)));
    assert!(recycled.is_some());
    assert_eq!(buf, [7, 7]);
    // Without any buffer left, reads report the end of input.
    let (reply, recycled) = reader.read(&mut buf);
    assert!(matches!(reply, ReadReply::Bytes(0)));
    assert!(recycled.is_none());
}

#[test]
fn read_chunks_steps() {
    let mut out = b"ab".to_vec();
    assert!(matches!(read_chunks(&mut out, ReadOutcome::Bytes(b"cd".to_vec()), false), ChunkStep::ReadAgain));
    assert_eq!(out, b"abcd");
    assert!(matches!(read_chunks(&mut out, ReadOutcome::Interrupted, true), ChunkStep::ReadAgain));
    assert!(matches!(read_chunks(&mut out, ReadOutcome::Interrupted, false), ChunkStep::Failed));
    assert!(matches!(read_chunks(&mut out, ReadOutcome::Failed, true), ChunkStep::Failed));
    assert!(matches!(read_chunks(&mut out, ReadOutcome::Bytes(vec![]), false), ChunkStep::Finished));
    assert_eq!(out, b"abcd");
}

#[test]
fn first_failure_is_the_first_error() {
    let results: Vec<Result<u8, &str>> = vec![Ok(1), Err("first"), Ok(2), Err("second")];
    assert_eq!(first_failure(results), Some("first"));
    let results: Vec<Result<u8, &str>> = vec![Ok(1), Ok(2)];
    assert_eq!(first_failure(results), None);
    assert_eq!(first_failure(Vec::<Result<u8, &str>>::new()), None);
}

type ReadEnding = Ending<u8, &'static str, &'static str, &'static str>;

#[test]
fn finish_reading_priorities() {
    let e: ReadEnding = finish_reading(Ok(Ok(1)), Ok(Ok(())), None);
    assert!(matches!(e, Ending::Finished(1)));
    let e: ReadEnding = finish_reading(Ok(Ok(1)), Ok(Ok(())), Some("io"));
    assert!(matches!(e, Ending::IoFailed("io")));
    let e: ReadEnding = finish_reading(Ok(Ok(1)), Ok(Err("init err")), Some("io"));
    assert!(matches!(e, Ending::Failed("init err")));
    let e: ReadEnding = finish_reading(Ok(Err("gave up")), Ok(Err("init err")), Some("io"));
    assert!(matches!(e, Ending::Failed("gave up")));
    let e: ReadEnding = finish_reading(Err("main panic"), Ok(Ok(())), None);
    assert!(matches!(e, Ending::MainPanicked("main panic")));
    let e: ReadEnding = finish_reading(Err("main panic"), Err("read err"), None);
    assert!(matches!(e, Ending::MainPanicked("main panic")));
    let e: ReadEnding = finish_reading(Ok(Err("gave up")), Err("read err"), None);
    assert!(matches!(e, Ending::BackgroundPanicked("read err")));
}

type WriteEnding = Ending<(u8, u8), &'static str, &'static str, &'static str>;

#[test]
fn finish_writing_priorities() {
    let e: WriteEnding = finish_writing(Ok(Ok(1)), Ok(Ok(Some(2))), Ok(()), None);
    assert!(matches!(e, Ending::Finished((1, 2))));
    let e: WriteEnding = finish_writing(Ok(Ok(1)), Ok(Ok(Some(2))), Ok(()), Some("late"));
    assert!(matches!(e, Ending::IoFailed("late")));
    let e: WriteEnding = finish_writing(Ok(Ok(1)), Ok(Ok(None)), Err("last"), Some("late"));
    assert!(matches!(e, Ending::IoFailed("last")));
    let e: WriteEnding = finish_writing(Ok(Err("func")), Ok(Err("init err")), Ok(()), None);
    assert!(matches!(e, Ending::Failed("init err")));
    let e: WriteEnding = finish_writing(Ok(Err("func")), Err("bg panic"), Ok(()), None);
    assert!(matches!(e, Ending::Failed("func")));
    let e: WriteEnding = finish_writing(Err("main panic"), Err("bg panic"), Ok(()), None);
    assert!(matches!(e, Ending::BackgroundPanicked("bg panic")));
    let e: WriteEnding = finish_writing(Err("main panic"), Ok(Ok(Some(2))), Err("last"), None);
    assert!(matches!(e, Ending::MainPanicked("main panic")));
}

#[test]
fn writer_takes_what_fits() {
    let mut writer = Writer::new(4);
    let input = b"abcdefghij";
    let mut sent = vec![];
    let mut written = 0;
    loop {
        match writer.write(input, written) {
            WriteStep::Finished(n) => {
                assert_eq!(n, input.len());
                break;
            }
            WriteStep::Exchange(n) => {
                assert!(n > written);
                written = n;
                let full = writer.exchange(Chunk::new(4));
                sent.extend_from_slice(full.filled());
            }
        }
    }
    assert_eq!(sent, b"abcdefgh");
    let (last, flush) = writer.flush(Chunk::new(4));
    match last {
        Message::Buffer(chunk) => assert_eq!(chunk.filled(), b"ij"),
        _ => panic!("buffered data goes first"),
    }
    assert!(matches!(flush, Message::Flush));
    let (last, done) = writer.done(Chunk::new(4));
    match last {
        Message::Buffer(chunk) => assert!(chunk.filled().is_empty()),
        _ => panic!("buffered data goes first"),
    }
    assert!(matches!(done, Message::Done));
}

#[test]
fn write_of_nothing_finishes_at_once() {
    let mut writer = Writer::new(1);
    assert!(matches!(writer.write(b"", 0), WriteStep::Finished(0)));
    assert!(matches!(writer.write(b"x", 0), WriteStep::Finished(1)));
    assert!(matches!(writer.write(b"yz", 0), WriteStep::Exchange(0)));
}

#[test]
fn background_writer_steps() {
    let (mut background, chunks) = BackgroundWriter::new(3, 2);
    assert_eq!(chunks.len(), 2);
    assert!(chunks.iter().all(|c| c.filled().is_empty()));
    assert_eq!(background.finished(), None);
    assert!(matches!(background.listen(Handled::Wrote(Chunk::new(3))), Reply::GiveBack(_)));
    assert!(matches!(background.listen(Handled::Flushed), Reply::Nothing));
    assert_eq!(background.finished(), None);
    assert!(matches!(background.listen(Handled::Done), Reply::Nothing));
    assert_eq!(background.finished(), Some(true));

    let (mut background, _) = BackgroundWriter::new(3, 1);
    assert!(matches!(background.listen(Handled::WriteFailed), Reply::Error));
    assert_eq!(background.finished(), Some(false));

    let (mut background, _) = BackgroundWriter::new(3, 1);
    assert!(matches!(background.listen(Handled::FlushFailed), Reply::Error));
    assert_eq!(background.finished(), Some(false));

    let (mut background, _) = BackgroundWriter::new(3, 1);
    assert!(matches!(background.listen(Handled::Closed), Reply::Nothing));
    assert_eq!(background.finished(), Some(true));
}

#[test]
fn config_normalization() {
    let cfg = Config {
        channel_bufsize: 0,
        queuelen: 0,
        out_bufsize: 7,
        data_len: 12,
        chunk_sizes: vec![3, 0, 2],
    };
    let run = cfg.normalized().unwrap();
    assert_eq!(run.channel_bufsize, 1);
    assert_eq!(run.queuelen, 1);
    assert_eq!(run.out_bufsize, 7);
    assert_eq!(run.data_len, 12);
    assert_eq!(run.chunk_sizes, vec![3, 0, 2]);

    let cfg = Config {
        channel_bufsize: 5,
        queuelen: 2,
        out_bufsize: 1,
        data_len: 0,
        chunk_sizes: vec![],
    };
    assert!(cfg.normalized().is_none());
}
