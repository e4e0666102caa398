use std::cmp::min;
use std::collections::VecDeque;
use std::io::{self, Read};

use thread_io::ending::{first_failure, Ending};
use thread_io::fuzz::Config;
use thread_io::read::{
    finish_reading, read_chunks, Buffer, ChunkStep, ReadOutcome, ReadReply, RefillStep,
};

/// A mock source: answers reads with at most `block_size` bytes, fails
/// after `fails_after` reads and is interrupted once after `interrups_after`.
struct MockReader<'a> {
    data: &'a [u8],
    block_size: usize,
    fails_after: usize,
    interrups_after: usize,
}

impl<'a> MockReader<'a> {
    fn new(
        data: &'a [u8],
        block_size: usize,
        fails_after: Option<usize>,
        interrups_after: Option<usize>,
    ) -> MockReader<'a> {
        MockReader {
            data,
            block_size,
            fails_after: fails_after.unwrap_or(usize::MAX),
            interrups_after: interrups_after.unwrap_or(usize::MAX),
        }
    }
}

impl<'a> Read for MockReader<'a> {
    fn read(&mut self, buf: &mut [u8]) -> io::Result<usize> {
        if self.fails_after == 0 {
            return Err(io::Error::new(io::ErrorKind::Other, "read err"));
        }
        if self.interrups_after == 0 {
            self.interrups_after = usize::MAX;
            return Err(io::Error::new(io::ErrorKind::Interrupted, "interrupted"));
        }
        self.fails_after -= 1;
        self.interrups_after -= 1;
        let amt = min(self.data.len(), min(buf.len(), self.block_size));
        let (a, b) = self.data.split_at(amt);
        buf[..amt].copy_from_slice(a);
        self.data = b;
        Ok(amt)
    }
}

/// Reads `rdr` into a vector with reads of `chunksize` bytes, following the
/// steps of `read_chunks`.
fn drain<R: Read>(mut rdr: R, chunksize: usize, resume: bool) -> io::Result<Vec<u8>> {
    let mut out = vec![];
    let mut buf = vec![0; chunksize];
    loop {
        let mut error = None;
        let outcome = match rdr.read(buf.as_mut_slice()) {
            Ok(n) => ReadOutcome::Bytes(buf[..n].to_vec()),
            Err(e) => {
                let interrupted = e.kind() == io::ErrorKind::Interrupted;
                error = Some(e);
                if interrupted {
                    ReadOutcome::Interrupted
                } else {
                    ReadOutcome::Failed
                }
            }
        };
        match read_chunks(&mut out, outcome, resume) {
            ChunkStep::ReadAgain => {}
            ChunkStep::Finished => return Ok(out),
            ChunkStep::Failed => return Err(error.unwrap()),
        }
    }
}

/// Fills `buffer` from `rdr` following the steps of `Buffer::refill`.
fn refill<R: Read>(buffer: &mut Buffer, rdr: &mut R) -> io::Result<()> {
    let mut room = buffer.start_refill();
    let mut scratch = vec![0u8; room];
    loop {
        let window = &mut scratch[..room];
        let mut error = None;
        let outcome = match rdr.read(window) {
            Ok(n) => ReadOutcome::Bytes(window[..n].to_vec()),
            Err(ref e) if e.kind() == io::ErrorKind::Interrupted => ReadOutcome::Interrupted,
            Err(e) => {
                error = Some(e);
                ReadOutcome::Failed
            }
        };
        match buffer.refill(outcome) {
            RefillStep::Read(next) => room = next,
            RefillStep::Ready => return Ok(()),
            RefillStep::Failed => return Err(error.unwrap()),
        }
    }
}

/// Both parties of a reading run in one thread: the background party fills
/// every empty buffer as soon as it gets one.
struct Pipeline<R> {
    source: Option<R>,
    empty: VecDeque<Option<Buffer>>,
    full: VecDeque<io::Result<Buffer>>,
    state: thread_io::read::Reader,
    stop_sent: bool,
    refills_after_stop: usize,
}

impl<R: Read> Pipeline<R> {
    fn pump(&mut self) {
        while self.source.is_some() {
            match self.empty.pop_front() {
                Some(Some(mut buffer)) => {
                    if self.stop_sent {
                        self.refills_after_stop += 1;
                    }
                    let res = refill(&mut buffer, self.source.as_mut().unwrap());
                    match res {
                        Ok(()) => self.full.push_back(Ok(buffer)),
                        Err(e) => {
                            self.full.push_back(Err(e));
                            self.source = None;
                        }
                    }
                }
                Some(None) => self.source = None,
                None => break,
            }
        }
    }
}

impl<R: Read> Read for Pipeline<R> {
    fn read(&mut self, buf: &mut [u8]) -> io::Result<usize> {
        self.pump();
        if self.state.needs_buffer() {
            match self.full.pop_front() {
                Some(Ok(buffer)) => self.state.install(buffer),
                Some(Err(e)) => {
                    self.state.record_failure();
                    return Err(e);
                }
                None => {}
            }
        }
        assert!(self.state.can_read(), "read after the failure was reported");
        let (reply, recycled) = self.state.read(buf);
        if let Some(buffer) = recycled {
            self.empty.push_back(Some(buffer));
        }
        match reply {
            ReadReply::Bytes(n) => Ok(n),
            ReadReply::Interrupted => Err(io::Error::from(io::ErrorKind::Interrupted)),
        }
    }
}

/// A reading run as `reader_init` does it, in one thread.
fn run_reader<R, I, F, O, E>(bufsize: usize, queuelen: usize, init: I, func: F) -> Result<O, E>
where
    R: Read,
    I: FnOnce() -> Result<R, E>,
    F: FnOnce(&mut Pipeline<R>) -> Result<O, E>,
    E: From<io::Error>,
{
    run_reader_with(bufsize, queuelen, init, func, E::from)
}

/// Like `run_reader`, with the conversion of queued I/O errors given.
fn run_reader_with<R, I, F, O, E>(
    bufsize: usize,
    queuelen: usize,
    init: I,
    func: F,
    convert: fn(io::Error) -> E,
) -> Result<O, E>
where
    R: Read,
    I: FnOnce() -> Result<R, E>,
    F: FnOnce(&mut Pipeline<R>) -> Result<O, E>,
{
    let (state, buffers) = thread_io::read::Reader::new(bufsize, queuelen);
    let (source, setup) = match init() {
        Ok(r) => (Some(r), Ok(())),
        Err(e) => (None, Err(e)),
    };
    let mut pipeline = Pipeline {
        source,
        empty: buffers.into_iter().map(Some).collect(),
        full: VecDeque::new(),
        state,
        stop_sent: false,
        refills_after_stop: 0,
    };
    let main = Ok::<_, ()>(func(&mut pipeline));
    pipeline.empty.push_back(None);
    pipeline.stop_sent = true;
    pipeline.pump();
    assert!(pipeline.refills_after_stop <= queuelen);
    let leftover = first_failure(pipeline.full.drain(..).collect());
    match finish_reading(main, Ok(setup), leftover) {
        Ending::Finished(o) => Ok(o),
        Ending::Failed(e) => Err(e),
        Ending::IoFailed(e) => Err(convert(e)),
        _ => panic!("no panic expected"),
    }
}

#[test]
fn read() {
    let text = b"The quick brown fox";
    let n = text.len() + 3;

    for channel_bufsize in (1..n).step_by(2) {
        for rdr_block_size in (1..n).step_by(2) {
            for out_bufsize in (1..n).step_by(2) {
                for queuelen in (1..n).step_by(2) {
                    // test the mock reader itself
                    let rdr = MockReader::new(text, rdr_block_size, None, None);
                    assert_eq!(drain(rdr, out_bufsize, false).unwrap().as_slice(), &text[..]);

                    // test the buffered reader
                    let rdr = MockReader::new(text, rdr_block_size, None, None);
                    let out = run_reader(channel_bufsize, queuelen, || Ok::<_, io::Error>(rdr), |r| {
                        drain(r, out_bufsize, false)
                    })
                    .unwrap();
                    assert_eq!(out.as_slice(), &text[..]);
                }
            }
        }
    }
}

#[test]
fn read_fail() {
    let text = b"The quick brown fox";
    let len = text.len();

    for channel_bufsize in 1..len {
        for queuelen in 1..len {
            let mut out = vec![0];
            let rdr = MockReader::new(text, channel_bufsize, Some(len / channel_bufsize), None);
            let res: io::Result<_> = run_reader(channel_bufsize, queuelen, || Ok(rdr), |r| {
                while r.read(&mut out)? > 0 {}
                Ok(())
            });

            if let Err(e) = res {
                assert_eq!(&format!("{}", e), "read err");
            } else {
                panic!(
                    "read should fail at bufsize: {}, queue length: {}",
                    channel_bufsize, queuelen
                );
            }
        }
    }
}

#[test]
fn read_fail_processing() {
    let text = b"The quick brown fox";

    let rdr = MockReader::new(text, 1, Some(1), None);
    let res: Result<(), &'static str> =
        run_reader_with(1, 1, || Ok(rdr), |_r| Err("gave up"), |_| "read err");

    if let Err(e) = res {
        assert_eq!(&format!("{}", e), "gave up");
    } else {
        panic!("read should fail");
    }
}

#[test]
fn read_interrupted() {
    let text = b"The quick brown fox";
    let rdr = MockReader::new(text, 2, None, Some(1));
    assert_eq!(drain(rdr, 3, true).unwrap().as_slice(), &text[..]);
}

#[test]
fn reader_init_fail() {
    let e = io::Error::new(io::ErrorKind::Other, "init err");
    let res = run_reader(5, 2, || Err::<&[u8], _>(e), |reader| {
        reader.read_to_end(&mut Vec::new())?;
        Ok(())
    });
    if let Err(e) = res {
        assert_eq!(&format!("{}", e), "init err");
    } else {
        panic!("init should fail");
    }
}

/// The mock source of the randomized runs: answers each read with the
/// next of `chunk_sizes` bytes (a zero is an `Interrupted` error), and with
/// everything that is left once they are used up.
struct ChunkedReader<'a, C: Iterator<Item = usize>> {
    data: &'a [u8],
    chunk_sizes: C,
}

impl<'a, C: Iterator<Item = usize>> Read for ChunkedReader<'a, C> {
    fn read(&mut self, buf: &mut [u8]) -> io::Result<usize> {
        let chunk_size = self.chunk_sizes.next();
        if chunk_size == Some(0) {
            return Err(io::Error::new(io::ErrorKind::Interrupted, "interrupted"));
        }
        let chunk_size = chunk_size.unwrap_or(self.data.len());
        let amt = min(self.data.len(), min(buf.len(), chunk_size));
        let (a, b) = self.data.split_at(amt);
        buf[..amt].copy_from_slice(a);
        self.data = b;
        Ok(amt)
    }
}

#[test]
fn randomized_read_configs() {
    let configs = vec![
        Config { channel_bufsize: 0, queuelen: 0, out_bufsize: 0, data_len: 10, chunk_sizes: vec![1, 0, 3] },
        Config { channel_bufsize: 3, queuelen: 2, out_bufsize: 4, data_len: 40, chunk_sizes: vec![5, 0, 0, 2, 9] },
        Config { channel_bufsize: 64, queuelen: 1, out_bufsize: 1, data_len: 100, chunk_sizes: vec![0, 7] },
        Config { channel_bufsize: 2, queuelen: 5, out_bufsize: 3, data_len: 0, chunk_sizes: vec![4] },
        Config { channel_bufsize: 9, queuelen: 3, out_bufsize: 9, data_len: 17, chunk_sizes: vec![] },
    ];
    for cfg in configs {
        let cfg = match cfg.normalized() {
            Some(cfg) => cfg,
            None => continue,
        };
        let data: Vec<u8> = (0..cfg.data_len).map(|i| i as u8).collect();

        let rdr = ChunkedReader { data: &data, chunk_sizes: cfg.chunk_sizes.iter().map(|&c| c as usize) };
        assert_eq!(drain(rdr, cfg.out_bufsize as usize, true).unwrap(), data);

        let rdr = ChunkedReader { data: &data, chunk_sizes: cfg.chunk_sizes.iter().map(|&c| c as usize) };
        let out = run_reader(cfg.channel_bufsize as usize, cfg.queuelen as usize, || Ok::<_, io::Error>(rdr), |r| {
            drain(r, cfg.out_bufsize as usize, true)
        })
        .unwrap();
        assert_eq!(out, data);
    }
}

#[test]
fn stop_request_bounds_the_refills() {
    // The caller reads nothing: every buffer is refilled once before the
    // stop request is seen, and no more than `queuelen` after it.
    let text = [7u8; 100];
    for queuelen in 1..6 {
        let rdr = MockReader::new(&text, 3, None, None);
        let out: io::Result<()> = run_reader(4, queuelen, || Ok(rdr), |_r| Ok(()));
        assert!(out.is_ok());
    }
}
