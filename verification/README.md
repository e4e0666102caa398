# thread_io

Readers and writers that do their I/O in a background thread, with the
bookkeeping of both sides proved correct.

* `src/` is the verified library: the buffers that travel between the two
  threads (`read::Buffer`, `write::Chunk`), the state of each party as step
  functions (`read::Reader`, `read::BackgroundReader`, `Buffer::refill`,
  `write::Writer`, `write::BackgroundWriter`, `read::read_chunks`), the
  choice of the result of a run (`read::finish_reading`,
  `write::finish_writing`, `ending::first_failure`), and the laws:
  `read::law_refill_keeps_read_order`, `read::law_reading_reports_everything`,
  `read::law_end_of_input_repeats`, `read::law_first_empty_read_is_the_end`,
  `write::law_writing_keeps_every_byte`, `write::law_writes_and_flushes_keep_order`,
  and, over a counted model of the buffers in circulation (`circulation`),
  `circulation::law_refills_after_stop_are_bounded` and
  `circulation::law_writes_after_stop_are_bounded`.
* `app/` runs these steps with threads (`crossbeam::scope`) and channels and
  offers `read::reader`, `read::reader_init`, `write::writer`,
  `write::writer_init`, `write::writer_finish` and `write::writer_init_finish`.
* `tests/` drives the steps in a single thread, with mock readers and writers.
