//! Settings of a randomized run of the reading pipeline.

use vstd::prelude::*;

verus! {

/// The settings of one randomized run: buffer and queue sizes, how much
/// data the mock source holds, and the sizes of the reads it answers with
/// (a zero standing for an `Interrupted` error).
#[derive(Debug)]
pub struct Config {
    pub channel_bufsize: u16,
    pub queuelen: u8,
    pub out_bufsize: u16,
    pub data_len: u16,
    pub chunk_sizes: Vec<u8>,
}

/// `x`, raised to one if it is zero.
pub open spec fn at_least_one(x: int) -> int {
    if x < 1 {
        1
    } else {
        x
    }
}

impl Config {
    /// The settings a run actually uses: every size raised to at least one.
    /// There is no run (`None`) when no read sizes are given.
    pub fn normalized(self) -> (run: Option<Config>)
        ensures
            self.chunk_sizes@.len() == 0 <==> run is None,
            run matches Some(c) ==> {
                &&& c.channel_bufsize >= 1 && c.queuelen >= 1 && c.out_bufsize >= 1
                &&& self.channel_bufsize >= 1 ==> c.channel_bufsize == self.channel_bufsize
                &&& self.queuelen >= 1 ==> c.queuelen == self.queuelen
                &&& self.out_bufsize >= 1 ==> c.out_bufsize == self.out_bufsize
                &&& c.channel_bufsize == at_least_one(self.channel_bufsize as int)
                &&& c.queuelen == at_least_one(self.queuelen as int)
                &&& c.out_bufsize == at_least_one(self.out_bufsize as int)
                &&& c.data_len == self.data_len
                &&& c.chunk_sizes@ == self.chunk_sizes@
            },
    {
        if self.chunk_sizes.len() == 0 {
            return None;
        }
        let Config { channel_bufsize, queuelen, out_bufsize, data_len, chunk_sizes } = self;
        Some(
            Config {
                channel_bufsize: if channel_bufsize < 1 {
                    1
                } else {
                    channel_bufsize
                },
                queuelen: if queuelen < 1 {
                    1
                } else {
                    queuelen
                },
                out_bufsize: if out_bufsize < 1 {
                    1
                } else {
                    out_bufsize
                },
                data_len,
                chunk_sizes,
            },
        )
    }
}

} // verus!
