//! Run configuration: direction, endpoints, and the codec parameter set,
//! validated before any I/O begins.

use vstd::prelude::*;
use crate::fault::Fault;

verus! {

/// Whether a run compresses or decompresses.
#[derive(Clone, Copy, Debug, PartialEq, Eq, Structural)]
pub enum Way {
    Compress,
    Decompress,
}

/// Where bytes come from or go to: a named file, or the process's inherited
/// standard stream.
#[derive(Clone, Debug, PartialEq, Eq)]
pub enum FileOpt {
    File(String),
    Magic,
}

/// The codec's block-oriented compression modes.
#[derive(Clone, Copy, Debug, PartialEq, Eq, Structural)]
pub enum Mode {
    /// Nothing is known about the input in advance.
    Generic,
    /// UTF-8 text input.
    Text,
    /// WOFF font input.
    Font,
}

impl Mode {
    /// The numeric tag under which the codec knows the mode.
    pub open spec fn code(self) -> int {
        match self {
            Mode::Generic => 0,
            Mode::Text => 1,
            Mode::Font => 2,
        }
    }
}

/// The highest quality level the codec accepts.
pub const MAX_QUALITY: u32 = 11;

/// The lowest base-2 logarithm of the sliding window size.
pub const MIN_LGWIN: u32 = 10;

/// The highest base-2 logarithm of the sliding window size.
pub const MAX_LGWIN: u32 = 24;

/// The lowest base-2 logarithm of the block size.
pub const MIN_LGBLOCK: u32 = 16;

/// The highest base-2 logarithm of the block size.
pub const MAX_LGBLOCK: u32 = 24;

/// The immutable parameter set handed to the codec for compression: quality,
/// mode, window exponent and block exponent.
pub struct CodecConfig {
    pub quality: u32,
    pub mode: Mode,
    pub lgwin: u32,
    pub lgblock: u32,
}

impl CodecConfig {
    /// A valid combination: every parameter in the codec's range, and the
    /// block no smaller than the sliding window, so that matches never span
    /// a block boundary.
    pub open spec fn wf(self) -> bool {
        &&& self.quality <= MAX_QUALITY
        &&& MIN_LGWIN <= self.lgwin <= MAX_LGWIN
        &&& MIN_LGBLOCK <= self.lgblock <= MAX_LGBLOCK
        &&& self.lgwin <= self.lgblock
    }

    /// The block size in bytes, `2^lgblock`.
    pub open spec fn block_size_spec(self) -> int {
        (1usize << self.lgblock) as int
    }

    /// Validate a parameter combination.
    ///
    /// Returns the configuration exactly when every parameter is in range and
    /// the block size is at least the window size; any other combination is
    /// rejected with a configuration fault, before any I/O.
    pub fn new(quality: u32, mode: Mode, lgwin: u32, lgblock: u32) -> (r: Result<
        CodecConfig,
        Fault,
    >)
        ensures
            ({
                let c = CodecConfig { quality, mode, lgwin, lgblock };
                if c.wf() {
                    r == Ok::<CodecConfig, Fault>(c)
                } else {
                    r == Err::<CodecConfig, Fault>(Fault::Config)
                }
            }),
    {
        if quality <= MAX_QUALITY && MIN_LGWIN <= lgwin && lgwin <= MAX_LGWIN && MIN_LGBLOCK
            <= lgblock && lgblock <= MAX_LGBLOCK && lgwin <= lgblock {
            Ok(CodecConfig { quality, mode, lgwin, lgblock })
        } else {
            Err(Fault::Config)
        }
    }

    /// The block size in bytes: the unit of splitting and of independent
    /// codec work.
    pub fn block_size(&self) -> (r: usize)
        requires
            self.wf(),
        ensures
            r as int == self.block_size_spec(),
            r >= 1,
    {
        let e = self.lgblock;
        let r: usize = 1usize << e;
        proof {
            assert(1usize << e >= 1usize && 1usize << e <= 0x1000000usize) by (bit_vector)
                requires
                    e <= 24u32,
            ;
        }
        r
    }
}

} // verus!
