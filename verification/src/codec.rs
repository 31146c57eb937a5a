//! Compression codecs offered when a checkpoint is repacked.
use vstd::prelude::*;

verus! {

/// A codec for re-compressing datasets.
#[derive(Clone, Copy, PartialEq, Eq, Structural, Debug)]
pub enum Codec {
    /// gzip / DEFLATE.
    Gzip,
    /// Zstandard.
    Zstd,
    /// LZ4.
    Lz4,
    /// No compression.
    Uncompressed,
}

impl Default for Codec {
    fn default() -> (c: Codec)
        ensures
            c == Codec::Gzip,
    {
        Codec::Gzip
    }
}

impl Codec {
    /// The label a codec is shown under.
    pub open spec fn spec_label(self) -> Seq<char> {
        match self {
            Codec::Gzip => "gzip"@,
            Codec::Zstd => "zstd"@,
            Codec::Lz4 => "lz4"@,
            Codec::Uncompressed => "none"@,
        }
    }

    /// The levels a codec accepts, as an inclusive range.
    pub open spec fn level_range(self) -> (int, int) {
        match self {
            Codec::Gzip => (0, 9),
            Codec::Zstd => (1, 22),
            _ => (0, 0),
        }
    }

    /// Short display label.
    pub fn label(self) -> (s: &'static str)
        ensures
            s@ == self.spec_label(),
    {
        match self {
            Codec::Gzip => "gzip",
            Codec::Zstd => "zstd",
            Codec::Lz4 => "lz4",
            Codec::Uncompressed => "none",
        }
    }

    /// Whether a compression level applies or is ignored.
    pub fn uses_level(self) -> (b: bool)
        ensures
            b == (self == Codec::Gzip || self == Codec::Zstd),
    {
        match self {
            Codec::Gzip | Codec::Zstd => true,
            _ => false,
        }
    }

    /// The level used when none is given.
    pub fn default_level(self) -> (level: u8)
        ensures
            self == Codec::Gzip ==> level == 6,
            self == Codec::Zstd ==> level == 3,
            self == Codec::Lz4 || self == Codec::Uncompressed ==> level == 0,
    {
        match self {
            Codec::Gzip => 6,
            Codec::Zstd => 3,
            _ => 0,
        }
    }

    /// The nearest level that the codec accepts.
    pub fn clamp_level(self, level: u8) -> (r: u8)
        ensures
            self.level_range().0 <= r <= self.level_range().1,
            self.level_range().0 <= level <= self.level_range().1 ==> r == level,
            level < self.level_range().0 ==> r == self.level_range().0,
            level > self.level_range().1 ==> r == self.level_range().1,
    {
        match self {
            Codec::Gzip => if level > 9 { 9 } else { level },
            Codec::Zstd => if level < 1 { 1 } else if level > 22 { 22 } else { level },
            _ => 0,
        }
    }
}

} // verus!
