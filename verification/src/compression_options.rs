//! The settings that decide how hard the encoder searches for matches.
use vstd::prelude::*;
use crate::lz77::MatchingType;

verus! {

pub const HIGH_MAX_HASH_CHECKS: u16 = 768;
pub const HIGH_LAZY_IF_LESS_THAN: u16 = 128;
pub const MAX_HASH_CHECKS: u16 = 32768;
pub const DEFAULT_MAX_HASH_CHECKS: u16 = 128;
pub const DEFAULT_LAZY_IF_LESS_THAN: u16 = 32;

/// An enum describing the level of compression to be used by the encoder
///
/// Higher compression ratios will take longer to encode.
#[derive(Clone, Copy, Debug)]
pub enum Compression {
    /// Fast minimal compression (`CompressionOptions::fast()`).
    Fast,
    /// Default level (`CompressionOptions::default()`).
    Default,
    /// Higher compression level (`CompressionOptions::high()`).
    ///
    /// Best in this context isn't actually the highest possible level
    /// the encoder can do, but is meant to emulate the `Best` setting in the `Flate2`
    /// library.
    Best,
}

/// Enum allowing some special options (not implemented yet)!
#[derive(Copy, Clone, Debug)]
pub enum SpecialOptions {
    /// Compress normally.
    Normal,
    /// Force fixed huffman tables. (Unimplemented!).
    _ForceFixed,
    /// Force stored (uncompressed) blocks only. (Unimplemented!).
    _ForceStored,
}

/// A struct describing the options for a compressor or compression function.
///
/// These values are not stable and still subject to change!
#[derive(Copy, Clone, Debug)]
pub struct CompressionOptions {
    /// The maximum number of checks to make in the hash table for matches.
    ///
    /// Higher numbers mean slower, but better compression. Very high (say `>1024`) values
    /// will impact compression speed a lot.
    /// Default value: `128`
    pub max_hash_checks: u16,
    /// Only lazy match if we have a length less than this value.
    ///
    /// Higher values degrade compression slightly, but improve compression speed.
    ///
    /// * `0`: Never lazy match. (Same effect as setting MatchingType to greedy, but may be slower).
    /// * `1...257`: Only check for a better match if the first match was shorter than this value.
    /// * `258`: Always lazy match.
    ///
    /// As the maximum length of a match is `258`, values higher than this will have no further
    /// effect.
    ///
    /// * Default value: `32`
    pub lazy_if_less_than: u16,
    /// Whether to use lazy or greedy matching.
    ///
    /// Lazy matching will provide better compression, at the expense of compression speed.
    ///
    /// * Default value: `MatchingType::Lazy`
    pub matching_type: MatchingType,
    /// Force fixed/stored blocks (Not implemented yet).
    pub special: SpecialOptions,
}

/// The options of the default compression level.
pub open spec fn default_options() -> CompressionOptions {
    CompressionOptions {
        max_hash_checks: DEFAULT_MAX_HASH_CHECKS,
        lazy_if_less_than: DEFAULT_LAZY_IF_LESS_THAN,
        matching_type: MatchingType::Lazy,
        special: SpecialOptions::Normal,
    }
}

/// The options of the high compression level.
pub open spec fn high_options() -> CompressionOptions {
    CompressionOptions {
        max_hash_checks: HIGH_MAX_HASH_CHECKS,
        lazy_if_less_than: HIGH_LAZY_IF_LESS_THAN,
        matching_type: MatchingType::Lazy,
        special: SpecialOptions::Normal,
    }
}

/// The options of the fast compression level.
pub open spec fn fast_options() -> CompressionOptions {
    CompressionOptions {
        max_hash_checks: 1,
        lazy_if_less_than: 0,
        matching_type: MatchingType::Greedy,
        special: SpecialOptions::Normal,
    }
}

impl CompressionOptions {
    /// Returns compression settings rouhgly corresponding to the `HIGH(9)` setting in miniz.
    pub fn high() -> (r: CompressionOptions)
        ensures
            r == high_options(),
    {
        CompressionOptions {
            max_hash_checks: HIGH_MAX_HASH_CHECKS,
            lazy_if_less_than: HIGH_LAZY_IF_LESS_THAN,
            matching_type: MatchingType::Lazy,
            special: SpecialOptions::Normal,
        }
    }

    /// Returns  a fast set of compression settings
    ///
    /// Ideally this should roughly correspond to the `FAST(1)` setting in miniz.
    /// However, that setting makes miniz use a somewhat different algorhithm,
    /// so currently hte fast level in this library is slower and better compressing
    /// than the corresponding level in miniz.
    pub fn fast() -> (r: CompressionOptions)
        ensures
            r == fast_options(),
    {
        CompressionOptions {
            max_hash_checks: 1,
            lazy_if_less_than: 0,
            matching_type: MatchingType::Greedy,
            special: SpecialOptions::Normal,
        }
    }
}

impl Default for CompressionOptions {
    /// Returns the options describing the default compression level.
    fn default() -> (r: CompressionOptions)
        ensures
            r == default_options(),
    {
        CompressionOptions {
            max_hash_checks: DEFAULT_MAX_HASH_CHECKS,
            lazy_if_less_than: DEFAULT_LAZY_IF_LESS_THAN,
            matching_type: MatchingType::Lazy,
            special: SpecialOptions::Normal,
        }
    }
}

/// The options a compression level stands for.
pub open spec fn options_for(compression: Compression) -> CompressionOptions {
    match compression {
        Compression::Fast => fast_options(),
        Compression::Default => default_options(),
        Compression::Best => high_options(),
    }
}

impl From<Compression> for CompressionOptions {
    fn from(compression: Compression) -> (r: CompressionOptions) {
        match compression {
            Compression::Fast => CompressionOptions::fast(),
            Compression::Default => CompressionOptions::default(),
            Compression::Best => CompressionOptions::high(),
        }
    }
}

impl vstd::std_specs::convert::FromSpecImpl<Compression> for CompressionOptions {
    open spec fn obeys_from_spec() -> bool {
        true
    }

    open spec fn from_spec(compression: Compression) -> CompressionOptions {
        options_for(compression)
    }
}

} // verus!
