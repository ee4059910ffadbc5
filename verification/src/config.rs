//! Options that steer compression.

use vstd::prelude::*;

verus! {

/// Options read by the store and by the number encoder.
///
/// A preserve flag wins over the matching error flag: compression fails on a
/// non-finite number only when its error flag is set and its preserve flag is
/// not.
#[derive(Debug, Copy, Clone, PartialEq, Eq, Structural)]
pub struct Config {
    /// Sort the property names of every object before they are shared as a schema.
    pub sort_key: bool,
    /// Store NaN as a special value instead of replacing it by null.
    pub preserve_nan: bool,
    /// Store infinities as special values instead of replacing them by null.
    pub preserve_infinite: bool,
    /// Refuse NaN, unless it is preserved.
    pub error_on_nan: bool,
    /// Refuse infinities, unless they are preserved.
    pub error_on_infinite: bool,
}

impl Config {
    /// The default options: insertion order is kept, and non-finite numbers become null.
    pub open spec fn standard() -> Config {
        Config {
            sort_key: false,
            preserve_nan: false,
            preserve_infinite: false,
            error_on_nan: false,
            error_on_infinite: false,
        }
    }
}

impl Default for Config {
    fn default() -> (c: Config)
        ensures
            c == Config::standard(),
    {
        Config {
            sort_key: false,
            preserve_nan: false,
            preserve_infinite: false,
            error_on_nan: false,
            error_on_infinite: false,
        }
    }
}

} // verus!
