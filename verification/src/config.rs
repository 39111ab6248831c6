//! Presentation settings, applied only at render time.

use vstd::prelude::*;

verus! {

/// How output is rendered: Greek letters or ASCII stand-ins, terminal colors
/// or none, parameter runs merged or spelled out, an optional magic command
/// prefix, and whether typing effects are shown. None of this affects
/// reduction order or results.
pub struct Config {
    pub use_utf8: bool,
    pub use_color: bool,
    pub merge_args: bool,
    pub magic: Option<char>,
    pub print_effect: bool,
}

impl Default for Config {
    /// Plain rendering: Greek letters, no color, merged parameter runs, no
    /// magic prefix, no typing effect.
    fn default() -> (c: Config)
        ensures
            c.use_utf8 && !c.use_color && c.merge_args && c.magic is None && !c.print_effect,
    {
        Config { use_utf8: true, use_color: false, merge_args: true, magic: None, print_effect: false }
    }
}

} // verus!
