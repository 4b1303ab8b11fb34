//! Selection of the log source and decoder from the command line: at most
//! one option chooses among the iOS, Android and file-based DYEH pipelines,
//! with the file-based one as the default.

use vstd::prelude::*;

use crate::text::chars_eq;
use crate::text::str_chars;

verus! {

/// Which source and decoder to run.
#[derive(Clone, Copy, PartialEq, Eq, Structural, Debug)]
pub enum UsageOptions {
    IosEffect,
    IosFull,
    Android,
    AndroidEffect,
    Dyeh,
    Help,
    /// No option given: run the default file-based pipeline.
    Unset,
}

/// The option a single argument selects, if any.
pub open spec fn spec_usage_option(arg: Seq<char>) -> Option<UsageOptions> {
    if arg == "--ios-effect"@ || arg == "-ie"@ {
        Some(UsageOptions::IosEffect)
    } else if arg == "--ios"@ || arg == "-i"@ {
        Some(UsageOptions::IosFull)
    } else if arg == "--android"@ || arg == "-a"@ {
        Some(UsageOptions::Android)
    } else if arg == "--android-effect"@ || arg == "-ae"@ {
        Some(UsageOptions::AndroidEffect)
    } else if arg == "--dyeh"@ || arg == "-dy"@ {
        Some(UsageOptions::Dyeh)
    } else if arg == "--help"@ || arg == "-h"@ {
        Some(UsageOptions::Help)
    } else {
        None
    }
}

impl UsageOptions {
    /// Parse the program's arguments (without the binary name): none picks
    /// the default, one picks the named option, anything else is an error.
    pub fn from_args(args: &Vec<String>) -> (r: Result<UsageOptions, String>)
        ensures
            args@.len() == 0 ==> r == Ok::<UsageOptions, String>(UsageOptions::Unset),
            args@.len() > 1 ==> r is Err,
            args@.len() == 1 ==> match spec_usage_option(args@[0]@) {
                Some(o) => r == Ok::<UsageOptions, String>(o),
                None => r is Err,
            },
    {
        if args.len() == 0 {
            return Ok(UsageOptions::Unset);
        }
        if args.len() > 1 {
            return Err("Only zero or one argument is allowed".to_owned());
        }
        let arg = str_chars(args[0].as_str());
        if chars_eq(&arg, &str_chars("--ios-effect")) || chars_eq(&arg, &str_chars("-ie")) {
            Ok(UsageOptions::IosEffect)
        } else if chars_eq(&arg, &str_chars("--ios")) || chars_eq(&arg, &str_chars("-i")) {
            Ok(UsageOptions::IosFull)
        } else if chars_eq(&arg, &str_chars("--android")) || chars_eq(&arg, &str_chars("-a")) {
            Ok(UsageOptions::Android)
        } else if chars_eq(&arg, &str_chars("--android-effect")) || chars_eq(
            &arg,
            &str_chars("-ae"),
        ) {
            Ok(UsageOptions::AndroidEffect)
        } else if chars_eq(&arg, &str_chars("--dyeh")) || chars_eq(&arg, &str_chars("-dy")) {
            Ok(UsageOptions::Dyeh)
        } else if chars_eq(&arg, &str_chars("--help")) || chars_eq(&arg, &str_chars("-h")) {
            Ok(UsageOptions::Help)
        } else {
            Err("Unknown option".to_owned())
        }
    }
}

} // verus!
