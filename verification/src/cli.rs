//! The command line.
use vstd::prelude::*;

use crate::state::Settings;
use crate::text::{glue, texts};

verus! {

/// Position `i` holds the flag and is followed by a value.
pub open spec fn flag_at(args: Seq<String>, flag: Seq<char>, i: int) -> bool {
    0 <= i < args.len() - 1 && args[i]@ == flag
}

/// `r` is the value that follows the first occurrence of a flag; none if no occurrence is
/// followed by anything.
pub open spec fn is_value(args: Seq<String>, flag: Seq<char>, r: Option<String>) -> bool {
    match r {
        Some(v) => exists|i: int|
            #[trigger] flag_at(args, flag, i) && v@ == args[i + 1]@ && forall|j: int|
                0 <= j < i ==> !#[trigger] flag_at(args, flag, j),
        None => forall|i: int| !#[trigger] flag_at(args, flag, i),
    }
}

/// The value that follows the first occurrence of a flag; none if no occurrence is followed by
/// anything.
pub fn arg_value(args: &[String], flag: &str) -> (r: Option<String>)
    ensures
        is_value(args@, flag@, r),
{
    let wanted: String = flag.to_owned();
    let n: usize = args.len();
    let mut i: usize = 0;
    while i < n && n - i > 1
        invariant
            n == args@.len(),
            wanted@ == flag@,
            i <= n,
            forall|j: int| 0 <= j < i ==> !#[trigger] flag_at(args@, flag@, j),
        decreases n - i,
    {
        if args[i] == wanted {
            assert(flag_at(args@, flag@, i as int));
            return Some(args[i + 1].clone());
        }
        i = i + 1;
    }
    None
}

/// The flag is among the arguments.
pub open spec fn mentions(args: Seq<String>, flag: Seq<char>) -> bool {
    exists|i: int| 0 <= i < args.len() && (#[trigger] args[i])@ == flag
}

/// Whether a flag is among the arguments.
pub fn has_flag(args: &[String], flag: &str) -> (r: bool)
    ensures
        r == mentions(args@, flag@),
{
    let wanted: String = flag.to_owned();
    let n: usize = args.len();
    let mut i: usize = 0;
    while i < n
        invariant
            n == args@.len(),
            wanted@ == flag@,
            i <= n,
            forall|j: int| 0 <= j < i ==> (#[trigger] args@[j])@ != flag@,
        decreases n - i,
    {
        if args[i] == wanted {
            return true;
        }
        i = i + 1;
    }
    false
}

/// What the program is asked to do.
pub enum CliAction {
    ListDevices,
    /// Write the default settings to this file.
    SaveDefaultPreset(String),
    /// Process the input to the output, with a preset if one is given.
    Run { preset: Option<String>, input: Option<String>, output: Option<String> },
    /// Tell how to use the program.
    Usage,
}

/// What the arguments ask for. Listing the devices comes before all else, then saving a preset;
/// to run, at least one device must be named.
pub open spec fn asks_for(args: Seq<String>, r: CliAction) -> bool {
    if mentions(args, "--list-devices"@) {
        r is ListDevices
    } else {
        match r {
            CliAction::ListDevices => false,
            CliAction::SaveDefaultPreset(path) => is_value(
                args,
                "--save-default-preset"@,
                Some(path),
            ),
            CliAction::Run { preset, input, output } => {
                &&& is_value(args, "--save-default-preset"@, None)
                &&& is_value(args, "--preset"@, preset)
                &&& is_value(args, "--input"@, input)
                &&& is_value(args, "--output"@, output)
                &&& input is Some || output is Some
            },
            CliAction::Usage => {
                &&& is_value(args, "--save-default-preset"@, None)
                &&& is_value(args, "--input"@, None)
                &&& is_value(args, "--output"@, None)
            },
        }
    }
}

/// What the arguments ask for.
pub fn parse_args(args: &[String]) -> (r: CliAction)
    ensures
        asks_for(args@, r),
{
    if has_flag(args, "--list-devices") {
        return CliAction::ListDevices;
    }
    if let Some(path) = arg_value(args, "--save-default-preset") {
        return CliAction::SaveDefaultPreset(path);
    }
    let preset: Option<String> = arg_value(args, "--preset");
    let input: Option<String> = arg_value(args, "--input");
    let output: Option<String> = arg_value(args, "--output");
    if input.is_some() || output.is_some() {
        CliAction::Run { preset, input, output }
    } else {
        CliAction::Usage
    }
}

/// How to use the program.
pub open spec fn usage_text() -> Seq<Seq<char>> {
    seq![
        "micapp — real-time microphone processing"@,
        ""@,
        "Usage:"@,
        "  micapp --list-devices"@,
        "  micapp --input <name> --output <name>"@,
        "  micapp --input <name> --output <name> --preset voice.toml"@,
        "  micapp --save-default-preset voice.toml"@,
    ]
}

/// How to use the program.
pub fn usage_lines() -> (r: Vec<String>)
    ensures
        texts(r@) == usage_text(),
{
    let mut r: Vec<String> = Vec::new();
    r.push("micapp — real-time microphone processing".to_owned());
    r.push("".to_owned());
    r.push("Usage:".to_owned());
    r.push("  micapp --list-devices".to_owned());
    r.push("  micapp --input <name> --output <name>".to_owned());
    r.push("  micapp --input <name> --output <name> --preset voice.toml".to_owned());
    r.push("  micapp --save-default-preset voice.toml".to_owned());
    assert(texts(r@) =~= usage_text());
    r
}

/// What is said about a saved preset: the news, or the error.
pub fn saved_line(path: &str, outcome: &Result<(), String>) -> (r: Result<String, String>)
    ensures
        match *outcome {
            Ok(_) => r matches Ok(line) && line@ == "Default preset saved to "@ + path@,
            Err(e) => r matches Err(line) && line@ == "Error: "@ + e@,
        },
{
    match outcome {
        Ok(_) => Ok(glue("Default preset saved to ", path)),
        Err(e) => Err(glue("Error: ", e.as_str())),
    }
}

/// The settings to run with, and what is said about them: the preset's if one was asked for and
/// read, the default ones if none was asked for. A preset that cannot be read is an error.
pub fn run_settings(preset: Option<(String, Result<Settings, String>)>) -> (r: Result<
    (Settings, Option<String>),
    String,
>)
    ensures
        match preset {
            None => r matches Ok(pair) && pair.0.is_default() && pair.1 is None,
            Some((path, Ok(s))) => r matches Ok(pair) && pair.0 == s && (pair.1 matches Some(line)
                && line@ == "Loaded preset: "@ + path@),
            Some((_, Err(e))) => r matches Err(line) && line@ == "Error loading preset: "@ + e@,
        },
{
    match preset {
        None => Ok((Settings::default(), None)),
        Some((path, Ok(s))) => Ok((s, Some(glue("Loaded preset: ", path.as_str())))),
        Some((_, Err(e))) => Err(glue("Error loading preset: ", e.as_str())),
    }
}

} // verus!
