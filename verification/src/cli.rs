//! The command line: from the arguments to the settings of a search.

use vstd::prelude::*;
use crate::parser::tokenize::strings_view;
use crate::search::Config;
use crate::text::{chars_of, push_range, str_equals};

verus! {

/// The settings of a search as plain values.
pub struct Settings {
    pub pattern: Seq<char>,
    pub filenames: Seq<Seq<char>>,
    pub color_mode: Seq<char>,
    pub recursive: bool,
    pub only_matching: bool,
    pub multi_line: bool,
    pub debug: bool,
}

/// The settings that `config` holds.
pub open spec fn settings_of(config: Config) -> Settings {
    Settings {
        pattern: config.pattern@,
        filenames: strings_view(config.filenames@),
        color_mode: config.color_mode@,
        recursive: config.recursive,
        only_matching: config.only_matching,
        multi_line: config.multi_line,
        debug: config.debug,
    }
}

/// The options read so far.
pub struct Flags {
    pub color_mode: Seq<char>,
    pub recursive: bool,
    pub only_matching: bool,
    pub multi_line: bool,
    pub debug: bool,
}

/// The options before any argument is read: no colour, nothing switched on.
pub open spec fn no_flags() -> Flags {
    Flags {
        color_mode: "never"@,
        recursive: false,
        only_matching: false,
        multi_line: false,
        debug: false,
    }
}

/// `flags` with another colour mode.
pub open spec fn with_color(flags: Flags, color_mode: Seq<char>) -> Flags {
    Flags {
        color_mode,
        recursive: flags.recursive,
        only_matching: flags.only_matching,
        multi_line: flags.multi_line,
        debug: flags.debug,
    }
}

/// The flags after the option `arg`, if it is one that takes no value.
pub open spec fn after_option(flags: Flags, arg: Seq<char>) -> Option<Flags> {
    if arg == "--color"@ || arg == "--color=always"@ {
        Some(with_color(flags, "always"@))
    } else if arg == "--color=auto"@ {
        Some(with_color(flags, "auto"@))
    } else if arg == "--color=never"@ {
        Some(with_color(flags, "never"@))
    } else if arg == "--debug"@ {
        Some(
            Flags {
                color_mode: flags.color_mode,
                recursive: flags.recursive,
                only_matching: flags.only_matching,
                multi_line: flags.multi_line,
                debug: true,
            },
        )
    } else if arg == "-r"@ {
        Some(
            Flags {
                color_mode: flags.color_mode,
                recursive: true,
                only_matching: flags.only_matching,
                multi_line: flags.multi_line,
                debug: flags.debug,
            },
        )
    } else if arg == "-o"@ {
        Some(
            Flags {
                color_mode: flags.color_mode,
                recursive: flags.recursive,
                only_matching: true,
                multi_line: flags.multi_line,
                debug: flags.debug,
            },
        )
    } else if arg == "-P"@ {
        Some(
            Flags {
                color_mode: flags.color_mode,
                recursive: flags.recursive,
                only_matching: flags.only_matching,
                multi_line: flags.multi_line || flags.only_matching,
                debug: flags.debug,
            },
        )
    } else {
        None
    }
}

/// The settings that the arguments from index `i` on give, with `flags` read
/// before them. Options come first; `-E` takes the pattern, which may not be
/// empty, and all that follows it is a file name. Anything else, or no `-E`
/// at all, gives nothing.
pub open spec fn parse_from(args: Seq<Seq<char>>, i: int, flags: Flags) -> Option<Settings>
    decreases args.len() - i,
{
    if 0 <= i < args.len() {
        if args[i] == "-E"@ {
            if i + 1 < args.len() && args[i + 1].len() > 0 {
                Some(
                    Settings {
                        pattern: args[i + 1],
                        filenames: args.subrange(i + 2, args.len() as int),
                        color_mode: flags.color_mode,
                        recursive: flags.recursive,
                        only_matching: flags.only_matching,
                        multi_line: flags.multi_line,
                        debug: flags.debug,
                    },
                )
            } else {
                None
            }
        } else {
            match after_option(flags, args[i]) {
                Some(next) => parse_from(args, i + 1, next),
                None => None,
            }
        }
    } else {
        None
    }
}

/// The settings that a command line gives; its first argument is the
/// program's name.
pub open spec fn parsed(args: Seq<Seq<char>>) -> Option<Settings> {
    parse_from(args, 1, no_flags())
}

/// The message for a command line that gives no settings.
pub open spec fn usage(program: Seq<char>) -> Seq<char> {
    "Usage: "@ + program + " [--color[=WHEN]] [-r] [-o [-P]] -E <pattern> [file...]"@
}

fn usage_message(program: &str) -> (message: String)
    ensures
        message@ == usage(program@),
{
    let mut message = String::new();
    let head = chars_of("Usage: ");
    let name = chars_of(program);
    let tail = chars_of(" [--color[=WHEN]] [-r] [-o [-P]] -E <pattern> [file...]");
    push_range(&mut message, head.as_slice(), 0, head.len());
    push_range(&mut message, name.as_slice(), 0, name.len());
    push_range(&mut message, tail.as_slice(), 0, tail.len());
    proof {
        assert(head@.subrange(0, head.len() as int) =~= head@);
        assert(name@.subrange(0, name.len() as int) =~= name@);
        assert(tail@.subrange(0, tail.len() as int) =~= tail@);
        assert(message@ =~= usage(program@));
    }
    message
}

/// Reads the settings of a search from the command line `args`, whose first
/// entry is the program's name; or gives the usage message.
pub fn parse_args(args: &[String]) -> (r: Result<Config, String>)
    requires
        args.len() >= 1,
    ensures
        match parsed(strings_view(args@)) {
            Some(settings) => r is Ok && settings_of(r->Ok_0) == settings,
            None => r is Err && r->Err_0@ == usage(args@[0]@),
        },
{
    let ghost all = strings_view(args@);
    let mut only_matching = false;
    let mut multi_line = false;
    let mut color_mode = "never".to_owned();
    let mut recursive = false;
    let mut debug = false;
    let mut i: usize = 1;
    while i < args.len()
        invariant
            1 <= i <= args.len(),
            all == strings_view(args@),
            parsed(all) == parse_from(
                all,
                i as int,
                Flags { color_mode: color_mode@, recursive, only_matching, multi_line, debug },
            ),
        decreases args.len() - i,
    {
        let arg = args[i].as_str();
        assert(arg@ == all[i as int]);
        if str_equals(arg, "-E") {
            if i + 1 >= args.len() || args[i + 1].as_str().unicode_len() == 0 {
                return Err(usage_message(args[0].as_str()));
            }
            assert(args@[i + 1]@ == all[i + 1]);
            let pattern = args[i + 1].clone();
            let mut filenames: Vec<String> = Vec::new();
            let mut k: usize = i + 2;
            while k < args.len()
                invariant
                    i + 2 <= k <= args.len(),
                    filenames.len() == k - (i + 2),
                    forall|j: int|
                        0 <= j < filenames.len() ==> (#[trigger] filenames@[j])@ == args@[i + 2 + j]@,
                decreases args.len() - k,
            {
                filenames.push(args[k].clone());
                k += 1;
            }
            assert(strings_view(filenames@) =~= all.subrange(i + 2, all.len() as int));
            return Ok(
                Config {
                    pattern,
                    filenames,
                    color_mode,
                    recursive,
                    only_matching,
                    multi_line,
                    debug,
                },
            );
        } else if str_equals(arg, "--color") || str_equals(arg, "--color=always") {
            color_mode = "always".to_owned();
        } else if str_equals(arg, "--color=auto") {
            color_mode = "auto".to_owned();
        } else if str_equals(arg, "--color=never") {
            color_mode = "never".to_owned();
        } else if str_equals(arg, "--debug") {
            debug = true;
        } else if str_equals(arg, "-r") {
            recursive = true;
        } else if str_equals(arg, "-o") {
            only_matching = true;
        } else if str_equals(arg, "-P") {
            if only_matching {
                multi_line = true;
            }
        } else {
            return Err(usage_message(args[0].as_str()));
        }
        i += 1;
    }
    Err(usage_message(args[0].as_str()))
}

} // verus!
