//! The command line: what the program is asked to do.
use vstd::prelude::*;
use vstd::string::*;
use crate::export::{named_after, with_extension};
use crate::text::push_str;

verus! {

/// What the command line asks for.
pub enum Command {
    Help,
    Version,
    /// Export `input` to `output` (by default the input with an `.html` extension),
    /// replacing an existing file only with `force`.
    Export { input: String, output: Option<String>, force: bool },
    /// Open a manuscript, or with `demo` start a new sample story at the path.
    Edit { path: String, demo: bool },
}

/// [`Command`] as plain values.
pub enum CommandView {
    Help,
    Version,
    Export { input: Seq<char>, output: Option<Seq<char>>, force: bool },
    Edit { path: Seq<char>, demo: bool },
}

impl View for Command {
    type V = CommandView;

    open spec fn view(&self) -> CommandView {
        match self {
            Command::Help => CommandView::Help,
            Command::Version => CommandView::Version,
            Command::Export { input, output, force } => CommandView::Export {
                input: input@,
                output: match output {
                    Some(o) => Some(o@),
                    None => None,
                },
                force: *force,
            },
            Command::Edit { path, demo } => CommandView::Edit { path: path@, demo: *demo },
        }
    }
}

/// An argument that looks like an option.
pub open spec fn dashed(a: Seq<char>) -> bool {
    a.len() > 0 && a[0] == '-'
}

/// The export options from position `i` on, given the output and force flag so far.
pub open spec fn export_options(args: Seq<Seq<char>>, i: int, output: Option<Seq<char>>, force: bool) -> Result<(Option<Seq<char>>, bool), Seq<char>>
    decreases args.len() - i,
{
    if i < 2 || i >= args.len() {
        Ok((output, force))
    } else if args[i] == "-o"@ || args[i] == "--output"@ {
        if i + 1 < args.len() && !dashed(args[i + 1]) {
            export_options(args, i + 2, Some(args[i + 1]), force)
        } else {
            Err("Missing output path after -o"@)
        }
    } else if args[i] == "--force"@ {
        export_options(args, i + 1, output, true)
    } else {
        Err("Unknown export argument: "@ + args[i])
    }
}

/// What the arguments (after the program name) ask for, or why they are refused.
pub open spec fn parse_spec(args: Seq<Seq<char>>) -> Result<CommandView, Seq<char>> {
    let first: Option<Seq<char>> = if args.len() > 0 { Some(args[0]) } else { None };
    if first == Some("--help"@) || first == Some("-h"@) {
        Ok(CommandView::Help)
    } else if first == Some("--version"@) || first == Some("-V"@) {
        Ok(CommandView::Version)
    } else if first == Some("export"@) {
        if args.len() < 2 || dashed(args[1]) {
            Err("Usage: playrite export STORY.playrite [-o OUT.html] [--force]"@)
        } else {
            match export_options(args, 2, None, false) {
                Ok((output, force)) => Ok(CommandView::Export { input: args[1], output, force }),
                Err(e) => Err(e),
            }
        }
    } else {
        let demo = first == Some("demo"@);
        if args.len() > (if demo { 2int } else { 1int }) || (args.len() > 0 && dashed(args[0])) {
            Err("Unknown argument. Run playrite --help for usage."@)
        } else if demo {
            Ok(CommandView::Edit { path: if args.len() > 1 { args[1] } else { "demo.playrite"@ }, demo: true })
        } else {
            Ok(CommandView::Edit { path: if args.len() > 0 { args[0] } else { "story.playrite"@ }, demo: false })
        }
    }
}

/// The arguments as plain values.
pub open spec fn arg_views(args: Seq<String>) -> Seq<Seq<char>> {
    args.map_values(|a: String| a@)
}

/// Whether an argument is exactly `word`.
fn is_word(a: &String, word: &str) -> (r: bool)
    ensures
        r == (a@ == word@),
{
    let w = String::from_str(word);
    crate::text::same_text(a, &w)
}

/// Whether an argument starts with `-`.
fn is_dashed(a: &String) -> (r: bool)
    ensures
        r == dashed(a@),
{
    let cs = crate::text::chars_of(a.as_str());
    cs.len() > 0 && cs[0] == '-'
}

/// Reads the export options.
fn export_args(args: &Vec<String>) -> (r: Result<(Option<String>, bool), String>)
    requires
        args@.len() >= 2,
    ensures
        match export_options(arg_views(args@), 2, None, false) {
            Ok((o, f)) => r matches Ok((p, g)) && g == f && match p {
                Some(s) => o == Some(s@),
                None => o is None,
            },
            Err(e) => r matches Err(m) && m@ == e,
        },
{
    let ghost a = arg_views(args@);
    let mut output: Option<String> = None;
    let mut force = false;
    let mut i: usize = 2;
    while i < args.len()
        invariant
            2 <= i <= args@.len(),
            a == arg_views(args@),
            export_options(a, 2, None, false) == export_options(a, i as int, match output {
                Some(s) => Some(s@),
                None => None,
            }, force),
        decreases args@.len() - i,
    {
        assert(a[i as int] == args@[i as int]@);
        if is_word(&args[i], "-o") || is_word(&args[i], "--output") {
            if i + 1 < args.len() && !is_dashed(&args[i + 1]) {
                assert(a[i + 1] == args@[i + 1]@);
                output = Some(args[i + 1].clone());
                i += 2;
            } else {
                proof {
                    if i + 1 < args@.len() {
                        assert(a[i + 1] == args@[i + 1]@);
                    }
                }
                return Err(String::from_str("Missing output path after -o"));
            }
        } else if is_word(&args[i], "--force") {
            force = true;
            i += 1;
        } else {
            let mut m = String::from_str("Unknown export argument: ");
            push_str(&mut m, args[i].as_str());
            return Err(m);
        }
    }
    Ok((output, force))
}

/// Where an export goes: the given output, or else the input with an `.html` extension.
pub fn export_output(input: &String, output: &Option<String>) -> (r: String)
    ensures
        match output {
            Some(o) => r@ == o@,
            None => named_after(input@, r@, "html"@),
        },
{
    match output {
        Some(o) => o.clone(),
        None => {
            proof {
                reveal_strlit("html");
            }
            with_extension(input, "html")
        },
    }
}

/// What the arguments (after the program name) ask for.
pub fn parse_args(args: &Vec<String>) -> (r: Result<Command, String>)
    ensures
        match parse_spec(arg_views(args@)) {
            Ok(c) => r matches Ok(d) && d@ == c,
            Err(e) => r matches Err(m) && m@ == e,
        },
{
    let ghost a = arg_views(args@);
    let n = args.len();
    proof {
        if n > 0 {
            assert(a[0] == args@[0]@);
        }
        if n > 1 {
            assert(a[1] == args@[1]@);
        }
    }
    if n > 0 && (is_word(&args[0], "--help") || is_word(&args[0], "-h")) {
        return Ok(Command::Help);
    }
    if n > 0 && (is_word(&args[0], "--version") || is_word(&args[0], "-V")) {
        return Ok(Command::Version);
    }
    if n > 0 && is_word(&args[0], "export") {
        if n < 2 || is_dashed(&args[1]) {
            return Err(String::from_str("Usage: playrite export STORY.playrite [-o OUT.html] [--force]"));
        }
        let (output, force) = export_args(args)?;
        return Ok(Command::Export { input: args[1].clone(), output, force });
    }
    let demo = n > 0 && is_word(&args[0], "demo");
    let limit: usize = if demo { 2 } else { 1 };
    if n > limit || (n > 0 && is_dashed(&args[0])) {
        return Err(String::from_str("Unknown argument. Run playrite --help for usage."));
    }
    if demo {
        let path = if n > 1 { args[1].clone() } else { String::from_str("demo.playrite") };
        Ok(Command::Edit { path, demo: true })
    } else {
        let path = if n > 0 { args[0].clone() } else { String::from_str("story.playrite") };
        Ok(Command::Edit { path, demo: false })
    }
}

} // verus!
