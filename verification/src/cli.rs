//! The arguments of the command that detects faces in an image.

use vstd::prelude::*;
use vstd::string::*;
use crate::text::same_text;

verus! {

/// How the command is used.
pub fn usage() -> (r: String)
    ensures
        r@
            == "Usage: facefeature [detect] <IMAGE> [--pretty]\n\nDetect local face landmarks and geometry in an image."@,
{
    "Usage: facefeature [detect] <IMAGE> [--pretty]\n\nDetect local face landmarks and geometry in an image.".to_owned()
}

/// What the command is asked to do.
#[derive(Debug)]
pub enum Request {
    Help,
    Detect { image_path: String, pretty: bool },
}

/// The request for help.
pub open spec fn is_help(argument: Seq<char>) -> bool {
    argument == "-h"@ || argument == "--help"@ || argument == "help"@
}

/// Where the options begin: after the image, which may follow the word `detect`.
pub open spec fn options_from(arguments: Seq<String>) -> int {
    if arguments.len() > 0 && arguments[0]@ == "detect"@ {
        2
    } else {
        1
    }
}

/// The first argument from `from` on that is no option.
pub open spec fn first_unknown(arguments: Seq<String>, from: int) -> Option<Seq<char>>
    decreases arguments.len() - from,
{
    if from < 0 || from >= arguments.len() {
        None
    } else if arguments[from]@ == "--pretty"@ {
        first_unknown(arguments, from + 1)
    } else {
        Some(arguments[from]@)
    }
}

/// Reads the arguments of the command.
pub fn parse_arguments(arguments: &Vec<String>) -> (r: Result<Request, String>)
    ensures
        ({
            let from = options_from(arguments@);
            if arguments.len() == 0 || (from == 2 && arguments.len() < 2) {
                r matches Err(message) && message@
                    == "Usage: facefeature [detect] <IMAGE> [--pretty]\n\nDetect local face landmarks and geometry in an image."@
            } else if is_help(arguments[0]@) {
                r matches Ok(request) && request is Help
            } else {
                match first_unknown(arguments@, from) {
                    Some(argument) => r matches Err(message) && message@ == "unknown argument: "@
                        + argument + "\n\n"@
                        + "Usage: facefeature [detect] <IMAGE> [--pretty]\n\nDetect local face landmarks and geometry in an image."@,
                    None => r matches Ok(request) && request matches Request::Detect {
                        image_path,
                        pretty,
                    } && image_path@ == arguments[from - 1]@ && pretty == (arguments.len() > from),
                }
            }
        }),
{
    if arguments.len() == 0 {
        return Err(usage());
    }
    let first = arguments[0].as_str();
    if same_text(first, "-h") || same_text(first, "--help") || same_text(first, "help") {
        proof {
            reveal_strlit("detect");
            reveal_strlit("-h");
            reveal_strlit("--help");
            reveal_strlit("help");
            if first@ == "detect"@ {
                assert(first@.len() == 6);
                assert("--help"@[0] == '-');
                assert("detect"@[0] == 'd');
            }
        }
        return Ok(Request::Help);
    }
    let from: usize = if same_text(first, "detect") {
        2
    } else {
        1
    };
    if from > arguments.len() {
        return Err(usage());
    }
    let image_path = arguments[from - 1].clone();
    let mut i: usize = from;
    while i < arguments.len()
        invariant
            from == options_from(arguments@),
            1 <= from <= i <= arguments.len(),
            !is_help(arguments[0]@),
            first_unknown(arguments@, from as int) == first_unknown(arguments@, i as int),
        decreases arguments.len() - i,
    {
        if !same_text(arguments[i].as_str(), "--pretty") {
            return Err(
                "unknown argument: ".to_owned().concat(arguments[i].as_str()).concat(
                    "\n\n",
                ).concat(usage().as_str()),
            );
        }
        i += 1;
    }
    Ok(Request::Detect { image_path, pretty: arguments.len() > from })
}

} // verus!
