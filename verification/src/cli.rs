use vstd::prelude::*;

use crate::text::str_eq;
use crate::vtt::views;

verus! {

/// The options of a run.
pub struct CmdOpts {
    pub help: bool,
    pub input_file_name: String,
    pub output_file_name: String,
}

/// The options as contracts see them: help wanted, input name, output name.
pub type OptsModel = (bool, Seq<char>, Seq<char>);

impl CmdOpts {
    pub open spec fn model(&self) -> OptsModel {
        (self.help, self.input_file_name@, self.output_file_name@)
    }
}

/// The output name that goes with `input`: its `.vtt` ending replaced by
/// `.lrc`, or `.lrc` added when it has no such ending.
pub open spec fn default_output_spec(input: Seq<char>) -> Seq<char> {
    if input.len() >= 4 && input.subrange(input.len() - 4, input.len() as int) == ".vtt"@ {
        input.take(input.len() - 4) + ".lrc"@
    } else {
        input + ".lrc"@
    }
}

/// The output name that goes with the input name `input`.
pub fn default_output_file_name(input: &str) -> (out: String)
    ensures
        out@ == default_output_spec(input@),
{
    let len = input.unicode_len();
    if len >= 4 && str_eq(input.substring_char(len - 4, len), ".vtt") {
        let mut out = String::from_str(input.substring_char(0, len - 4));
        out.append(".lrc");
        out
    } else {
        let mut out = String::from_str(input);
        out.append(".lrc");
        out
    }
}

/// "Missing output file name after option '{option}'"
pub open spec fn missing_output_msg(option: Seq<char>) -> Seq<char> {
    "Missing output file name after option '"@ + option + "'"@
}

pub open spec fn is_help(a: Seq<char>) -> bool {
    a == "-h"@ || a == "--help"@
}

pub open spec fn is_output(a: Seq<char>) -> bool {
    a == "-o"@ || a == "--output"@
}

/// Reading the arguments from position `i` on, with `st` read so far: `-h`
/// or `--help` asks for help and ends the reading; `-o` or `--output` takes
/// the next argument as the output name, once, and it must not be empty;
/// any other argument is the input name, once.
pub open spec fn opts_run(args: Seq<Seq<char>>, i: int, st: OptsModel) -> Result<OptsModel, Seq<char>>
    decreases args.len() - i,
{
    if i >= args.len() || i < 0 {
        Ok(st)
    } else if is_help(args[i]) {
        Ok((true, st.1, st.2))
    } else if is_output(args[i]) {
        if st.2.len() > 0 {
            Err("Specifying multiple output file name is not supported"@)
        } else if i + 1 >= args.len() {
            Err(missing_output_msg(args[i]))
        } else if args[i + 1].len() == 0 {
            Err("Output file name should be non-empty"@)
        } else {
            opts_run(args, i + 2, (st.0, st.1, args[i + 1]))
        }
    } else if st.1.len() > 0 {
        Err("Specifying multiple input file name is not supported"@)
    } else {
        opts_run(args, i + 1, (st.0, args[i], st.2))
    }
}

/// What `parse_opts` gives for the command line `args` (the program's
/// name first): the options read from the rest, an input name being
/// required unless help is asked for, and the output name defaulting to the
/// one that goes with the input name.
pub open spec fn parse_opts_spec(args: Seq<Seq<char>>) -> Result<OptsModel, Seq<char>> {
    match opts_run(args, 1, (false, seq![], seq![])) {
        Err(m) => Err(m),
        Ok(st) => if st.1.len() == 0 && !st.0 {
            Err("Error: No input file name specified"@)
        } else if !st.0 && st.2.len() == 0 {
            Ok((st.0, st.1, default_output_spec(st.1)))
        } else {
            Ok(st)
        },
    }
}

/// Reads the options from the command line `args`, the program's name
/// first.
pub fn parse_opts(args: &[String]) -> (r: Result<CmdOpts, String>)
    ensures
        match parse_opts_spec(views(args@)) {
            Ok(m) => r is Ok && r->Ok_0.model() == m,
            Err(msg) => r is Err && r->Err_0@ == msg,
        },
{
    let ghost a = views(args@);
    let mut opts = CmdOpts {
        help: false,
        input_file_name: String::new(),
        output_file_name: String::new(),
    };
    let mut i: usize = 1;
    while i < args.len()
        invariant_except_break
            a == views(args@),
            1 <= i,
            opts_run(a, 1, (false, seq![], seq![])) == opts_run(a, i as int, opts.model()),
            !opts.help,
        ensures
            a == views(args@),
            opts_run(a, 1, (false, seq![], seq![])) == Ok::<OptsModel, Seq<char>>(opts.model()),
        decreases args.len() - i,
    {
        let arg = args[i].as_str();
        assert(a[i as int] == arg@);
        if str_eq(arg, "-h") || str_eq(arg, "--help") {
            opts.help = true;
            break;
        }
        if str_eq(arg, "-o") || str_eq(arg, "--output") {
            if !opts.output_file_name.as_str().is_empty() {
                return Err(String::from_str("Specifying multiple output file name is not supported"));
            }
            if i + 1 >= args.len() {
                let mut m = String::from_str("Missing output file name after option '");
                m.append(arg);
                m.append("'");
                proof {
                    assert(m@ =~= missing_output_msg(a[i as int]));
                }
                return Err(m);
            }
            let output = args[i + 1].as_str();
            assert(a[i + 1] == output@);
            if output.is_empty() {
                return Err(String::from_str("Output file name should be non-empty"));
            }
            opts.output_file_name = String::from_str(output);
            i = i + 2;
        } else {
            if !opts.input_file_name.as_str().is_empty() {
                return Err(String::from_str("Specifying multiple input file name is not supported"));
            }
            opts.input_file_name = String::from_str(arg);
            i = i + 1;
        }
    }
    if opts.input_file_name.as_str().is_empty() && !opts.help {
        return Err(String::from_str("Error: No input file name specified"));
    }
    if !opts.help && opts.output_file_name.as_str().is_empty() {
        opts.output_file_name = default_output_file_name(opts.input_file_name.as_str());
    }
    Ok(opts)
}

} // verus!
