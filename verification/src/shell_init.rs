//! The kernel shell's command layer: the built-in command names, turning
//! a typed line into the command to run, and the text of the commands
//! that only format (`echo`, `help`) or parse arguments (`dmesg`).
//! Running a command and the console itself are the driver's.

use vstd::prelude::*;
use vstd::string::StringSliceAdditionalSpecFns;
use crate::log::{Level, level_named};
use crate::pci::push_str;
use crate::shell::{Command, Registry, TokenError, named, spans_from, tokenize};

verus! {

/// The names the built-in commands register under, in order.
pub fn builtin_names() -> (r: [&'static str; 10])
    ensures
        r[0]@ == "help"@ && r[1]@ == "echo"@ && r[2]@ == "meminfo"@ && r[3]@ == "uptime"@ && r[4]@ == "cpus"@,
        r[5]@ == "dmesg"@ && r[6]@ == "ps"@ && r[7]@ == "panic"@ && r[8]@ == "reboot"@ && r[9]@ == "poweroff"@,
{
    ["help", "echo", "meminfo", "uptime", "cpus", "dmesg", "ps", "panic", "reboot", "poweroff"]
}

/// What a typed line asks for.
pub enum Dispatch<F> {
    /// Nothing but blanks.
    Empty,
    /// Run `cmd` with the first `ntoks` tokens as its arguments.
    Run { cmd: Command<F>, ntoks: usize },
}

/// The text of a tokenizer error.
pub open spec fn token_err_text(e: TokenError) -> Seq<char> {
    match e {
        TokenError::UnclosedQuote => "unclosed quote"@,
        TokenError::TooMany => "too many tokens"@,
    }
}

/// Split `line` into `toks` and find the command its first token names.
/// Fails with the tokenizer's message, or with `unknown` for a name no
/// command has.
pub fn dispatch_line<'a, F: Copy>(reg: &Registry<F>, line: &'a str, toks: &mut [&'a str]) -> (r: Result<
    Dispatch<F>,
    &'static str,
>)
    requires
        reg.wf(),
    ensures
        final(toks)@.len() == old(toks)@.len(),
        match spans_from(line.spec_bytes(), 0, old(toks)@.len() as int) {
            Err(e) => (r matches Err(s) && s@ == token_err_text(e)),
            Ok(sp) => {
                &&& forall|k: int| 0 <= k < sp.len() ==> (#[trigger] final(toks)@[k]).spec_bytes()
                    == line.spec_bytes().subrange(sp[k].0, sp[k].1)
                &&& (sp.len() == 0 ==> (r matches Ok(Dispatch::Empty)))
                &&& sp.len() > 0 ==> match r {
                    Ok(Dispatch::Run { cmd, ntoks }) => ntoks == sp.len() && reg@.contains(cmd) && named(
                        cmd,
                        final(toks)@[0]@,
                    ),
                    Err(s) => s@ == "unknown"@ && forall|i: int|
                        0 <= i < reg@.len() ==> !named(#[trigger] reg@[i], final(toks)@[0]@),
                    _ => false,
                }
            },
        },
{
    let n = match tokenize(line, toks) {
        Ok(n) => n,
        Err(e) => return Err(e.as_str()),
    };
    if n == 0 {
        return Ok(Dispatch::Empty);
    }
    match reg.lookup(toks[0]) {
        Some(cmd) => Ok(Dispatch::Run { cmd, ntoks: n }),
        None => Err("unknown"),
    }
}

/// `echo`'s output for the arguments after `args[0]`: `args[1..i]`
/// joined by single spaces.
pub open spec fn echo_words(args: Seq<&str>, i: int) -> Seq<u8>
    decreases i,
{
    if i <= 1 {
        Seq::empty()
    } else if i == 2 {
        args[1].spec_bytes()
    } else {
        echo_words(args, i - 1) + seq![0x20u8] + args[i - 1].spec_bytes()
    }
}

/// `echo`: the arguments after the command name, space-separated, then a
/// newline.
pub fn echo_line(args: &[&str]) -> (out: Vec<u8>)
    ensures
        out@ == echo_words(args@, args@.len() as int) + seq![0x0Au8],
{
    let mut out: Vec<u8> = Vec::new();
    let mut i: usize = 1;
    while i < args.len()
        invariant
            1 <= i,
            i <= args@.len() || i == 1,
            out@ == echo_words(args@, i as int),
        decreases args@.len() - i,
    {
        if i > 1 {
            out.push(0x20);
        }
        push_str(&mut out, args[i]);
        i += 1;
        assert(out@ =~= echo_words(args@, i as int));
    }
    let ghost before = out@;
    out.push(0x0A);
    proof {
        if args@.len() == 0 {
            assert(echo_words(args@, 1) == echo_words(args@, 0));
        }
        assert(before == echo_words(args@, args@.len() as int));
        assert(out@ =~= before + seq![0x0Au8]);
    }
    out
}

/// `help`'s line for one command: `vibeOS: help: <name> - <help>`.
pub open spec fn help_line<F>(c: Command<F>) -> Seq<u8> {
    "vibeOS: help: ".spec_bytes() + c.name.spec_bytes() + " - ".spec_bytes() + c.help.spec_bytes() + seq![0x0Au8]
}

/// The help lines of the first `n` commands.
pub open spec fn help_lines_of<F>(cmds: Seq<Command<F>>, n: int) -> Seq<u8>
    decreases n,
{
    if n <= 0 { Seq::empty() } else { help_lines_of(cmds, n - 1) + help_line(cmds[n - 1]) }
}

/// `help`: one line per registered command, in registration order.
pub fn help_lines<F: Copy>(reg: &Registry<F>) -> (out: Vec<u8>)
    ensures
        out@ == help_lines_of(reg@, reg@.len() as int),
{
    let mut out: Vec<u8> = Vec::new();
    let n = reg.len();
    let mut i: usize = 0;
    while i < n
        invariant
            n == reg@.len(),
            i <= n,
            out@ == help_lines_of(reg@, i as int),
        decreases n - i,
    {
        match reg.get(i) {
            Some(c) => {
                let ghost before = out@;
                push_str(&mut out, "vibeOS: help: ");
                push_str(&mut out, c.name);
                push_str(&mut out, " - ");
                push_str(&mut out, c.help);
                out.push(0x0A);
                assert(out@ =~= before + help_line(c));
            },
            None => {},
        }
        i += 1;
    }
    out
}

/// Why `dmesg`'s arguments were refused.
#[derive(Clone, Copy, Debug, PartialEq, Eq, Structural)]
pub enum DmesgArgError {
    /// `-n` came last.
    NeedsLevel,
    /// `-n` was followed by no level.
    BadLevel,
    /// An argument that is neither a flag nor a level.
    BadArg,
}

impl DmesgArgError {
    pub fn as_str(self) -> (r: &'static str)
        ensures
            r@ == (match self {
                DmesgArgError::NeedsLevel => "-n needs a level"@,
                DmesgArgError::BadLevel => "bad level"@,
                DmesgArgError::BadArg => "bad arg"@,
            }),
    {
        match self {
            DmesgArgError::NeedsLevel => "-n needs a level",
            DmesgArgError::BadLevel => "bad level",
            DmesgArgError::BadArg => "bad arg",
        }
    }
}

/// What `dmesg`'s arguments ask for: the level to show (the runtime cap
/// when `None`), whether to follow, the runtime cap each `-n` sets (the
/// last one), and the error that stopped the parse, if any.
#[derive(Clone, Copy, Debug, PartialEq, Eq, Structural)]
pub struct DmesgArgs {
    pub view: Option<Level>,
    pub follow: bool,
    pub set_max: Option<Level>,
    pub error: Option<DmesgArgError>,
}

/// Parse `args` from `i` on, after what `acc` has seen.
pub open spec fn dmesg_parse(args: Seq<Seq<char>>, i: int, acc: DmesgArgs) -> DmesgArgs
    decreases args.len() - i,
{
    if i < 0 || i >= args.len() {
        acc
    } else if args[i] == "-f"@ || args[i] == "follow"@ {
        dmesg_parse(args, i + 1, DmesgArgs { follow: true, ..acc })
    } else if args[i] == "-n"@ {
        if i + 1 >= args.len() {
            DmesgArgs { error: Some(DmesgArgError::NeedsLevel), ..acc }
        } else {
            match level_named(args[i + 1]) {
                None => DmesgArgs { error: Some(DmesgArgError::BadLevel), ..acc },
                Some(l) => dmesg_parse(args, i + 2, DmesgArgs { view: Some(l), set_max: Some(l), ..acc }),
            }
        }
    } else {
        match level_named(args[i]) {
            Some(l) => dmesg_parse(args, i + 1, DmesgArgs { view: Some(l), ..acc }),
            None => DmesgArgs { error: Some(DmesgArgError::BadArg), ..acc },
        }
    }
}

/// The views of a list of string slices.
pub open spec fn views(args: Seq<&str>) -> Seq<Seq<char>> {
    args.map_values(|a: &str| a@)
}

/// Parse `dmesg`'s arguments (`args[0]` is the command name): `-f` or
/// `follow`, `-n <level>` (which also sets the runtime cap), or a bare
/// level.
pub fn parse_dmesg_args(args: &[&str]) -> (r: DmesgArgs)
    ensures
        r == dmesg_parse(views(args@), 1, DmesgArgs { view: None, follow: false, set_max: None, error: None }),
{
    let ghost a = views(args@);
    let ghost start = DmesgArgs { view: None, follow: false, set_max: None, error: None };
    let mut acc = DmesgArgs { view: None, follow: false, set_max: None, error: None };
    let mut i: usize = 1;
    while i < args.len()
        invariant
            a == views(args@),
            start == (DmesgArgs { view: None, follow: false, set_max: None, error: None }),
            a.len() == args@.len(),
            1 <= i,
            i <= args@.len() + 1,
            acc.error is None,
            dmesg_parse(a, i as int, acc) == dmesg_parse(a, 1, start),
        decreases args@.len() + 1 - i,
    {
        let s = args[i];
        proof {
            assert(a[i as int] == s@);
        }
        if crate::log::str_eq(s, "-f") || crate::log::str_eq(s, "follow") {
            acc.follow = true;
            i += 1;
        } else if crate::log::str_eq(s, "-n") {
            if i + 1 >= args.len() {
                return DmesgArgs { error: Some(DmesgArgError::NeedsLevel), ..acc };
            }
            proof {
                assert(a[i + 1] == args@[i + 1]@);
            }
            match Level::from_name(args[i + 1]) {
                None => return DmesgArgs { error: Some(DmesgArgError::BadLevel), ..acc },
                Some(l) => {
                    acc.view = Some(l);
                    acc.set_max = Some(l);
                    i += 2;
                },
            }
        } else {
            match Level::from_name(s) {
                Some(l) => {
                    acc.view = Some(l);
                    i += 1;
                },
                None => return DmesgArgs { error: Some(DmesgArgError::BadArg), ..acc },
            }
        }
    }
    acc
}

/// Where `dmesg -f` starts printing after the ring's write count went
/// from `seen` to `now` while it holds `len` records: the new records
/// are the last `now - seen` (all held ones when more were written);
/// nothing when the count did not move.
pub fn follow_start(seen: u64, now: u64, len: usize) -> (r: Option<usize>)
    ensures
        now <= seen ==> r is None,
        now > seen ==> r == Some(if len >= ((now - seen) as usize) { (len - ((now - seen) as usize)) as usize } else { 0usize }),
{
    if now > seen {
        let extra = (now - seen) as usize;
        Some(len.saturating_sub(extra))
    } else {
        None
    }
}

} // verus!
