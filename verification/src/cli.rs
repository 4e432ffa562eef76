//! The command line's decisions: what it was asked to do, how the sampling
//! flags combine with a program's own `sample` directive, and which front end
//! reads an input.
use vstd::prelude::*;
use crate::program::SampleSpec;
use crate::qasm::cat3;
use crate::text::{
    chars_of, is_ws, lemma_lead_ws_is, parse_u64, parse_u64_spec, parse_usize, parse_usize_spec, same, starts_with,
    strip_prefix, trim_start,
};

verus! {

/// What the command line was asked to produce.
#[derive(Debug, Clone, Copy, PartialEq, Eq, Structural)]
pub enum Mode {
    /// No arguments: the built-in demo.
    Demo,
    /// `--help`.
    Help,
    /// Run the program and print the diagram, probabilities, and sampling.
    Run,
    /// Print the circuit as OpenQASM 2.0.
    EmitQasm,
    /// Print the final amplitudes as JSON.
    Statevector,
}

/// The parsed command line.
#[derive(Debug)]
pub struct Cli {
    /// What to produce.
    pub mode: Mode,
    /// The program file, `-` for stdin.
    pub path: Option<String>,
    /// `--shots N`
    pub shots: Option<usize>,
    /// `--seed S`
    pub seed: Option<u64>,
}

/// The content of a [`Cli`].
pub struct CliV {
    pub mode: Mode,
    pub path: Option<Seq<char>>,
    pub shots: Option<usize>,
    pub seed: Option<u64>,
}

impl View for Cli {
    type V = CliV;

    open spec fn view(&self) -> CliV {
        CliV {
            mode: self.mode,
            path: match self.path {
                Some(p) => Some(p@),
                None => None,
            },
            shots: self.shots,
            seed: self.seed,
        }
    }
}

/// The arguments `args[k..]` read into `cli`, `saw` telling whether a mode
/// flag came before; the flag `--help` ends the reading at once, which the
/// last component reports.
pub open spec fn args_from(args: Seq<Seq<char>>, k: int, cli: CliV, saw: bool) -> Result<(CliV, bool, bool), Seq<char>>
    decreases args.len() - k,
{
    if k < 0 || k >= args.len() {
        Ok((cli, saw, false))
    } else {
        let a = args[k];
        if a == "-h"@ || a == "--help"@ {
            Ok((CliV { mode: Mode::Help, ..cli }, saw, true))
        } else if a == "--emit-qasm"@ || a == "--statevector"@ {
            if saw {
                Err("`--emit-qasm` and `--statevector` are exclusive"@)
            } else {
                let mode = if a == "--emit-qasm"@ { Mode::EmitQasm } else { Mode::Statevector };
                args_from(args, k + 1, CliV { mode, ..cli }, true)
            }
        } else if a == "--shots"@ {
            if k + 1 >= args.len() {
                Err("`--shots` needs a value"@)
            } else {
                match parse_usize_spec(args[k + 1]) {
                    None => Err("invalid shot count `"@ + args[k + 1] + "`"@),
                    Some(v) => args_from(args, k + 2, CliV { shots: Some(v), ..cli }, saw),
                }
            }
        } else if a == "--seed"@ {
            if k + 1 >= args.len() {
                Err("`--seed` needs a value"@)
            } else {
                match parse_u64_spec(args[k + 1]) {
                    None => Err("invalid seed `"@ + args[k + 1] + "`"@),
                    Some(v) => args_from(args, k + 2, CliV { seed: Some(v), ..cli }, saw),
                }
            }
        } else if a.len() > 0 && a[0] == '-' && a != "-"@ {
            Err("unknown flag `"@ + a + "`"@)
        } else if cli.path is Some {
            Err("unexpected arguments after the program file: `"@ + a + "`"@)
        } else {
            args_from(args, k + 1, CliV { path: Some(a), ..cli }, saw)
        }
    }
}

/// What the command line `args` asks for: with no program file the demo,
/// unless a flag needs one; the sampling flags only for a run.
pub open spec fn cli_spec(args: Seq<Seq<char>>) -> Result<CliV, Seq<char>> {
    let start = CliV { mode: Mode::Run, path: None, shots: None, seed: None };
    match args_from(args, 0, start, false) {
        Err(e) => Err(e),
        Ok((cli, saw, done)) => if done {
            Ok(cli)
        } else if cli.path is None && (saw || cli.shots is Some || cli.seed is Some) {
            Err("expected a program file, or `-` to read stdin"@)
        } else if saw && (cli.shots is Some || cli.seed is Some) {
            Err("`--shots`/`--seed` do not apply to `--emit-qasm` or `--statevector`"@)
        } else if cli.path is None {
            Ok(CliV { mode: Mode::Demo, ..cli })
        } else {
            Ok(cli)
        },
    }
}

/// The characters of each argument.
pub open spec fn args_v(args: Seq<String>) -> Seq<Seq<char>> {
    args.map_values(|a: String| a@)
}

/// Whether `a` reads `lit`.
fn reads(a: &[char], lit: &str) -> (r: bool)
    ensures
        r == (a@ == lit@),
{
    same(a, chars_of(lit).as_slice())
}

/// Parse the command line.
pub fn parse_args(args: &[String]) -> (r: Result<Cli, String>)
    ensures
        match r {
            Ok(c) => cli_spec(args_v(args@)) == Ok::<CliV, Seq<char>>(c@),
            Err(m) => cli_spec(args_v(args@)) == Err::<CliV, Seq<char>>(m@),
        },
{
    let ghost av = args_v(args@);
    let mut cli = Cli { mode: Mode::Run, path: None, shots: None, seed: None };
    let mut saw = false;
    let mut k: usize = 0;
    let n = args.len();
    while k < n
        invariant
            k <= n,
            n == args@.len(),
            av == args_v(args@),
            args_from(av, 0, CliV { mode: Mode::Run, path: None, shots: None, seed: None }, false) == args_from(
                av,
                k as int,
                cli@,
                saw,
            ),
        decreases n - k,
    {
        let a = chars_of(args[k].as_str());
        proof {
            assert(av[k as int] == a@);
        }
        if reads(a.as_slice(), "-h") || reads(a.as_slice(), "--help") {
            cli.mode = Mode::Help;
            return Ok(cli);
        } else if reads(a.as_slice(), "--emit-qasm") || reads(a.as_slice(), "--statevector") {
            if saw {
                return Err(crate::text::string_of(chars_of("`--emit-qasm` and `--statevector` are exclusive").as_slice()));
            }
            saw = true;
            cli.mode = if reads(a.as_slice(), "--emit-qasm") { Mode::EmitQasm } else { Mode::Statevector };
            k = k + 1;
        } else if reads(a.as_slice(), "--shots") {
            if k + 1 >= n {
                return Err(crate::text::string_of(chars_of("`--shots` needs a value").as_slice()));
            }
            let v = chars_of(args[k + 1].as_str());
            proof {
                assert(av[k + 1] == v@);
            }
            match parse_usize(v.as_slice()) {
                Some(x) => { cli.shots = Some(x); },
                None => return Err(crate::text::string_of(cat3("invalid shot count `", v.as_slice(), "`").as_slice())),
            }
            k = k + 2;
        } else if reads(a.as_slice(), "--seed") {
            if k + 1 >= n {
                return Err(crate::text::string_of(chars_of("`--seed` needs a value").as_slice()));
            }
            let v = chars_of(args[k + 1].as_str());
            proof {
                assert(av[k + 1] == v@);
            }
            match parse_u64(v.as_slice()) {
                Some(x) => { cli.seed = Some(x); },
                None => return Err(crate::text::string_of(cat3("invalid seed `", v.as_slice(), "`").as_slice())),
            }
            k = k + 2;
        } else if a.len() > 0 && a[0] == '-' && !reads(a.as_slice(), "-") {
            return Err(crate::text::string_of(cat3("unknown flag `", a.as_slice(), "`").as_slice()));
        } else if cli.path.is_some() {
            return Err(crate::text::string_of(
                cat3("unexpected arguments after the program file: `", a.as_slice(), "`").as_slice(),
            ));
        } else {
            cli.path = Some(args[k].clone());
            k = k + 1;
        }
    }
    if cli.path.is_none() && (saw || cli.shots.is_some() || cli.seed.is_some()) {
        return Err(crate::text::string_of(chars_of("expected a program file, or `-` to read stdin").as_slice()));
    }
    if saw && (cli.shots.is_some() || cli.seed.is_some()) {
        return Err(crate::text::string_of(
            chars_of("`--shots`/`--seed` do not apply to `--emit-qasm` or `--statevector`").as_slice(),
        ));
    }
    if cli.path.is_none() {
        cli.mode = Mode::Demo;
    }
    Ok(cli)
}

/// How the `--shots` and `--seed` flags combine with a program's own
/// `sample` directive: the flags override it; a seed alone re-seeds it; a
/// seed with nothing to sample is an error.
pub open spec fn effective_sample_spec(
    spec: Option<SampleSpec>,
    shots: Option<usize>,
    seed: Option<u64>,
) -> Result<Option<SampleSpec>, Seq<char>> {
    match (shots, seed) {
        (None, None) => Ok(spec),
        (Some(n), s) => Ok(Some(SampleSpec {
            shots: n,
            seed: match s {
                Some(x) => x,
                None => match spec {
                    Some(p) => p.seed,
                    None => 0,
                },
            },
        })),
        (None, Some(x)) => match spec {
            Some(p) => Ok(Some(SampleSpec { shots: p.shots, seed: x })),
            None => Err("`--seed` needs `--shots`, or a `sample` directive in the program"@),
        },
    }
}

/// Combine the program's own `sample` directive with the `--shots`/`--seed`
/// flags.
pub fn effective_sample(spec: Option<SampleSpec>, shots: Option<usize>, seed: Option<u64>) -> (r: Result<
    Option<SampleSpec>,
    String,
>)
    ensures
        match r {
            Ok(s) => effective_sample_spec(spec, shots, seed) == Ok::<Option<SampleSpec>, Seq<char>>(s),
            Err(m) => effective_sample_spec(spec, shots, seed) == Err::<Option<SampleSpec>, Seq<char>>(m@),
        },
{
    match (shots, seed) {
        (None, None) => Ok(spec),
        (Some(n), s) => {
            let sd = match s {
                Some(x) => x,
                None => match spec {
                    Some(p) => p.seed,
                    None => 0,
                },
            };
            Ok(Some(SampleSpec { shots: n, seed: sd }))
        },
        (None, Some(x)) => match spec {
            Some(p) => Ok(Some(SampleSpec { shots: p.shots, seed: x })),
            None => Err(crate::text::string_of(
                chars_of("`--seed` needs `--shots`, or a `sample` directive in the program").as_slice(),
            )),
        },
    }
}

/// Whether an input is OpenQASM rather than the native format: by a `.qasm`
/// path, or an `OPENQASM` header at the start of the text.
pub open spec fn reads_as_qasm(path: Seq<char>, src: Seq<char>) -> bool {
    let ext = ".qasm"@;
    (path.len() >= ext.len() && path.skip(path.len() - ext.len()) == ext) || strip_prefix(
        trim_start(src),
        "OPENQASM"@,
    ) is Some
}

/// Whether the input at `path` holding `src` is read as OpenQASM.
pub fn is_qasm_input(path: &str, src: &str) -> (r: bool)
    ensures
        r == reads_as_qasm(path@, src@),
{
    let p = chars_of(path);
    let ext = chars_of(".qasm");
    if p.len() >= ext.len() {
        let tail = crate::text::copy_range(p.as_slice(), p.len() - ext.len(), p.len());
        proof {
            assert(tail@ =~= p@.skip(p@.len() - ext@.len()));
        }
        if same(tail.as_slice(), ext.as_slice()) {
            return true;
        }
    }
    let s = chars_of(src);
    let mut k: usize = 0;
    while k < s.len() && crate::text::ws(s[k])
        invariant
            k <= s@.len(),
            forall|m: int| 0 <= m < k ==> is_ws(#[trigger] s@[m]),
        decreases s@.len() - k,
    {
        k = k + 1;
    }
    proof {
        lemma_lead_ws_is(s@, k as int);
    }
    let start = crate::text::copy_range(s.as_slice(), k, s.len());
    proof {
        assert(start@ =~= trim_start(s@));
    }
    starts_with(start.as_slice(), chars_of("OPENQASM").as_slice())
}

} // verus!
