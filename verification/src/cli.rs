//! The command line the application accepts: `--new-note` opens a new note
//! at start-up, `--stress [N]` runs the stress driver for N rounds.

use vstd::prelude::*;
use crate::text::{parse_u32, parse_u32_spec, same_chars};

verus! {

/// What the command line asks for.
#[derive(Debug, Clone, Copy, PartialEq, Eq, Structural)]
pub struct CliOptions {
    pub start_new_note: bool,
    pub stress_rounds: u32,
}

impl Default for CliOptions {
    fn default() -> (o: CliOptions)
        ensures
            o == (CliOptions { start_new_note: false, stress_rounds: 0 }),
    {
        CliOptions { start_new_note: false, stress_rounds: 0 }
    }
}

/// The rounds a `--stress` run takes when no count follows.
pub const DEFAULT_STRESS_ROUNDS: u32 = 60;

/// The fewest rounds a `--stress` run takes.
pub const MIN_STRESS_ROUNDS: u32 = 4;

/// The options after reading `args[i..]` with `o` read so far: `--new-note`
/// sets the flag; `--stress` takes the next argument as the number of
/// rounds (at least 4) when it is a `u32`, else runs 60 rounds; anything
/// else is passed over.
pub open spec fn cli_scan(args: Seq<String>, i: int, o: CliOptions) -> CliOptions
    decreases args.len() - i,
{
    if i < 0 || i >= args.len() {
        o
    } else if args[i]@ == "--new-note"@ {
        cli_scan(args, i + 1, CliOptions { start_new_note: true, ..o })
    } else if args[i]@ == "--stress"@ {
        if i + 1 < args.len() && parse_u32_spec(args[i + 1]@) is Some {
            let n = parse_u32_spec(args[i + 1]@)->0;
            cli_scan(
                args,
                i + 2,
                CliOptions { stress_rounds: if n < MIN_STRESS_ROUNDS { MIN_STRESS_ROUNDS } else { n }, ..o },
            )
        } else {
            cli_scan(args, i + 1, CliOptions { stress_rounds: DEFAULT_STRESS_ROUNDS, ..o })
        }
    } else {
        cli_scan(args, i + 1, o)
    }
}

/// The options the arguments `args` ask for (the program name included,
/// which is passed over like any other word).
pub open spec fn cli_options(args: Seq<String>) -> CliOptions {
    cli_scan(args, 0, CliOptions { start_new_note: false, stress_rounds: 0 })
}

/// Reads the command line `args`.
pub fn parse_cli_args(args: &Vec<String>) -> (o: CliOptions)
    ensures
        o == cli_options(args@),
{
    let mut o = CliOptions::default();
    let mut i: usize = 0;
    while i < args.len()
        invariant
            i <= args@.len(),
            cli_scan(args@, i as int, o) == cli_options(args@),
        decreases args@.len() - i,
    {
        let a = args[i].as_str();
        proof {
            reveal_strlit("--new-note");
            reveal_strlit("--stress");
        }
        if same_chars(a, "--new-note") {
            o.start_new_note = true;
        } else if same_chars(a, "--stress") {
            let count = if i + 1 < args.len() {
                parse_u32(args[i + 1].as_str())
            } else {
                None
            };
            match count {
                Some(n) => {
                    o.stress_rounds = if n < MIN_STRESS_ROUNDS {
                        MIN_STRESS_ROUNDS
                    } else {
                        n
                    };
                    i = i + 1;
                },
                None => {
                    o.stress_rounds = DEFAULT_STRESS_ROUNDS;
                },
            }
        }
        i = i + 1;
    }
    o
}

/// A stress run takes at least 4 rounds: the rounds the command line asks
/// for are 0 (no run) or at least 4.
pub proof fn lemma_stress_rounds_floor(args: Seq<String>)
    ensures
        cli_options(args).stress_rounds == 0 || cli_options(args).stress_rounds >= MIN_STRESS_ROUNDS,
{
    lemma_scan_keeps_floor(args, 0, CliOptions { start_new_note: false, stress_rounds: 0 });
}

/// Reading more arguments keeps the rounds at 0 or at least 4.
proof fn lemma_scan_keeps_floor(args: Seq<String>, i: int, o: CliOptions)
    requires
        o.stress_rounds == 0 || o.stress_rounds >= MIN_STRESS_ROUNDS,
    ensures
        cli_scan(args, i, o).stress_rounds == 0 || cli_scan(args, i, o).stress_rounds >= MIN_STRESS_ROUNDS,
    decreases args.len() - i,
{
    if 0 <= i < args.len() {
        if args[i]@ == "--new-note"@ {
            lemma_scan_keeps_floor(args, i + 1, CliOptions { start_new_note: true, ..o });
        } else if args[i]@ == "--stress"@ {
            if i + 1 < args.len() && parse_u32_spec(args[i + 1]@) is Some {
                let n = parse_u32_spec(args[i + 1]@)->0;
                lemma_scan_keeps_floor(
                    args,
                    i + 2,
                    CliOptions { stress_rounds: if n < MIN_STRESS_ROUNDS { MIN_STRESS_ROUNDS } else { n }, ..o },
                );
            } else {
                lemma_scan_keeps_floor(args, i + 1, CliOptions { stress_rounds: DEFAULT_STRESS_ROUNDS, ..o });
            }
        } else {
            lemma_scan_keeps_floor(args, i + 1, o);
        }
    }
}

} // verus!
