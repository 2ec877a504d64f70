//! Command-line interface: the subcommand grammar of the tool. The
//! classification works on the argument strings alone; reading them from
//! the environment is the caller's business.

use vstd::prelude::*;

verus! {

/// _**Command-line Interface**_
#[derive(Debug)]
pub struct Cli {
    pub cmd: Option<String>,
    pub subcmd: Option<Subcmd>,
}

/// CLI subcommands.
#[derive(Debug, PartialEq)]
pub enum Subcmd {
    /// Build the release executable in the target folder.
    Build(Option<NestedSubcmdForBuild>),
    /// Build and run the hidden development executable.
    Run,
    /// Advise on the use of the command-line interface.
    Manual,
    /// Displays language version information.
    Version,
}

/// Subcommands of the `Build` subcommand.
#[derive(Debug, PartialEq)]
pub enum NestedSubcmdForBuild {
    /// Run the release executable from the target folder.
    Run,
}

/// Why a command line is refused.
#[derive(Debug, PartialEq)]
pub enum CliError {
    /// The first argument is no subcommand of the tool.
    IllegalSubcmd,
    /// The argument after `build` is no subcommand of `build`.
    IllegalSubcmdForBuild,
}

/// ASCII uppercase letters folded to lowercase, everything else kept.
pub open spec fn lower(s: Seq<char>) -> Seq<char> {
    s.map_values(
        |c: char|
            if 65 <= c as u32 <= 90 {
                (((c as u32) + 32) as u8) as char
            } else {
                c
            },
    )
}

/// What `Cli::parse` makes of the argument strings after the command
/// name, compared case-insensitively: no argument shows the version;
/// `build` takes an optional nested `run`; `run` and `manual` stand
/// alone; anything else is illegal.
pub open spec fn subcmd_of(args: Seq<Seq<char>>) -> Result<Subcmd, CliError> {
    if args.len() == 0 {
        Ok(Subcmd::Version)
    } else if lower(args[0]) == "build"@ {
        if args.len() == 1 {
            Ok(Subcmd::Build(None))
        } else if lower(args[1]) == "run"@ {
            Ok(Subcmd::Build(Some(NestedSubcmdForBuild::Run)))
        } else {
            Err(CliError::IllegalSubcmdForBuild)
        }
    } else if lower(args[0]) == "run"@ {
        Ok(Subcmd::Run)
    } else if lower(args[0]) == "manual"@ {
        Ok(Subcmd::Manual)
    } else {
        Err(CliError::IllegalSubcmd)
    }
}

/// Fold one character to ASCII lowercase.
fn lower_char(c: char) -> (r: char)
    ensures
        r == (if 65 <= c as u32 <= 90 {
            (((c as u32) + 32) as u8) as char
        } else {
            c
        }),
{
    let u = c as u32;
    if 65 <= u && u <= 90 {
        proof {
            assert(97 <= u + 32 <= 122);
        }
        ((u + 32) as u8) as char
    } else {
        c
    }
}

/// Compare a string, folded to ASCII lowercase, against a word.
pub fn eq_lower(s: &String, word: &str) -> (r: bool)
    ensures
        r == (lower(s@) == word@),
{
    let n = s.as_str().unicode_len();
    let m = word.unicode_len();
    if n != m {
        proof {
            assert(lower(s@).len() == s@.len());
        }
        return false;
    }
    let mut k: usize = 0;
    while k < n
        invariant
            k <= n,
            n == s@.len(),
            n == word@.len(),
            forall|j: int| 0 <= j < k ==> lower(s@)[j] == word@[j],
        decreases n - k,
    {
        let c = lower_char(s.as_str().get_char(k));
        if c != word.get_char(k) {
            proof {
                assert(lower(s@)[k as int] != word@[k as int]);
            }
            return false;
        }
        k = k + 1;
    }
    proof {
        assert(lower(s@) =~= word@);
    }
    true
}

impl Cli {
    /// Classify a command line: the command name itself, then the
    /// subcommand the remaining arguments select. An unrecognized
    /// subcommand is refused with the error the caller reports fatally.
    pub fn parse(cmd: Option<String>, args: &Vec<String>) -> (r: Result<Cli, CliError>)
        ensures
            match subcmd_of(args@.map_values(|a: String| a@)) {
                Ok(sc) => r matches Ok(c) && c.subcmd == Some(sc) && (match (c.cmd, cmd) {
                    (Some(x), Some(y)) => x@ == y@ && y@.len() > 0,
                    (None, Some(y)) => y@.len() == 0,
                    (None, None) => true,
                    _ => false,
                }),
                Err(e) => r matches Err(e2) && e2 == e,
            },
    {
        let ghost views = args@.map_values(|a: String| a@);
        proof {
            assert(views.len() == args@.len());
        }
        // `torch ...`
        //  ^^^^^
        let cmd = match cmd {
            Some(c) => {
                if c.as_str().unicode_len() > 0 {
                    Some(c)
                } else {
                    None
                }
            },
            None => None,
        };
        let subcmd = if args.len() == 0 {
            // `torch`
            Subcmd::Version
        } else {
            proof {
                assert(views[0] == args@[0]@);
            }
            if eq_lower(&args[0], "build") {
                // `torch build`
                //        ^^^^^
                if args.len() == 1 {
                    Subcmd::Build(None)
                } else {
                    proof {
                        assert(views[1] == args@[1]@);
                    }
                    if eq_lower(&args[1], "run") {
                        // `torch build run`
                        //              ^^^
                        Subcmd::Build(Some(NestedSubcmdForBuild::Run))
                    } else {
                        return Err(CliError::IllegalSubcmdForBuild);
                    }
                }
            } else if eq_lower(&args[0], "run") {
                // `torch run`
                //        ^^^
                Subcmd::Run
            } else if eq_lower(&args[0], "manual") {
                // `torch manual`
                //        ^^^^^^
                Subcmd::Manual
            } else {
                return Err(CliError::IllegalSubcmd);
            }
        };
        Ok(Cli { cmd, subcmd: Some(subcmd) })
    }
}

} // verus!
