//! The validated inputs of each command, the closed set of commands, and
//! the pure path-selection rules: which files a set of option flags names,
//! the default reference file among the candidates that exist, and the
//! filtering of directory listings down to environment files.

use vstd::prelude::*;

verus! {

use vstd::string::StringExecFns;
use crate::text::str_eq;
use crate::text::str_has_prefix;
use crate::text::str_has_substring;
use crate::text::has_prefix;
use crate::text::has_substring;
use crate::text::split_str;
use crate::text::spec_split_on;

/// The global options: which reference file to use, and the bare tokens
/// that an implicit `add` consumes.
#[derive(Debug)]
pub struct Cli {
    pub verbose: bool,
    /// Use `.env.production` as the reference file.
    pub production: bool,
    /// Use `.env.development` as the reference file.
    pub development: bool,
    /// Use `.env` as the reference file.
    pub normal: bool,
    /// Use `.env.example` as the reference file.
    pub example: bool,
    /// Explicit reference paths; each entry may hold several, separated by
    /// commas.
    pub env_file: Vec<String>,
    /// Bare `KEY=VALUE` tokens for the implicit `add` command.
    pub pairs: Vec<String>,
}

/// Inputs of the `add` command.
#[derive(Debug)]
pub struct Add {
    pub force: bool,
    pub all: bool,
    pub pairs: Vec<String>,
}

/// Inputs of the `check` command.
#[derive(Debug)]
pub struct Check {
    pub quiet: bool,
    pub force: bool,
    pub files: Vec<String>,
}

/// Inputs of the `remove` command. Keys may contain `=`; the value part is
/// ignored.
#[derive(Debug)]
pub struct Remove {
    pub all: bool,
    pub keys: Vec<String>,
}

/// Inputs of the `run` command: the command line, possibly beginning with
/// `KEY=VALUE` overrides.
#[derive(Debug)]
pub struct Run {
    pub command: Vec<String>,
}

/// Inputs of the `show` command.
#[derive(Debug)]
pub struct Show {}

/// Inputs of the `init` command.
#[derive(Debug)]
pub struct Init {}

/// The closed set of commands, dispatched by a single match.
#[derive(Debug)]
pub enum Command {
    Init(Init),
    Add(Add),
    Check(Check),
    Remove(Remove),
    Run(Run),
    Show(Show),
}

/// The paths selected by the option flags, in their fixed order.
pub open spec fn spec_flag_paths(cli: &Cli) -> Seq<Seq<char>> {
    (if cli.production {
        seq![(".env.production")@]
    } else {
        Seq::<Seq<char>>::empty()
    }) + (if cli.development {
        seq![(".env.development")@]
    } else {
        Seq::<Seq<char>>::empty()
    }) + (if cli.normal {
        seq![(".env")@]
    } else {
        Seq::<Seq<char>>::empty()
    }) + (if cli.example {
        seq![(".env.example")@]
    } else {
        Seq::<Seq<char>>::empty()
    })
}

/// Every explicit path entry split on commas, in order.
pub open spec fn spec_comma_paths(files: Seq<Seq<char>>) -> Seq<Seq<char>>
    decreases files.len(),
{
    if files.len() == 0 {
        Seq::empty()
    } else {
        spec_comma_paths(files.drop_last()) + spec_split_on(files.last(), ',')
    }
}

/// All reference paths the command line names: flag-selected paths first,
/// then the explicit entries, comma-split. May be empty;
/// [`Cli::envfiles_or_default`] adds the default-file fallback.
pub open spec fn spec_provided_envfiles(cli: &Cli) -> Seq<Seq<char>> {
    spec_flag_paths(cli) + spec_comma_paths(cli.env_file.deep_view())
}

impl Cli {
    /// All reference paths this command line names, in order.
    pub fn all_provided_envfiles(&self) -> (r: Vec<String>)
        ensures
            r.deep_view() == spec_provided_envfiles(self),
    {
        let mut paths: Vec<String> = Vec::new();
        if self.production {
            paths.push(String::from_str(".env.production"));
        }
        if self.development {
            paths.push(String::from_str(".env.development"));
        }
        if self.normal {
            paths.push(String::from_str(".env"));
        }
        if self.example {
            paths.push(String::from_str(".env.example"));
        }
        proof {
            assert(paths.deep_view() =~= spec_flag_paths(self));
        }
        let nf: usize = self.env_file.len();
        let mut i: usize = 0;
        proof {
            assert(spec_comma_paths(self.env_file.deep_view().take(0)) =~= Seq::<Seq<char>>::empty());
            assert(paths.deep_view() =~= spec_flag_paths(self) + spec_comma_paths(
                self.env_file.deep_view().take(0),
            ));
        }
        while i < nf
            invariant
                0 <= i <= nf,
                nf == self.env_file.len(),
                paths.deep_view() == spec_flag_paths(self) + spec_comma_paths(
                    self.env_file.deep_view().take(i as int),
                ),
            decreases nf - i,
        {
            let ghost pre = paths.deep_view();
            let mut parts = split_str(self.env_file[i].as_str(), ',');
            let ghost parts_view = parts.deep_view();
            paths.append(&mut parts);
            proof {
                assert(paths.deep_view() =~= pre + parts_view);
                assert(self.env_file.deep_view().take(i as int + 1).drop_last()
                    =~= self.env_file.deep_view().take(i as int));
                assert(self.env_file.deep_view().take(i as int + 1).last()
                    == self.env_file.deep_view()[i as int]);
                assert(paths.deep_view() =~= spec_flag_paths(self) + spec_comma_paths(
                    self.env_file.deep_view().take(i as int + 1),
                ));
            }
            i = i + 1;
        }
        proof {
            assert(self.env_file.deep_view().take(nf as int) =~= self.env_file.deep_view());
        }
        paths
    }

    /// The first reference path this command line names, if any.
    pub fn provided_envfile(&self) -> (r: Option<String>)
        ensures
            match r {
                Some(p) => spec_provided_envfiles(self).len() > 0 && p@ == spec_provided_envfiles(
                    self,
                )[0],
                None => spec_provided_envfiles(self).len() == 0,
            },
    {
        let mut all = self.all_provided_envfiles();
        if all.len() > 0 {
            Some(all.remove(0))
        } else {
            None
        }
    }

    /// All reference paths with the fallback the selection rule always had:
    /// the named paths when the command line names any, else the first
    /// existing default candidate, so the result is never empty. Each flag
    /// says whether the default candidate at its position exists on disk;
    /// `None` only when nothing is named and no candidate exists.
    pub fn envfiles_or_default(
        &self,
        local: bool,
        development: bool,
        normal: bool,
        parent: bool,
    ) -> (r: Option<Vec<String>>)
        ensures
            match r {
                Some(paths) => {
                    &&& paths.deep_view().len() > 0
                    &&& spec_provided_envfiles(self).len() > 0 ==> paths.deep_view()
                        == spec_provided_envfiles(self)
                    &&& spec_provided_envfiles(self).len() == 0 ==> (spec_default_envfile(
                        local,
                        development,
                        normal,
                        parent,
                    ) matches Some(d) && paths.deep_view() == seq![d])
                },
                None => spec_provided_envfiles(self).len() == 0 && spec_default_envfile(
                    local,
                    development,
                    normal,
                    parent,
                ) is None,
            },
    {
        let paths = self.all_provided_envfiles();
        if paths.len() > 0 {
            return Some(paths);
        }
        match default_envfile(local, development, normal, parent) {
            Some(d) => {
                let ghost dv = d@;
                let mut fallback: Vec<String> = Vec::new();
                fallback.push(d);
                proof {
                    assert(fallback.deep_view() =~= seq![dv]);
                }
                Some(fallback)
            },
            None => None,
        }
    }
}

/// The default reference file, among the four candidates, given which of
/// them the caller found on disk: the first existing of `.env.local`,
/// `.env.development`, `.env`, `../.env`.
pub open spec fn spec_default_envfile(
    local: bool,
    development: bool,
    normal: bool,
    parent: bool,
) -> Option<Seq<char>> {
    if local {
        Some((".env.local")@)
    } else if development {
        Some((".env.development")@)
    } else if normal {
        Some((".env")@)
    } else if parent {
        Some(("../.env")@)
    } else {
        None
    }
}

/// Pick the default reference file. Each flag says whether the candidate at
/// its position exists on disk; `None` when none of them does.
pub fn default_envfile(local: bool, development: bool, normal: bool, parent: bool) -> (r: Option<
    String,
>)
    ensures
        r.deep_view() == spec_default_envfile(local, development, normal, parent),
{
    if local {
        Some(String::from_str(".env.local"))
    } else if development {
        Some(String::from_str(".env.development"))
    } else if normal {
        Some(String::from_str(".env"))
    } else if parent {
        Some(String::from_str("../.env"))
    } else {
        None
    }
}

/// Keep the file names that look like environment files (they begin with
/// `.env`) and are not the excluded path.
pub fn envfiles_excluding(names: &Vec<String>, exclude: &str) -> (r: Vec<String>)
    ensures
        r.deep_view() == names.deep_view().filter(
            |n: Seq<char>| has_prefix(n, (".env")@) && n != exclude@,
        ),
{
    let ghost pred = |n: Seq<char>| has_prefix(n, (".env")@) && n != exclude@;
    let n: usize = names.len();
    let mut out: Vec<String> = Vec::new();
    let mut i: usize = 0;
    proof {
        reveal(Seq::filter);
        assert(names.deep_view().take(0) =~= Seq::<Seq<char>>::empty());
    }
    while i < n
        invariant
            0 <= i <= n,
            n == names.len(),
            out.deep_view() == names.deep_view().take(i as int).filter(
                |n: Seq<char>| has_prefix(n, (".env")@) && n != exclude@,
            ),
        decreases n - i,
    {
        let ghost pre = out.deep_view();
        let keep = str_has_prefix(names[i].as_str(), ".env") && !str_eq(names[i].as_str(), exclude);
        if keep {
            out.push(names[i].clone());
        }
        proof {
            reveal(Seq::filter);
            assert(names.deep_view().take(i as int + 1).drop_last() =~= names.deep_view().take(
                i as int,
            ));
            assert(names.deep_view().take(i as int + 1).last() == names.deep_view()[i as int]);
            if keep {
                assert(out.deep_view() =~= pre.push(names.deep_view()[i as int]));
            }
            assert(out.deep_view() =~= names.deep_view().take(i as int + 1).filter(
                |n: Seq<char>| has_prefix(n, (".env")@) && n != exclude@,
            ));
        }
        i = i + 1;
    }
    proof {
        assert(names.deep_view().take(n as int) =~= names.deep_view());
    }
    out
}

/// True when the gitignore content nowhere mentions `.env`, so the dotenv
/// rules still need to be appended.
pub fn gitignore_needs_rules(content: &str) -> (r: bool)
    ensures
        r == !has_substring(content@, (".env")@),
{
    !str_has_substring(content, ".env")
}

} // verus!
