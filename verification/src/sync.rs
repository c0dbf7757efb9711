//! The synchronizer's decision rules: deriving a checkout directory name and
//! a clone URL from a repository reference, choosing clone-vs-pull-vs-skip
//! for each entry, and judging a backend invocation's outcome. The caller
//! owns the filesystem checks and runs the backend; these rules are pure.

use crate::parse::Flavor;
use crate::parse::ParseError;
use vstd::prelude::*;
use vstd::string::StrSliceExecFns;
use vstd::string::StringExecFns;

verus! {

/// Whether a synchronizer run installs missing plugins or updates installed
/// ones.
#[derive(Debug, PartialEq, Eq, Clone, Copy)]
pub enum Mode {
    /// Clone entries whose directory is missing; skip the rest.
    Install,
    /// Pull entries whose directory is present; skip the rest.
    Update,
}

/// Unicode alphanumeric classification of a character, a function of the
/// character alone, as std computes it.
pub uninterp spec fn char_alphanumeric(c: char) -> bool;

/// Relies on `char::is_alphanumeric`: the result depends on the character
/// alone.
#[verifier::external_body]
fn alphanumeric(c: char) -> (r: bool)
    ensures
        r == char_alphanumeric(c),
{
    c.is_alphanumeric()
}

/// True when `c` may not stand in a checkout directory name: anything but an
/// alphanumeric character, `-`, `_` or `.`.
pub open spec fn spec_is_invalid(c: char) -> bool {
    !char_alphanumeric(c) && c != '-' && c != '_' && c != '.'
}

/// True when `c` may not stand in a checkout directory name.
pub fn is_invalid(ch: char) -> (r: bool)
    ensures
        r == spec_is_invalid(ch),
{
    !alphanumeric(ch) && ch != '-' && ch != '_' && ch != '.'
}

/// The filesystem-safe directory name derived from a repository reference:
/// each character that may not stand in a name is replaced by `_`.
pub open spec fn spec_dir_name(cs: Seq<char>) -> Seq<char> {
    cs.map(|i: int, c: char| if spec_is_invalid(c) { '_' } else { c })
}

/// Relies on `String::push`: it appends the one character to the string.
#[verifier::external_body]
fn push_char(s: &mut String, c: char)
    ensures
        final(s)@ == old(s)@.push(c),
{
    s.push(c);
}

/// Derives the local checkout directory name for a repository reference:
/// every character that is not alphanumeric, `-`, `_` or `.` becomes `_`.
/// Two references that sanitize alike alias the same directory; this mirrors
/// the manifest format's rules and is not detected here.
pub fn dir_name(repo: &str) -> (r: String)
    ensures
        r@ == spec_dir_name(repo@),
{
    let n = repo.unicode_len();
    let mut out = String::new();
    let mut i: usize = 0;
    while i < n
        invariant
            i <= n,
            n == repo@.len(),
            out@ == spec_dir_name(repo@.take(i as int)),
        decreases n - i,
    {
        let c = repo.get_char(i);
        if is_invalid(c) {
            push_char(&mut out, '_');
        } else {
            push_char(&mut out, c);
        }
        i += 1;
        proof {
            assert(spec_dir_name(repo@.take(i as int)) =~= spec_dir_name(
                repo@.take(i - 1),
            ).push(if spec_is_invalid(repo@[i - 1]) {
                '_'
            } else {
                repo@[i - 1]
            }));
        }
    }
    proof {
        assert(repo@.take(n as int) =~= repo@);
    }
    out
}

/// The number of `/` characters in `cs`.
pub open spec fn slash_count(cs: Seq<char>) -> nat
    decreases cs.len(),
{
    if cs.len() == 0 {
        0
    } else {
        slash_count(cs.drop_last()) + (if cs.last() == '/' {
            1nat
        } else {
            0nat
        })
    }
}

/// The clone URL completed from a repository reference: a bare name resolves
/// against the default plugin registry, an `owner/name` pair against the
/// generic host, and anything with more structure passes through unchanged.
pub open spec fn spec_complete(cs: Seq<char>) -> Seq<char> {
    if slash_count(cs) == 0 {
        "git://github.com/vim-scripts/"@ + cs + ".git"@
    } else if slash_count(cs) == 1 {
        "git://github.com/"@ + cs + ".git"@
    } else {
        cs
    }
}

/// Completes a repository reference into a clone URL.
pub fn complete(s: &str) -> (r: String)
    ensures
        r@ == spec_complete(s@),
{
    let n = s.unicode_len();
    let mut slashes: usize = 0;
    let mut i: usize = 0;
    while i < n
        invariant
            i <= n,
            n == s@.len(),
            slashes <= i,
            slashes == slash_count(s@.take(i as int)),
        decreases n - i,
    {
        let c = s.get_char(i);
        proof {
            assert(s@.take(i + 1).drop_last() =~= s@.take(i as int));
            assert(s@.take(i + 1).last() == s@[i as int]);
        }
        if c == '/' {
            slashes = slashes + 1;
        }
        i += 1;
    }
    proof {
        assert(s@.take(n as int) =~= s@);
    }
    if slashes == 0 {
        let mut r = String::from_str("git://github.com/vim-scripts/");
        r.append(s);
        r.append(".git");
        proof {
            assert(r@ =~= "git://github.com/vim-scripts/"@ + s@ + ".git"@);
        }
        r
    } else if slashes == 1 {
        let mut r = String::from_str("git://github.com/");
        r.append(s);
        r.append(".git");
        proof {
            assert(r@ =~= "git://github.com/"@ + s@ + ".git"@);
        }
        r
    } else {
        String::from_str(s)
    }
}

/// The action the synchronizer takes for one entry.
#[derive(Debug, PartialEq)]
pub enum Action {
    /// Nothing to do for this entry.
    Skip,
    /// Clone `url` at `branch` into the directory named `dir` under the
    /// root.
    Clone {
        /// The completed clone URL.
        url: String,
        /// The checkout directory name under the root.
        dir: String,
        /// The branch to clone.
        branch: String,
    },
    /// Pull `branch` inside the directory named `dir` under the root.
    Pull {
        /// The checkout directory name under the root.
        dir: String,
        /// The branch to pull.
        branch: String,
    },
}

/// Decides clone-vs-pull-vs-skip for one entry. `present` says whether the
/// entry's derived directory already exists under the root. Installing
/// skips a present entry and clones a missing one from its completed URL at
/// its branch; updating skips a missing entry and pulls a present one at
/// its branch.
pub fn plan(f: &Flavor, mode: Mode, present: bool) -> (a: Action)
    ensures
        match mode {
            Mode::Install => {
                if present {
                    a is Skip
                } else {
                    a matches Action::Clone { url, dir, branch } && url@ == spec_complete(f.repo@)
                        && dir@ == spec_dir_name(f.repo@) && branch@ == f.branch@
                }
            },
            Mode::Update => {
                if present {
                    a matches Action::Pull { dir, branch } && dir@ == spec_dir_name(f.repo@)
                        && branch@ == f.branch@
                } else {
                    a is Skip
                }
            },
        },
{
    match mode {
        Mode::Install => {
            if present {
                Action::Skip
            } else {
                Action::Clone {
                    url: complete(f.repo.as_str()),
                    dir: dir_name(f.repo.as_str()),
                    branch: f.branch.clone(),
                }
            }
        },
        Mode::Update => {
            if present {
                Action::Pull { dir: dir_name(f.repo.as_str()), branch: f.branch.clone() }
            } else {
                Action::Skip
            }
        },
    }
}

/// Why a synchronizer run failed.
#[derive(Debug, PartialEq)]
pub enum InstallError {
    /// The backend could not be started; carries the launch error's message.
    IO(String),
    /// The manifest could not be parsed.
    Parse(ParseError),
    /// The backend exited without success; carries the exit status code,
    /// when the backend got one, and the repository reference of the
    /// offending entry.
    Exit(Option<i32>, String),
}

/// What became of one backend invocation.
#[derive(Debug, PartialEq)]
pub enum Outcome {
    /// The backend could not be started; carries the launch error's message.
    Failed(String),
    /// The backend ran and exited with the given status code, `None` when it
    /// was terminated without one.
    Exited(Option<i32>),
}

/// Judges one backend invocation, deciding whether the run goes on: a
/// backend that could not start fails the run with its launch message, an
/// exit status other than zero fails it with that status and the offending
/// entry's repository, and an exit status of zero lets the run go on.
pub fn judge(f: &Flavor, o: Outcome) -> (r: Result<(), InstallError>)
    ensures
        match o {
            Outcome::Failed(m) => r matches Err(InstallError::IO(m2)) && m2@ == m@,
            Outcome::Exited(code) => {
                if code == Some(0i32) {
                    r is Ok
                } else {
                    r matches Err(InstallError::Exit(c2, repo)) && c2 == code && repo@ == f.repo@
                }
            },
        },
{
    match o {
        Outcome::Failed(m) => Err(InstallError::IO(m)),
        Outcome::Exited(code) => {
            match code {
                Some(c) => {
                    if c == 0 {
                        Ok(())
                    } else {
                        Err(InstallError::Exit(code, f.repo.clone()))
                    }
                },
                None => Err(InstallError::Exit(code, f.repo.clone())),
            }
        },
    }
}

impl core::convert::From<ParseError> for InstallError {
    fn from(e: ParseError) -> (r: InstallError) {
        InstallError::Parse(e)
    }
}

impl vstd::std_specs::convert::FromSpecImpl<ParseError> for InstallError {
    open spec fn obeys_from_spec() -> bool {
        true
    }

    open spec fn from_spec(e: ParseError) -> InstallError {
        InstallError::Parse(e)
    }
}

} // verus!
