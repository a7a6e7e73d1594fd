//! The pure core of the git synchronisation commands.
//!
//! Running the `git` binary is input/output and stays outside the library;
//! here live the parts that can be pinned down exactly: which argument lists
//! the operations pass to git, how a failed commit is classified, what each
//! error reads as, and which operation follows which during a sync.

use vstd::prelude::*;
use crate::text::chars_of;
use crate::ranking::{first_occurrence, find_substring};

verus! {

/// Failures of the git operations. A failure of the process launch carries
/// the I/O error's message.
#[derive(Debug)]
pub enum GitError {
    IoError(String),
    CommandFailed { operation: String, stderr: String },
    PathNotFound(String),
    NothingToCommit,
}

impl GitError {
    /// What the error reads as.
    pub open spec fn spec_message(self) -> Seq<char> {
        match self {
            GitError::IoError(e) => "IO error: "@ + e@,
            GitError::CommandFailed { operation, stderr } => "Git "@ + operation@ + " failed: "@
                + stderr@,
            GitError::PathNotFound(p) => "Path not found: "@ + p@,
            GitError::NothingToCommit => "Nothing to commit"@,
        }
    }

    /// The human-readable message that the presentation layer prints.
    pub fn message(&self) -> (r: String)
        ensures
            r@ == self.spec_message(),
    {
        match self {
            GitError::IoError(e) => {
                let mut r = String::new();
                r.append("IO error: ");
                r.append(e.as_str());
                proof {
                    assert(r@ =~= self.spec_message());
                }
                r
            },
            GitError::CommandFailed { operation, stderr } => {
                let mut r = String::new();
                r.append("Git ");
                r.append(operation.as_str());
                r.append(" failed: ");
                r.append(stderr.as_str());
                proof {
                    assert(r@ =~= self.spec_message());
                }
                r
            },
            GitError::PathNotFound(p) => {
                let mut r = String::new();
                r.append("Path not found: ");
                r.append(p.as_str());
                proof {
                    assert(r@ =~= self.spec_message());
                }
                r
            },
            GitError::NothingToCommit => {
                let mut r = String::new();
                r.append("Nothing to commit");
                proof {
                    assert(r@ =~= self.spec_message());
                }
                r
            },
        }
    }
}

/// Which remote and branch the git operations talk to.
#[derive(Debug, Clone)]
pub struct GitConfig {
    pub remote: String,
    pub branch: String,
    pub allow_unrelated_histories: bool,
}

impl GitConfig {
    /// The configuration a repository starts with.
    pub open spec fn is_default(self) -> bool {
        &&& self.remote@ == "origin"@
        &&& self.branch@ == "master"@
        &&& self.allow_unrelated_histories
    }
}

impl Default for GitConfig {
    /// Remote `origin`, branch `master`, unrelated histories allowed.
    fn default() -> (c: GitConfig)
        ensures
            c.is_default(),
    {
        GitConfig {
            remote: String::from_str("origin"),
            branch: String::from_str("master"),
            allow_unrelated_histories: true,
        }
    }
}

/// A git repository at a path that has been checked to exist, and the
/// configuration its operations use.
#[derive(Debug)]
pub struct GitRepo {
    path: String,
    config: GitConfig,
}

impl GitRepo {
    /// The repository's path.
    pub closed spec fn spec_path(self) -> Seq<char> {
        self.path@
    }

    /// The repository's configuration.
    pub closed spec fn spec_config(self) -> GitConfig {
        self.config
    }

    /// A repository at `path` with the default configuration; whether the
    /// path exists on disk is checked by the caller and passed in.
    pub fn new(path: String, path_exists: bool) -> (r: Result<GitRepo, GitError>)
        ensures
            match r {
                Ok(repo) => path_exists && repo.spec_path() == path@
                    && repo.spec_config().is_default(),
                Err(e) => !path_exists && e == GitError::PathNotFound(path),
            },
    {
        if !path_exists {
            return Err(GitError::PathNotFound(path));
        }
        Ok(GitRepo { path, config: GitConfig::default() })
    }

    /// A repository at `path` with the given configuration.
    pub fn _with_config(path: String, config: GitConfig, path_exists: bool) -> (r: Result<
        GitRepo,
        GitError,
    >)
        ensures
            match r {
                Ok(repo) => path_exists && repo.spec_path() == path@ && repo.spec_config()
                    == config,
                Err(e) => !path_exists && e == GitError::PathNotFound(path),
            },
    {
        if !path_exists {
            return Err(GitError::PathNotFound(path));
        }
        Ok(GitRepo { path, config })
    }

    /// The arguments every git invocation starts with: `-C <path>`.
    pub fn command_args(&self) -> (r: Vec<String>)
        ensures
            r@.len() == 2,
            r@[0]@ == "-C"@,
            r@[1]@ == self.spec_path(),
    {
        let mut r: Vec<String> = Vec::new();
        r.push(String::from_str("-C"));
        r.push(self.path.clone());
        r
    }

    /// The arguments of a fetch: `fetch --prune <remote> <branch>`.
    pub fn fetch_args(&self) -> (r: Vec<String>)
        ensures
            r@.len() == 4,
            r@[0]@ == "fetch"@,
            r@[1]@ == "--prune"@,
            r@[2]@ == self.spec_config().remote@,
            r@[3]@ == self.spec_config().branch@,
    {
        let mut r: Vec<String> = Vec::new();
        r.push(String::from_str("fetch"));
        r.push(String::from_str("--prune"));
        r.push(self.config.remote.clone());
        r.push(self.config.branch.clone());
        r
    }

    /// The arguments of a merge: `merge <remote>/<branch>`, plus
    /// `--allow-unrelated-histories` when the configuration asks for it.
    pub fn merge_args(&self) -> (r: Vec<String>)
        ensures
            r@[0]@ == "merge"@,
            r@[1]@ == self.spec_config().remote@ + "/"@ + self.spec_config().branch@,
            self.spec_config().allow_unrelated_histories ==> r@.len() == 3 && r@[2]@
                == "--allow-unrelated-histories"@,
            !self.spec_config().allow_unrelated_histories ==> r@.len() == 2,
    {
        let mut refspec = self.config.remote.clone();
        refspec.append("/");
        refspec.append(self.config.branch.as_str());
        let mut r: Vec<String> = Vec::new();
        r.push(String::from_str("merge"));
        r.push(refspec);
        if self.config.allow_unrelated_histories {
            r.push(String::from_str("--allow-unrelated-histories"));
        }
        r
    }

    /// The arguments that stage everything: `add .`.
    pub fn add_all_args(&self) -> (r: Vec<String>)
        ensures
            r@.len() == 2,
            r@[0]@ == "add"@,
            r@[1]@ == "."@,
    {
        let mut r: Vec<String> = Vec::new();
        r.push(String::from_str("add"));
        r.push(String::from_str("."));
        r
    }

    /// The arguments of a commit: `commit -m <message>`.
    pub fn commit_args(&self, message: &str) -> (r: Vec<String>)
        ensures
            r@.len() == 3,
            r@[0]@ == "commit"@,
            r@[1]@ == "-m"@,
            r@[2]@ == message@,
    {
        let mut r: Vec<String> = Vec::new();
        r.push(String::from_str("commit"));
        r.push(String::from_str("-m"));
        r.push(message.to_owned());
        r
    }

    /// The arguments of a push: `push <remote> <branch>`.
    pub fn push_args(&self) -> (r: Vec<String>)
        ensures
            r@.len() == 3,
            r@[0]@ == "push"@,
            r@[1]@ == self.spec_config().remote@,
            r@[2]@ == self.spec_config().branch@,
    {
        let mut r: Vec<String> = Vec::new();
        r.push(String::from_str("push"));
        r.push(self.config.remote.clone());
        r.push(self.config.branch.clone());
        r
    }
}

/// What a failed commit means: git reporting "nothing to commit" is the
/// benign [`GitError::NothingToCommit`]; anything else is a real failure of
/// the commit operation, with git's own words kept.
pub fn classify_commit_failure(stderr: String) -> (e: GitError)
    ensures
        first_occurrence(stderr@, "nothing to commit"@) is Some ==> e
            == GitError::NothingToCommit,
        first_occurrence(stderr@, "nothing to commit"@) is None ==> (e matches
            GitError::CommandFailed { operation, stderr: s } && operation@ == "commit"@ && s
            == stderr),
{
    let sc = chars_of(stderr.as_str());
    let pat = chars_of("nothing to commit");
    match find_substring(&sc, &pat) {
        Some(_) => GitError::NothingToCommit,
        None => GitError::CommandFailed { operation: String::from_str("commit"), stderr },
    }
}

/// The stages of a sync, in the order they run.
pub enum SyncStage {
    Fetch,
    Merge,
    AddAll,
    Commit,
    Push,
}

/// What to do after a stage has run: run the next stage, or stop with the
/// sync's overall outcome.
pub enum SyncStep {
    Next(SyncStage),
    Stop(Result<(), GitError>),
}

/// The sync schedule: fetch, merge, stage, commit, push. Any failure stops
/// the sync with that error, except a commit with nothing to commit, which
/// ends the sync successfully without pushing.
pub open spec fn spec_sync_step(stage: SyncStage, outcome: Result<(), GitError>) -> SyncStep {
    match outcome {
        Ok(u) => match stage {
            SyncStage::Fetch => SyncStep::Next(SyncStage::Merge),
            SyncStage::Merge => SyncStep::Next(SyncStage::AddAll),
            SyncStage::AddAll => SyncStep::Next(SyncStage::Commit),
            SyncStage::Commit => SyncStep::Next(SyncStage::Push),
            SyncStage::Push => SyncStep::Stop(Ok(u)),
        },
        Err(e) => match (stage, e) {
            (SyncStage::Commit, GitError::NothingToCommit) => SyncStep::Stop(Ok(())),
            (_, e) => SyncStep::Stop(Err(e)),
        },
    }
}

/// Decides what a sync does after one stage has run. The unverified shell
/// runs the loop: it performs each stage's git call and feeds the outcome
/// back in.
pub fn sync_step(stage: SyncStage, outcome: Result<(), GitError>) -> (r: SyncStep)
    ensures
        r == spec_sync_step(stage, outcome),
{
    match outcome {
        Ok(u) => match stage {
            SyncStage::Fetch => SyncStep::Next(SyncStage::Merge),
            SyncStage::Merge => SyncStep::Next(SyncStage::AddAll),
            SyncStage::AddAll => SyncStep::Next(SyncStage::Commit),
            SyncStage::Commit => SyncStep::Next(SyncStage::Push),
            SyncStage::Push => SyncStep::Stop(Ok(u)),
        },
        Err(e) => match (stage, e) {
            (SyncStage::Commit, GitError::NothingToCommit) => SyncStep::Stop(Ok(())),
            (s, e) => SyncStep::Stop(Err(e)),
        },
    }
}

} // verus!
