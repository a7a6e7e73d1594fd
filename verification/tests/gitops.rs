use cheat::git::{classify_commit_failure, sync_step, GitConfig, GitError, GitRepo, SyncStage, SyncStep};

#[test]
fn test_git_repo_nonexistent_path() {
    let repo = GitRepo::new("/nonexistent/path".to_string(), false);

    assert!(repo.is_err());
    match repo.unwrap_err() {
        GitError::PathNotFound(_) => (),
        _ => panic!("Expected PathNotFound error"),
    }
}

#[test]
fn test_git_config_default() {
    let config = GitConfig::default();
    assert_eq!(config.remote, "origin");
    assert_eq!(config.branch, "master");
    assert!(config.allow_unrelated_histories);
}

#[test]
fn test_error_display() {
    let io_error = GitError::IoError("test".to_string());
    assert!(io_error.message().contains("IO error"));

    let cmd_error = GitError::CommandFailed {
        operation: "test".to_string(),
        stderr: "error message".to_string(),
    };
    assert!(cmd_error.message().contains("Git test failed"));

    let path_error = GitError::PathNotFound("/test/path".to_string());
    assert!(path_error.message().contains("Path not found"));

    let nothing_error = GitError::NothingToCommit;
    assert!(nothing_error.message().contains("Nothing to commit"));
}

#[test]
fn repo_with_custom_config_keeps_it() {
    let config = GitConfig {
        remote: "upstream".to_string(),
        branch: "main".to_string(),
        allow_unrelated_histories: false,
    };
    let repo = GitRepo::_with_config("/tmp".to_string(), config, true).unwrap();
    assert_eq!(repo.fetch_args(), vec!["fetch", "--prune", "upstream", "main"]);
    assert_eq!(repo.merge_args(), vec!["merge", "upstream/main"]);
    assert_eq!(repo.push_args(), vec!["push", "upstream", "main"]);
}

#[test]
fn default_repo_command_plans() {
    let repo = GitRepo::new("/tmp/sheets".to_string(), true).unwrap();
    assert_eq!(repo.command_args(), vec!["-C", "/tmp/sheets"]);
    assert_eq!(repo.fetch_args(), vec!["fetch", "--prune", "origin", "master"]);
    assert_eq!(
        repo.merge_args(),
        vec!["merge", "origin/master", "--allow-unrelated-histories"]
    );
    assert_eq!(repo.add_all_args(), vec!["add", "."]);
    assert_eq!(repo.commit_args("a message"), vec!["commit", "-m", "a message"]);
    assert_eq!(repo.push_args(), vec!["push", "origin", "master"]);
}

#[test]
fn commit_failure_classification() {
    let benign = classify_commit_failure(
        "On branch master\nnothing to commit, working tree clean\n".to_string(),
    );
    assert!(matches!(benign, GitError::NothingToCommit));

    let real = classify_commit_failure("fatal: not a git repository".to_string());
    match real {
        GitError::CommandFailed { operation, stderr } => {
            assert_eq!(operation, "commit");
            assert_eq!(stderr, "fatal: not a git repository");
        }
        _ => panic!("expected a commit failure"),
    }
}

#[test]
fn sync_schedule_runs_in_order() {
    assert!(matches!(
        sync_step(SyncStage::Fetch, Ok(())),
        SyncStep::Next(SyncStage::Merge)
    ));
    assert!(matches!(
        sync_step(SyncStage::Merge, Ok(())),
        SyncStep::Next(SyncStage::AddAll)
    ));
    assert!(matches!(
        sync_step(SyncStage::AddAll, Ok(())),
        SyncStep::Next(SyncStage::Commit)
    ));
    assert!(matches!(
        sync_step(SyncStage::Commit, Ok(())),
        SyncStep::Next(SyncStage::Push)
    ));
    assert!(matches!(sync_step(SyncStage::Push, Ok(())), SyncStep::Stop(Ok(()))));
}

#[test]
fn sync_stops_on_errors_but_tolerates_empty_commit() {
    assert!(matches!(
        sync_step(SyncStage::Commit, Err(GitError::NothingToCommit)),
        SyncStep::Stop(Ok(()))
    ));
    assert!(matches!(
        sync_step(SyncStage::Fetch, Err(GitError::IoError("gone".to_string()))),
        SyncStep::Stop(Err(GitError::IoError(_)))
    ));
    assert!(matches!(
        sync_step(
            SyncStage::Push,
            Err(GitError::CommandFailed {
                operation: "push".to_string(),
                stderr: "rejected".to_string()
            })
        ),
        SyncStep::Stop(Err(GitError::CommandFailed { .. }))
    ));
}
