//! The planner.

use vaultsync::entity;
use vaultsync::entity::{folder, Entity};
use vaultsync::plan::{
    case_collision_keys, plan, resolve, ActionKind, Mode, Plan, PlanOpts, PlanStats,
};

fn file(key: &str, size: u64, mtime_ms: Option<u64>) -> Entity {
    entity::file(key, size, mtime_ms)
}

fn opts() -> PlanOpts {
    PlanOpts::default()
}

fn kinds(p: &Plan) -> Vec<ActionKind> {
    p.actions.iter().map(|a| a.kind).collect()
}

fn run_status(local: &[Entity], remote: &[Entity]) -> Plan {
    plan(local, remote, Mode::Status, &opts())
}

fn run_status_tol(local: &[Entity], remote: &[Entity], tol: u64) -> Plan {
    let o = PlanOpts {
        mtime_tolerance_ms: tol,
        ..Default::default()
    };
    plan(local, remote, Mode::Status, &o)
}

#[test]
fn plan_pre_epoch_zero_vs_none_mtime_same_size_skips_unknown_mtime() {
    let p = plan(
        &[file("a.md", 5, Some(0))],
        &[file("a.md", 5, None)],
        Mode::Status,
        &opts(),
    );
    assert_eq!(kinds(&p), vec![ActionKind::Skip]);
    assert_eq!(p.actions[0].reason, "equal_unknown_mtime");
}

#[test]
fn plan_pre_epoch_zero_vs_none_mtime_diff_size_conflicts_unknown() {
    let p = plan(
        &[file("a.md", 5, Some(0))],
        &[file("a.md", 6, None)],
        Mode::Status,
        &opts(),
    );
    assert_eq!(kinds(&p), vec![ActionKind::Conflict]);
    assert_eq!(p.actions[0].reason, "conflict_mtime_unknown");
}

#[test]
fn plan_pull_remote_none_mtime_diff_size_conflicts() {
    let p = plan(
        &[file("a.md", 100, Some(5000))],
        &[file("a.md", 200, None)],
        Mode::Pull,
        &opts(),
    );
    assert_eq!(kinds(&p), vec![ActionKind::Conflict]);
    assert_eq!(p.actions[0].reason, "conflict_mtime_unknown");
}

#[test]
fn plan_pull_remote_none_mtime_same_size_skips_unknown() {
    let p = plan(
        &[file("a.md", 100, Some(5000))],
        &[file("a.md", 100, None)],
        Mode::Pull,
        &opts(),
    );
    assert_eq!(kinds(&p), vec![ActionKind::Skip]);
    assert_eq!(p.actions[0].reason, "equal_unknown_mtime");
}

#[test]
fn plan_status_remote_none_mtime_diff_size_conflicts() {
    let p = plan(
        &[file("a.md", 100, Some(5000))],
        &[file("a.md", 200, None)],
        Mode::Status,
        &opts(),
    );
    assert_eq!(kinds(&p), vec![ActionKind::Conflict]);
    assert_eq!(p.actions[0].reason, "conflict_mtime_unknown");
}

#[test]
fn plan_both_empty() {
    let p = run_status(&[], &[]);
    assert!(p.actions.is_empty());
    assert_eq!(p.stats, PlanStats::default());
}

#[test]
fn plan_local_only_file_status() {
    let p = run_status(&[file("a.md", 1, Some(100))], &[]);
    assert_eq!(kinds(&p), vec![ActionKind::Upload]);
    assert_eq!(p.actions[0].reason, "local_only");
    assert_eq!(p.stats.upload, 1);
}

#[test]
fn plan_remote_only_file_status() {
    let p = run_status(&[], &[file("a.md", 1, Some(100))]);
    assert_eq!(kinds(&p), vec![ActionKind::Download]);
    assert_eq!(p.actions[0].reason, "remote_only");
    assert_eq!(p.stats.download, 1);
}

#[test]
fn plan_equal_files_skip() {
    let p = run_status(
        &[file("a.md", 5, Some(1000))],
        &[file("a.md", 5, Some(1000))],
    );
    assert_eq!(kinds(&p), vec![ActionKind::Skip]);
    assert_eq!(p.actions[0].reason, "equal");
}

#[test]
fn plan_mtime_tolerance_skip() {
    let p = run_status_tol(
        &[file("a.md", 5, Some(1000))],
        &[file("a.md", 5, Some(1500))],
        1000,
    );
    assert_eq!(kinds(&p), vec![ActionKind::Skip]);
}

#[test]
fn plan_mtime_out_of_tolerance_uploads() {
    let p = run_status_tol(
        &[file("a.md", 5, Some(5000))],
        &[file("a.md", 5, Some(1000))],
        1000,
    );
    assert_eq!(kinds(&p), vec![ActionKind::Upload]);
    assert_eq!(p.actions[0].reason, "local_newer");
}

#[test]
fn plan_local_newer_upload() {
    let p = run_status(
        &[file("a.md", 5, Some(5000))],
        &[file("a.md", 5, Some(1000))],
    );
    assert_eq!(kinds(&p), vec![ActionKind::Upload]);
    assert_eq!(p.actions[0].reason, "local_newer");
}

#[test]
fn plan_remote_newer_download() {
    let p = run_status(
        &[file("a.md", 5, Some(1000))],
        &[file("a.md", 5, Some(5000))],
    );
    assert_eq!(kinds(&p), vec![ActionKind::Download]);
    assert_eq!(p.actions[0].reason, "remote_newer");
}

#[test]
fn plan_conflict_mtime_within_tol_diff_size() {
    let p = run_status(
        &[file("a.md", 1, Some(1500))],
        &[file("a.md", 2, Some(1000))],
    );
    assert_eq!(kinds(&p), vec![ActionKind::Conflict]);
    assert_eq!(p.actions[0].reason, "conflict_mtime_size");
    assert_eq!(p.stats.conflict, 1);
}

#[test]
fn plan_conflict_mtime_within_tol_diff_size_remote_higher() {
    let p = run_status(
        &[file("a.md", 1, Some(1000))],
        &[file("a.md", 2, Some(1500))],
    );
    assert_eq!(kinds(&p), vec![ActionKind::Conflict]);
    assert_eq!(p.actions[0].reason, "conflict_mtime_size");
    assert_eq!(p.stats.conflict, 1);
}

#[test]
fn plan_diff_size_local_newer_beyond_tol_uploads() {
    let p = run_status_tol(
        &[file("a.md", 1, Some(5000))],
        &[file("a.md", 9, Some(1000))],
        1000,
    );
    assert_eq!(kinds(&p), vec![ActionKind::Upload]);
    assert_eq!(p.actions[0].reason, "local_newer");
}

#[test]
fn plan_diff_size_remote_newer_beyond_tol_downloads() {
    let p = run_status_tol(
        &[file("a.md", 1, Some(1000))],
        &[file("a.md", 9, Some(5000))],
        1000,
    );
    assert_eq!(kinds(&p), vec![ActionKind::Download]);
    assert_eq!(p.actions[0].reason, "remote_newer");
}

#[test]
fn plan_conflict_same_mtime_diff_size() {
    let p = run_status(
        &[file("a.md", 1, Some(1000))],
        &[file("a.md", 2, Some(1000))],
    );
    assert_eq!(kinds(&p), vec![ActionKind::Conflict]);
    assert_eq!(p.actions[0].reason, "conflict_mtime_size");
}

#[test]
fn plan_folders_both_sides_skip() {
    let p = run_status(&[folder("n")], &[folder("n")]);
    assert_eq!(kinds(&p), vec![ActionKind::Skip]);
    assert_eq!(p.actions[0].reason, "folder");
}

#[test]
fn plan_push_mode_filters_download() {
    let p = plan(&[], &[file("a.md", 1, Some(100))], Mode::Push, &opts());
    assert!(!kinds(&p).contains(&ActionKind::Download));
    assert_eq!(kinds(&p), vec![ActionKind::Skip]);
}

#[test]
fn plan_pull_mode_filters_upload() {
    let p = plan(&[file("a.md", 1, Some(100))], &[], Mode::Pull, &opts());
    assert!(!kinds(&p).contains(&ActionKind::Upload));
    assert_eq!(kinds(&p), vec![ActionKind::Skip]);
}

#[test]
fn plan_push_delete_remote_only() {
    let o = PlanOpts {
        delete: true,
        ..Default::default()
    };
    let p = plan(&[], &[file("gone.md", 1, Some(100))], Mode::Push, &o);
    assert_eq!(kinds(&p), vec![ActionKind::DeleteRemote]);
}

#[test]
fn plan_pull_delete_local_only() {
    let o = PlanOpts {
        delete: true,
        ..Default::default()
    };
    let p = plan(&[file("gone.md", 1, Some(100))], &[], Mode::Pull, &o);
    assert_eq!(kinds(&p), vec![ActionKind::DeleteLocal]);
}

#[test]
fn plan_push_without_delete_keeps_remote_only_as_skip() {
    let p = plan(&[], &[file("r.md", 1, Some(100))], Mode::Push, &opts());
    assert_eq!(kinds(&p), vec![ActionKind::Skip]);
    assert_eq!(p.actions[0].reason, "remote_only");
}

#[test]
fn plan_push_local_newer_uploads() {
    let p = plan(
        &[file("a.md", 5, Some(5000))],
        &[file("a.md", 5, Some(1000))],
        Mode::Push,
        &opts(),
    );
    assert_eq!(kinds(&p), vec![ActionKind::Upload]);
}

#[test]
fn plan_pull_remote_newer_downloads() {
    let p = plan(
        &[file("a.md", 5, Some(1000))],
        &[file("a.md", 5, Some(5000))],
        Mode::Pull,
        &opts(),
    );
    assert_eq!(kinds(&p), vec![ActionKind::Download]);
}

#[test]
fn plan_push_remote_newer_skips() {
    let p = plan(
        &[file("a.md", 5, Some(1000))],
        &[file("a.md", 5, Some(5000))],
        Mode::Push,
        &opts(),
    );
    assert_eq!(kinds(&p), vec![ActionKind::Skip]);
    assert_eq!(p.actions[0].reason, "remote_newer");
}

#[test]
fn plan_pull_local_newer_skips() {
    let p = plan(
        &[file("a.md", 5, Some(5000))],
        &[file("a.md", 5, Some(1000))],
        Mode::Pull,
        &opts(),
    );
    assert_eq!(kinds(&p), vec![ActionKind::Skip]);
    assert_eq!(p.actions[0].reason, "local_newer");
}

#[test]
fn plan_conflict_both_forces_cancel_in_pull() {
    let o = PlanOpts {
        force_local: true,
        force_remote: true,
        ..Default::default()
    };
    let p = plan(
        &[file("a.md", 1, Some(1000))],
        &[file("a.md", 2, Some(1000))],
        Mode::Pull,
        &o,
    );
    assert_eq!(kinds(&p), vec![ActionKind::Conflict]);
    assert_eq!(p.actions[0].reason, "conflict_mtime_size");
}

#[test]
fn plan_conflict_both_forces_cancel() {
    let o = PlanOpts {
        force_local: true,
        force_remote: true,
        ..Default::default()
    };
    let p = plan(
        &[file("a.md", 1, Some(1000))],
        &[file("a.md", 2, Some(1000))],
        Mode::Status,
        &o,
    );
    assert_eq!(kinds(&p), vec![ActionKind::Conflict]);
    assert_eq!(p.actions[0].reason, "conflict_mtime_size");
}

#[test]
fn plan_pull_force_local_conflict_skips() {
    let o = PlanOpts {
        force_local: true,
        ..Default::default()
    };
    let p = plan(
        &[file("a.md", 1, Some(1000))],
        &[file("a.md", 2, Some(1000))],
        Mode::Pull,
        &o,
    );
    assert_eq!(kinds(&p), vec![ActionKind::Skip]);
    assert_eq!(p.actions[0].reason, "force_local");
    assert!(!kinds(&p).contains(&ActionKind::Upload));
}

#[test]
fn plan_push_force_remote_conflict_skips() {
    let o = PlanOpts {
        force_remote: true,
        ..Default::default()
    };
    let p = plan(
        &[file("a.md", 1, Some(1000))],
        &[file("a.md", 2, Some(1000))],
        Mode::Push,
        &o,
    );
    assert_eq!(kinds(&p), vec![ActionKind::Skip]);
    assert_eq!(p.actions[0].reason, "force_remote");
    assert!(!kinds(&p).contains(&ActionKind::Download));
}

#[test]
fn plan_push_force_local_conflict_uploads() {
    let o = PlanOpts {
        force_local: true,
        ..Default::default()
    };
    let p = plan(
        &[file("a.md", 1, Some(1000))],
        &[file("a.md", 2, Some(1000))],
        Mode::Push,
        &o,
    );
    assert_eq!(kinds(&p), vec![ActionKind::Upload]);
    assert_eq!(p.actions[0].reason, "force_local");
}

#[test]
fn plan_pull_force_remote_conflict_downloads() {
    let o = PlanOpts {
        force_remote: true,
        ..Default::default()
    };
    let p = plan(
        &[file("a.md", 1, Some(1000))],
        &[file("a.md", 2, Some(1000))],
        Mode::Pull,
        &o,
    );
    assert_eq!(kinds(&p), vec![ActionKind::Download]);
    assert_eq!(p.actions[0].reason, "force_remote");
}

#[test]
fn plan_conflict_force_local_uploads() {
    let o = PlanOpts {
        force_local: true,
        ..Default::default()
    };
    let p = plan(
        &[file("a.md", 1, Some(1000))],
        &[file("a.md", 2, Some(1000))],
        Mode::Status,
        &o,
    );
    assert_eq!(kinds(&p), vec![ActionKind::Upload]);
}

#[test]
fn plan_conflict_force_remote_downloads() {
    let o = PlanOpts {
        force_remote: true,
        ..Default::default()
    };
    let p = plan(
        &[file("a.md", 1, Some(1000))],
        &[file("a.md", 2, Some(1000))],
        Mode::Status,
        &o,
    );
    assert_eq!(kinds(&p), vec![ActionKind::Download]);
}

#[test]
fn plan_force_local_does_not_flip_remote_newer() {
    let o = PlanOpts {
        force_local: true,
        ..Default::default()
    };
    let p = plan(
        &[file("a.md", 5, Some(1000))],
        &[file("a.md", 5, Some(5000))],
        Mode::Status,
        &o,
    );
    assert_eq!(kinds(&p), vec![ActionKind::Download]);
    assert_eq!(p.actions[0].reason, "remote_newer");
}

#[test]
fn plan_force_remote_does_not_flip_local_newer() {
    let o = PlanOpts {
        force_remote: true,
        ..Default::default()
    };
    let p = plan(
        &[file("a.md", 5, Some(5000))],
        &[file("a.md", 5, Some(1000))],
        Mode::Status,
        &o,
    );
    assert_eq!(kinds(&p), vec![ActionKind::Upload]);
    assert_eq!(p.actions[0].reason, "local_newer");
}

#[test]
fn plan_stats_counts() {
    let local = vec![
        file("a.md", 1, Some(100)),  // local only -> upload
        file("c.md", 5, Some(1000)), // equal -> skip
        file("d.md", 1, Some(1000)), // conflict (size differs)
    ];
    let remote = vec![
        file("b.md", 1, Some(100)), // remote only -> download
        file("c.md", 5, Some(1000)),
        file("d.md", 2, Some(1000)),
    ];
    let p = run_status(&local, &remote);
    assert_eq!(p.actions.len(), 4);
    assert_eq!(p.stats.upload, 1);
    assert_eq!(p.stats.download, 1);
    assert_eq!(p.stats.conflict, 1);
    assert_eq!(p.stats.skip, 1);
}

#[test]
fn plan_actions_sorted_by_key() {
    let local = vec![file("z.md", 1, Some(100)), file("a.md", 1, Some(100))];
    let p = run_status(&local, &[]);
    let keys: Vec<_> = p.actions.iter().map(|a| a.key.clone()).collect();
    assert_eq!(keys, vec!["a.md".to_string(), "z.md".to_string()]);
}

#[test]
fn plan_pull_delete_local_only_folder_still_skips() {
    let o = PlanOpts {
        delete: true,
        ..Default::default()
    };
    let p = plan(&[folder("n")], &[], Mode::Pull, &o);
    assert_eq!(kinds(&p), vec![ActionKind::Skip]);
    assert_eq!(p.actions[0].reason, "folder");
    assert!(!kinds(&p).contains(&ActionKind::DeleteLocal));
}

#[test]
fn plan_push_delete_remote_only_folder_still_skips() {
    let o = PlanOpts {
        delete: true,
        ..Default::default()
    };
    let p = plan(&[], &[folder("n")], Mode::Push, &o);
    assert_eq!(kinds(&p), vec![ActionKind::Skip]);
    assert_eq!(p.actions[0].reason, "folder");
    assert!(!kinds(&p).contains(&ActionKind::DeleteRemote));
}

#[test]
fn plan_local_only_folder_skips_transfer() {
    for mode in [Mode::Status, Mode::Push, Mode::Pull] {
        let p = plan(&[folder("n")], &[], mode, &opts());
        assert_eq!(kinds(&p), vec![ActionKind::Skip]);
        assert_eq!(p.actions[0].reason, "folder");
    }
}

#[test]
fn plan_remote_only_folder_skips_transfer() {
    for mode in [Mode::Status, Mode::Push, Mode::Pull] {
        let p = plan(&[], &[folder("n")], mode, &opts());
        assert_eq!(kinds(&p), vec![ActionKind::Skip]);
        assert_eq!(p.actions[0].reason, "folder");
    }
}

#[test]
fn plan_file_vs_folder_key_conflicts() {
    let p = plan(
        &[file("K", 5, Some(1000))],
        &[folder("K"), file("K/x", 1, Some(1))],
        Mode::Status,
        &opts(),
    );
    let acts: Vec<_> = p.actions.iter().map(|a| (a.key.as_str(), a.kind)).collect();
    assert!(acts.iter().any(|(k, kind)| *k == "K" && *kind == ActionKind::Conflict));
}

#[test]
fn plan_folder_vs_file_key_conflicts() {
    let p = plan(
        &[folder("K"), file("K/child.md", 1, Some(1))],
        &[file("K", 5, Some(1000))],
        Mode::Status,
        &opts(),
    );
    let act = p.actions.iter().find(|a| a.key == "K").unwrap();
    assert_eq!(act.kind, ActionKind::Conflict);
    assert_eq!(act.reason, "path_collision");
}

#[test]
fn path_collision_survives_all_modes() {
    for mode in [Mode::Status, Mode::Push, Mode::Pull] {
        for force in [
            PlanOpts { force_local: true, ..Default::default() },
            PlanOpts { force_remote: true, ..Default::default() },
            PlanOpts {
                force_local: true,
                force_remote: true,
                ..Default::default()
            },
        ] {
            let p = plan(
                &[file("K", 5, Some(1000))],
                &[file("K/x", 1, Some(1))],
                mode,
                &force,
            );
            let act = p.actions.iter().find(|a| a.key == "K").unwrap();
            assert_eq!(
                act.kind,
                ActionKind::Conflict,
                "mode {mode:?} force {force:?}"
            );
            assert_eq!(act.reason, "path_collision");
        }
    }
}

#[test]
fn plan_none_mtime_diff_size_conflicts() {
    for mode in [Mode::Status, Mode::Push, Mode::Pull] {
        let p = plan(
            &[file("a.md", 100, Some(5000))],
            &[file("a.md", 200, None)],
            mode,
            &opts(),
        );
        let act = p.actions.iter().find(|a| a.key == "a.md").unwrap();
        assert_eq!(act.kind, ActionKind::Conflict, "mode {mode:?}");
        assert_eq!(act.reason, "conflict_mtime_unknown");
    }
}

#[test]
fn plan_none_mtime_same_size_skips_visible() {
    let p = plan(
        &[file("a.md", 100, Some(5000))],
        &[file("a.md", 100, None)],
        Mode::Status,
        &opts(),
    );
    assert_eq!(kinds(&p), vec![ActionKind::Skip]);
    assert_eq!(p.actions[0].reason, "equal_unknown_mtime");
}

#[test]
fn plan_both_none_mtime_diff_size_conflicts() {
    let p = plan(
        &[file("a.md", 5, None)],
        &[file("a.md", 6, None)],
        Mode::Status,
        &opts(),
    );
    assert_eq!(kinds(&p), vec![ActionKind::Conflict]);
    assert_eq!(p.actions[0].reason, "conflict_mtime_unknown");
}

#[test]
fn plan_local_none_remote_set_diff_size_conflicts() {
    let p = plan(
        &[file("a.md", 200, None)],
        &[file("a.md", 100, Some(5000))],
        Mode::Pull,
        &opts(),
    );
    assert_eq!(kinds(&p), vec![ActionKind::Conflict]);
    assert_eq!(p.actions[0].reason, "conflict_mtime_unknown");
}

#[test]
fn plan_pre_epoch_real_zero_still_compares() {
    let p = plan(
        &[file("a.md", 5, Some(0))],
        &[file("a.md", 5, Some(5000))],
        Mode::Status,
        &opts(),
    );
    assert_eq!(kinds(&p), vec![ActionKind::Download]);
    assert_eq!(p.actions[0].reason, "remote_newer");
}

#[test]
fn plan_unknown_mtime_conflict_force_resolvable() {
    let o = PlanOpts {
        force_local: true,
        ..Default::default()
    };
    let p = plan(
        &[file("a.md", 100, Some(5000))],
        &[file("a.md", 200, None)],
        Mode::Push,
        &o,
    );
    assert_eq!(kinds(&p), vec![ActionKind::Upload]);
    assert_eq!(p.actions[0].reason, "force_local");
}

#[test]
fn plan_etag_ignored() {
    let mut l = file("a.md", 5, Some(1000));
    l.etag = Some("etag-A".to_string());
    let mut r = file("a.md", 5, Some(1000));
    r.etag = Some("etag-B".to_string());
    let p = plan(&[l], &[r], Mode::Status, &opts());
    assert_eq!(kinds(&p), vec![ActionKind::Skip]);
    assert_eq!(p.actions[0].reason, "equal");
}

#[test]
fn case_collision_same_side_detected() {
    let local = vec![file("Note.md", 1, Some(1)), file("note.md", 1, Some(1))];
    let c = case_collision_keys(&local, &[]);
    assert!(c.iter().any(|k| k == "Note.md"));
    assert!(c.iter().any(|k| k == "note.md"));
}

#[test]
fn case_collision_cross_side_detected() {
    let local = vec![file("Note.md", 5, Some(1000))];
    let remote = vec![file("note.md", 9, Some(2000))];
    let c = case_collision_keys(&local, &remote);
    assert!(c.iter().any(|k| k == "Note.md"), "c: {c:?}");
    assert!(c.iter().any(|k| k == "note.md"), "c: {c:?}");
}

#[test]
fn case_collision_none_for_distinct_keys() {
    let local = vec![file("Note.md", 1, Some(1)), file("other.md", 1, Some(1))];
    let remote = vec![file("note2.md", 1, Some(1))];
    let c = case_collision_keys(&local, &remote);
    assert!(c.is_empty(), "c: {c:?}");
}

#[test]
fn one_force_settles_every_conflict_by_mtime_and_size() {
    let local = [file("a.md", 1, Some(1000)), file("b.md", 1, None)];
    let remote = [file("a.md", 2, Some(1000)), file("b.md", 2, Some(5))];
    for (force_local, force_remote) in [(true, false), (false, true)] {
        for mode in [Mode::Status, Mode::Push, Mode::Pull] {
            let o = PlanOpts { force_local, force_remote, ..Default::default() };
            let p = plan(&local, &remote, mode, &o);
            let want = match (mode, force_local) {
                (Mode::Pull, true) | (Mode::Push, false) => ActionKind::Skip,
                (_, true) => ActionKind::Upload,
                (_, false) => ActionKind::Download,
            };
            assert_eq!(kinds(&p), vec![want, want]);
        }
    }
}

#[test]
fn a_force_resolves_a_pair_unless_it_is_a_path_collision() {
    let (l, r) = (file("a.md", 1, Some(1000)), file("a.md", 2, Some(1000)));
    let o = |force_local, force_remote| PlanOpts { force_local, force_remote, ..opts() };
    let at = |mode, o: &PlanOpts, collided| resolve(Some(&l), Some(&r), mode, o, collided);
    let plain = (ActionKind::Conflict, "conflict_mtime_size");
    assert_eq!(at(Mode::Push, &o(false, false), false), plain);
    assert_eq!(at(Mode::Push, &o(true, true), false), plain);
    assert_eq!(at(Mode::Push, &o(true, false), false), (ActionKind::Upload, "force_local"));
    assert_eq!(at(Mode::Pull, &o(true, false), false), (ActionKind::Skip, "force_local"));
    assert_eq!(at(Mode::Status, &o(false, true), false), (ActionKind::Download, "force_remote"));
    assert_eq!(at(Mode::Push, &o(false, true), false), (ActionKind::Skip, "force_remote"));
    let collided = at(Mode::Push, &o(true, false), true);
    assert_eq!(collided, at(Mode::Push, &o(false, false), true));
    assert_eq!(collided.0, ActionKind::Conflict);
}
