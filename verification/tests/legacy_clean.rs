use activitywatch::legacy_clean::{
    check_prunable, clean_heading, clean_legacy, ensure_no_symlink, find_prune_targets,
    finish_clean_legacy,
    is_inspected, is_synced_bucket_id, needs_vacuum, reclaimable_bytes, report_pruning, runs_vacuum,
    vacuum_failure, Inspection, PruneOutcome, PruneReport, SyncEntry, TargetSizes,
};

const OWN: &str = "aw-watcher-window_erb-m2";
const REEXPORT: &str = "aw-watcher-window_erb-main3-synced-from-erb-main3";

fn entry(own: bool, path: &str, buckets: &[(&str, i64)], reclaimable: u64) -> SyncEntry {
    SyncEntry {
        own_staging: own,
        db_path: Some(path.to_string()),
        db_size: Some(1000),
        inspected: Ok(Inspection {
            buckets: buckets.iter().map(|(id, n)| (id.to_string(), *n)).collect(),
            reclaimable,
        }),
    }
}

fn sizes(n: usize) -> Vec<TargetSizes> {
    (0..n)
        .map(|_| TargetSizes {
            db_size: "1000 B".to_string(),
            reclaimable: "7 B".to_string(),
        })
        .collect()
}

#[test]
fn own_staging_in_both_layouts_is_pruned_and_peers_never_are() {
    let (targets, errors) = find_prune_targets(vec![
        entry(true, "own/test.db", &[(OWN, 20), (REEXPORT, 20)], 0),
        entry(true, "erb-m2/own/test.db", &[(OWN, 5), (REEXPORT, 5)], 0),
        entry(false, "erb-main3/peer/test.db", &[("aw-watcher-afk_x-synced-from-x", 5)], 0),
    ]);
    assert!(errors.is_empty(), "{errors:?}");
    let paths: Vec<_> = targets.iter().map(|t| t.db_path.as_str()).collect();
    assert_eq!(paths, vec!["own/test.db", "erb-m2/own/test.db"]);
    assert_eq!(targets[0].buckets, vec![(REEXPORT.to_string(), 20)]);

    // A second run finds nothing.
    let (targets, _) = find_prune_targets(vec![
        entry(true, "own/test.db", &[(OWN, 20)], 0),
        entry(true, "erb-m2/own/test.db", &[(OWN, 5)], 99),
    ]);
    assert!(targets.is_empty());
}

#[test]
fn a_dry_run_says_what_it_would_do() {
    let (targets, skipped) =
        find_prune_targets(vec![entry(true, "own/test.db", &[(OWN, 3), (REEXPORT, 3)], 0)]);
    let report = clean_legacy(&targets, &sizes(1), &skipped, true);
    assert_eq!(
        report.text,
        format!(
            "  own/test.db (own staging, 1000 B)\n    {REEXPORT}  3 events\n  1 re-exported buckets, 3 events in 1 db(s).\n  dry run: nothing changed. Re-run without --dry-run to delete them. The deletion replicates to every device sharing this folder; those devices already ignore these buckets on pull.\n"
        )
    );
    assert!(matches!(report.end, Some(Ok(()))));
    assert!(clean_legacy(&targets, &sizes(1), &skipped, false).end.is_none());
    assert_eq!(clean_heading(), "\nLegacy cleanup (ActivityWatch/aw-server-rust#689)\n");
}

#[test]
fn first_hand_buckets_are_refused() {
    let err = check_prunable(&vec![REEXPORT.to_string(), OWN.to_string()]).unwrap_err();
    assert_eq!(err, format!("refusing to prune first-hand bucket '{OWN}'"));
    assert!(err.contains("first-hand"), "{err}");
    assert!(check_prunable(&vec![REEXPORT.to_string()]).is_ok());
    assert!(check_prunable(&vec![]).is_ok());
}

#[test]
fn buckets_that_are_gone_are_skipped() {
    let mut outcome = PruneOutcome::new(10);
    outcome.bucket_pruned(None);
    assert_eq!((outcome.buckets, outcome.events), (0, 0));
    outcome.bucket_pruned(Some(3));
    outcome.bucket_pruned(Some(0));
    assert_eq!((outcome.buckets, outcome.events), (2, 3));
    assert_eq!((outcome.size_before, outcome.size_after), (10, 10));
}

#[test]
fn an_oversized_database_stays_a_target() {
    let (targets, _) = find_prune_targets(vec![entry(true, "own/test.db", &[(OWN, 1)], 100)]);
    assert_eq!(targets.len(), 1);
    assert!(targets[0].buckets.is_empty());
    let report = clean_legacy(&targets, &sizes(1), &vec![], true);
    assert!(report.text.contains(
        "    no re-exported buckets left, but 7 B is reclaimable by VACUUM (an earlier run did not finish)\n"
    ));
    assert!(runs_vacuum(1) && !runs_vacuum(0));
}

#[test]
fn what_is_worth_a_vacuum() {
    assert!(!needs_vacuum(0, 0));
    assert!(needs_vacuum(1, 10));
    assert!(!needs_vacuum(1, 11));
    assert!(needs_vacuum(u64::MAX, u64::MAX));
    assert_eq!(reclaimable_bytes(3, 4096), 12288);
    assert_eq!(reclaimable_bytes(-3, 4096), 0);
    assert_eq!(reclaimable_bytes(3, -1), 0);
    assert_eq!(reclaimable_bytes(i64::MAX, 4), u64::MAX);
}

#[test]
fn an_own_path_that_leads_to_another_place_is_refused() {
    let err = ensure_no_symlink("s/own/test.db", "s", true, Ok(("s/peer/test.db".into(), false)));
    let err = err.unwrap_err();
    assert_eq!(
        err,
        "s/own/test.db resolves to s/peer/test.db through a symlink; refusing to modify it"
    );
    let mut refused = entry(true, "s/own/test.db", &[], 0);
    refused.inspected = Err(err);
    let (targets, skipped) = find_prune_targets(vec![refused]);
    assert!(targets.is_empty(), "{targets:?}");
    assert_eq!(skipped.len(), 1);
    assert!(skipped[0].contains("symlink"), "{skipped:?}");
    let report = clean_legacy(&targets, &vec![], &skipped, false);
    assert!(matches!(report.end, Some(Err(_))));

    assert!(ensure_no_symlink("s/a", "s", true, Ok(("s/a".into(), true))).is_ok());
    assert_eq!(
        ensure_no_symlink("a", "s", false, Ok(("a".into(), true))).unwrap_err(),
        "a is outside the sync dir s"
    );
    assert_eq!(
        ensure_no_symlink("s/a", "s", true, Err("s/a: gone".into())).unwrap_err(),
        "s/a: gone"
    );
}

#[test]
fn uninspectable_own_db_makes_cleanup_incomplete() {
    let mut broken = entry(true, "own/test.db", &[], 0);
    broken.inspected = Err("own/test.db: file is not a database".to_string());
    let mut peer = entry(false, "peer/test.db", &[], 0);
    peer.inspected = Err("not looked at".to_string());
    let mut nothing = entry(true, "", &[(REEXPORT, 1)], 0);
    nothing.db_path = None;
    let (targets, skipped) = find_prune_targets(vec![broken, peer, nothing]);
    assert!(targets.is_empty());
    let report = clean_legacy(&targets, &vec![], &skipped, true);
    match report.end {
        Some(Err(err)) => {
            assert_eq!(err, "cleanup incomplete: 1 own staging db(s) skipped")
        }
        other => panic!("{other:?}"),
    }
    assert_eq!(
        report.text,
        "  ! skipped: own/test.db: file is not a database\n  no other own staging db holds re-exported …-synced-from-… buckets\n"
    );
    assert!(is_inspected(true, true) && !is_inspected(true, false) && !is_inspected(false, true));
}

#[test]
fn a_cleanup_ends_by_what_failed_and_what_was_skipped() {
    let (targets, _) = find_prune_targets(vec![
        entry(true, "a.db", &[(REEXPORT, 2)], 0),
        entry(true, "b.db", &[(REEXPORT, 3)], 0),
    ]);
    let pruned = |n: usize| PruneReport::Pruned {
        outcome: PruneOutcome { buckets: 1, events: n, size_before: 9, size_after: 4 },
        size_before: "9 B".to_string(),
        size_after: "4 B".to_string(),
    };
    assert_eq!(
        report_pruning(&targets[0], &pruned(2)),
        "  pruned 1 buckets (2 events) from a.db: 9 B → 4 B\n"
    );
    assert_eq!(
        report_pruning(&targets[1], &pruned(3)),
        "  pruned 1 buckets (3 events) from b.db: 9 B → 4 B\n"
    );
    assert!(finish_clean_legacy(&vec![pruned(2), pruned(3)], 0).is_ok());
    assert_eq!(
        finish_clean_legacy(&vec![pruned(2), pruned(3)], 2).unwrap_err(),
        "cleanup incomplete: 2 own staging db(s) skipped"
    );
    let failed = PruneReport::Failed { reason: vacuum_failure("b.db", "locked") };
    assert_eq!(
        report_pruning(&targets[1], &failed),
        "  ! b.db: VACUUM failed (locked); deleted buckets stay deleted but the file will not shrink until it runs — re-run --clean-legacy (stop aw-sync first if it is busy)\n"
    );
    let end = finish_clean_legacy(&vec![pruned(2), failed], 1);
    assert_eq!(
        end.unwrap_err(),
        "1 staging db(s) could not be pruned, 1 skipped"
    );
}

#[test]
fn buckets_from_elsewhere_are_known_by_their_name() {
    assert!(is_synced_bucket_id("x-synced-from-y"));
    assert!(is_synced_bucket_id("-synced-from-"));
    assert!(!is_synced_bucket_id("x-synced-fromy"));
    assert!(!is_synced_bucket_id("-synced-from"));
    assert!(!is_synced_bucket_id(""));
}

#[test]
fn a_finished_cleanup_leaves_nothing_to_prune() {
    let (targets, skipped) = find_prune_targets(vec![
        entry(true, "a.db", &[(OWN, 20), (REEXPORT, 20)], 0),
        entry(true, "b.db", &[(OWN, 2)], 500),
        entry(true, "c.db", &[(OWN, 2)], 0),
    ]);
    assert_eq!(targets.len(), 2);
    for target in &targets {
        let ids = target.buckets.iter().map(|(id, _)| id.clone()).collect();
        assert!(check_prunable(&ids).is_ok());
    }
    let reports = targets
        .iter()
        .map(|target| PruneReport::Pruned {
            outcome: PruneOutcome::new(target.db_size),
            size_before: String::new(),
            size_after: String::new(),
        })
        .collect();
    assert!(finish_clean_legacy(&reports, skipped.len()).is_ok());
    let (targets, skipped) = find_prune_targets(vec![
        entry(true, "a.db", &[(OWN, 20)], reclaimable_bytes(0, 4096)),
        entry(true, "b.db", &[(OWN, 2)], reclaimable_bytes(0, 4096)),
        entry(true, "c.db", &[(OWN, 2)], 0),
    ]);
    assert!(targets.is_empty() && skipped.is_empty());
}
