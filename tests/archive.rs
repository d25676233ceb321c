use kbackup_tools::archive::{
    archive_cutoff, cutoff_before, liveness_of, parse_archive_name,
    parse_archive_time_from_filename, BackupKind, CutoffError, Liveness, NameError, Timestamp,
    Ttl,
};
use kbackup_tools::sweep::{plan_archive, sweep_actions, BackupFile, Category};

const DAY: i64 = 86_400;

#[test]
fn reads_manifest_and_archive_names() {
    let b = parse_archive_name("kbackup-2024-01-02_03-04-05_world.kbi").unwrap();
    assert_eq!(b.stamp, "2024-01-02_03-04-05");
    assert_eq!(b.kind, BackupKind::Manifest);
    let b = parse_archive_name("incremental-2023-12-31_23-59-59_a.b.zip").unwrap();
    assert_eq!(b.stamp, "2023-12-31_23-59-59");
    assert_eq!(b.kind, BackupKind::FullArchive);
}

#[test]
fn refuses_names_of_other_forms() {
    for name in [
        "kbackup-2024-01-02_03-04-05_.kbi",
        "kbackup-2024-01-02_03-04-05_a b.kbi",
        "kbackup-2024-01-02_03-04-05_x.tar",
        "kbackup-2024-1-02_03-04-05_x.kbi",
        "kbackup-2024-01-02-03-04-05_x.kbi",
        "backup-2024-01-02_03-04-05_x.kbi",
        "kbackup-2024-01-02_03-04-05x.kbi",
        "kbackup-2024-01-02_03-04-05_x.kbi.",
        "S2-AA11",
        "",
    ] {
        assert!(parse_archive_name(name).is_none(), "{}", name);
        assert_eq!(
            parse_archive_time_from_filename(name).unwrap_err(),
            NameError::Unrecognized,
            "{}",
            name
        );
    }
}

#[test]
fn invalid_calendar_stamp_is_an_invalid_time() {
    let r = parse_archive_time_from_filename("kbackup-2024-13-02_03-04-05_x.kbi");
    assert_eq!(r.unwrap_err(), NameError::InvalidTime);
    let r = parse_archive_time_from_filename("kbackup-2023-02-30_03-04-05_x.kbi");
    assert_eq!(r.unwrap_err(), NameError::InvalidTime);
}

#[test]
fn valid_stamp_gives_a_time_and_kind() {
    let (t, k) = parse_archive_time_from_filename("kbackup-2024-01-02_12-00-00_x.zip").unwrap();
    assert_eq!(k, BackupKind::FullArchive);
    assert!((t.secs - 1_704_196_800).abs() <= 14 * 3600);
    assert_eq!(t.nanos, 0);
}

#[test]
fn cutoff_subtracts_with_borrow() {
    let now = Timestamp { secs: 100, nanos: 200 };
    let c = cutoff_before(now, Ttl { secs: 30, nanos: 300 }).unwrap();
    assert_eq!(c, Timestamp { secs: 69, nanos: 999_999_900 });
    let c = cutoff_before(now, Ttl { secs: 30, nanos: 0 }).unwrap();
    assert_eq!(c, Timestamp { secs: 70, nanos: 200 });
    assert!(cutoff_before(Timestamp { secs: i64::MIN, nanos: 0 }, Ttl { secs: 1, nanos: 0 }).is_none());
}

#[test]
fn ttl_text_is_parsed_or_refused() {
    assert!(matches!(archive_cutoff(""), Err(CutoffError::InvalidTtl(_))));
    assert!(matches!(archive_cutoff("not a duration"), Err(CutoffError::InvalidTtl(_))));
    let c = archive_cutoff("30d").unwrap();
    assert!(c.nanos < 1_000_000_000);
}

#[test]
fn liveness_is_decided_by_cutoff_alone() {
    let cutoff = Timestamp { secs: 1000, nanos: 500 };
    let at = Ok((Timestamp { secs: 1000, nanos: 500 }, BackupKind::Manifest));
    let before = Ok((Timestamp { secs: 1000, nanos: 499 }, BackupKind::Manifest));
    let after = Ok((Timestamp { secs: 1001, nanos: 0 }, BackupKind::FullArchive));
    assert_eq!(liveness_of(&at, cutoff), Liveness::Active);
    assert_eq!(liveness_of(&before, cutoff), Liveness::Inactive);
    assert_eq!(liveness_of(&after, cutoff), Liveness::Active);
    assert_eq!(liveness_of(&Err(NameError::Unrecognized), cutoff), Liveness::Unclassified);
    for _ in 0..3 {
        assert_eq!(liveness_of(&before, cutoff), Liveness::Inactive);
    }
}

fn file(name: &str, liveness: Liveness, refs: &[&str]) -> BackupFile {
    BackupFile {
        name: name.to_string(),
        liveness,
        references: refs.iter().map(|s| s.to_string()).collect(),
    }
}

fn strings(v: &[&str]) -> Vec<String> {
    v.iter().map(|s| s.to_string()).collect()
}

#[test]
fn forty_day_manifest_archived_five_day_kept() {
    let now = Timestamp { secs: 1_700_000_000, nanos: 0 };
    let cutoff = cutoff_before(now, Ttl { secs: 30 * DAY as u64, nanos: 0 }).unwrap();
    let old = Ok((Timestamp { secs: now.secs - 40 * DAY, nanos: 0 }, BackupKind::Manifest));
    let new = Ok((Timestamp { secs: now.secs - 5 * DAY, nanos: 0 }, BackupKind::Manifest));
    let old_l = liveness_of(&old, cutoff);
    let new_l = liveness_of(&new, cutoff);
    assert_eq!(old_l, Liveness::Inactive);
    assert_eq!(new_l, Liveness::Active);
    let backups = vec![
        file("kbackup-old.kbi", old_l, &["S2-OLD", "S2-SHARED"]),
        file("kbackup-new.kbi", new_l, &["S2-SHARED", "S2-NEW"]),
        file("notes.txt", Liveness::Unclassified, &[]),
    ];
    let objects = strings(&["S2-OLD", "S2-SHARED", "S2-NEW"]);
    let plan = plan_archive(&backups, &objects).unwrap();
    assert_eq!(plan.backups, vec!["kbackup-old.kbi"]);
    assert_eq!(plan.objects, vec!["S2-OLD"]);
}

#[test]
fn missing_live_object_stops_the_run() {
    let backups = vec![file("kbackup-new.kbi", Liveness::Active, &["S2-A", "S2-GONE"])];
    let e = plan_archive(&backups, &strings(&["S2-A"])).unwrap_err();
    assert_eq!(e.object, "S2-GONE");
    assert_eq!(e.backup, "kbackup-new.kbi");
}

#[test]
fn inactive_manifest_references_are_not_checked() {
    let backups = vec![file("kbackup-old.kbi", Liveness::Inactive, &["S2-GONE"])];
    let plan = plan_archive(&backups, &strings(&["S2-A"])).unwrap();
    assert_eq!(plan.backups, vec!["kbackup-old.kbi"]);
    assert_eq!(plan.objects, vec!["S2-A"]);
}

#[test]
fn empty_store_plans_nothing() {
    let plan = plan_archive(&vec![], &vec![]).unwrap();
    assert!(plan.backups.is_empty() && plan.objects.is_empty());
}

#[test]
fn dry_run_names_the_moves_of_a_real_run() {
    let backups = vec![
        file("kbackup-old.kbi", Liveness::Inactive, &[]),
        file("kbackup-new.kbi", Liveness::Active, &["S2-B"]),
    ];
    let objects = strings(&["S2-A", "S2-B", "S2-C"]);
    let plan = plan_archive(&backups, &objects).unwrap();
    let dry = sweep_actions(&plan, true);
    let moved = sweep_actions(&plan, false);
    let targets = |v: &Vec<kbackup_tools::sweep::SweepAction>| {
        v.iter().map(|a| (a.name.clone(), a.category)).collect::<Vec<_>>()
    };
    assert_eq!(targets(&dry), targets(&moved));
    assert_eq!(
        targets(&dry),
        vec![
            ("kbackup-old.kbi".to_string(), Category::Backup),
            ("S2-A".to_string(), Category::Object),
            ("S2-C".to_string(), Category::Object),
        ]
    );
    assert!(dry.iter().all(|a| !a.perform));
    assert!(moved.iter().all(|a| a.perform));
}

#[test]
fn calendar_rules_decide_invalid_time() {
    for name in [
        "kbackup-2023-02-29_00-00-00_x.kbi",
        "kbackup-1900-02-29_00-00-00_x.kbi",
        "kbackup-2024-04-31_00-00-00_x.kbi",
        "kbackup-2024-01-00_00-00-00_x.kbi",
        "kbackup-2024-01-01_24-00-00_x.kbi",
        "kbackup-2024-01-01_00-60-00_x.kbi",
        "kbackup-2024-01-01_00-00-61_x.kbi",
    ] {
        assert_eq!(parse_archive_time_from_filename(name).unwrap_err(), NameError::InvalidTime, "{}", name);
    }
    for name in [
        "kbackup-2024-02-29_00-00-00_x.kbi",
        "kbackup-2000-02-29_00-00-00_x.kbi",
        "kbackup-2024-12-31_23-59-60_x.kbi",
    ] {
        assert_ne!(parse_archive_time_from_filename(name), Err(NameError::InvalidTime), "{}", name);
    }
}
