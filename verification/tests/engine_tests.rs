use kic::dates::{
    civil_days, format_date, is_expired, parse_date, ClockTime, Date, Duration,
};
use kic::io::{format_with_tag, Tag};
use kic::pathset::PathSet;
use kic::setting::storage::Storage;
use kic::tree::{potentially_empty_dirs, walk_dir, EntryKind, Tree, TreeEntry};

fn entry(path: &str, kind: EntryKind) -> TreeEntry {
    TreeEntry { path: path.to_string(), kind }
}

fn sample_tree() -> Tree {
    Tree {
        entries: vec![
            entry("./a", EntryKind::Dir),
            entry("./a/f1", EntryKind::File),
            entry("./a/b", EntryKind::Dir),
            entry("./a/b/f2", EntryKind::File),
        ],
    }
}

#[test]
fn walk_dir_should_collect_visible_files() {
    let t = sample_tree();
    let walked = walk_dir(&t, ".");
    assert_eq!(2, walked.len());
    assert!(walked.contains("./a/f1"));
    assert!(walked.contains("./a/b/f2"));
    assert!(!walked.contains("./a"));
}

#[test]
fn walk_dir_should_skip_hidden_files() {
    let t = Tree {
        entries: vec![
            entry("./a", EntryKind::Dir),
            entry("./a/.hidden", EntryKind::File),
            entry("./a/kept", EntryKind::File),
        ],
    };
    let walked = walk_dir(&t, ".");
    assert_eq!(1, walked.len());
    assert!(walked.contains("./a/kept"));
}

#[test]
fn exclusion_should_be_set_difference() {
    let t = sample_tree();
    let walked = walk_dir(&t, ".");
    let ignored = PathSet::from_vec(vec!["./a/f1".to_string()]);
    let targets = walked.difference(&ignored);
    assert_eq!(1, targets.len());
    assert!(targets.contains("./a/b/f2"));
    assert!(!targets.contains("./a/f1"));
}

#[test]
fn analyzer_should_respect_phantoms() {
    let t = sample_tree();

    let none = potentially_empty_dirs(&t, ".", &PathSet::new());
    assert_eq!(0, none.len());

    let phantom_f2 = PathSet::from_vec(vec!["./a/b/f2".to_string()]);
    let some = potentially_empty_dirs(&t, ".", &phantom_f2);
    assert_eq!(1, some.len());
    assert!(some.contains("./a/b"));

    let phantom_both = PathSet::from_vec(vec!["./a/f1".to_string(), "./a/b/f2".to_string()]);
    let all = potentially_empty_dirs(&t, ".", &phantom_both);
    assert_eq!(3, all.len());
    assert!(all.contains("."));
    assert!(all.contains("./a"));
    assert!(all.contains("./a/b"));
}

#[test]
fn analyzer_should_treat_hidden_entries_as_blockers() {
    let t = Tree {
        entries: vec![
            entry("./a", EntryKind::Dir),
            entry("./a/.keep", EntryKind::File),
        ],
    };
    let r = potentially_empty_dirs(&t, ".", &PathSet::new());
    assert_eq!(0, r.len());
}

#[test]
fn analyzer_should_disqualify_unreadable_dirs() {
    let t = Tree {
        entries: vec![entry("./locked", EntryKind::UnreadableDir)],
    };
    let r = potentially_empty_dirs(&t, ".", &PathSet::new());
    assert_eq!(0, r.len());
}

fn noon(year: i64, month: i64, day: i64) -> ClockTime {
    ClockTime { year, month, day, hour: 0, minute: 0, second: 0 }
}

#[test]
fn sweep_scenario_should_relocate_and_empty() {
    // root holds a/f1 and a/b/f2; a/f1 is ignored
    let t = sample_tree();
    let walked = walk_dir(&t, ".");
    let ignored = PathSet::from_vec(vec!["./a/f1".to_string()]);
    let targets = walked.difference(&ignored);

    let storage = Storage::new_at(noon(2024, 7, 1), "sweep", true);
    let moves = storage.squeeze_dusts(&targets);
    assert_eq!(1, moves.len());
    assert_eq!("./a/b/f2", moves[0].src);
    assert_eq!(".kic/warehouse/2024-07-01/dusts/./a/b", moves[0].dest_dir);
    assert_eq!(".kic/warehouse/2024-07-01/dusts/./a/b/f2", moves[0].dest);

    // after the real move, a/b is empty; a still holds f1
    let after = Tree {
        entries: vec![
            entry("./a", EntryKind::Dir),
            entry("./a/f1", EntryKind::File),
            entry("./a/b", EntryKind::Dir),
        ],
    };
    let empties = potentially_empty_dirs(&after, ".", &PathSet::new());
    assert_eq!(1, empties.len());
    assert!(empties.contains("./a/b"));
    assert!(!empties.contains("./a"));

    let order = storage.squeeze_empty_dirs_only(&empties);
    assert_eq!(vec!["./a/b".to_string()], order);
}

#[test]
fn dry_run_should_match_real_run() {
    // the phantom answer over the untouched tree equals the real answer
    // over the tree with the targets gone
    let t = sample_tree();
    let phantom = PathSet::from_vec(vec!["./a/b/f2".to_string()]);
    let dry = potentially_empty_dirs(&t, ".", &phantom);

    let real_tree = Tree {
        entries: vec![
            entry("./a", EntryKind::Dir),
            entry("./a/f1", EntryKind::File),
            entry("./a/b", EntryKind::Dir),
        ],
    };
    let real = potentially_empty_dirs(&real_tree, ".", &PathSet::new());
    assert_eq!(dry.len(), real.len());
    for i in 0..dry.len() {
        assert_eq!(dry.get(i), real.get(i));
    }
}

#[test]
fn sweep_twice_should_find_nothing_new() {
    // after a full real sweep only ignored files remain, so the second
    // target set is empty and no directory is left to remove
    let ignored = PathSet::from_vec(vec!["./a/f1".to_string()]);
    let after_second = Tree {
        entries: vec![
            entry("./a", EntryKind::Dir),
            entry("./a/f1", EntryKind::File),
        ],
    };
    let walked = walk_dir(&after_second, ".");
    let targets = walked.difference(&ignored);
    assert_eq!(0, targets.len());
    let empties = potentially_empty_dirs(&after_second, ".", &PathSet::new());
    assert_eq!(0, empties.len());
}

#[test]
fn deep_dirs_come_before_their_ancestors() {
    let storage = Storage::new_at(noon(2024, 7, 1), "sweep", false);
    let dirs = PathSet::from_vec(vec![
        "./a".to_string(),
        "./a/b".to_string(),
        "./a/b/c".to_string(),
        "./x".to_string(),
    ]);
    let order = storage.squeeze_empty_dirs_only(&dirs);
    let pos = |p: &str| order.iter().position(|q| q == p).unwrap();
    assert!(pos("./a/b/c") < pos("./a/b"));
    assert!(pos("./a/b") < pos("./a"));
    assert_eq!(4, order.len());
}

#[test]
fn burn_scenario_should_delete_only_expired() {
    let storage = Storage::new_at(noon(2024, 7, 1), "burn", true);
    let names = vec![
        "2024-01-01".to_string(),
        "2024-06-01".to_string(),
        "not-a-date".to_string(),
    ];
    let expired = storage.delete_expired_boxes(&names, &Duration::days(30));
    // 2024-06-01 sits exactly thirty days before the boundary and stays
    assert_eq!(vec!["2024-01-01".to_string()], expired);
}

#[test]
fn expiry_boundary_is_strict() {
    let date = Date { year: 2024, month: 6, day: 1 };
    let m = Duration::days(30);
    let boundary = noon(2024, 7, 1);
    assert!(!is_expired(&date, &m, &boundary));
    let just_past = ClockTime { year: 2024, month: 7, day: 1, hour: 0, minute: 0, second: 1 };
    assert!(is_expired(&date, &m, &just_past));
}

#[test]
fn date_parsing_should_accept_only_real_dates() {
    assert_eq!(Some(Date { year: 2024, month: 2, day: 29 }), parse_date("2024-02-29"));
    assert_eq!(None, parse_date("2023-02-29"));
    assert_eq!(None, parse_date("not-a-date"));
    assert_eq!(None, parse_date("2024-13-01"));
    assert_eq!(None, parse_date("2024-00-10"));
    assert_eq!(None, parse_date("2024-1-01"));
    assert_eq!("2024-02-29".to_string(), format_date(&Date { year: 2024, month: 2, day: 29 }));
    assert_eq!("0007-01-02".to_string(), format_date(&Date { year: 7, month: 1, day: 2 }));
}

#[test]
fn storage_paths_should_nest_under_the_warehouse() {
    let storage = Storage::new_at(noon(2024, 7, 1), "sweep", false);
    assert_eq!("2024-07-01", storage.date);
    assert_eq!(".kic/warehouse/2024-07-01", storage.path_to_box());
    assert_eq!(".kic/warehouse/2024-07-01/dusts", storage.path_to_dust_box());
    assert_eq!(".kic/warehouse/2024-07-01/sweep.log", storage.path_to_log());
    assert_eq!("  => \"./a\"", Storage::item_log("./a"));
    assert_eq!(
        "############\n# 00:00:00 #\n############",
        storage.start_mark_for_log()
    );
    assert_eq!(
        "Move dusts to \".kic/warehouse/2024-07-01/dusts\" (dry-run mode)",
        storage.move_dusts_header()
    );
}

#[test]
fn storage_new_reads_a_date_from_the_clock() {
    // the wall-clock wrapper must hand back a real calendar date
    let storage = Storage::new("sweep", false).unwrap();
    let parsed = parse_date(&storage.date);
    assert!(parsed.is_some());
    let d = parsed.unwrap();
    assert_eq!(format_date(&d), storage.date);
}

#[test]
fn tags_should_prefix_messages() {
    assert_eq!("INFO: hello", format_with_tag(Tag::Info, "hello"));
    assert_eq!("CAUTION: x", format_with_tag(Tag::Caution, "x"));
}

#[test]
fn civil_day_numbers_match_known_dates() {
    assert_eq!(0, civil_days(&Date { year: 1970, month: 1, day: 1 }));
    assert_eq!(1, civil_days(&Date { year: 1970, month: 1, day: 2 }));
    assert_eq!(-1, civil_days(&Date { year: 1969, month: 12, day: 31 }));
    assert_eq!(19905, civil_days(&Date { year: 2024, month: 7, day: 1 }));
    // thirty days apart across a leap-year June
    assert_eq!(
        30,
        civil_days(&Date { year: 2024, month: 7, day: 1 })
            - civil_days(&Date { year: 2024, month: 6, day: 1 })
    );
}

#[test]
fn pathset_keeps_paths_sorted_and_unique() {
    let mut ps = PathSet::new();
    ps.insert("b".to_string());
    ps.insert("a".to_string());
    ps.insert("b".to_string());
    ps.insert("c".to_string());
    assert_eq!(3, ps.len());
    assert_eq!("a", ps.get(0));
    assert_eq!("b", ps.get(1));
    assert_eq!("c", ps.get(2));
    assert!(ps.remove("b"));
    assert!(!ps.remove("b"));
    assert_eq!(2, ps.len());
    let more = PathSet::from_vec(vec!["c".to_string(), "d".to_string()]);
    let all = ps.union(&more);
    assert_eq!(3, all.len());
}
