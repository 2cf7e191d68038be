use restore_revert::{
    classify, plan_outcomes, revert, should_classify, should_descend, stash_name, swap_steps,
    walk, Entry, EntryKind, Listing, NoteKind, Outcome, Pair, Policy, Snapshot, Step,
};

fn chars(s: &str) -> Vec<char> {
    s.chars().collect()
}

fn text(v: &[char]) -> String {
    v.iter().collect()
}

fn entry(name: &str, kind: EntryKind) -> Entry {
    Entry { name: Some(chars(name)), kind, child: None }
}

fn dir_entry(name: &str, kind: EntryKind, child: usize) -> Entry {
    Entry { name: Some(chars(name)), kind, child: Some(child) }
}

fn one_dir(entries: Vec<Entry>) -> Snapshot {
    Snapshot { dirs: vec![Listing { origin: 0, entries }] }
}

const DEFAULT: Policy = Policy { follow_symlink: false, rename_symlink: false };
const RENAME: Policy = Policy { follow_symlink: false, rename_symlink: true };
const FOLLOW: Policy = Policy { follow_symlink: true, rename_symlink: false };
const BOTH: Policy = Policy { follow_symlink: true, rename_symlink: true };

fn step_text(s: &Step) -> String {
    match s {
        Step::Rename { dir, from, to } => format!("{} mv {} {}", dir, text(from), text(to)),
        Step::Remove { dir, name } => format!("{} rm {}", dir, text(name)),
    }
}

fn classified(s: &str) -> Option<String> {
    classify(&chars(s)).map(|b| text(&b))
}

#[test]
fn classify_extracts_base() {
    assert_eq!(classified("a.txt.backup.20180101"), Some("a.txt".to_string()));
    assert_eq!(classified("d.backup.20180202"), Some("d".to_string()));
}

#[test]
fn classify_takes_the_last_date() {
    assert_eq!(
        classified("a.backup.20180101.backup.20190101"),
        Some("a.backup.20180101".to_string())
    );
}

#[test]
fn classify_rejects_wrong_digit_counts() {
    assert_eq!(classified("c.txt.backup.1234567"), None);
    assert_eq!(classified("c.txt.backup.123456789"), None);
    assert_eq!(classified("user.backup.123"), None);
}

#[test]
fn classify_rejects_trailing_text_and_non_digits() {
    assert_eq!(classified("a.backup.20180101x"), None);
    assert_eq!(classified("a.backup.2018010a"), None);
    assert_eq!(classified("a.backup.20180101.txt"), None);
}

#[test]
fn classify_is_case_sensitive_and_literal() {
    assert_eq!(classified("a.BACKUP.20180101"), None);
    assert_eq!(classified("a_backup_20180101"), None);
    assert_eq!(classified("a.backup-20180101"), None);
}

#[test]
fn classify_needs_a_non_empty_base() {
    assert_eq!(classified(".backup.20180101"), None);
    assert_eq!(classified("x.backup.20180101"), Some("x".to_string()));
    assert_eq!(classified(""), None);
}

#[test]
fn policy_table() {
    assert!(should_descend(EntryKind::Dir, DEFAULT));
    assert!(!should_descend(EntryKind::DirLink, DEFAULT));
    assert!(!should_descend(EntryKind::DirLink, RENAME));
    assert!(should_descend(EntryKind::DirLink, FOLLOW));
    assert!(!should_descend(EntryKind::File, BOTH));
    assert!(should_classify(EntryKind::File, DEFAULT));
    assert!(!should_classify(EntryKind::FileLink, DEFAULT));
    assert!(should_classify(EntryKind::FileLink, RENAME));
    assert!(should_classify(EntryKind::FileLink, FOLLOW));
    assert!(should_classify(EntryKind::DirLink, RENAME));
    assert!(!should_classify(EntryKind::Dir, BOTH));
    assert!(!should_classify(EntryKind::Other, BOTH));
}

#[test]
fn stash_name_appends_suffix() {
    assert_eq!(text(&stash_name(&chars("a.txt"))), "a.txt_reverted");
}

#[test]
fn swap_is_three_steps() {
    let p = Pair { dir: 3, backup: chars("a.backup.20180101"), original: chars("a") };
    let steps: Vec<String> = swap_steps(&p).iter().map(step_text).collect();
    assert_eq!(
        steps,
        vec!["3 mv a a_reverted", "3 mv a.backup.20180101 a", "3 rm a_reverted"]
    );
}

#[test]
fn basic_revert() {
    let snap = one_dir(vec![
        entry("a.txt", EntryKind::File),
        entry("a.txt.backup.20180101", EntryKind::File),
    ]);
    let run = revert(&snap, DEFAULT, false);
    assert!(run.found.fault.is_none());
    assert_eq!(run.found.pairs.len(), 1);
    assert_eq!(run.found.seen, 2);
    assert_eq!(text(&run.found.pairs[0].backup), "a.txt.backup.20180101");
    assert_eq!(text(&run.found.pairs[0].original), "a.txt");
    assert_eq!(run.outcomes, vec![Outcome::Swap]);
    let steps: Vec<String> = run.steps.iter().map(step_text).collect();
    assert_eq!(
        steps,
        vec![
            "0 mv a.txt a.txt_reverted",
            "0 mv a.txt.backup.20180101 a.txt",
            "0 rm a.txt_reverted"
        ]
    );
}

#[test]
fn missing_original_warns() {
    let snap = one_dir(vec![entry("b.txt.backup.20200202", EntryKind::File)]);
    let run = revert(&snap, DEFAULT, false);
    assert_eq!(run.found.pairs.len(), 0);
    assert_eq!(run.found.seen, 1);
    assert_eq!(run.found.notes.len(), 1);
    assert_eq!(run.found.notes[0].kind, NoteKind::NoOriginal);
    assert_eq!(run.found.notes[0].entry, 0);
    assert!(run.steps.is_empty());
}

#[test]
fn original_that_is_not_a_regular_file_is_rejected() {
    let snap = one_dir(vec![
        entry("e", EntryKind::FileLink),
        entry("e.backup.20200202", EntryKind::File),
    ]);
    let run = revert(&snap, BOTH, false);
    assert_eq!(run.found.pairs.len(), 0);
    assert_eq!(run.found.seen, 2);
    assert_eq!(run.found.notes[0].kind, NoteKind::NoOriginal);
    assert!(run.steps.is_empty());
}

#[test]
fn simulate_plans_no_step() {
    let snap = one_dir(vec![
        entry("a.txt", EntryKind::File),
        entry("a.txt.backup.20180101", EntryKind::File),
    ]);
    let run = revert(&snap, DEFAULT, true);
    assert_eq!(run.found.pairs.len(), 1);
    assert_eq!(run.outcomes, vec![Outcome::Swap]);
    assert!(run.steps.is_empty());
}

#[test]
fn seven_digits_is_no_candidate() {
    let snap = one_dir(vec![
        entry("c.txt", EntryKind::File),
        entry("c.txt.backup.1234567", EntryKind::File),
    ]);
    let run = revert(&snap, DEFAULT, false);
    assert_eq!(run.found.pairs.len(), 0);
    assert_eq!(run.found.notes.len(), 0);
    assert_eq!(run.found.seen, 2);
    assert!(run.steps.is_empty());
}

fn linked_tree(follow: bool) -> Snapshot {
    let pair_dir = || {
        vec![entry("x", EntryKind::File), entry("x.backup.20180101", EntryKind::File)]
    };
    let mut dirs = vec![
        Listing {
            origin: 0,
            entries: vec![
                dir_entry("sub", EntryKind::Dir, 1),
                if follow {
                    dir_entry("link", EntryKind::DirLink, 2)
                } else {
                    entry("link", EntryKind::DirLink)
                },
            ],
        },
        Listing { origin: 1, entries: pair_dir() },
    ];
    if follow {
        dirs.push(Listing { origin: 1, entries: pair_dir() });
    }
    Snapshot { dirs }
}

#[test]
fn directory_symlink_ignored_by_default() {
    let run = revert(&linked_tree(false), DEFAULT, false);
    assert_eq!(run.found.pairs.len(), 1);
    assert_eq!(run.found.pairs[0].dir, 1);
    assert_eq!(run.found.seen, 2);
    assert_eq!(run.found.notes.len(), 1);
    assert_eq!(run.found.notes[0].kind, NoteKind::Ignored);
    assert_eq!(run.steps.len(), 3);
}

#[test]
fn directory_symlink_followed_swaps_once() {
    let run = revert(&linked_tree(true), FOLLOW, false);
    assert_eq!(run.found.pairs.len(), 2);
    assert_eq!(run.found.seen, 5);
    assert_eq!(run.outcomes, vec![Outcome::Swap, Outcome::Duplicate]);
    let steps: Vec<String> = run.steps.iter().map(step_text).collect();
    assert_eq!(steps, vec!["1 mv x x_reverted", "1 mv x.backup.20180101 x", "1 rm x_reverted"]);
}

#[test]
fn two_dates_for_one_original_conflict() {
    let snap = one_dir(vec![
        entry("d", EntryKind::File),
        entry("d.backup.20180101", EntryKind::File),
        entry("d.backup.20180202", EntryKind::File),
    ]);
    let run = revert(&snap, DEFAULT, false);
    assert_eq!(run.found.pairs.len(), 2);
    assert_eq!(run.outcomes, vec![Outcome::Swap, Outcome::Conflict]);
    let steps: Vec<String> = run.steps.iter().map(step_text).collect();
    assert_eq!(steps, vec!["0 mv d d_reverted", "0 mv d.backup.20180101 d", "0 rm d_reverted"]);
}

#[test]
fn chained_backups_conflict() {
    let snap = one_dir(vec![
        entry("x", EntryKind::File),
        entry("x.backup.20180101", EntryKind::File),
        entry("x.backup.20180101.backup.20190101", EntryKind::File),
    ]);
    let run = revert(&snap, DEFAULT, false);
    assert_eq!(run.outcomes, vec![Outcome::Swap, Outcome::Conflict]);
    assert_eq!(run.steps.len(), 3);
}

#[test]
fn taken_stash_name_is_left_alone() {
    let snap = one_dir(vec![
        entry("e", EntryKind::File),
        entry("e.backup.20180101", EntryKind::File),
        entry("e_reverted", EntryKind::File),
    ]);
    let run = revert(&snap, DEFAULT, false);
    assert_eq!(run.outcomes, vec![Outcome::StashTaken]);
    assert!(run.steps.is_empty());
}

#[test]
fn non_text_name_stops_the_walk() {
    let snap = one_dir(vec![
        Entry { name: None, kind: EntryKind::File, child: None },
        entry("a", EntryKind::File),
        entry("a.backup.20180101", EntryKind::File),
    ]);
    let run = revert(&snap, DEFAULT, false);
    let fault = run.found.fault.expect("fault expected");
    assert_eq!((fault.dir, fault.entry), (0, 0));
    assert!(run.outcomes.is_empty());
    assert!(run.steps.is_empty());
}

#[test]
fn non_text_name_of_ignored_link_is_harmless() {
    let snap = one_dir(vec![Entry { name: None, kind: EntryKind::FileLink, child: None }]);
    let found = walk(&snap, DEFAULT);
    assert!(found.fault.is_none());
    assert_eq!(found.seen, 0);
}

#[test]
fn symlink_policy_widens_seen() {
    let snap = Snapshot {
        dirs: vec![
            Listing {
                origin: 0,
                entries: vec![
                    entry("f", EntryKind::File),
                    entry("l", EntryKind::FileLink),
                    dir_entry("dl", EntryKind::DirLink, 1),
                    entry("sock", EntryKind::Other),
                ],
            },
            Listing { origin: 1, entries: vec![entry("g", EntryKind::File)] },
        ],
    };
    let d = walk(&snap, DEFAULT).seen;
    let r = walk(&snap, RENAME).seen;
    let b = walk(&snap, BOTH).seen;
    assert_eq!((d, r, b), (1, 3, 4));
}

#[test]
fn found_never_exceeds_seen() {
    let snap = one_dir(vec![
        entry("a", EntryKind::File),
        entry("a.backup.20180101", EntryKind::File),
        entry("b.backup.20180101", EntryKind::File),
    ]);
    let found = walk(&snap, DEFAULT);
    assert_eq!(found.pairs.len(), 1);
    assert_eq!(found.seen, 3);
}

#[test]
fn no_candidate_changes_nothing() {
    let snap = one_dir(vec![entry("a", EntryKind::File), entry("b", EntryKind::FileLink)]);
    for pol in [DEFAULT, RENAME, FOLLOW, BOTH] {
        for simulate in [false, true] {
            let run = revert(&snap, pol, simulate);
            assert!(run.found.pairs.is_empty());
            assert!(run.steps.is_empty());
        }
    }
}

#[test]
fn pairs_share_their_directory() {
    let snap = Snapshot {
        dirs: vec![
            Listing { origin: 0, entries: vec![dir_entry("s", EntryKind::Dir, 1)] },
            Listing {
                origin: 1,
                entries: vec![entry("q", EntryKind::File), entry("q.backup.20180101", EntryKind::File)],
            },
        ],
    };
    let found = walk(&snap, DEFAULT);
    assert_eq!(found.pairs.len(), 1);
    assert_eq!(found.pairs[0].dir, 1);
}

#[test]
fn plan_outcomes_directly() {
    let snap = one_dir(vec![
        entry("d", EntryKind::File),
        entry("d.backup.20180101", EntryKind::File),
        entry("d.backup.20180202", EntryKind::File),
    ]);
    let pairs = vec![
        Pair { dir: 0, backup: chars("d.backup.20180202"), original: chars("d") },
        Pair { dir: 0, backup: chars("d.backup.20180101"), original: chars("d") },
        Pair { dir: 0, backup: chars("d.backup.20180202"), original: chars("d") },
    ];
    assert_eq!(
        plan_outcomes(&snap, &pairs),
        vec![Outcome::Swap, Outcome::Conflict, Outcome::Duplicate]
    );
}

fn apply_steps(names: &mut Vec<(String, EntryKind)>, steps: &[Step]) {
    for s in steps {
        match s {
            Step::Rename { from, to, .. } => {
                let (from, to) = (text(from), text(to));
                assert!(names.iter().all(|(n, _)| *n != to));
                let slot = names.iter_mut().find(|(n, _)| *n == from).expect("source exists");
                slot.0 = to;
            }
            Step::Remove { name, .. } => {
                let name = text(name);
                let before = names.len();
                names.retain(|(n, _)| *n != name);
                assert_eq!(names.len(), before - 1);
            }
        }
    }
}

#[test]
fn second_run_finds_nothing() {
    let mut names: Vec<(String, EntryKind)> = vec![
        ("a.txt".to_string(), EntryKind::File),
        ("a.txt.backup.20180101".to_string(), EntryKind::File),
        ("b".to_string(), EntryKind::File),
        ("b.backup.20190101".to_string(), EntryKind::File),
        ("c.backup.20200101".to_string(), EntryKind::File),
    ];
    let snapshot_of = |names: &Vec<(String, EntryKind)>| {
        one_dir(names.iter().map(|(n, k)| entry(n, *k)).collect())
    };
    let first = revert(&snapshot_of(&names), DEFAULT, false);
    assert_eq!(first.found.pairs.len(), 2);
    assert_eq!(first.outcomes, vec![Outcome::Swap, Outcome::Swap]);
    apply_steps(&mut names, &first.steps);
    let mut left: Vec<String> = names.iter().map(|(n, _)| n.clone()).collect();
    left.sort();
    assert_eq!(left, vec!["a.txt", "b", "c.backup.20200101"]);
    let second = revert(&snapshot_of(&names), DEFAULT, false);
    assert_eq!(second.found.pairs.len(), 0);
    assert!(second.steps.is_empty());
}

#[test]
fn name_lookup_reports_presence_and_regular_file() {
    let entries = vec![entry("a", EntryKind::File), entry("l", EntryKind::FileLink)];
    assert_eq!(restore_revert::find_name(&entries, &chars("a")), (true, true));
    assert_eq!(restore_revert::find_name(&entries, &chars("l")), (true, false));
    assert_eq!(restore_revert::find_name(&entries, &chars("z")), (false, false));
    assert!(restore_revert::same_chars(&chars("ab"), &chars("ab")));
    assert!(!restore_revert::same_chars(&chars("ab"), &chars("abc")));
    assert_eq!(text(&restore_revert::copy_chars(&chars("xyz"))), "xyz");
}
