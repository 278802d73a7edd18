use efistub_update::controller::{contains_str, plan_update, should_rescan, FsEvent, UpdatePlan};
use efistub_update::version::{ParseError, Version};

fn names(list: &[&str]) -> Vec<String> {
    list.iter().map(|s| String::from(*s)).collect()
}

fn running(s: &str) -> Version {
    Version::new(String::from(s), None).unwrap()
}

const TEMPLATE: &str = "efibootmgr -c -L 'Linux %v' -l vmlinuz-%v";

fn plan(
    files: &[&str],
    run: Option<&Version>,
    dry_run: bool,
) -> Result<Option<UpdatePlan>, ParseError> {
    let files = names(files);
    plan_update(
        &files,
        "vmlinuz",
        Some("vmlinuz-%v"),
        run,
        "0003",
        TEMPLATE,
        dry_run,
    )
}

#[test]
fn remove_events_are_ignored() {
    assert!(!should_rescan(&FsEvent::Remove(String::from("/boot/vmlinuz-5.10.0"))));
    assert!(should_rescan(&FsEvent::Create(String::from("/boot/vmlinuz-5.10.1"))));
    assert!(should_rescan(&FsEvent::Other));
}

#[test]
fn newer_kernel_spawns_remove_then_create() {
    let rv = running("5.10.0");
    let p = plan(&["vmlinuz-5.10.0", "vmlinuz-5.10.1"], Some(&rv), false)
        .unwrap()
        .unwrap();
    assert!(p.run_remove);
    assert_eq!(p.entry.remove.program, "efibootmgr");
    assert_eq!(
        p.entry.remove.args,
        vec![String::from("-b"), String::from("0003"), String::from("-B")]
    );
    assert_eq!(p.entry.create.program, "efibootmgr");
    assert_eq!(
        p.entry.create.args,
        vec![
            String::from("-c"),
            String::from("-L"),
            String::from("Linux 5.10.1"),
            String::from("-l"),
            String::from("vmlinuz-5.10.1"),
        ]
    );
}

#[test]
fn older_kernel_appearing_spawns_nothing() {
    let rv = running("5.10.1");
    let p = plan(&["vmlinuz-5.10.1", "vmlinuz-5.10.0"], Some(&rv), false).unwrap();
    assert!(p.is_none());
}

#[test]
fn rescan_after_update_spawns_nothing_again() {
    let files = ["vmlinuz-5.10.0", "vmlinuz-5.10.1"];
    let rv = running("5.10.0");
    assert!(plan(&files, Some(&rv), false).unwrap().is_some());
    // The machine now runs the directory's own maximum; the same scan again
    // must plan nothing.
    let rv = running("5.10.1");
    assert!(plan(&files, Some(&rv), false).unwrap().is_none());
}

#[test]
fn same_version_is_not_an_update() {
    let rv = running("5.10.1");
    let p = plan(&["vmlinuz-5.10.1"], Some(&rv), false).unwrap();
    assert!(p.is_none());
}

#[test]
fn without_running_version_the_newest_image_wins() {
    let p = plan(&["vmlinuz-5.4.9", "vmlinuz-5.10.1"], None, false)
        .unwrap()
        .unwrap();
    assert_eq!(
        p.entry.create.args.last().unwrap(),
        &String::from("vmlinuz-5.10.1")
    );
}

#[test]
fn dry_run_suppresses_only_the_removal() {
    let p = plan(&["vmlinuz-5.10.1"], None, true).unwrap().unwrap();
    assert!(!p.run_remove);
    assert_eq!(p.entry.create.program, "efibootmgr");
}

#[test]
fn empty_directory_plans_nothing() {
    let p = plan(&[], None, false).unwrap();
    assert!(p.is_none());
}

#[test]
fn entries_without_the_marker_are_ignored() {
    let rv = running("5.10.0");
    let p = plan(&["initrd-9.9.9", "config-9.9.9"], Some(&rv), false).unwrap();
    assert!(p.is_none());
}

#[test]
fn unparsable_entries_are_skipped() {
    let rv = running("5.10.0");
    let p = plan(
        &["vmlinuz-old", "vmlinuz-5.10.1", "vmlinuz"],
        Some(&rv),
        false,
    )
    .unwrap()
    .unwrap();
    assert_eq!(
        p.entry.create.args.last().unwrap(),
        &String::from("vmlinuz-5.10.1")
    );
}

#[test]
fn malformed_pattern_is_refused() {
    let files = names(&["vmlinuz-5.10.1"]);
    let r = plan_update(&files, "vmlinuz", Some("vmlinuz-"), None, "0003", TEMPLATE, false);
    assert_eq!(r.unwrap_err(), ParseError::BadPattern);
}

#[test]
fn empty_template_is_refused_when_an_update_is_due() {
    let files = names(&["vmlinuz-5.10.1"]);
    let r = plan_update(&files, "vmlinuz", Some("vmlinuz-%v"), None, "0003", "", false);
    assert_eq!(r.unwrap_err(), ParseError::EmptyCommand);
}

#[test]
fn ties_on_version_pick_the_last_entry() {
    let files = names(&["vmlinuz-5.10.1", "vmlinuz-5.10.1.old"]);
    // Both parse to the same numbers; the later entry wins, and its canonical
    // string is what gets substituted.
    let p = plan_update(&files, "vmlinuz", None, None, "0003", "run %v", false)
        .unwrap()
        .unwrap();
    assert_eq!(p.entry.create.args, vec![String::from("vmlinuz-5.10.1.old")]);
}

#[test]
fn contains_str_finds_substrings() {
    assert!(contains_str("vmlinuz-5.10.0", "vmlinuz"));
    assert!(contains_str("old-vmlinuz-backup", "vmlinuz"));
    assert!(!contains_str("initrd.img", "vmlinuz"));
    assert!(contains_str("anything", ""));
    assert!(!contains_str("vm", "vmlinuz"));
}
