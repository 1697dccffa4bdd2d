use mc_screenshot_copy::engine::{
    CopyAction, InstanceListing, bytes_eq, copy_screenshots, dest_contains,
};

fn instance(media_present: bool, names: &[&str]) -> InstanceListing {
    InstanceListing {
        media_present,
        files: names.iter().map(|n| n.as_bytes().to_vec()).collect(),
    }
}

fn names(dest: &[&str]) -> Vec<Vec<u8>> {
    dest.iter().map(|n| n.as_bytes().to_vec()).collect()
}

fn has_name(dest: &[Vec<u8>], name: &str) -> bool {
    dest.iter().any(|d| d == name.as_bytes())
}

#[test]
fn two_instances_into_empty_destination() {
    let instances = vec![instance(true, &["a.png"]), instance(true, &["b.png"])];
    let r = copy_screenshots(&instances, Vec::new());
    assert_eq!(r.tally.copied, 2);
    assert_eq!(r.tally.skipped, 0);
    assert_eq!(
        r.actions,
        vec![
            CopyAction { instance: 0, file: 0 },
            CopyAction { instance: 1, file: 0 },
        ]
    );
    assert!(has_name(&r.dest_names, "a.png"));
    assert!(has_name(&r.dest_names, "b.png"));
}

#[test]
fn name_already_at_destination_is_skipped() {
    let instances = vec![instance(true, &["a.png"]), instance(true, &["b.png"])];
    let r = copy_screenshots(&instances, names(&["a.png"]));
    assert_eq!(r.tally.copied, 1);
    assert_eq!(r.tally.skipped, 1);
    assert_eq!(r.actions, vec![CopyAction { instance: 1, file: 0 }]);
    assert!(has_name(&r.dest_names, "b.png"));
}

#[test]
fn instance_without_media_contributes_nothing() {
    let instances = vec![
        instance(true, &["a.png"]),
        instance(false, &["ignored.png"]),
        instance(true, &["b.png"]),
    ];
    let r = copy_screenshots(&instances, Vec::new());
    assert_eq!(r.tally.copied, 2);
    assert_eq!(r.tally.skipped, 0);
    assert_eq!(
        r.actions,
        vec![
            CopyAction { instance: 0, file: 0 },
            CopyAction { instance: 2, file: 0 },
        ]
    );
    assert!(!has_name(&r.dest_names, "ignored.png"));
}

#[test]
fn second_run_copies_nothing() {
    let instances = vec![
        instance(true, &["a.png", "c.png"]),
        instance(true, &["b.png"]),
    ];
    let first = copy_screenshots(&instances, Vec::new());
    assert_eq!(first.tally.copied, 3);
    assert_eq!(first.tally.skipped, 0);

    let second = copy_screenshots(&instances, first.dest_names);
    assert_eq!(second.tally.copied, 0);
    assert_eq!(second.tally.skipped, first.tally.copied);
    assert!(second.actions.is_empty());
}

#[test]
fn duplicate_name_across_instances_copied_once() {
    let instances = vec![instance(true, &["a.png"]), instance(true, &["a.png"])];
    let r = copy_screenshots(&instances, Vec::new());
    assert_eq!(r.tally.copied, 1);
    assert_eq!(r.tally.skipped, 1);
    assert_eq!(r.actions, vec![CopyAction { instance: 0, file: 0 }]);
}

#[test]
fn no_instances_no_work() {
    let r = copy_screenshots(&Vec::new(), names(&["a.png"]));
    assert_eq!(r.tally.copied, 0);
    assert_eq!(r.tally.skipped, 0);
    assert!(r.actions.is_empty());
    assert_eq!(r.dest_names, names(&["a.png"]));
}

#[test]
fn empty_media_listing_contributes_nothing() {
    let instances = vec![instance(true, &[]), instance(true, &["a.png"])];
    let r = copy_screenshots(&instances, Vec::new());
    assert_eq!(r.tally.copied, 1);
    assert_eq!(r.tally.skipped, 0);
    assert_eq!(r.actions, vec![CopyAction { instance: 1, file: 0 }]);
}

#[test]
fn actions_follow_listing_order() {
    let instances = vec![
        instance(true, &["a.png", "b.png"]),
        instance(true, &["c.png"]),
    ];
    let r = copy_screenshots(&instances, Vec::new());
    assert_eq!(
        r.actions,
        vec![
            CopyAction { instance: 0, file: 0 },
            CopyAction { instance: 0, file: 1 },
            CopyAction { instance: 1, file: 0 },
        ]
    );
}

#[test]
fn destination_lookup_and_byte_equality() {
    let dest = names(&["a.png", "b.png"]);
    assert!(dest_contains(&dest, &"a.png".as_bytes().to_vec()));
    assert!(dest_contains(&dest, &"b.png".as_bytes().to_vec()));
    assert!(!dest_contains(&dest, &"c.png".as_bytes().to_vec()));
    assert!(bytes_eq(
        &"a.png".as_bytes().to_vec(),
        &"a.png".as_bytes().to_vec()
    ));
    assert!(!bytes_eq(
        &"a.png".as_bytes().to_vec(),
        &"a.pnh".as_bytes().to_vec()
    ));
}
