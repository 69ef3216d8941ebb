//! Scenario tests for the version model and the kernel's sequencing and
//! broadcast guarantees.

use engula::kernel::{Delivery, Error, Kernel};
use engula::version::{KernelUpdate, Version, VersionUpdate};

fn meta_entry(k: &str, v: &[u8]) -> (String, Vec<u8>) {
    (k.to_string(), v.to_vec())
}

#[test]
fn update() {
    let kernel: Kernel<(), ()> = Kernel::new((), ());

    let mut expect = VersionUpdate::new();
    expect.sequence = 1;
    expect.set_meta.push(meta_entry("a", b"b"));
    expect.delete_meta.push("b".to_string());
    expect.add_objects.push("a".to_string());
    expect.delete_objects.push("b".to_string());

    let mut subscription = kernel.version_updates(0);

    let mut kernel = kernel;
    let mut update = KernelUpdate::new();
    update.set_meta("a".to_string(), b"b".to_vec());
    update.delete_meta("b".to_string());
    update.add_object("a".to_string());
    update.delete_object("b".to_string());
    kernel.apply_update(update).unwrap();

    match kernel.poll_update(&mut subscription) {
        Delivery::Update(got) => assert_eq!(got, expect),
        _ => panic!("expected a delivered update"),
    }
    assert!(matches!(
        kernel.poll_update(&mut subscription),
        Delivery::Pending
    ));
}

#[test]
fn sequences_start_at_one_and_increase_by_one() {
    let mut kernel: Kernel<(), ()> = Kernel::new((), ());
    for expected in 1..=5u64 {
        let mut update = KernelUpdate::new();
        update.add_object(format!("obj-{}", expected));
        kernel.apply_update(update).unwrap();
        assert_eq!(kernel.current_version().sequence, expected);
    }
    let mut subscription = kernel.version_updates(0);
    for expected in 1..=5u64 {
        match kernel.poll_update(&mut subscription) {
            Delivery::Update(u) => assert_eq!(u.sequence, expected),
            _ => panic!("expected a delivered update"),
        }
    }
}

#[test]
fn early_subscriber_sees_every_update_in_order_without_gaps() {
    let mut kernel: Kernel<(), ()> = Kernel::new((), ());
    let mut subscription = kernel.version_updates(0);

    let mut submitted: Vec<VersionUpdate> = Vec::new();
    for i in 0..20u64 {
        let mut update = KernelUpdate::new();
        update.set_meta(format!("key-{}", i), vec![i as u8]);
        submitted.push(update.update.clone());
        kernel.apply_update(update).unwrap();
    }

    for (i, sent) in submitted.iter().enumerate() {
        match kernel.poll_update(&mut subscription) {
            Delivery::Update(got) => {
                assert_eq!(got.sequence, i as u64 + 1);
                assert_eq!(got.set_meta, sent.set_meta);
                assert_eq!(got.delete_meta, sent.delete_meta);
                assert_eq!(got.add_objects, sent.add_objects);
                assert_eq!(got.delete_objects, sent.delete_objects);
            }
            _ => panic!("expected a delivered update"),
        }
    }
    assert!(matches!(
        kernel.poll_update(&mut subscription),
        Delivery::Pending
    ));
}

#[test]
fn fold_is_idempotent_on_absent_deletes_and_present_adds() {
    let base = Version::new();
    let mut update = KernelUpdate::new();
    update.set_meta("a".to_string(), b"1".to_vec());
    update.add_object("t1".to_string());
    let mut u = update.update;
    u.sequence = 1;
    let v1 = base.apply(&u);
    assert_eq!(v1.meta, vec![meta_entry("a", b"1")]);
    assert_eq!(v1.objects, vec!["t1".to_string()]);

    // Deleting an absent meta key and an absent object, and adding an
    // already-present object, changes nothing but the sequence.
    let mut edge = KernelUpdate::new();
    edge.delete_meta("missing".to_string());
    edge.add_object("t1".to_string());
    edge.delete_object("missing".to_string());
    let mut e = edge.update;
    e.sequence = 2;
    let v2 = v1.apply(&e);
    assert_eq!(v2.sequence, 2);
    assert_eq!(v2.meta, v1.meta);
    assert_eq!(v2.objects, v1.objects);
}

#[test]
fn fold_applies_sets_deletes_adds_and_removes() {
    let base = Version::new();
    let mut b = KernelUpdate::new();
    b.set_meta("a".to_string(), b"1".to_vec());
    b.set_meta("b".to_string(), b"2".to_vec());
    b.add_object("t1".to_string());
    b.add_object("t2".to_string());
    let mut u = b.update;
    u.sequence = 1;
    let v1 = base.apply(&u);

    let mut d = KernelUpdate::new();
    d.set_meta("a".to_string(), b"9".to_vec());
    d.delete_meta("b".to_string());
    d.add_object("t3".to_string());
    d.delete_object("t1".to_string());
    let mut u2 = d.update;
    u2.sequence = 2;
    let v2 = v1.apply(&u2);

    assert_eq!(v2.sequence, 2);
    assert_eq!(v2.meta, vec![meta_entry("a", b"9")]);
    assert_eq!(v2.objects, vec!["t2".to_string(), "t3".to_string()]);
}

#[test]
fn overwriting_set_meta_in_one_builder_keeps_one_entry() {
    let mut b = KernelUpdate::new();
    b.set_meta("a".to_string(), b"old".to_vec());
    b.set_meta("a".to_string(), b"new".to_vec());
    assert_eq!(b.update.set_meta, vec![meta_entry("a", b"new")]);
}

#[test]
fn conflicting_update_is_refused_and_state_unchanged() {
    let mut kernel: Kernel<(), ()> = Kernel::new((), ());
    let mut good = KernelUpdate::new();
    good.add_object("t1".to_string());
    kernel.apply_update(good).unwrap();

    let mut conflicted = KernelUpdate::new();
    conflicted.set_meta("k".to_string(), b"v".to_vec());
    conflicted.delete_meta("k".to_string());
    assert_eq!(
        kernel.apply_update(conflicted),
        Err(Error::InvalidArgument)
    );
    assert_eq!(kernel.current_version().sequence, 1);

    let mut conflicted_objects = KernelUpdate::new();
    conflicted_objects.add_object("x".to_string());
    conflicted_objects.delete_object("x".to_string());
    assert_eq!(
        kernel.apply_update(conflicted_objects),
        Err(Error::InvalidArgument)
    );
    assert_eq!(kernel.current_version().sequence, 1);
}

#[test]
fn current_version_tracks_last_applied_fold() {
    let mut kernel: Kernel<(), ()> = Kernel::new((), ());
    assert_eq!(kernel.current_version().sequence, 0);
    assert!(kernel.current_version().meta.is_empty());
    assert!(kernel.current_version().objects.is_empty());

    let mut u1 = KernelUpdate::new();
    u1.set_meta("a".to_string(), b"b".to_vec());
    kernel.apply_update(u1).unwrap();
    let v1 = kernel.current_version();
    assert_eq!(v1.sequence, 1);
    assert_eq!(v1.meta, vec![meta_entry("a", b"b")]);

    let mut u2 = KernelUpdate::new();
    u2.delete_meta("a".to_string());
    u2.add_object("t1".to_string());
    kernel.apply_update(u2).unwrap();
    let v2 = kernel.current_version();
    assert_eq!(v2.sequence, 2);
    assert!(v2.meta.is_empty());
    assert_eq!(v2.objects, vec!["t1".to_string()]);
}

#[test]
fn slow_subscriber_is_told_it_lagged() {
    let mut kernel: Kernel<(), ()> = Kernel::new((), ());
    let mut subscription = kernel.version_updates(0);
    // The retention window holds 1024 updates; apply more than that.
    for i in 0..1030u64 {
        let mut update = KernelUpdate::new();
        update.add_object(format!("obj-{}", i));
        kernel.apply_update(update).unwrap();
    }
    match kernel.poll_update(&mut subscription) {
        Delivery::Lagged(missed) => assert_eq!(missed, 1030 - 1024),
        _ => panic!("expected an explicit lag signal"),
    }
    // After the signal the cursor stands at the oldest retained update.
    match kernel.poll_update(&mut subscription) {
        Delivery::Update(u) => assert_eq!(u.sequence, 1030 - 1024 + 1),
        _ => panic!("expected a delivered update"),
    }
}

#[test]
fn subscription_resumes_from_a_historical_sequence() {
    let mut kernel: Kernel<(), ()> = Kernel::new((), ());
    for i in 0..10u64 {
        let mut update = KernelUpdate::new();
        update.add_object(format!("obj-{}", i));
        kernel.apply_update(update).unwrap();
    }
    let mut subscription = kernel.version_updates(7);
    match kernel.poll_update(&mut subscription) {
        Delivery::Update(u) => assert_eq!(u.sequence, 7),
        _ => panic!("expected a delivered update"),
    }
}

#[test]
fn capability_handles_are_returned() {
    let kernel: Kernel<u32, &str> = Kernel::new(7, "bucket");
    assert_eq!(*kernel.stream(), 7);
    assert_eq!(*kernel.bucket(), "bucket");
}

#[test]
fn fold_resolves_set_and_delete_of_one_key_by_deletion() {
    // `Version::apply` is total: when one delta both writes and deletes a
    // key (which the kernel refuses), the documented precedence is that
    // deletions win.
    let base = Version::new();
    let mut b = KernelUpdate::new();
    b.set_meta("k".to_string(), b"v".to_vec());
    b.delete_meta("k".to_string());
    b.add_object("o".to_string());
    b.delete_object("o".to_string());
    let mut u = b.update;
    u.sequence = 1;
    let v = base.apply(&u);
    assert!(v.meta.is_empty());
    assert!(v.objects.is_empty());
}
