use incsync::engine::{commit_value, tally_copied};
use incsync::scan::scan;

fn names(list: &[&str]) -> Vec<String> {
    list.iter().map(|s| s.to_string()).collect()
}

#[test]
fn watermark_gates_candidates() {
    let listing = names(&["img_3.raw", "img_7.raw", "img_9.raw"]);
    let found = scan(&listing, "raw", 5);
    let ids: Vec<u32> = found.iter().map(|c| c.id).collect();
    assert_eq!(ids, vec![7, 9]);
    assert_eq!(found[0].name, "img_7.raw");
    assert_eq!(found[1].name, "img_9.raw");
    // All copies succeed: the run commits the maximum identifier.
    let running_max = tally_copied(5, &ids);
    assert_eq!(running_max, 9);
    assert_eq!(commit_value(running_max, 5), Some(9));
}

#[test]
fn absent_watermark_counts_as_zero() {
    let listing = names(&["a10.raw"]);
    let found = scan(&listing, "raw", 0);
    assert_eq!(found.len(), 1);
    assert_eq!(found[0].id, 10);
    let running_max = tally_copied(0, &[10].to_vec());
    assert_eq!(commit_value(running_max, 0), Some(10));
    assert_eq!(incsync::watermark::format_watermark(10), "10\n");
}

#[test]
fn digitless_names_are_skipped_without_effect() {
    let listing = names(&["photo.raw"]);
    let found = scan(&listing, "raw", 5);
    assert!(found.is_empty());
    let running_max = tally_copied(5, &Vec::new());
    assert_eq!(commit_value(running_max, 5), None);
}

#[test]
fn listing_order_does_not_matter() {
    let listing = names(&["b20.raw", "a5.raw", "c10.raw"]);
    let found = scan(&listing, "raw", 0);
    let ids: Vec<u32> = found.iter().map(|c| c.id).collect();
    assert_eq!(ids, vec![5, 10, 20]);
}

#[test]
fn equal_identifiers_keep_listing_order() {
    let listing = names(&["x7.raw", "y7.raw"]);
    let found = scan(&listing, "raw", 0);
    assert_eq!(found.len(), 2);
    assert_eq!(found[0].name, "x7.raw");
    assert_eq!(found[1].name, "y7.raw");
}

#[test]
fn extension_filter_is_case_insensitive() {
    let listing = names(&["IMG_8.RAW", "img_9.jpg", "img_10.rawx"]);
    let found = scan(&listing, "raw", 0);
    assert_eq!(found.len(), 1);
    assert_eq!(found[0].id, 8);
    assert_eq!(found[0].name, "IMG_8.RAW");
}

#[test]
fn candidates_at_or_below_the_watermark_are_dropped() {
    let listing = names(&["img_5.raw", "img_6.raw"]);
    let found = scan(&listing, "raw", 5);
    assert_eq!(found.len(), 1);
    assert_eq!(found[0].id, 6);
}

#[test]
fn second_run_after_a_full_copy_sees_nothing() {
    let listing = names(&["img_3.raw", "img_7.raw", "img_9.raw"]);
    let first = scan(&listing, "raw", 5);
    let ids: Vec<u32> = first.iter().map(|c| c.id).collect();
    let committed = commit_value(tally_copied(5, &ids), 5).unwrap_or(5);
    assert_eq!(committed, 9);
    // Same listing, new watermark: no candidates, no change.
    let second = scan(&listing, "raw", committed);
    assert!(second.is_empty());
    assert_eq!(commit_value(tally_copied(committed, &Vec::new()), committed), None);
}
