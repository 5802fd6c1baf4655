use store_overlay::names::{bucket_index, NameSet, BUCKET_COUNT};
use store_overlay::reconcile::{reconcile, MaskOp, Plan};

fn set(items: &[&str]) -> NameSet {
    NameSet::from_vec(items.iter().map(|s| s.to_string()).collect())
}

fn sorted(s: &NameSet) -> Vec<String> {
    let mut v = s.to_vec();
    v.sort();
    v
}

fn strings(items: &[&str]) -> Vec<String> {
    let mut v: Vec<String> = items.iter().map(|s| s.to_string()).collect();
    v.sort();
    v
}

/// The masked set after carrying out `plan` on `masked`.
fn masked_after(masked: &NameSet, plan: &Plan) -> NameSet {
    masked.difference(&plan.removals()).union(&plan.newly_mask)
}

#[test]
fn one_masked_one_new() {
    let store = set(&["a", "b", "c"]);
    let whitelist = set(&["a"]);
    let masked = set(&["b"]);
    let plan = reconcile(&store, &whitelist, &masked);
    assert!(plan.unmask.is_empty());
    assert!(plan.stale.is_empty());
    assert_eq!(sorted(&plan.newly_mask), strings(&["c"]));
    assert_eq!(sorted(&masked_after(&masked, &plan)), strings(&["b", "c"]));
}

#[test]
fn stale_marker_removed() {
    let store = set(&["a", "b"]);
    let whitelist = set(&["a", "b"]);
    let masked = set(&["x"]);
    let plan = reconcile(&store, &whitelist, &masked);
    assert_eq!(sorted(&plan.stale), strings(&["x"]));
    assert!(plan.unmask.is_empty());
    assert!(plan.newly_mask.is_empty());
    assert!(masked_after(&masked, &plan).is_empty());
}

#[test]
fn converges_to_store_minus_whitelist() {
    let store = set(&["a", "b", "c", "d"]);
    let whitelist = set(&["a", "c", "z"]);
    let masked = set(&["a", "b", "y", "z"]);
    let plan = reconcile(&store, &whitelist, &masked);
    assert_eq!(sorted(&plan.unmask), strings(&["a", "z"]));
    assert_eq!(sorted(&plan.stale), strings(&["y", "z"]));
    assert_eq!(sorted(&plan.newly_mask), strings(&["d"]));
    assert_eq!(sorted(&plan.removals()), strings(&["a", "y", "z"]));
    assert_eq!(sorted(&masked_after(&masked, &plan)), strings(&["b", "d"]));
}

#[test]
fn second_pass_changes_nothing() {
    let store = set(&["a", "b", "c", "d"]);
    let whitelist = set(&["a", "c"]);
    let masked = set(&["a", "y"]);
    let plan = reconcile(&store, &whitelist, &masked);
    let again = masked_after(&masked, &plan);
    let second = reconcile(&store, &whitelist, &again);
    assert!(second.unmask.is_empty());
    assert!(second.stale.is_empty());
    assert!(second.newly_mask.is_empty());
}

#[test]
fn plan_parts_are_disjoint() {
    let store = set(&["a", "b", "c", "d"]);
    let whitelist = set(&["a", "b"]);
    let masked = set(&["b", "c", "q"]);
    let plan = reconcile(&store, &whitelist, &masked);
    assert!(plan.unmask.intersection(&plan.stale).is_empty());
    assert!(plan.unmask.intersection(&plan.newly_mask).is_empty());
    assert!(plan.stale.intersection(&plan.newly_mask).is_empty());
    assert_eq!(sorted(&plan.unmask), strings(&["b"]));
    assert_eq!(sorted(&plan.stale), strings(&["q"]));
    assert_eq!(sorted(&plan.newly_mask), strings(&["d"]));
}

#[test]
fn whitelist_covering_store_masks_nothing() {
    let store = set(&["a", "b"]);
    let whitelist = set(&["a", "b", "c"]);
    let masked = set(&["a", "q"]);
    let plan = reconcile(&store, &whitelist, &masked);
    assert!(plan.newly_mask.is_empty());
    assert_eq!(sorted(&plan.unmask), sorted(&masked.intersection(&store)));
}

#[test]
fn empty_whitelist_masks_whole_store() {
    let store = set(&["a", "b", "c"]);
    let whitelist = set(&[]);
    let masked = set(&["b", "x"]);
    let plan = reconcile(&store, &whitelist, &masked);
    assert_eq!(sorted(&plan.newly_mask), strings(&["a", "c"]));
    assert_eq!(sorted(&masked_after(&masked, &plan)), strings(&["a", "b", "c"]));
}

#[test]
fn empty_store_removes_every_marker() {
    let store = set(&[]);
    let whitelist = set(&["a"]);
    let masked = set(&["a", "b"]);
    let plan = reconcile(&store, &whitelist, &masked);
    assert_eq!(sorted(&plan.stale), strings(&["a", "b"]));
    assert_eq!(sorted(&plan.unmask), strings(&["a"]));
    assert!(plan.newly_mask.is_empty());
    assert!(masked_after(&masked, &plan).is_empty());
}

#[test]
fn required_masked_store_path_is_only_unmasked() {
    let store = set(&["a"]);
    let whitelist = set(&["a"]);
    let masked = set(&["a"]);
    let plan = reconcile(&store, &whitelist, &masked);
    assert_eq!(sorted(&plan.unmask), strings(&["a"]));
    assert!(plan.stale.is_empty());
    assert!(plan.newly_mask.is_empty());
}

#[test]
fn name_set_operations() {
    let mut s = set(&["a", "b", "a"]);
    assert_eq!(s.len(), 2);
    assert!(s.contains(&"a".to_string()));
    assert!(!s.contains(&"c".to_string()));
    assert!(s.insert("c".to_string()));
    assert!(!s.insert("a".to_string()));
    assert_eq!(sorted(&s), strings(&["a", "b", "c"]));
    assert!(NameSet::new().is_empty());
    let t = set(&["b", "d"]);
    assert_eq!(sorted(&s.union(&t)), strings(&["a", "b", "c", "d"]));
    assert_eq!(sorted(&s.difference(&t)), strings(&["a", "c"]));
    assert_eq!(sorted(&s.intersection(&t)), strings(&["b"]));
}

#[test]
fn operations_remove_before_create() {
    let store = set(&["a", "b", "c", "d"]);
    let whitelist = set(&["a", "z"]);
    let masked = set(&["a", "y", "z"]);
    let plan = reconcile(&store, &whitelist, &masked);
    let ops = plan.operations();
    assert_eq!(ops.len(), 6);
    let mut removed: Vec<String> = Vec::new();
    let mut created: Vec<String> = Vec::new();
    for op in &ops {
        match op {
            MaskOp::Remove(n) => {
                assert!(created.is_empty());
                removed.push(n.clone());
            }
            MaskOp::Create(n) => created.push(n.clone()),
        }
    }
    removed.sort();
    created.sort();
    assert_eq!(removed, strings(&["a", "y", "z"]));
    assert_eq!(created, strings(&["b", "c", "d"]));
}

#[test]
fn bucket_of_bytes() {
    assert_eq!(bucket_index(""), 0);
    assert_eq!(bucket_index("a"), 97);
    assert_eq!(bucket_index("ab"), (97 * 31 + 98) % BUCKET_COUNT);
    assert!(bucket_index("0123456789abcdefghijklmnopqrstuv-hello-2.12") < BUCKET_COUNT);
}

#[test]
fn large_sets() {
    let store: Vec<String> = (0..20000).map(|i| format!("{:05}-pkg", i)).collect();
    let whitelist: Vec<String> = (0..20000).filter(|i| i % 7 == 0).map(|i| format!("{:05}-pkg", i)).collect();
    let masked: Vec<String> = (10000..25000).map(|i| format!("{:05}-pkg", i)).collect();
    let store = NameSet::from_vec(store);
    let whitelist = NameSet::from_vec(whitelist);
    let masked = NameSet::from_vec(masked);
    let plan = reconcile(&store, &whitelist, &masked);
    // masked store paths 10000..20000 that the whitelist holds
    assert_eq!(plan.unmask.len(), (10000..20000).filter(|i| i % 7 == 0).count());
    assert_eq!(plan.stale.len(), 5000);
    assert_eq!(plan.newly_mask.len(), (0..10000).filter(|i| i % 7 != 0).count());
    let after = masked_after(&masked, &plan);
    assert_eq!(after.len(), (0..20000).filter(|i| i % 7 != 0).count());
    assert!(after.contains(&"00001-pkg".to_string()));
    assert!(!after.contains(&"00007-pkg".to_string()));
    assert!(!after.contains(&"24000-pkg".to_string()));
}
