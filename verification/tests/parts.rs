use std::sync::atomic::Ordering::Relaxed;
use snoozy::cycle_detector::create_cycle_detector;
use snoozy::maybe_serialize::{AnySerialize, AnySerializeProxy, MaybeSerialize};
use snoozy::reachability::reachable_from;
use snoozy::recipe_info::{contains_ref, RecipeBuildResult, RecipeDebugInfo, RecipeInfo, RecipeMeta};
use snoozy::refs::{path_contains, EvaluationPathNode, OpaqueSnoozyAddr, OpaqueSnoozyRef, SnoozyIdentityHash};

fn r(i: usize) -> OpaqueSnoozyRef {
    OpaqueSnoozyRef {
        inner: i,
        addr: OpaqueSnoozyAddr { identity_hash: SnoozyIdentityHash(i as u64), type_id: 0 },
        use_prev: false,
    }
}

fn result(x: u64) -> RecipeBuildResult<u64> {
    RecipeBuildResult { artifact: x, debug_info: RecipeDebugInfo::new() }
}

#[test]
fn reachable_from_follows_edges_and_handles_cycles() {
    // 0 -> 1 -> 2 -> 0, 3 -> 4, 5 alone
    let adj = vec![vec![1], vec![2], vec![0], vec![4], vec![], vec![]];
    assert_eq!(reachable_from(&adj, &vec![1]), vec![true, true, true, false, false, false]);
    assert_eq!(reachable_from(&adj, &vec![3]), vec![false, false, false, true, true, false]);
    assert_eq!(reachable_from(&adj, &vec![]), vec![false; 6]);
    assert_eq!(reachable_from(&adj, &vec![5, 4]), vec![false, false, false, false, true, true]);
}

#[test]
fn new_build_result_reports_gained_and_lost_dependencies() {
    let mut info: RecipeInfo<&str, u64> = RecipeInfo {
        recipe_runner: "run",
        recipe_meta: RecipeMeta { op_name: "op", result_type_name: "u64", supports_serialization: false },
        recipe_hash: 1,
        rebuild_pending: true,
        build_record: None,
    };
    let alive = vec![true, true, true, true];
    let diff = info.set_new_build_result(result(10), vec![r(0), r(1)], 0, &alive);
    assert_eq!(diff.added_deps, vec![r(0), r(1)]);
    assert!(diff.removed_deps.is_empty());
    info.build_record.as_mut().unwrap().reverse_dependencies = vec![2, 3];
    let alive = vec![true, true, false, true];
    let diff = info.set_new_build_result(result(11), vec![r(1), r(2)], 1, &alive);
    assert_eq!(diff.added_deps, vec![r(2)]);
    assert_eq!(diff.removed_deps, vec![r(0)]);
    let rec = info.build_record.as_ref().unwrap();
    assert_eq!(rec.reverse_dependencies, vec![3]);
    assert_eq!(rec.build_result.artifact, 11);
    assert_eq!(rec.prev_build_result.as_ref().unwrap().artifact, 10);
    assert_eq!(rec.build_snapshot_idx, 1);
    assert!(info.rebuild_pending);
}

#[test]
fn use_prev_makes_a_different_dependency() {
    let mut info: RecipeInfo<&str, u64> = RecipeInfo {
        recipe_runner: "run",
        recipe_meta: RecipeMeta { op_name: "op", result_type_name: "u64", supports_serialization: false },
        recipe_hash: 1,
        rebuild_pending: false,
        build_record: None,
    };
    let alive = vec![true];
    info.set_new_build_result(result(1), vec![r(0)], 0, &alive);
    let prev = OpaqueSnoozyRef { use_prev: true, ..r(0) };
    let diff = info.set_new_build_result(result(2), vec![prev], 0, &alive);
    assert_eq!(diff.added_deps, vec![prev]);
    assert_eq!(diff.removed_deps, vec![r(0)]);
}

#[test]
fn replace_and_clone_recipe_description() {
    let mut info: RecipeInfo<&str, u64> = RecipeInfo {
        recipe_runner: "old",
        recipe_meta: RecipeMeta { op_name: "old_op", result_type_name: "u64", supports_serialization: false },
        recipe_hash: 1,
        rebuild_pending: false,
        build_record: None,
    };
    let alive: Vec<bool> = Vec::new();
    info.set_new_build_result(result(1), vec![], 0, &alive);
    let other: RecipeInfo<&str, u64> = RecipeInfo {
        recipe_runner: "new",
        recipe_meta: RecipeMeta { op_name: "new_op", result_type_name: "u64", supports_serialization: true },
        recipe_hash: 2,
        rebuild_pending: true,
        build_record: None,
    };
    info.replace_desc(other);
    assert_eq!(info.recipe_runner, "new");
    assert_eq!(info.recipe_meta.op_name, "new_op");
    assert_eq!(info.recipe_hash, 2);
    assert!(info.rebuild_pending);
    assert_eq!(info.build_record.as_ref().unwrap().build_result.artifact, 1);
    let copy = info.clone_desc();
    assert_eq!(copy.recipe_runner, "new");
    assert_eq!(copy.recipe_hash, 2);
    assert!(copy.rebuild_pending);
    assert!(copy.build_record.is_none());
}

#[test]
fn valid_reverse_dependencies_keep_live_ones() {
    let mut info: RecipeInfo<&str, u64> = RecipeInfo {
        recipe_runner: "run",
        recipe_meta: RecipeMeta { op_name: "op", result_type_name: "u64", supports_serialization: false },
        recipe_hash: 1,
        rebuild_pending: false,
        build_record: None,
    };
    let alive = vec![false, true, false, true];
    info.set_new_build_result(result(1), vec![], 0, &alive);
    let rec = info.build_record.as_mut().unwrap();
    rec.reverse_dependencies = vec![0, 1, 2, 3];
    assert_eq!(rec.get_valid_reverse_dependencies(&alive), vec![1, 3]);
}

#[test]
fn cycle_detector_finds_cycles() {
    let (mut detector, mut backend) = create_cycle_detector();
    assert!(std::sync::Arc::ptr_eq(&detector.cycle_found, &backend.cycle_found));
    detector.add_edge(1, 2);
    assert!(!backend.add_edge_and_check(1, 2));
    assert!(!backend.add_edge_and_check(2, 3));
    assert!(!backend.add_edge_and_check(1, 3));
    assert!(!detector.cycle_found.load(Relaxed));
    assert!(backend.add_edge_and_check(3, 1));
    assert!(detector.cycle_found.load(Relaxed));
    assert!(backend.add_edge_and_check(4, 5));
    assert!(backend.cycle_found.load(Relaxed));
    assert_eq!(backend.cmd_channel.recv().unwrap(), (1, 2));
    let copy = detector.clone();
    drop(detector);
    drop(copy);
}

#[test]
fn detector_clones_send_to_the_same_backend() {
    let (mut detector, backend) = create_cycle_detector();
    let mut copy = detector.clone();
    assert!(std::sync::Arc::ptr_eq(&copy.cycle_found, &backend.cycle_found));
    detector.add_edge(3, 4);
    copy.add_edge(5, 6);
    detector.add_edge(7, 8);
    assert_eq!(backend.cmd_channel.try_recv(), Ok((3, 4)));
    assert_eq!(backend.cmd_channel.try_recv(), Ok((5, 6)));
    assert_eq!(backend.cmd_channel.try_recv(), Ok((7, 8)));
    assert!(backend.cmd_channel.try_recv().is_err());
}

#[test]
fn sending_after_the_backend_is_gone_does_not_panic() {
    let (mut detector, backend) = create_cycle_detector();
    drop(backend);
    detector.add_edge(1, 2);
}

#[test]
fn self_request_is_a_cycle() {
    let (_detector, mut backend) = create_cycle_detector();
    assert!(backend.add_edge_and_check(7, 7));
}

#[test]
fn path_and_ref_membership() {
    let path = vec![EvaluationPathNode(3), EvaluationPathNode(1)];
    assert!(path_contains(&path, EvaluationPathNode(1)));
    assert!(!path_contains(&path, EvaluationPathNode(2)));
    let refs = vec![r(1), r(2)];
    assert!(contains_ref(&refs, r(2)));
    assert!(!contains_ref(&refs, OpaqueSnoozyRef { use_prev: true, ..r(2) }));
}

#[derive(Clone, Debug, PartialEq)]
struct Blob(Vec<u8>);

impl MaybeSerialize for Blob {
    fn does_support_serialization() -> bool {
        true
    }
    fn try_serialize(&self, s: &mut Vec<u8>) -> bool {
        s.extend_from_slice(&self.0);
        true
    }
    fn try_deserialize(s: &mut [u8]) -> Option<Self> {
        Some(Blob(s.to_vec()))
    }
}

#[test]
fn recipe_meta_and_serialize_proxy() {
    let m = RecipeMeta::new::<Blob>("load", "Blob");
    assert_eq!(m.op_name, "load");
    assert_eq!(m.result_type_name, "Blob");
    assert!(m.supports_serialization);
    let proxy: AnySerializeProxy<Blob> = AnySerializeProxy::new();
    let proxy = proxy.clone();
    assert!(proxy.does_support_serialization());
    let mut w = Vec::new();
    assert!(proxy.try_serialize(&Blob(vec![1, 2]), &mut w));
    assert_eq!(w, vec![1, 2]);
    let mut bytes = vec![3u8, 4];
    assert_eq!(proxy.try_deserialize(&mut bytes), Some(Blob(vec![3, 4])));
}

#[test]
fn type_hashes_tell_types_apart() {
    assert_eq!(snoozy::get_type_hash::<u32>(), snoozy::get_type_hash::<u32>());
    assert_ne!(snoozy::get_type_hash::<u32>(), snoozy::get_type_hash::<u64>());
    let a = OpaqueSnoozyAddr::new::<u32>(SnoozyIdentityHash(4));
    assert_eq!(a.identity_hash, SnoozyIdentityHash(4));
    assert_eq!(a.type_id, snoozy::get_type_hash::<u32>());
}

#[test]
fn cache_decisions() {
    let yes = RecipeMeta { op_name: "op", result_type_name: "Blob", supports_serialization: true };
    let no = RecipeMeta { op_name: "op", result_type_name: "Raw", supports_serialization: false };
    assert!(yes.may_read_cache());
    assert!(!no.may_read_cache());
    assert!(yes.cache_write_decision(false, true));
    assert!(!yes.cache_write_decision(true, true));
    assert!(!yes.cache_write_decision(false, false));
    assert!(!no.cache_write_decision(true, true));
    assert!(!no.cache_write_decision(false, false));
}
