use snoozy::asset_reg::{AssetReg, EvaluationStep};
use snoozy::iface::{get_snapshot, with_snapshot, Context, EvalContext, SnoozyError};
use snoozy::cycle_detector::create_cycle_detector;
use snoozy::recipe_info::{RecipeBuildResult, RecipeDebugInfo, RecipeMeta};
use snoozy::refs::{EvaluationPathNode, OpaqueSnoozyAddr, OpaqueSnoozyRef, SnoozyIdentityHash, SnoozyRef};

type Reg = AssetReg<&'static str, u64>;

fn addr(id: u64) -> OpaqueSnoozyAddr {
    OpaqueSnoozyAddr { identity_hash: SnoozyIdentityHash(id), type_id: 7 }
}

fn meta(name: &'static str) -> RecipeMeta {
    RecipeMeta { op_name: name, result_type_name: "u64", supports_serialization: false }
}

fn pending(reg: &Reg, r: &OpaqueSnoozyRef) -> bool {
    reg.entries[r.inner].as_ref().unwrap().recipe_info.rebuild_pending
}

fn eval_context() -> EvalContext {
    let (cycle_detector, _backend) = create_cycle_detector();
    EvalContext { cycle_detector, snapshot_idx: 0 }
}

/// Builds `r` as the evaluation loop does: context, requests, commit.
fn build(reg: &mut Reg, r: OpaqueSnoozyRef, deps: &[OpaqueSnoozyRef], artifact: u64) {
    let mut ctx = Context::new(r, Vec::new(), eval_context());
    for d in deps {
        ctx.request(*d);
    }
    let (opaque, result, deps, path) = ctx.into_build_parts(artifact);
    reg.commit_build_success(&opaque, result, deps, &path, 0);
}

#[test]
fn def_binding_returns_the_live_definition() {
    let mut reg: Reg = AssetReg::new();
    let a = reg.def_binding(addr(1), 10, "a", meta("a"));
    assert_eq!(a.inner, 0);
    assert_eq!(a.addr, addr(1));
    assert!(!a.use_prev);
    let again = reg.def_binding(addr(1), 10, "a2", meta("a"));
    assert_eq!(again.inner, a.inner);
    assert_eq!(reg.entries.len(), 1);
    assert_eq!(reg.entries[0].as_ref().unwrap().handle_count, 2);
    assert_eq!(reg.entries[0].as_ref().unwrap().recipe_info.recipe_runner, "a");
    let b = reg.def_binding(addr(2), 11, "b", meta("b"));
    assert_eq!(b.inner, 1);
    assert!(pending(&reg, &b));
}

#[test]
fn conflicting_recipe_hash_is_detected() {
    let mut reg: Reg = AssetReg::new();
    reg.def_binding(addr(1), 10, "a", meta("a"));
    assert!(reg.conflicts_with_binding(addr(1), 11));
    assert!(!reg.conflicts_with_binding(addr(1), 10));
    assert!(!reg.conflicts_with_binding(addr(2), 11));
}

#[test]
fn dead_definition_is_replaced() {
    let mut reg: Reg = AssetReg::new();
    let a = reg.def_binding(addr(1), 10, "a", meta("a"));
    reg.release(a.inner);
    let fresh = reg.def_binding(addr(1), 12, "a2", meta("a"));
    assert_eq!(fresh.inner, 1);
    assert_eq!(reg.refs, vec![(addr(1), 1)]);
}

#[test]
fn evaluation_steps() {
    let mut reg: Reg = AssetReg::new();
    let a = reg.def_binding(addr(1), 10, "a", meta("a"));
    assert_eq!(reg.begin_evaluation(&a, &Vec::new()), EvaluationStep::Rebuild);
    assert_eq!(
        reg.begin_evaluation(&a, &vec![EvaluationPathNode(a.inner)]),
        EvaluationStep::AlreadyOnPath
    );
    build(&mut reg, a, &[], 5);
    assert_eq!(reg.begin_evaluation(&a, &Vec::new()), EvaluationStep::UpToDate);
    assert_eq!(reg.get_build_result(&a).artifact, 5);
}

#[test]
fn failed_build_keeps_previous_result() {
    let mut reg: Reg = AssetReg::new();
    let a = reg.def_binding(addr(1), 10, "a", meta("a"));
    build(&mut reg, a, &[], 5);
    reg.queue_invalidation(a);
    reg.propagate_invalidations();
    assert!(pending(&reg, &a));
    reg.commit_build_failure(&a);
    assert!(!pending(&reg, &a));
    assert_eq!(reg.get_build_result(&a).artifact, 5);
}

#[test]
fn build_registers_reverse_dependencies() {
    let mut reg: Reg = AssetReg::new();
    let leaf = reg.def_binding(addr(1), 10, "leaf", meta("leaf"));
    let top = reg.def_binding(addr(2), 20, "top", meta("top"));
    build(&mut reg, leaf, &[], 1);
    build(&mut reg, top, &[leaf], 2);
    let rec = reg.entries[leaf.inner].as_ref().unwrap().recipe_info.build_record.as_ref().unwrap();
    assert_eq!(rec.reverse_dependencies, vec![top.inner]);
    let rec = reg.entries[top.inner].as_ref().unwrap().recipe_info.build_record.as_ref().unwrap();
    assert_eq!(rec.dependencies, vec![leaf]);
    assert_eq!(rec.build_result.artifact, 2);
    assert!(rec.prev_build_result.is_none());
}

#[test]
fn rebuild_without_a_dependency_unregisters_it() {
    let mut reg: Reg = AssetReg::new();
    let leaf = reg.def_binding(addr(1), 10, "leaf", meta("leaf"));
    let top = reg.def_binding(addr(2), 20, "top", meta("top"));
    build(&mut reg, leaf, &[], 1);
    build(&mut reg, top, &[leaf], 2);
    build(&mut reg, top, &[], 3);
    let rec = reg.entries[leaf.inner].as_ref().unwrap().recipe_info.build_record.as_ref().unwrap();
    assert!(rec.reverse_dependencies.is_empty());
    let rec = reg.entries[top.inner].as_ref().unwrap().recipe_info.build_record.as_ref().unwrap();
    assert_eq!(rec.prev_build_result.as_ref().unwrap().artifact, 2);
    assert_eq!(rec.build_result.artifact, 3);
}

#[test]
fn dependency_on_the_evaluation_path_is_not_registered() {
    let mut reg: Reg = AssetReg::new();
    let leaf = reg.def_binding(addr(1), 10, "leaf", meta("leaf"));
    let top = reg.def_binding(addr(2), 20, "top", meta("top"));
    build(&mut reg, leaf, &[], 1);
    let mut ctx = Context::new(top, vec![EvaluationPathNode(leaf.inner)], eval_context());
    ctx.request(leaf);
    let (opaque, result, deps, path) = ctx.into_build_parts(2);
    let diff = reg.commit_build_success(&opaque, result, deps, &path, 0);
    assert_eq!(diff.added_deps, vec![leaf]);
    let rec = reg.entries[leaf.inner].as_ref().unwrap().recipe_info.build_record.as_ref().unwrap();
    assert!(rec.reverse_dependencies.is_empty());
}

#[test]
fn invalidation_reaches_transitive_dependents_only() {
    let mut reg: Reg = AssetReg::new();
    let leaf = reg.def_binding(addr(1), 10, "leaf", meta("leaf"));
    let mid = reg.def_binding(addr(2), 20, "mid", meta("mid"));
    let top = reg.def_binding(addr(3), 30, "top", meta("top"));
    let other = reg.def_binding(addr(4), 40, "other", meta("other"));
    build(&mut reg, leaf, &[], 1);
    build(&mut reg, mid, &[leaf], 2);
    build(&mut reg, top, &[mid], 3);
    build(&mut reg, other, &[], 4);
    assert!(!pending(&reg, &leaf) && !pending(&reg, &mid) && !pending(&reg, &top));
    reg.queue_invalidation(leaf);
    reg.propagate_invalidations();
    assert!(reg.queued_asset_invalidations.is_empty());
    assert!(pending(&reg, &leaf));
    assert!(pending(&reg, &mid));
    assert!(pending(&reg, &top));
    assert!(!pending(&reg, &other));
}

#[test]
fn invalidate_asset_tree_from_the_middle() {
    let mut reg: Reg = AssetReg::new();
    let leaf = reg.def_binding(addr(1), 10, "leaf", meta("leaf"));
    let mid = reg.def_binding(addr(2), 20, "mid", meta("mid"));
    let top = reg.def_binding(addr(3), 30, "top", meta("top"));
    build(&mut reg, leaf, &[], 1);
    build(&mut reg, mid, &[leaf], 2);
    build(&mut reg, top, &[mid], 3);
    reg.invalidate_asset_tree(&mid);
    assert!(!pending(&reg, &leaf));
    assert!(pending(&reg, &mid));
    assert!(pending(&reg, &top));
}

#[test]
fn invalidation_skips_dead_dependents() {
    let mut reg: Reg = AssetReg::new();
    let leaf = reg.def_binding(addr(1), 10, "leaf", meta("leaf"));
    let top = reg.def_binding(addr(2), 20, "top", meta("top"));
    build(&mut reg, leaf, &[], 1);
    build(&mut reg, top, &[leaf], 2);
    reg.release(top.inner);
    reg.queue_invalidation(leaf);
    reg.propagate_invalidations();
    assert!(pending(&reg, &leaf));
    assert!(!pending(&reg, &top));
}

#[test]
fn garbage_collection_keeps_held_assets_and_their_dependencies() {
    let mut reg: Reg = AssetReg::new();
    let leaf = reg.def_binding(addr(1), 10, "leaf", meta("leaf"));
    let top = reg.def_binding(addr(2), 20, "top", meta("top"));
    let lone = reg.def_binding(addr(3), 30, "lone", meta("lone"));
    build(&mut reg, leaf, &[], 1);
    build(&mut reg, top, &[leaf], 2);
    reg.release(leaf.inner);
    reg.release(lone.inner);
    let alive = reg.alive_set();
    assert_eq!(alive, vec![true, true, false]);
    reg.collect_garbage();
    assert!(reg.entries[leaf.inner].is_some());
    assert!(reg.entries[top.inner].is_some());
    assert!(reg.entries[lone.inner].is_none());
    assert_eq!(reg.refs, vec![(addr(1), 0), (addr(2), 1)]);
    reg.release(top.inner);
    reg.collect_garbage();
    assert!(reg.entries.iter().all(|e| e.is_none()));
    assert!(reg.refs.is_empty());
}

#[test]
fn queued_invalidation_keeps_asset_alive() {
    let mut reg: Reg = AssetReg::new();
    let a = reg.def_binding(addr(1), 10, "a", meta("a"));
    reg.queue_invalidation(a);
    reg.release(a.inner);
    assert_eq!(reg.alive_set(), vec![true]);
    reg.propagate_invalidations();
    assert_eq!(reg.alive_set(), vec![false]);
}

#[test]
fn snapshot_propagates_and_collects() {
    let mut reg: Reg = AssetReg::new();
    let leaf = reg.def_binding(addr(1), 10, "leaf", meta("leaf"));
    let top = reg.def_binding(addr(2), 20, "top", meta("top"));
    let lone = reg.def_binding(addr(3), 30, "lone", meta("lone"));
    build(&mut reg, leaf, &[], 1);
    build(&mut reg, top, &[leaf], 2);
    reg.release(lone.inner);
    reg.queue_invalidation(leaf);
    let _snapshot = get_snapshot(&mut reg);
    assert!(reg.queued_asset_invalidations.is_empty());
    assert!(pending(&reg, &top));
    assert!(reg.entries[lone.inner].is_none());
    let answer = with_snapshot(&mut reg, |_s| 42);
    assert_eq!(answer, 42);
}

#[test]
fn isolate_and_rebind() {
    let mut reg: Reg = AssetReg::new();
    let a = reg.def_binding(addr(1), 10, "a", meta("a"));
    build(&mut reg, a, &[], 1);
    let handle: SnoozyRef<u64> = SnoozyRef::new(a);
    assert!(!handle.isolated);
    let mut iso = handle.isolate(&mut reg);
    assert!(iso.isolated);
    assert_eq!(iso.opaque.inner, 1);
    assert_eq!(iso.identity_hash(), SnoozyIdentityHash(1));
    assert_eq!(reg.entries[0].as_ref().unwrap().handle_count, 0);
    let copy = reg.entries[1].as_ref().unwrap();
    assert!(copy.recipe_info.rebuild_pending);
    assert!(copy.recipe_info.build_record.is_none());
    assert_eq!(copy.recipe_info.recipe_hash, 10);
    // the copy is not registered under the address
    assert_eq!(reg.refs, vec![(addr(1), 0)]);

    let b = reg.def_binding(addr(9), 99, "b", meta("b"));
    let other: SnoozyRef<u64> = SnoozyRef::new(b);
    assert!(reg.is_sole_reference(b.inner));
    iso.rebind(other, &mut reg);
    assert!(reg.entries[b.inner].is_none());
    let e = reg.entries[iso.opaque.inner].as_ref().unwrap();
    assert_eq!(e.recipe_info.recipe_runner, "b");
    assert_eq!(e.recipe_info.recipe_hash, 99);
    assert_eq!(reg.queued_asset_invalidations, vec![iso.opaque]);
}

#[test]
fn rebind_with_same_recipe_queues_nothing() {
    let mut reg: Reg = AssetReg::new();
    let a = reg.def_binding(addr(1), 10, "a", meta("a"));
    let mut iso = SnoozyRef::<u64>::new(a).isolate(&mut reg);
    let b = reg.def_binding(addr(2), 10, "b", meta("b"));
    iso.rebind(SnoozyRef::new(b), &mut reg);
    assert!(reg.queued_asset_invalidations.is_empty());
}

#[test]
fn sole_reference_checks_handles_queue_and_records() {
    let mut reg: Reg = AssetReg::new();
    let leaf = reg.def_binding(addr(1), 10, "leaf", meta("leaf"));
    let top = reg.def_binding(addr(2), 20, "top", meta("top"));
    assert!(reg.is_sole_reference(leaf.inner));
    build(&mut reg, top, &[leaf], 2);
    assert!(!reg.is_sole_reference(leaf.inner));
    assert!(reg.is_sole_reference(top.inner));
    reg.retain(top.inner);
    assert!(!reg.is_sole_reference(top.inner));
    reg.release(top.inner);
    reg.queue_invalidation(top);
    assert!(!reg.is_sole_reference(top.inner));
}

#[test]
fn prev_and_clone_handles() {
    let opaque = OpaqueSnoozyRef { inner: 3, addr: addr(5), use_prev: false };
    let r: SnoozyRef<u64> = SnoozyRef::new(opaque);
    let p = r.prev();
    assert!(p.opaque.use_prev);
    assert_eq!(p.opaque.inner, 3);
    assert!(!p.isolated);
    let c = p.clone();
    assert_eq!(c.opaque, p.opaque);
    assert_eq!(r.identity_hash(), SnoozyIdentityHash(5));
    assert_eq!(r.into_opaque(), opaque);
    assert_eq!(opaque.get_transient_op_id(), 3);
    assert_eq!(opaque.to_evaluation_path_node().into_raw(), 3);
}

#[test]
fn requested_result_of_failed_asset_is_an_error() {
    let mut reg: Reg = AssetReg::new();
    let a = reg.def_binding(addr(1), 10, "a", meta("op_a"));
    let b = reg.def_binding(addr(2), 20, "b", meta("op_b"));
    let mut ctx = Context::new(b, Vec::new(), eval_context());
    let child_path = ctx.request(a);
    assert_eq!(child_path, vec![EvaluationPathNode(b.inner)]);
    assert_eq!(
        ctx.requested_result(&reg, &a),
        Err(SnoozyError::RequestedAssetFailedToBuild { asset: a.inner, op_name: "op_a" })
    );
    build(&mut reg, a, &[], 8);
    assert_eq!(ctx.requested_result(&reg, &a), Ok(&8));
}

#[test]
fn context_records_each_dependency_once() {
    let a = OpaqueSnoozyRef { inner: 1, addr: addr(1), use_prev: false };
    let b = OpaqueSnoozyRef { inner: 2, addr: addr(2), use_prev: false };
    let mut ctx = Context::new(a, vec![EvaluationPathNode(0)], eval_context());
    assert_eq!(ctx.inner.evaluation_path, vec![EvaluationPathNode(0), EvaluationPathNode(1)]);
    ctx.request(b);
    ctx.request(b);
    ctx.request(b.clone());
    assert_eq!(ctx.inner.dependencies, vec![b]);
    ctx.set_debug_name("named".to_string());
    assert_eq!(ctx.inner.debug_info.debug_name, Some("named".to_string()));
    assert_eq!(ctx.get_transient_op_id(), 1);
    let again = Context::new(a, vec![EvaluationPathNode(1)], eval_context());
    assert_eq!(again.inner.evaluation_path, vec![EvaluationPathNode(1)]);
}

#[test]
fn build_result_debug_info_comes_from_context() {
    let mut reg: Reg = AssetReg::new();
    let a = reg.def_binding(addr(1), 10, "a", meta("a"));
    let mut ctx = Context::new(a, Vec::new(), eval_context());
    ctx.set_debug_name("first".to_string());
    let (opaque, result, deps, path) = ctx.into_build_parts(3);
    let _ = RecipeDebugInfo::new();
    let _: &RecipeBuildResult<u64> = &result;
    reg.commit_build_success(&opaque, result, deps, &path, 7);
    let rec = reg.entries[0].as_ref().unwrap().recipe_info.build_record.as_ref().unwrap();
    assert_eq!(rec.build_result.debug_info.debug_name, Some("first".to_string()));
    assert_eq!(rec.build_snapshot_idx, 7);
}

#[test]
fn invalidation_trigger_queues_each_time_and_holds_its_asset() {
    let mut reg: Reg = AssetReg::new();
    let a = reg.def_binding(addr(1), 10, "a", meta("a"));
    build(&mut reg, a, &[], 1);
    let ctx = Context::new(a, Vec::new(), eval_context());
    let trigger = ctx.get_invalidation_trigger(&mut reg);
    assert_eq!(trigger.target, a);
    assert_eq!(reg.entries[0].as_ref().unwrap().handle_count, 2);
    assert!(reg.queued_asset_invalidations.is_empty());
    trigger.fire(&mut reg);
    trigger.fire(&mut reg);
    trigger.fire(&mut reg);
    assert_eq!(reg.queued_asset_invalidations, vec![a, a, a]);
    reg.propagate_invalidations();
    assert!(pending(&reg, &a));
    reg.release(a.inner);
    reg.collect_garbage();
    assert!(reg.entries[0].is_some());
    trigger.release(&mut reg);
    reg.collect_garbage();
    assert!(reg.entries[0].is_none());
}

#[test]
fn dependency_cycle_through_prev_keeps_asset_alive() {
    let mut reg: Reg = AssetReg::new();
    let a = reg.def_binding(addr(1), 10, "a", meta("a"));
    let b = reg.def_binding(addr(2), 20, "b", meta("b"));
    let a_prev = OpaqueSnoozyRef { use_prev: true, ..a };
    build(&mut reg, b, &[], 1);
    build(&mut reg, a, &[a_prev, b], 2);
    reg.release(a.inner);
    reg.release(b.inner);
    assert_eq!(reg.alive_set(), vec![true, true]);
    reg.collect_garbage();
    assert!(reg.entries[a.inner].is_some());
    assert!(reg.entries[b.inner].is_some());
    assert_eq!(reg.refs, vec![(addr(1), 0), (addr(2), 1)]);
    reg.invalidate_asset_tree(&b);
    assert!(pending(&reg, &b));
    assert!(pending(&reg, &a));
}

#[test]
fn removed_reverse_dependency_keeps_the_order_of_the_rest() {
    let mut reg: Reg = AssetReg::new();
    let leaf = reg.def_binding(addr(1), 10, "leaf", meta("leaf"));
    let t1 = reg.def_binding(addr(2), 20, "t1", meta("t1"));
    let t2 = reg.def_binding(addr(3), 30, "t2", meta("t2"));
    let t3 = reg.def_binding(addr(4), 40, "t3", meta("t3"));
    build(&mut reg, leaf, &[], 1);
    build(&mut reg, t1, &[leaf], 2);
    build(&mut reg, t2, &[leaf], 3);
    build(&mut reg, t3, &[leaf], 4);
    let rec = reg.entries[leaf.inner].as_ref().unwrap().recipe_info.build_record.as_ref().unwrap();
    assert_eq!(rec.reverse_dependencies, vec![t1.inner, t2.inner, t3.inner]);
    build(&mut reg, t2, &[], 5);
    let rec = reg.entries[leaf.inner].as_ref().unwrap().recipe_info.build_record.as_ref().unwrap();
    assert_eq!(rec.reverse_dependencies, vec![t1.inner, t3.inner]);
}

#[test]
fn request_sends_the_edge_to_the_cycle_detector() {
    let (cycle_detector, backend) = create_cycle_detector();
    let a = OpaqueSnoozyRef { inner: 3, addr: addr(1), use_prev: false };
    let b = OpaqueSnoozyRef { inner: 5, addr: addr(2), use_prev: false };
    let mut ctx = Context::new(a, Vec::new(), EvalContext { cycle_detector, snapshot_idx: 0 });
    ctx.request(b);
    assert_eq!(backend.cmd_channel.recv().unwrap(), (3, 5));
}

#[test]
fn refs_to_the_same_asset_compare_by_use_prev() {
    let mut reg: Reg = AssetReg::new();
    let a = reg.def_binding(addr(1), 10, "a", meta("a"));
    let again = reg.def_binding(addr(1), 10, "a", meta("a"));
    assert_eq!(a, again);
    assert_ne!(a, OpaqueSnoozyRef { use_prev: true, ..a });
}

#[test]
fn failed_asset_has_no_build_result() {
    let mut reg: Reg = AssetReg::new();
    let a = reg.def_binding(addr(1), 10, "a", meta("a"));
    assert!(!reg.has_build_result(&a));
    reg.commit_build_failure(&a);
    assert!(!reg.has_build_result(&a));
    build(&mut reg, a, &[], 9);
    assert!(reg.has_build_result(&a));
    assert_eq!(reg.get_build_result(&a).artifact, 9);
}
