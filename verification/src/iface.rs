//! What recipes see while they build: the context of one evaluation, the
//! requests it makes, and the snapshots that evaluations are started from.
use vstd::prelude::*;
use std::sync::mpsc::Receiver;

use crate::asset_reg::{lemma_push_no_duplicates, on_path, ref_names, with_handle_count, AssetReg};
use crate::cycle_detector::{connected, sent_through, CycleDetector, CycleDetectorAddEdgeCmd};
use crate::recipe_info::{contains_ref, RecipeBuildResult, RecipeDebugInfo};
use crate::refs::{path_contains, EvaluationPathNode, OpaqueSnoozyRef};

verus! {

/// Why a request for an asset failed.
#[derive(PartialEq, Eq, Debug)]
pub enum SnoozyError {
    /// The requested asset has no successful build.
    RequestedAssetFailedToBuild { asset: usize, op_name: &'static str },
}

/// What every evaluation started from one snapshot shares.
pub struct EvalContext {
    pub cycle_detector: CycleDetector,
    pub snapshot_idx: usize,
}

impl Clone for EvalContext {
    fn clone(&self) -> (r: Self)
        ensures
            r.snapshot_idx == self.snapshot_idx,
            sent_through(r.cycle_detector.cmd_channel) == Seq::<(usize, usize)>::empty(),
            forall|rx: Receiver<CycleDetectorAddEdgeCmd>|
                connected(self.cycle_detector.cmd_channel, rx) ==> #[trigger] connected(
                    r.cycle_detector.cmd_channel,
                    rx,
                ),
            r.cycle_detector.cycle_found == self.cycle_detector.cycle_found,
    {
        EvalContext { cycle_detector: self.cycle_detector.clone(), snapshot_idx: self.snapshot_idx }
    }
}

/// The state of one evaluation of a recipe.
pub struct ContextInner {
    /// The asset this context was created for.
    pub opaque_ref: OpaqueSnoozyRef,
    /// The assets requested so far, each once.
    pub dependencies: Vec<OpaqueSnoozyRef>,
    /// The assets being evaluated, from the outermost down to this one.
    pub evaluation_path: Vec<EvaluationPathNode>,
    pub debug_info: RecipeDebugInfo,
}

/// The handle a recipe receives to request other assets.
pub struct Context {
    pub inner: ContextInner,
    pub eval_context: EvalContext,
}

impl Context {
    /// The context for evaluating `opaque_ref`, reached along
    /// `evaluation_path`: the path now also holds `opaque_ref`, nothing has
    /// been requested yet, and there is no debug name.
    pub fn new(
        opaque_ref: OpaqueSnoozyRef,
        evaluation_path: Vec<EvaluationPathNode>,
        eval_context: EvalContext,
    ) -> (ctx: Self)
        ensures
            ctx.inner.opaque_ref == opaque_ref,
            ctx.inner.dependencies@ == Seq::<OpaqueSnoozyRef>::empty(),
            ctx.inner.evaluation_path@.to_set() == evaluation_path@.to_set().insert(
                EvaluationPathNode(opaque_ref.inner),
            ),
            evaluation_path@.contains(EvaluationPathNode(opaque_ref.inner))
                ==> ctx.inner.evaluation_path@ == evaluation_path@,
            on_path(ctx.inner.evaluation_path@, opaque_ref.inner),
            ctx.inner.debug_info.debug_name is None,
            ctx.eval_context == eval_context,
    {
        let mut evaluation_path = evaluation_path;
        let ghost path0 = evaluation_path@;
        let node = opaque_ref.to_evaluation_path_node();
        if !path_contains(&evaluation_path, node) {
            evaluation_path.push(node);
            proof {
                assert(evaluation_path@[evaluation_path.len() - 1] == node);
            }
        }
        proof {
            assert forall|x: EvaluationPathNode| #[trigger] evaluation_path@.to_set().contains(x)
                == path0.to_set().insert(node).contains(x) by {
                if evaluation_path@ != path0 {
                    assert(evaluation_path@ == path0.push(node));
                    if evaluation_path@.contains(x) && x != node {
                        let i = choose|i: int| 0 <= i < evaluation_path.len() && evaluation_path@[i] == x;
                        assert(path0[i] == x);
                    }
                    if path0.contains(x) {
                        let i = choose|i: int| 0 <= i < path0.len() && path0[i] == x;
                        assert(evaluation_path@[i] == x);
                    }
                }
            }
            assert(evaluation_path@.to_set() =~= path0.to_set().insert(node));
        }
        Context {
            inner: ContextInner {
                opaque_ref,
                dependencies: Vec::new(),
                evaluation_path,
                debug_info: RecipeDebugInfo::new(),
            },
            eval_context,
        }
    }

    pub fn set_debug_name(&mut self, name: String)
        ensures
            final(self).inner.debug_info.debug_name == Some(name),
            final(self).inner.opaque_ref == old(self).inner.opaque_ref,
            final(self).inner.dependencies == old(self).inner.dependencies,
            final(self).inner.evaluation_path == old(self).inner.evaluation_path,
            final(self).eval_context == old(self).eval_context,
    {
        self.inner.debug_info.debug_name = Some(name);
    }

    /// A trigger that queues an invalidation of this context's asset each
    /// time it is fired. Like a handle, it keeps the asset alive until it is
    /// released.
    pub fn get_invalidation_trigger<R, A>(&self, reg: &mut AssetReg<R, A>) -> (t: InvalidationTrigger)
        requires
            old(reg).wf(),
            self.inner.opaque_ref.inner < old(reg).entries.len(),
            old(reg).entries[self.inner.opaque_ref.inner as int] is Some,
            old(reg).entries[self.inner.opaque_ref.inner as int]->0.handle_count < u64::MAX,
        ensures
            t.target == self.inner.opaque_ref,
            final(reg).wf(),
            final(reg).refs == old(reg).refs,
            final(reg).queued_asset_invalidations == old(reg).queued_asset_invalidations,
            final(reg).entries@ == old(reg).entries@.update(
                t.target.inner as int,
                Some(
                    with_handle_count(
                        old(reg).entries[t.target.inner as int]->0,
                        (old(reg).entries[t.target.inner as int]->0.handle_count + 1) as u64,
                    ),
                ),
            ),
    {
        reg.retain(self.inner.opaque_ref.inner);
        InvalidationTrigger { target: self.inner.opaque_ref }
    }

    pub fn get_transient_op_id(&self) -> (id: usize)
        ensures
            id == self.inner.opaque_ref.inner,
    {
        self.inner.opaque_ref.get_transient_op_id()
    }

    /// Records the request of `asset_ref` by this context's asset: the edge
    /// between the two is sent to the cycle detector, and `asset_ref` becomes
    /// a dependency (once). Returns the path to evaluate `asset_ref` from.
    pub fn request(&mut self, asset_ref: OpaqueSnoozyRef) -> (child_path: Vec<EvaluationPathNode>)
        ensures
            child_path@ == old(self).inner.evaluation_path@,
            final(self).inner.dependencies@ == if old(self).inner.dependencies@.contains(asset_ref) {
                old(self).inner.dependencies@
            } else {
                old(self).inner.dependencies@.push(asset_ref)
            },
            old(self).inner.dependencies@.no_duplicates()
                ==> final(self).inner.dependencies@.no_duplicates(),
            sent_through(final(self).eval_context.cycle_detector.cmd_channel) == sent_through(
                old(self).eval_context.cycle_detector.cmd_channel,
            ).push((old(self).inner.opaque_ref.inner, asset_ref.inner)),
            forall|rx: Receiver<CycleDetectorAddEdgeCmd>|
                connected(old(self).eval_context.cycle_detector.cmd_channel, rx) ==> #[trigger] connected(
                    final(self).eval_context.cycle_detector.cmd_channel,
                    rx,
                ),
            final(self).eval_context.cycle_detector.cycle_found == old(
                self,
            ).eval_context.cycle_detector.cycle_found,
            final(self).eval_context.snapshot_idx == old(self).eval_context.snapshot_idx,
            final(self).inner.opaque_ref == old(self).inner.opaque_ref,
            final(self).inner.evaluation_path == old(self).inner.evaluation_path,
            final(self).inner.debug_info == old(self).inner.debug_info,
    {
        let from = self.inner.opaque_ref.to_evaluation_path_node().into_raw();
        let to = asset_ref.to_evaluation_path_node().into_raw();
        self.eval_context.cycle_detector.add_edge(from, to);
        if !contains_ref(&self.inner.dependencies, asset_ref) {
            proof {
                if self.inner.dependencies@.no_duplicates() {
                    lemma_push_no_duplicates(self.inner.dependencies@, asset_ref);
                }
            }
            self.inner.dependencies.push(asset_ref);
        }
        self.inner.evaluation_path.clone()
    }

    /// What a request of `asset_ref` gives, once `asset_ref` was evaluated:
    /// the result of its last successful build, or, if it has none, an error.
    pub fn requested_result<'a, R, A>(&self, reg: &'a AssetReg<R, A>, asset_ref: &OpaqueSnoozyRef) -> (r:
        Result<&'a A, SnoozyError>)
        requires
            asset_ref.inner < reg.entries.len(),
            reg.entries[asset_ref.inner as int] is Some,
        ensures
            match reg.entries[asset_ref.inner as int]->0.recipe_info.build_record {
                Some(rec) => r == Ok::<&A, SnoozyError>(&rec.build_result.artifact),
                None => r == Err::<&A, SnoozyError>(
                    SnoozyError::RequestedAssetFailedToBuild {
                        asset: asset_ref.inner,
                        op_name: reg.entries[asset_ref.inner as int]->0.recipe_info.recipe_meta.op_name,
                    },
                ),
            },
    {
        if reg.has_build_result(asset_ref) {
            Ok(&reg.get_build_result(asset_ref).artifact)
        } else {
            let op_name = match &reg.entries[asset_ref.inner] {
                Some(e) => e.recipe_info.recipe_meta.op_name,
                None => "",
            };
            Err(SnoozyError::RequestedAssetFailedToBuild { asset: asset_ref.inner, op_name })
        }
    }

    /// The parts of a finished evaluation that its build record keeps.
    pub fn into_build_parts<A>(self, artifact: A) -> (r: (
        OpaqueSnoozyRef,
        RecipeBuildResult<A>,
        Vec<OpaqueSnoozyRef>,
        Vec<EvaluationPathNode>,
    ))
        ensures
            r.0 == self.inner.opaque_ref,
            r.1 == (RecipeBuildResult { artifact, debug_info: self.inner.debug_info }),
            r.2 == self.inner.dependencies,
            r.3 == self.inner.evaluation_path,
    {
        let ContextInner { opaque_ref, dependencies, evaluation_path, debug_info } = self.inner;
        (opaque_ref, RecipeBuildResult { artifact, debug_info }, dependencies, evaluation_path)
    }
}

/// A strong reference to an asset that queues the asset's invalidation when
/// fired.
pub struct InvalidationTrigger {
    pub target: OpaqueSnoozyRef,
}

/// `after` is `before` once the trigger `t` was fired: one more invalidation
/// of its asset is queued, and nothing else changed.
pub open spec fn trigger_fired<R, A>(
    before: AssetReg<R, A>,
    t: InvalidationTrigger,
    after: AssetReg<R, A>,
) -> bool {
    &&& after.wf()
    &&& after.entries == before.entries
    &&& after.refs == before.refs
    &&& after.queued_asset_invalidations@ == before.queued_asset_invalidations@.push(t.target)
}

impl InvalidationTrigger {
    /// Queues an invalidation of the trigger's asset.
    pub fn fire<R, A>(&self, reg: &mut AssetReg<R, A>)
        requires
            old(reg).wf(),
            ref_names(old(reg).entries@, self.target),
        ensures
            trigger_fired(*old(reg), *self, *final(reg)),
    {
        reg.queue_invalidation(self.target);
    }

    /// Drops the trigger, and with it its hold on the asset.
    pub fn release<R, A>(self, reg: &mut AssetReg<R, A>)
        requires
            old(reg).wf(),
            self.target.inner < old(reg).entries.len(),
            old(reg).entries[self.target.inner as int] is Some,
            old(reg).entries[self.target.inner as int]->0.handle_count > 0,
        ensures
            final(reg).wf(),
            final(reg).refs == old(reg).refs,
            final(reg).queued_asset_invalidations == old(reg).queued_asset_invalidations,
            final(reg).entries@ == old(reg).entries@.update(
                self.target.inner as int,
                Some(
                    with_handle_count(
                        old(reg).entries[self.target.inner as int]->0,
                        (old(reg).entries[self.target.inner as int]->0.handle_count - 1) as u64,
                    ),
                ),
            ),
    {
        reg.release(self.target.inner);
    }
}

/// Firing a trigger `k` times queues `k` invalidations of its asset after
/// what was queued before, and changes nothing else.
pub proof fn law_trigger_fires_queue_copies<R, A>(regs: Seq<AssetReg<R, A>>, t: InvalidationTrigger)
    requires
        regs.len() > 0,
        forall|i: int| 0 <= i < regs.len() - 1 ==> #[trigger] trigger_fired(regs[i], t, regs[i + 1]),
    ensures
        regs.last().queued_asset_invalidations@ == regs[0].queued_asset_invalidations@ + Seq::new(
            (regs.len() - 1) as nat,
            |_i: int| t.target,
        ),
        regs.last().entries == regs[0].entries,
        regs.last().refs == regs[0].refs,
    decreases regs.len(),
{
    if regs.len() > 1 {
        let prefix = regs.drop_last();
        assert forall|i: int| 0 <= i < prefix.len() - 1 implies #[trigger] trigger_fired(
            prefix[i],
            t,
            prefix[i + 1],
        ) by {
            assert(trigger_fired(regs[i], t, regs[i + 1]));
        }
        law_trigger_fires_queue_copies(prefix, t);
        assert(prefix.last() == regs[regs.len() - 2]);
        assert(prefix[0] == regs[0]);
        let m = regs.len() - 2;
        assert(trigger_fired(regs[m], t, regs[m + 1]));
        assert(regs[m + 1] == regs.last());
        let q0 = regs[0].queued_asset_invalidations@;
        let qm = regs[regs.len() - 2].queued_asset_invalidations@;
        assert(qm == q0 + Seq::new((regs.len() - 2) as nat, |_i: int| t.target));
        assert(regs.last().queued_asset_invalidations@ =~= regs[0].queued_asset_invalidations@
            + Seq::new((regs.len() - 1) as nat, |_i: int| t.target));
    } else {
        assert(regs[0].queued_asset_invalidations@ =~= regs[0].queued_asset_invalidations@
            + Seq::new(0, |_i: int| t.target));
    }
}

/// A point at which every queued invalidation has been applied and dead
/// assets have been collected.
pub struct Snapshot;

/// `after` is `before` with its queued invalidations propagated and its
/// garbage collected.
pub open spec fn snapshot_taken<R, A>(before: AssetReg<R, A>, after: AssetReg<R, A>) -> bool {
    exists|mid: AssetReg<R, A>| before.propagated(mid) && mid.garbage_collected(after)
}

/// Applies the queued invalidations, collects garbage, and returns the
/// snapshot from which assets are then evaluated.
pub fn get_snapshot<R, A>(reg: &mut AssetReg<R, A>) -> (s: Snapshot)
    requires
        old(reg).wf(),
    ensures
        final(reg).wf(),
        snapshot_taken(*old(reg), *final(reg)),
{
    reg.propagate_invalidations();
    let ghost mid = *reg;
    reg.collect_garbage();
    assert(old(reg).propagated(mid) && mid.garbage_collected(*reg));
    Snapshot
}

/// Takes a snapshot as `get_snapshot` does and hands it to `callback`.
pub fn with_snapshot<R, A, F, Ret>(reg: &mut AssetReg<R, A>, callback: F) -> (r: Ret) where
    F: FnOnce(Snapshot) -> Ret,
    requires
        old(reg).wf(),
        callback.requires((Snapshot,)),
    ensures
        final(reg).wf(),
        snapshot_taken(*old(reg), *final(reg)),
        callback.ensures((Snapshot,), r),
{
    let s = get_snapshot(reg);
    callback(s)
}

} // verus!
