//! What the registry keeps per asset: the recipe that builds it, and the
//! record of its last build (its result, what it read, and who read it).
use vstd::prelude::*;

use crate::reachability::lemma_filter_contains_iff;
use crate::refs::OpaqueSnoozyRef;

verus! {

/// Debug data a recipe attaches to its build.
pub struct RecipeDebugInfo {
    pub debug_name: Option<String>,
}

impl RecipeDebugInfo {
    pub fn new() -> (d: Self)
        ensures
            d.debug_name is None,
    {
        RecipeDebugInfo { debug_name: None }
    }
}

/// What one build produced.
pub struct RecipeBuildResult<A> {
    pub artifact: A,
    pub debug_info: RecipeDebugInfo,
}

/// The record of an asset's last successful build.
pub struct RecipeBuildRecord<A> {
    pub build_result: RecipeBuildResult<A>,
    pub prev_build_result: Option<RecipeBuildResult<A>>,
    pub build_snapshot_idx: usize,
    /// Assets this one requested during the last build.
    pub dependencies: Vec<OpaqueSnoozyRef>,
    /// Slots of the assets that requested this asset during their builds.
    pub reverse_dependencies: Vec<usize>,
}

/// Static facts about a recipe: its name, the name of the type it builds, and
/// whether that type can be written to and read from the on-disk cache.
#[derive(Clone, Copy)]
pub struct RecipeMeta {
    pub op_name: &'static str,
    pub result_type_name: &'static str,
    pub supports_serialization: bool,
}

impl RecipeMeta {
    /// Whether a cached result may be read back for this recipe: only when
    /// what it builds supports serialization.
    pub fn may_read_cache(&self) -> (r: bool)
        ensures
            r == self.supports_serialization,
    {
        self.supports_serialization
    }

    /// Whether the result of a build must be written to the cache: when the
    /// runner asks for it and the result did not come from the cache. Asking
    /// for it on a type that does not support serialization is a fault of the
    /// recipe, left out here.
    pub fn cache_write_decision(&self, from_cache: bool, runner_wants_cache: bool) -> (r: bool)
        requires
            runner_wants_cache && !from_cache ==> self.supports_serialization,
        ensures
            r == (runner_wants_cache && !from_cache),
    {
        runner_wants_cache && !from_cache
    }

    /// The description of the recipe `op_name` that builds a `T`, whose type
    /// is named `result_type_name`.
    pub fn new<T: crate::maybe_serialize::MaybeSerialize>(
        op_name: &'static str,
        result_type_name: &'static str,
    ) -> (m: Self)
        ensures
            m.op_name == op_name,
            m.result_type_name == result_type_name,
            T::reports_support(m.supports_serialization),
    {
        RecipeMeta {
            op_name,
            result_type_name,
            supports_serialization: T::does_support_serialization(),
        }
    }
}

/// A recipe, its description, and the state of its builds.
pub struct RecipeInfo<R, A> {
    pub recipe_runner: R,
    pub recipe_meta: RecipeMeta,
    pub recipe_hash: u64,
    pub rebuild_pending: bool,
    pub build_record: Option<RecipeBuildRecord<A>>,
}

/// Dependencies gained and lost by a build, relative to the build before it.
pub struct BuildRecordDiff {
    pub added_deps: Vec<OpaqueSnoozyRef>,
    pub removed_deps: Vec<OpaqueSnoozyRef>,
}

/// The items of `xs` that `ys` does not hold, in the order of `xs`.
pub open spec fn refs_not_in(xs: Seq<OpaqueSnoozyRef>, ys: Seq<OpaqueSnoozyRef>) -> Seq<
    OpaqueSnoozyRef,
> {
    xs.filter(|d: OpaqueSnoozyRef| !ys.contains(d))
}

/// Building again with the dependencies that the last build recorded gives an
/// empty diff: no dependency is added and none is removed.
pub proof fn law_same_dependencies_empty_diff<A>(
    record: Option<RecipeBuildRecord<A>>,
    dependencies: Seq<OpaqueSnoozyRef>,
)
    requires
        recorded_deps(record) == dependencies,
    ensures
        refs_not_in(dependencies, recorded_deps(record)) == Seq::<OpaqueSnoozyRef>::empty(),
        refs_not_in(recorded_deps(record), dependencies) == Seq::<OpaqueSnoozyRef>::empty(),
{
    let f = refs_not_in(dependencies, dependencies);
    if f.len() > 0 {
        lemma_filter_contains_iff(dependencies, |d: OpaqueSnoozyRef| !dependencies.contains(d), f[0]);
        assert(f.contains(f[0]));
    }
    assert(f =~= Seq::<OpaqueSnoozyRef>::empty());
}

/// The dependencies of the last build, none if there was none.
pub open spec fn recorded_deps<A>(record: Option<RecipeBuildRecord<A>>) -> Seq<OpaqueSnoozyRef> {
    match record {
        Some(r) => r.dependencies@,
        None => Seq::empty(),
    }
}

/// The reverse dependencies of the last build that are still alive.
pub open spec fn live_reverse_deps<A>(record: Option<RecipeBuildRecord<A>>, alive: Seq<bool>) -> Seq<
    usize,
> {
    match record {
        Some(r) => r.reverse_dependencies@.filter(|v: usize| alive[v as int]),
        None => Seq::empty(),
    }
}

/// A new build keeps every reader that the previous build recorded and that
/// is still alive, and takes on no other: until a reader is rebuilt, it must
/// be assumed to still read the asset.
pub proof fn law_rebuild_keeps_live_readers<A>(record: Option<RecipeBuildRecord<A>>, alive: Seq<bool>, x: usize)
    requires
        record is Some,
        x < alive.len(),
    ensures
        live_reverse_deps(record, alive).contains(x) <==> (
        record->0.reverse_dependencies@.contains(x) && alive[x as int]),
{
    lemma_filter_contains_iff(record->0.reverse_dependencies@, |v: usize| alive[v as int], x);
}

/// Whether `v` holds `x`.
pub fn contains_ref(v: &Vec<OpaqueSnoozyRef>, x: OpaqueSnoozyRef) -> (r: bool)
    ensures
        r == v@.contains(x),
{
    let mut i: usize = 0;
    while i < v.len()
        invariant
            i <= v.len(),
            forall|k: int| 0 <= k < i ==> v@[k] != x,
        decreases v.len() - i,
    {
        if v[i] == x {
            assert(v@[i as int] == x);
            return true;
        }
        i = i + 1;
    }
    false
}

fn refs_difference(xs: &Vec<OpaqueSnoozyRef>, ys: &Vec<OpaqueSnoozyRef>) -> (r: Vec<OpaqueSnoozyRef>)
    ensures
        r@ == refs_not_in(xs@, ys@),
{
    let ghost pred = |d: OpaqueSnoozyRef| !ys@.contains(d);
    let mut r: Vec<OpaqueSnoozyRef> = Vec::new();
    let mut i: usize = 0;
    while i < xs.len()
        invariant
            i <= xs.len(),
            pred == (|d: OpaqueSnoozyRef| !ys@.contains(d)),
            r@ == xs@.take(i as int).filter(pred),
        decreases xs.len() - i,
    {
        reveal_with_fuel(Seq::filter, 1);
        assert(xs@.take(i + 1).drop_last() =~= xs@.take(i as int));
        let x = xs[i];
        if !contains_ref(ys, x) {
            r.push(x);
        }
        i = i + 1;
    }
    assert(xs@.take(xs.len() as int) =~= xs@);
    r
}

impl<A> RecipeBuildRecord<A> {
    /// The reverse dependencies whose assets are still alive.
    pub fn get_valid_reverse_dependencies(&self, alive: &Vec<bool>) -> (r: Vec<usize>)
        requires
            forall|k: int|
                0 <= k < self.reverse_dependencies.len() ==> #[trigger] self.reverse_dependencies[k]
                    < alive.len(),
        ensures
            r@ == self.reverse_dependencies@.filter(|v: usize| alive@[v as int]),
    {
        let ghost pred = |v: usize| alive@[v as int];
        let xs = &self.reverse_dependencies;
        let mut r: Vec<usize> = Vec::new();
        let mut i: usize = 0;
        while i < xs.len()
            invariant
                i <= xs.len(),
                xs == &self.reverse_dependencies,
                forall|k: int| 0 <= k < xs.len() ==> #[trigger] xs[k] < alive.len(),
                pred == (|v: usize| alive@[v as int]),
                r@ == xs@.take(i as int).filter(pred),
            decreases xs.len() - i,
        {
            reveal_with_fuel(Seq::filter, 1);
            assert(xs@.take(i + 1).drop_last() =~= xs@.take(i as int));
            let x = xs[i];
            if alive[x] {
                r.push(x);
            }
            i = i + 1;
        }
        assert(xs@.take(xs.len() as int) =~= xs@);
        r
    }
}

impl<R, A> RecipeInfo<R, A> {
    /// Takes the recipe of `other` (runner, description, hash and pending
    /// flag) and keeps the record of the last build.
    pub fn replace_desc(&mut self, other: RecipeInfo<R, A>)
        ensures
            final(self).recipe_runner == other.recipe_runner,
            final(self).recipe_meta == other.recipe_meta,
            final(self).rebuild_pending == other.rebuild_pending,
            final(self).recipe_hash == other.recipe_hash,
            final(self).build_record == old(self).build_record,
    {
        self.recipe_runner = other.recipe_runner;
        self.recipe_meta = other.recipe_meta;
        self.rebuild_pending = other.rebuild_pending;
        self.recipe_hash = other.recipe_hash;
    }

    /// Replaces the record of the last build with one for `build_result`,
    /// built from `dependencies`. The previous result is kept as the previous
    /// build result, and the reverse dependencies that are still alive are
    /// kept: until the dependent assets are rebuilt, they must be assumed to
    /// still depend on this one. Returns the dependencies gained and lost.
    pub fn set_new_build_result(
        &mut self,
        build_result: RecipeBuildResult<A>,
        dependencies: Vec<OpaqueSnoozyRef>,
        build_snapshot_idx: usize,
        alive: &Vec<bool>,
    ) -> (diff: BuildRecordDiff)
        requires
            old(self).build_record matches Some(r) ==> forall|k: int|
                0 <= k < r.reverse_dependencies.len() ==> #[trigger] r.reverse_dependencies[k]
                    < alive.len(),
        ensures
            diff.added_deps@ == refs_not_in(dependencies@, recorded_deps(old(self).build_record)),
            diff.removed_deps@ == refs_not_in(recorded_deps(old(self).build_record), dependencies@),
            final(self).recipe_runner == old(self).recipe_runner,
            final(self).recipe_meta == old(self).recipe_meta,
            final(self).recipe_hash == old(self).recipe_hash,
            final(self).rebuild_pending == old(self).rebuild_pending,
            final(self).build_record matches Some(r) && {
                &&& r.build_result == build_result
                &&& r.prev_build_result == match old(self).build_record {
                    Some(p) => Some(p.build_result),
                    None => None,
                }
                &&& r.build_snapshot_idx == build_snapshot_idx
                &&& r.dependencies == dependencies
                &&& r.reverse_dependencies@ == live_reverse_deps(old(self).build_record, alive@)
            },
    {
        let prev = self.build_record.take();
        let (prev_deps, prev_rev_deps, prev_build_result) = match prev {
            Some(r) => {
                let rev = r.get_valid_reverse_dependencies(alive);
                (r.dependencies, rev, Some(r.build_result))
            },
            None => (Vec::new(), Vec::new(), None),
        };
        let added_deps = refs_difference(&dependencies, &prev_deps);
        let removed_deps = refs_difference(&prev_deps, &dependencies);
        self.build_record = Some(
            RecipeBuildRecord {
                build_result,
                prev_build_result,
                build_snapshot_idx,
                dependencies,
                reverse_dependencies: prev_rev_deps,
            },
        );
        proof {
            reveal_with_fuel(Seq::filter, 1);
        }
        BuildRecordDiff { added_deps, removed_deps }
    }

    /// A fresh copy of the recipe: the same description and hash, a clone of
    /// the runner, a pending rebuild and no build record.
    pub fn clone_desc(&self) -> (r: Self) where R: Clone
        ensures
            cloned::<R>(self.recipe_runner, r.recipe_runner),
            r.recipe_meta == self.recipe_meta,
            r.recipe_hash == self.recipe_hash,
            r.rebuild_pending,
            r.build_record is None,
    {
        RecipeInfo {
            recipe_runner: self.recipe_runner.clone(),
            recipe_meta: self.recipe_meta,
            rebuild_pending: true,
            build_record: None,
            recipe_hash: self.recipe_hash,
        }
    }
}

} // verus!
