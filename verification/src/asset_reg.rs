//! The asset registry: every asset definition, the record of its last build,
//! and the invalidations waiting to be propagated.
//!
//! Assets live in slots that are never reused. An asset stays alive while a
//! strong reference to it is held: a handle (an invalidation trigger holds
//! one too), a queued invalidation, or the dependencies recorded by the last
//! build of a live asset. Reference counting never frees a cycle of such
//! dependencies, so an asset on one stays alive, and so does all it reads.
//! `collect_garbage` frees the rest.
use vstd::prelude::*;

use crate::reachability::{
    adj_edges, edges_in_range, is_walk, lemma_filter_contains_iff, lemma_reachable_more_starts,
    lemma_reachable_step, lemma_start_reachable, reachable, reachable_from, view_adj,
};
use crate::recipe_info::{
    live_reverse_deps, recorded_deps, refs_not_in, BuildRecordDiff, RecipeBuildRecord,
    RecipeBuildResult, RecipeInfo, RecipeMeta,
};
use crate::refs::{path_contains, EvaluationPathNode, OpaqueSnoozyAddr, OpaqueSnoozyRef};

verus! {

broadcast use vstd::seq_lib::lemma_seq_contains_after_push;

/// One asset: its address, its recipe and build record, and the number of
/// handles to it that are held outside the registry.
pub struct OpaqueSnoozyRefInner<R, A> {
    pub addr: OpaqueSnoozyAddr,
    pub recipe_info: RecipeInfo<R, A>,
    pub handle_count: u64,
}

/// The registry. Slot `i` of `entries` holds the asset whose references have
/// `inner == i`, or `None` once it was freed; `refs` maps each address to the
/// slot of its latest definition.
pub struct AssetReg<R, A> {
    pub entries: Vec<Option<OpaqueSnoozyRefInner<R, A>>>,
    pub refs: Vec<(OpaqueSnoozyAddr, usize)>,
    pub queued_asset_invalidations: Vec<OpaqueSnoozyRef>,
}

/// What `evaluate_recipe` must do for an asset.
#[derive(PartialEq, Eq, Debug, Structural)]
pub enum EvaluationStep {
    /// The asset is already being evaluated further up the path: stop.
    AlreadyOnPath,
    /// The last build is still valid: nothing to do.
    UpToDate,
    /// The asset must be rebuilt.
    Rebuild,
}

/// The build record of an entry is consistent with a registry of `n` slots.
pub open spec fn record_wf<A>(record: Option<RecipeBuildRecord<A>>, n: nat) -> bool {
    match record {
        Some(r) => {
            &&& forall|k: int|
                0 <= k < r.dependencies.len() ==> #[trigger] r.dependencies[k].inner < n
            &&& forall|k: int|
                0 <= k < r.reverse_dependencies.len() ==> #[trigger] r.reverse_dependencies[k] < n
            &&& r.reverse_dependencies@.no_duplicates()
            &&& r.dependencies@.no_duplicates()
        },
        None => true,
    }
}

/// `r` names a slot of `entries`, and carries the address of the asset there
/// while that asset lives.
pub open spec fn ref_names<R, A>(entries: Seq<Option<OpaqueSnoozyRefInner<R, A>>>, r: OpaqueSnoozyRef) -> bool {
    &&& r.inner < entries.len()
    &&& (entries[r.inner as int] is Some ==> entries[r.inner as int]->0.addr == r.addr)
}

/// The slots an entry's last build read.
pub open spec fn dep_slots<R, A>(slot: Option<OpaqueSnoozyRefInner<R, A>>) -> Seq<usize> {
    match slot {
        Some(e) => recorded_deps(e.recipe_info.build_record).map_values(
            |d: OpaqueSnoozyRef| d.inner,
        ),
        None => Seq::empty(),
    }
}

/// The slots recorded as having read an entry.
pub open spec fn rev_dep_slots<R, A>(slot: Option<OpaqueSnoozyRefInner<R, A>>) -> Seq<usize> {
    match slot {
        Some(e) => match e.recipe_info.build_record {
            Some(r) => r.reverse_dependencies@,
            None => Seq::empty(),
        },
        None => Seq::empty(),
    }
}

/// A handle to the entry in `slot` is held.
pub open spec fn held<R, A>(slot: Option<OpaqueSnoozyRefInner<R, A>>) -> bool {
    match slot {
        Some(e) => e.handle_count > 0,
        None => false,
    }
}

/// `e` with its pending flag set to `pending`.
pub open spec fn with_pending<R, A>(e: OpaqueSnoozyRefInner<R, A>, pending: bool) -> OpaqueSnoozyRefInner<R, A> {
    OpaqueSnoozyRefInner {
        recipe_info: RecipeInfo { rebuild_pending: pending, ..e.recipe_info },
        ..e
    }
}

/// `e` with its handle count set to `count`.
pub open spec fn with_handle_count<R, A>(e: OpaqueSnoozyRefInner<R, A>, count: u64) -> OpaqueSnoozyRefInner<R, A> {
    OpaqueSnoozyRefInner { handle_count: count, ..e }
}

/// The asset in `slot` stands on `path`.
pub open spec fn on_path(path: Seq<EvaluationPathNode>, slot: usize) -> bool {
    path.contains(EvaluationPathNode(slot))
}

/// `ds` holds a dependency on `slot` that is not on `path`.
pub open spec fn touches(ds: Seq<OpaqueSnoozyRef>, path: Seq<EvaluationPathNode>, slot: usize) -> bool {
    exists|k: int| 0 <= k < ds.len() && #[trigger] ds[k].inner == slot && !on_path(path, slot)
}

/// `after` is `before` with its reverse dependencies updated for the build of
/// `dependent`: `dependent` added when `gains`, otherwise removed when
/// `loses`. Only entries with a build record are updated.
/// `s` without `d`, in the order of `s`.
pub open spec fn without_slot(s: Seq<usize>, d: usize) -> Seq<usize> {
    s.filter(|y: usize| y != d)
}

/// Reverse dependencies `s` after the build of `d`: `d` removed when it
/// `loses`, then appended when it `gains` and is not there; the others keep
/// their order.
pub open spec fn rev_deps_after(s: Seq<usize>, d: usize, gains: bool, loses: bool) -> Seq<usize> {
    let mid = if loses {
        without_slot(s, d)
    } else {
        s
    };
    if gains && !mid.contains(d) {
        mid.push(d)
    } else {
        mid
    }
}

proof fn lemma_without_slot_step(s: Seq<usize>, d: usize)
    requires
        s.len() > 0,
    ensures
        without_slot(s, d) == if s.last() != d {
            without_slot(s.drop_last(), d).push(s.last())
        } else {
            without_slot(s.drop_last(), d)
        },
{
    reveal_with_fuel(Seq::filter, 1);
}

proof fn lemma_without_slot_idempotent(s: Seq<usize>, d: usize)
    ensures
        without_slot(without_slot(s, d), d) == without_slot(s, d),
    decreases s.len(),
{
    reveal_with_fuel(Seq::filter, 1);
    if s.len() > 0 {
        lemma_without_slot_idempotent(s.drop_last(), d);
        lemma_without_slot_step(s, d);
        let f = without_slot(s.drop_last(), d);
        if s.last() != d {
            assert(f.push(s.last()).drop_last() =~= f);
            lemma_without_slot_step(f.push(s.last()), d);
        }
    }
}

proof fn lemma_without_slot_contains(s: Seq<usize>, d: usize, x: usize)
    ensures
        without_slot(s, d).contains(x) <==> s.contains(x) && x != d,
    decreases s.len(),
{
    if s.len() > 0 {
        lemma_without_slot_step(s, d);
        lemma_without_slot_contains(s.drop_last(), d, x);
        assert(s =~= s.drop_last().push(s.last()));
    } else {
        reveal_with_fuel(Seq::filter, 1);
    }
}

proof fn lemma_without_slot_no_duplicates(s: Seq<usize>, d: usize)
    requires
        s.no_duplicates(),
    ensures
        without_slot(s, d).no_duplicates(),
    decreases s.len(),
{
    if s.len() > 0 {
        let rest = s.drop_last();
        assert(rest.no_duplicates());
        lemma_without_slot_step(s, d);
        lemma_without_slot_no_duplicates(rest, d);
        if s.last() != d {
            lemma_without_slot_contains(rest, d, s.last());
            if rest.contains(s.last()) {
                let i = choose|i: int| 0 <= i < rest.len() && rest[i] == s.last();
                assert(s[i] == s[s.len() - 1]);
            }
            lemma_push_no_duplicates(without_slot(rest, d), s.last());
        }
    } else {
        reveal_with_fuel(Seq::filter, 1);
    }
}

pub open spec fn rev_deps_updated<R, A>(
    before: Option<OpaqueSnoozyRefInner<R, A>>,
    after: Option<OpaqueSnoozyRefInner<R, A>>,
    dependent: usize,
    gains: bool,
    loses: bool,
) -> bool {
    match before {
        None => after is None,
        Some(e) => match e.recipe_info.build_record {
            None => after == before,
            Some(r) => {
                &&& after is Some
                &&& after->0.addr == e.addr
                &&& after->0.handle_count == e.handle_count
                &&& after->0.recipe_info.recipe_runner == e.recipe_info.recipe_runner
                &&& after->0.recipe_info.recipe_meta == e.recipe_info.recipe_meta
                &&& after->0.recipe_info.recipe_hash == e.recipe_info.recipe_hash
                &&& after->0.recipe_info.rebuild_pending == e.recipe_info.rebuild_pending
                &&& after->0.recipe_info.build_record is Some
                &&& after->0.recipe_info.build_record->0.build_result == r.build_result
                &&& after->0.recipe_info.build_record->0.prev_build_result == r.prev_build_result
                &&& after->0.recipe_info.build_record->0.build_snapshot_idx == r.build_snapshot_idx
                &&& after->0.recipe_info.build_record->0.dependencies == r.dependencies
                &&& after->0.recipe_info.build_record->0.reverse_dependencies@.no_duplicates()
                &&& after->0.recipe_info.build_record->0.reverse_dependencies@ == rev_deps_after(
                    r.reverse_dependencies@,
                    dependent,
                    gains,
                    loses,
                )
                &&& (!gains && !loses ==> after == before)
            },
        },
    }
}

proof fn lemma_rev_deps_updated_refl<R, A>(e: Option<OpaqueSnoozyRefInner<R, A>>, dependent: usize)
    requires
        e matches Some(x) ==> (x.recipe_info.build_record matches Some(r)
            ==> r.reverse_dependencies@.no_duplicates()),
    ensures
        rev_deps_updated(e, e, dependent, false, false),
{
}

proof fn lemma_rev_deps_updated_compose<R, A>(
    a: Option<OpaqueSnoozyRefInner<R, A>>,
    b: Option<OpaqueSnoozyRefInner<R, A>>,
    c: Option<OpaqueSnoozyRefInner<R, A>>,
    dependent: usize,
    g1: bool,
    l1: bool,
    g2: bool,
    l2: bool,
)
    requires
        rev_deps_updated(a, b, dependent, g1, l1),
        rev_deps_updated(b, c, dependent, g2, l2),
        !l2 || (!g1 && !g2),
    ensures
        rev_deps_updated(a, c, dependent, g1 || g2, l1 || l2),
{
    if a is Some && a->0.recipe_info.build_record is Some {
        let ra = a->0.recipe_info.build_record->0.reverse_dependencies@;
        if l1 && l2 {
            lemma_without_slot_idempotent(ra, dependent);
        }
        if g1 && g2 {
            let rb = b->0.recipe_info.build_record->0.reverse_dependencies@;
            let mid = if l1 {
                without_slot(ra, dependent)
            } else {
                ra
            };
            if !mid.contains(dependent) {
                assert(rb[rb.len() - 1] == dependent);
            }
            assert(rb.contains(dependent));
        }
    }
}

/// `v` without `x`, in the order of `v`.
fn without(v: &Vec<usize>, x: usize) -> (r: Vec<usize>)
    requires
        v@.no_duplicates(),
    ensures
        r@ == without_slot(v@, x),
        r@.no_duplicates(),
{
    let mut r: Vec<usize> = Vec::new();
    let mut k: usize = 0;
    while k < v.len()
        invariant
            k <= v.len(),
            r@ == without_slot(v@.take(k as int), x),
        decreases v.len() - k,
    {
        proof {
            assert(v@.take(k + 1).drop_last() =~= v@.take(k as int));
            lemma_without_slot_step(v@.take(k + 1), x);
        }
        let y = v[k];
        if y != x {
            r.push(y);
        }
        k = k + 1;
    }
    assert(v@.take(v.len() as int) =~= v@);
    proof {
        lemma_without_slot_no_duplicates(v@, x);
    }
    r
}

pub(crate) proof fn lemma_push_no_duplicates<T>(s: Seq<T>, x: T)
    requires
        s.no_duplicates(),
        !s.contains(x),
    ensures
        s.push(x).no_duplicates(),
{
    let t = s.push(x);
    assert forall|i: int, j: int| 0 <= i < t.len() && 0 <= j < t.len() && i != j implies t[i]
        != t[j] by {
        if i == s.len() {
            assert(s[j] == t[j]);
        } else if j == s.len() {
            assert(s[i] == t[i]);
        }
    }
}

proof fn lemma_live_reverse_deps_in_range<A>(
    record: Option<RecipeBuildRecord<A>>,
    alive: Seq<bool>,
    n: nat,
)
    requires
        record_wf(record, n),
    ensures
        forall|k: int|
            0 <= k < live_reverse_deps(record, alive).len() ==> #[trigger] live_reverse_deps(
                record,
                alive,
            )[k] < n,
        live_reverse_deps(record, alive).no_duplicates(),
{
    if record is Some {
        let r = record->0.reverse_dependencies@;
        let p = |v: usize| alive[v as int];
        assert forall|k: int| 0 <= k < r.filter(p).len() implies #[trigger] r.filter(p)[k] < n by {
            lemma_filter_contains_iff(r, p, r.filter(p)[k]);
            assert(r.filter(p).contains(r.filter(p)[k]));
            let i = choose|i: int| 0 <= i < r.len() && r[i] == r.filter(p)[k];
            assert(record->0.reverse_dependencies[i] < n);
        }
        lemma_filter_no_duplicates(r, p);
    }
}

proof fn lemma_filter_no_duplicates(s: Seq<usize>, p: spec_fn(usize) -> bool)
    requires
        s.no_duplicates(),
    ensures
        s.filter(p).no_duplicates(),
    decreases s.len(),
{
    reveal_with_fuel(Seq::filter, 1);
    if s.len() > 0 {
        let rest = s.drop_last();
        assert(rest.no_duplicates());
        lemma_filter_no_duplicates(rest, p);
        if p(s.last()) {
            lemma_filter_contains_iff(rest, p, s.last());
            if rest.contains(s.last()) {
                let i = choose|i: int| 0 <= i < rest.len() && rest[i] == s.last();
                assert(s[i] == s[s.len() - 1]);
            }
            lemma_push_no_duplicates(rest.filter(p), s.last());
        }
    }
}

/// Names stay right when no asset changes its address: every slot of `b`
/// that lives was a live slot of `a` with the same address, or is new.
proof fn lemma_names_kept<R, A>(
    a: Seq<Option<OpaqueSnoozyRefInner<R, A>>>,
    b: Seq<Option<OpaqueSnoozyRefInner<R, A>>>,
    r: OpaqueSnoozyRef,
)
    requires
        ref_names(a, r),
        a.len() <= b.len(),
        forall|i: int|
            0 <= i < a.len() && #[trigger] b[i] is Some ==> a[i] is Some && b[i]->0.addr
                == a[i]->0.addr,
    ensures
        ref_names(b, r),
{
    if b[r.inner as int] is Some {
        assert(a[r.inner as int] is Some);
    }
}

/// The names of `a` stay right in `b` when no asset changes its address, no
/// recorded dependencies change except those of slot `except` (which must
/// name their assets in `b`), and new slots have no build record.
proof fn lemma_deps_named_kept<R, A>(a: AssetReg<R, A>, b: AssetReg<R, A>, except: int)
    requires
        a.deps_named(),
        a.entries.len() <= b.entries.len(),
        forall|i: int|
            0 <= i < a.entries.len() && #[trigger] b.entries[i] is Some ==> a.entries[i] is Some
                && b.entries[i]->0.addr == a.entries[i]->0.addr,
        forall|i: int|
            0 <= i < a.entries.len() && i != except && #[trigger] b.entries[i] is Some
                ==> recorded_deps(b.entries[i]->0.recipe_info.build_record) == recorded_deps(
                a.entries[i]->0.recipe_info.build_record,
            ),
        forall|i: int|
            a.entries.len() <= i < b.entries.len() && #[trigger] b.entries[i] is Some
                ==> b.entries[i]->0.recipe_info.build_record is None,
        0 <= except < b.entries.len() && b.entries[except] is Some ==> forall|k: int|
            0 <= k < recorded_deps(b.entries[except]->0.recipe_info.build_record).len() ==> ref_names(
                b.entries@,
                #[trigger] recorded_deps(b.entries[except]->0.recipe_info.build_record)[k],
            ),
    ensures
        b.deps_named(),
{
    assert forall|i: int|
        0 <= i < b.entries.len() && #[trigger] b.entries[i] is Some implies forall|k: int|
        0 <= k < recorded_deps(b.entries[i]->0.recipe_info.build_record).len() ==> ref_names(
            b.entries@,
            #[trigger] recorded_deps(b.entries[i]->0.recipe_info.build_record)[k],
        ) by {
        if i != except && i < a.entries.len() {
            assert forall|k: int|
                0 <= k < recorded_deps(b.entries[i]->0.recipe_info.build_record).len() implies ref_names(
                b.entries@,
                #[trigger] recorded_deps(b.entries[i]->0.recipe_info.build_record)[k],
            ) by {
                let r = recorded_deps(b.entries[i]->0.recipe_info.build_record)[k];
                assert(r == recorded_deps(a.entries[i]->0.recipe_info.build_record)[k]);
                lemma_names_kept(a.entries@, b.entries@, r);
            }
        } else if i >= a.entries.len() {
            assert(recorded_deps(b.entries[i]->0.recipe_info.build_record).len() == 0);
        }
    }
}

/// The queued references of `a` stay right in `b` when no asset changes its
/// address and the queue is kept, emptied, or extended by a reference that
/// names its asset in `b`.
proof fn lemma_queue_named_kept<R, A>(a: AssetReg<R, A>, b: AssetReg<R, A>)
    requires
        a.queue_named(),
        a.entries.len() <= b.entries.len(),
        forall|i: int|
            0 <= i < a.entries.len() && #[trigger] b.entries[i] is Some ==> a.entries[i] is Some
                && b.entries[i]->0.addr == a.entries[i]->0.addr,
        b.queued_asset_invalidations@ == a.queued_asset_invalidations@
            || b.queued_asset_invalidations@.len() == 0 || (b.queued_asset_invalidations@
            == a.queued_asset_invalidations@.push(b.queued_asset_invalidations@.last())
            && ref_names(b.entries@, b.queued_asset_invalidations@.last())),
    ensures
        b.queue_named(),
{
    assert forall|k: int| 0 <= k < b.queued_asset_invalidations.len() implies ref_names(
        b.entries@,
        #[trigger] b.queued_asset_invalidations[k],
    ) by {
        if k < a.queued_asset_invalidations.len() {
            assert(b.queued_asset_invalidations[k] == a.queued_asset_invalidations[k]);
            lemma_names_kept(a.entries@, b.entries@, a.queued_asset_invalidations[k]);
        }
    }
}

/// The registered definitions of `a` stay right in `b` when no asset changes
/// its address and the definitions are kept.
proof fn lemma_refs_named_kept<R, A>(a: AssetReg<R, A>, b: AssetReg<R, A>)
    requires
        a.refs_named(),
        a.wf(),
        b.refs == a.refs,
        a.entries.len() <= b.entries.len(),
        forall|i: int|
            0 <= i < a.entries.len() && #[trigger] b.entries[i] is Some ==> a.entries[i] is Some
                && b.entries[i]->0.addr == a.entries[i]->0.addr,
    ensures
        b.refs_named(),
{
    assert forall|k: int|
        0 <= k < b.refs.len() && #[trigger] b.entries[b.refs[k].1 as int] is Some implies b.entries[b.refs[k].1 as int]->0.addr
            == b.refs[k].0 by {
        assert(a.refs[k].1 < a.entries.len());
        assert(a.entries[a.refs[k].1 as int] is Some);
    }
}

/// The names of `a` stay right in `b` when no asset changes its address or
/// its recorded dependencies, new slots have no build record, the
/// definitions are kept, and the queue is kept, emptied, or extended by a
/// reference that names its asset in `b`.
proof fn lemma_names_kept_all<R, A>(a: AssetReg<R, A>, b: AssetReg<R, A>)
    requires
        a.wf(),
        b.refs == a.refs,
        a.entries.len() <= b.entries.len(),
        forall|i: int|
            0 <= i < a.entries.len() && #[trigger] b.entries[i] is Some ==> a.entries[i] is Some
                && b.entries[i]->0.addr == a.entries[i]->0.addr && recorded_deps(
                b.entries[i]->0.recipe_info.build_record,
            ) == recorded_deps(a.entries[i]->0.recipe_info.build_record),
        forall|i: int|
            a.entries.len() <= i < b.entries.len() && #[trigger] b.entries[i] is Some
                ==> b.entries[i]->0.recipe_info.build_record is None,
        b.queued_asset_invalidations@ == a.queued_asset_invalidations@
            || b.queued_asset_invalidations@.len() == 0 || (b.queued_asset_invalidations@
            == a.queued_asset_invalidations@.push(b.queued_asset_invalidations@.last())
            && ref_names(b.entries@, b.queued_asset_invalidations@.last())),
    ensures
        b.queue_named(),
        b.refs_named(),
        b.deps_named(),
{
    lemma_queue_named_kept(a, b);
    lemma_refs_named_kept(a, b);
    lemma_deps_named_kept(a, b, -1);
}

impl<R, A> AssetReg<R, A> {
    /// The registry's invariant.
    pub open spec fn wf(self) -> bool {
        &&& forall|k: int| 0 <= k < self.refs.len() ==> #[trigger] self.refs[k].1 < self.entries.len()
        &&& forall|k: int, l: int|
            0 <= k < self.refs.len() && 0 <= l < self.refs.len() && k != l ==> #[trigger] self.refs[k].0
                != #[trigger] self.refs[l].0
        &&& forall|k: int|
            0 <= k < self.queued_asset_invalidations.len()
                ==> #[trigger] self.queued_asset_invalidations[k].inner < self.entries.len()
        &&& forall|i: int|
            0 <= i < self.entries.len() && #[trigger] self.entries[i] is Some ==> record_wf(
                self.entries[i]->0.recipe_info.build_record,
                self.entries.len() as nat,
            )
        &&& self.queue_named()
        &&& self.refs_named()
        &&& self.deps_named()
    }

    /// Every queued reference carries the address of its asset.
    pub open spec fn queue_named(self) -> bool {
        forall|k: int|
            0 <= k < self.queued_asset_invalidations.len() ==> ref_names(
                self.entries@,
                #[trigger] self.queued_asset_invalidations[k],
            )
    }

    /// Every registered definition lives at a slot whose asset, while it
    /// lives, has that address.
    pub open spec fn refs_named(self) -> bool {
        forall|k: int|
            0 <= k < self.refs.len() && #[trigger] self.entries[self.refs[k].1 as int] is Some
                ==> self.entries[self.refs[k].1 as int]->0.addr == self.refs[k].0
    }

    /// Every recorded dependency carries the address of its asset.
    pub open spec fn deps_named(self) -> bool {
        forall|i: int|
            0 <= i < self.entries.len() && #[trigger] self.entries[i] is Some ==> forall|k: int|
                0 <= k < recorded_deps(self.entries[i]->0.recipe_info.build_record).len()
                    ==> ref_names(
                    self.entries@,
                    #[trigger] recorded_deps(self.entries[i]->0.recipe_info.build_record)[k],
                )
    }

    /// Slots of the queued invalidations.
    pub open spec fn queued_slots(self) -> Seq<usize> {
        self.queued_asset_invalidations@.map_values(|r: OpaqueSnoozyRef| r.inner)
    }

    /// A slot that is held from outside: by a handle, or by a queued
    /// invalidation.
    pub open spec fn is_root(self, i: usize) -> bool {
        ||| (i < self.entries.len() && held(self.entries[i as int]))
        ||| self.queued_slots().contains(i)
    }

    /// The asset in slot `i` lies on a cycle of recorded dependencies: it
    /// holds itself through the assets its last build read.
    pub open spec fn on_dependency_cycle(self, i: usize) -> bool {
        &&& i < self.entries.len()
        &&& reachable(self.dep_edge(), dep_slots(self.entries[i as int]).to_set(), i)
    }

    /// The slots that hold themselves alive: held from outside, or on a cycle
    /// of recorded dependencies.
    pub open spec fn roots(self) -> Set<usize> {
        Set::new(|i: usize| self.is_root(i) || self.on_dependency_cycle(i))
    }

    /// Edges from each asset to the assets its last build read.
    pub open spec fn dep_edge(self) -> spec_fn(usize, usize) -> bool {
        |u: usize, v: usize| u < self.entries.len() && dep_slots(self.entries[u as int]).contains(v)
    }

    /// The asset in slot `i` is alive: it is reachable along the dependencies
    /// of last builds from a slot that holds itself alive, and it was not
    /// freed.
    pub open spec fn alive(self, i: usize) -> bool {
        &&& i < self.entries.len()
        &&& self.entries[i as int] is Some
        &&& reachable(self.dep_edge(), self.roots(), i)
    }

    pub open spec fn alive_seq(self) -> Seq<bool> {
        Seq::new(self.entries.len() as nat, |i: int| self.alive(i as usize))
    }

    /// Edges from each asset to the live assets recorded as having read it:
    /// the edges along which an invalidation spreads.
    pub open spec fn invalidation_edge(self) -> spec_fn(usize, usize) -> bool {
        |u: usize, v: usize|
            u < self.entries.len() && rev_dep_slots(self.entries[u as int]).contains(v) && self.alive(
                v,
            )
    }

    /// The slot registered for `addr`.
    pub open spec fn registered(self, addr: OpaqueSnoozyAddr) -> Option<usize> {
        if exists|k: int| 0 <= k < self.refs.len() && #[trigger] self.refs[k].0 == addr {
            let k = choose|k: int| 0 <= k < self.refs.len() && #[trigger] self.refs[k].0 == addr;
            Some(self.refs[k].1)
        } else {
            None
        }
    }

    /// The live asset defined for `addr`, if any.
    pub open spec fn live_binding(self, addr: OpaqueSnoozyAddr) -> Option<usize> {
        match self.registered(addr) {
            Some(i) => if self.alive(i) {
                Some(i)
            } else {
                None
            },
            None => None,
        }
    }

    /// A definition of `addr` with `recipe_hash` agrees with the live one.
    pub open spec fn binding_consistent(self, addr: OpaqueSnoozyAddr, recipe_hash: u64) -> bool {
        match self.live_binding(addr) {
            Some(i) => self.entries[i as int]->0.recipe_info.recipe_hash == recipe_hash
                && self.entries[i as int]->0.handle_count < u64::MAX,
            None => true,
        }
    }

    /// `after` is this registry once its queued invalidations were applied:
    /// every asset that an invalidation reaches is pending, and the queue is
    /// empty.
    pub open spec fn propagated(self, after: Self) -> bool {
        &&& after.wf()
        &&& after.refs == self.refs
        &&& after.queued_asset_invalidations@.len() == 0
        &&& after.entries.len() == self.entries.len()
        &&& forall|i: int|
            0 <= i < after.entries.len() ==> #[trigger] after.entries[i] == if self.entries[i] is Some
                && reachable(self.invalidation_edge(), self.queued_slots().to_set(), i as usize) {
                Some(with_pending(self.entries[i]->0, true))
            } else {
                self.entries[i]
            }
    }

    /// `after` is this registry once its garbage was collected: only the
    /// definitions of live assets are kept, and the slots of dead assets are
    /// freed.
    pub open spec fn garbage_collected(self, after: Self) -> bool {
        &&& after.wf()
        &&& after.queued_asset_invalidations == self.queued_asset_invalidations
        &&& after.refs@ == self.refs@.filter(|p: (OpaqueSnoozyAddr, usize)| self.alive(p.1))
        &&& after.entries.len() == self.entries.len()
        &&& forall|i: int|
            0 <= i < after.entries.len() ==> #[trigger] after.entries[i] == if self.alive(i as usize) {
                self.entries[i]
            } else {
                None
            }
    }

    /// `after` and `r` are what defining `addr` with `recipe_hash` in this
    /// registry gives: a held handle `r` to the asset now registered for
    /// `addr`, which is the live asset that was defined there, if any.
    pub open spec fn binding_defined(
        self,
        addr: OpaqueSnoozyAddr,
        recipe_hash: u64,
        after: Self,
        r: OpaqueSnoozyRef,
    ) -> bool {
        &&& self.binding_consistent(addr, recipe_hash)
        &&& r.addr == addr
        &&& !r.use_prev
        &&& r.inner < after.entries.len()
        &&& after.registered(addr) == Some(r.inner)
        &&& held(after.entries[r.inner as int])
        &&& after.entries[r.inner as int]->0.addr == addr
        &&& (self.live_binding(addr) matches Some(i) ==> r.inner == i)
    }

    /// An empty registry.
    pub fn new() -> (reg: Self)
        ensures
            reg.wf(),
            reg.entries@.len() == 0,
            reg.refs@.len() == 0,
            reg.queued_asset_invalidations@.len() == 0,
    {
        AssetReg { entries: Vec::new(), refs: Vec::new(), queued_asset_invalidations: Vec::new() }
    }

    /// The dependency lists of all slots.
    fn dependency_graph(&self) -> (adj: Vec<Vec<usize>>)
        requires
            self.wf(),
        ensures
            adj.len() == self.entries.len(),
            forall|u: int| 0 <= u < adj.len() ==> #[trigger] adj[u]@ == dep_slots(self.entries[u]),
            edges_in_range(view_adj(adj@)),
            adj_edges(view_adj(adj@)) == self.dep_edge(),
    {
        let n = self.entries.len();
        let mut adj: Vec<Vec<usize>> = Vec::new();
        let mut i: usize = 0;
        while i < n
            invariant
                n == self.entries.len(),
                self.wf(),
                i <= n,
                adj.len() == i,
                forall|u: int| 0 <= u < i ==> #[trigger] adj[u]@ == dep_slots(self.entries[u]),
                forall|u: int, j: int|
                    0 <= u < i && 0 <= j < adj[u].len() ==> #[trigger] adj[u]@[j] < n,
            decreases n - i,
        {
            let mut list: Vec<usize> = Vec::new();
            match &self.entries[i] {
                Some(e) => {
                    match &e.recipe_info.build_record {
                        Some(r) => {
                            let ghost deps = r.dependencies@;
                            assert(record_wf(e.recipe_info.build_record, n as nat));
                            let mut k: usize = 0;
                            while k < r.dependencies.len()
                                invariant
                                    deps == r.dependencies@,
                                    k <= deps.len(),
                                    forall|t: int| 0 <= t < deps.len() ==> #[trigger] deps[t].inner < n,
                                    list@ == deps.take(k as int).map_values(
                                        |d: OpaqueSnoozyRef| d.inner,
                                    ),
                                decreases deps.len() - k,
                            {
                                assert(deps.take(k + 1) =~= deps.take(k as int).push(deps[k as int]));
                                list.push(r.dependencies[k].inner);
                                k = k + 1;
                            }
                            assert(deps.take(deps.len() as int) =~= deps);
                        },
                        None => {
                            assert(list@ =~= dep_slots(self.entries[i as int]));
                        },
                    }
                },
                None => {
                    assert(list@ =~= dep_slots(self.entries[i as int]));
                },
            }
            assert(list@ =~= dep_slots(self.entries[i as int]));
            adj.push(list);
            i = i + 1;
        }
        proof {
            assert forall|u: int, j: int|
                0 <= u < view_adj(adj@).len() && 0 <= j < view_adj(adj@)[u].len()
                implies #[trigger] view_adj(adj@)[u][j] < view_adj(adj@).len() by {
                assert(view_adj(adj@)[u] == adj[u]@);
                assert(adj[u]@[j] < n);
            }
            assert(adj_edges(view_adj(adj@)) =~= self.dep_edge()) by {
                assert forall|u: usize, v: usize|
                    #[trigger] adj_edges(view_adj(adj@))(u, v) == self.dep_edge()(u, v) by {
                    if u < adj.len() {
                        assert(view_adj(adj@)[u as int] == adj[u as int]@);
                    }
                }
            }
        }
        adj
    }

    /// The slots that hold the registry's roots; `adj` holds the dependency
    /// lists of all slots.
    fn root_slots(&self, adj: &Vec<Vec<usize>>) -> (roots: Vec<usize>)
        requires
            self.wf(),
            adj.len() == self.entries.len(),
            forall|u: int| 0 <= u < adj.len() ==> #[trigger] adj[u]@ == dep_slots(self.entries[u]),
            edges_in_range(view_adj(adj@)),
            adj_edges(view_adj(adj@)) == self.dep_edge(),
        ensures
            forall|k: int| 0 <= k < roots.len() ==> #[trigger] roots[k] < self.entries.len(),
            roots@.to_set() == self.roots(),
    {
        let n = self.entries.len();
        let mut roots: Vec<usize> = Vec::new();
        let mut i: usize = 0;
        while i < n
            invariant
                n == self.entries.len(),
                i <= n,
                forall|k: int| 0 <= k < roots.len() ==> #[trigger] roots[k] < n,
                forall|x: usize|
                    #[trigger] roots@.contains(x) <==> (x < i && held(self.entries[x as int])),
            decreases n - i,
        {
            let is_held = match &self.entries[i] {
                Some(e) => e.handle_count > 0,
                None => false,
            };
            if is_held {
                roots.push(i);
            }
            i = i + 1;
        }
        let q = &self.queued_asset_invalidations;
        let mut k: usize = 0;
        while k < q.len()
            invariant
                n == self.entries.len(),
                q == &self.queued_asset_invalidations,
                self.wf(),
                k <= q.len(),
                forall|t: int| 0 <= t < roots.len() ==> #[trigger] roots[t] < n,
                forall|x: usize|
                    #[trigger] roots@.contains(x) <==> ((x < n && held(self.entries[x as int]))
                        || self.queued_slots().take(k as int).contains(x)),
            decreases q.len() - k,
        {
            assert(self.queued_slots().take(k + 1) =~= self.queued_slots().take(k as int).push(
                q@[k as int].inner,
            ));
            roots.push(q[k].inner);
            k = k + 1;
        }
        assert(self.queued_slots().take(q.len() as int) =~= self.queued_slots());
        let mut c: usize = 0;
        while c < n
            invariant
                n == self.entries.len(),
                adj.len() == n,
                forall|u: int| 0 <= u < adj.len() ==> #[trigger] adj[u]@ == dep_slots(self.entries[u]),
                edges_in_range(view_adj(adj@)),
                adj_edges(view_adj(adj@)) == self.dep_edge(),
                c <= n,
                forall|t: int| 0 <= t < roots.len() ==> #[trigger] roots[t] < n,
                forall|x: usize|
                    #[trigger] roots@.contains(x) <==> (self.is_root(x) || (x < c
                        && self.on_dependency_cycle(x))),
            decreases n - c,
        {
            let succ = &adj[c];
            proof {
                assert forall|t: int| 0 <= t < succ.len() implies #[trigger] succ[t] < adj.len() by {
                    assert(view_adj(adj@)[c as int] == succ@);
                    assert(view_adj(adj@)[c as int][t] < view_adj(adj@).len());
                }
            }
            let marked = reachable_from(adj, succ);
            if marked[c] {
                roots.push(c);
            }
            proof {
                assert(marked[c as int] == self.on_dependency_cycle(c));
            }
            c = c + 1;
        }
        proof {
            assert forall|x: usize| #[trigger] roots@.to_set().contains(x) == self.roots().contains(x) by {
                if self.on_dependency_cycle(x) {
                    assert(x < n);
                }
            }
            assert(roots@.to_set() =~= self.roots());
        }
        roots
    }

    /// For each slot, whether its asset is alive.
    pub fn alive_set(&self) -> (alive: Vec<bool>)
        requires
            self.wf(),
        ensures
            alive@ == self.alive_seq(),
    {
        let adj = self.dependency_graph();
        let roots = self.root_slots(&adj);
        let reach = reachable_from(&adj, &roots);
        let n = self.entries.len();
        let mut alive: Vec<bool> = Vec::new();
        let mut i: usize = 0;
        while i < n
            invariant
                n == self.entries.len(),
                reach.len() == n,
                i <= n,
                alive.len() == i,
                forall|v: usize|
                    v < n ==> (#[trigger] reach[v as int] <==> reachable(
                        self.dep_edge(),
                        self.roots(),
                        v,
                    )),
                forall|t: int| 0 <= t < i ==> alive@[t] == self.alive(t as usize),
            decreases n - i,
        {
            let live = reach[i] && self.entries[i].is_some();
            alive.push(live);
            i = i + 1;
        }
        assert(alive@ =~= self.alive_seq());
        alive
    }

    /// The position in `refs` of `addr`.
    fn find_ref(&self, addr: OpaqueSnoozyAddr) -> (pos: Option<usize>)
        requires
            self.wf(),
        ensures
            match pos {
                Some(k) => k < self.refs.len() && self.refs[k as int].0 == addr && self.registered(
                    addr,
                ) == Some(self.refs[k as int].1),
                None => self.registered(addr) is None,
            },
    {
        let mut k: usize = 0;
        while k < self.refs.len()
            invariant
                self.wf(),
                k <= self.refs.len(),
                forall|t: int| 0 <= t < k ==> self.refs[t].0 != addr,
            decreases self.refs.len() - k,
        {
            if self.refs[k].0 == addr {
                proof {
                    let c = choose|c: int| 0 <= c < self.refs.len() && #[trigger] self.refs[c].0 == addr;
                    assert(c == k);
                }
                return Some(k);
            }
            k = k + 1;
        }
        None
    }

    /// Whether defining `addr` with `recipe_hash` would contradict its live
    /// definition, which was made with another recipe.
    pub fn conflicts_with_binding(&self, addr: OpaqueSnoozyAddr, recipe_hash: u64) -> (r: bool)
        requires
            self.wf(),
        ensures
            r == (self.live_binding(addr) matches Some(i)
                && self.entries[i as int]->0.recipe_info.recipe_hash != recipe_hash),
    {
        match self.find_ref(addr) {
            Some(k) => {
                let id = self.refs[k].1;
                let alive = self.alive_set();
                if alive[id] {
                    match &self.entries[id] {
                        Some(e) => e.recipe_info.recipe_hash != recipe_hash,
                        None => false,
                    }
                } else {
                    false
                }
            },
            None => false,
        }
    }

    /// Whether the live definition of `addr`, if any, already has as many
    /// handles as its counter can hold, so that defining `addr` again cannot
    /// hand out another one.
    pub fn binding_handles_full(&self, addr: OpaqueSnoozyAddr) -> (r: bool)
        requires
            self.wf(),
        ensures
            r == (self.live_binding(addr) matches Some(i)
                && self.entries[i as int]->0.handle_count == u64::MAX),
    {
        match self.find_ref(addr) {
            Some(k) => {
                let id = self.refs[k].1;
                let alive = self.alive_set();
                if alive[id] {
                    match &self.entries[id] {
                        Some(e) => e.handle_count == u64::MAX,
                        None => false,
                    }
                } else {
                    false
                }
            },
            None => false,
        }
    }

    /// Returns a handle to the asset defined for `addr`: the live asset
    /// already defined there, or, if there is none, a new asset built by
    /// `recipe_runner`, which then becomes the definition of `addr`.
    pub fn def_binding(
        &mut self,
        addr: OpaqueSnoozyAddr,
        recipe_hash: u64,
        recipe_runner: R,
        recipe_meta: RecipeMeta,
    ) -> (r: OpaqueSnoozyRef)
        requires
            old(self).wf(),
            old(self).binding_consistent(addr, recipe_hash),
        ensures
            final(self).wf(),
            r.addr == addr,
            !r.use_prev,
            final(self).registered(addr) == Some(r.inner),
            forall|a: OpaqueSnoozyAddr| a != addr ==> final(self).registered(a) == old(self).registered(a),
            final(self).queued_asset_invalidations == old(self).queued_asset_invalidations,
            old(self).binding_defined(addr, recipe_hash, *final(self), r),
            match old(self).live_binding(addr) {
                Some(i) => {
                    &&& r.inner == i
                    &&& final(self).entries@ == old(self).entries@.update(
                        i as int,
                        Some(with_handle_count(old(self).entries[i as int]->0, (old(self).entries[i as int]->0.handle_count + 1) as u64)),
                    )
                },
                None => {
                    &&& r.inner == old(self).entries.len()
                    &&& final(self).entries@.len() == old(self).entries@.len() + 1
                    &&& final(self).entries@.drop_last() == old(self).entries@
                    &&& final(self).entries@.last() matches Some(e) && {
                        &&& e.addr == addr
                        &&& e.handle_count == 1
                        &&& e.recipe_info.recipe_runner == recipe_runner
                        &&& e.recipe_info.recipe_meta == recipe_meta
                        &&& e.recipe_info.recipe_hash == recipe_hash
                        &&& e.recipe_info.rebuild_pending
                        &&& e.recipe_info.build_record is None
                    }
                },
            },
    {
        let pos = self.find_ref(addr);
        let existing: Option<usize> = match pos {
            Some(k) => {
                let id = self.refs[k].1;
                let alive = self.alive_set();
                if alive[id] {
                    Some(id)
                } else {
                    None
                }
            },
            None => None,
        };
        match existing {
            Some(id) => {
                match &mut self.entries[id] {
                    Some(e) => {
                        e.handle_count = e.handle_count + 1;
                    },
                    None => {},
                }
                OpaqueSnoozyRef { inner: id, addr, use_prev: false }
            },
            None => {
                let id = self.entries.len();
                let recipe_info = RecipeInfo {
                    recipe_runner,
                    recipe_meta,
                    recipe_hash,
                    rebuild_pending: true,
                    build_record: None,
                };
                self.entries.push(Some(OpaqueSnoozyRefInner { addr, recipe_info, handle_count: 1 }));
                match pos {
                    Some(k) => {
                        self.refs.set(k, (addr, id));
                    },
                    None => {
                        self.refs.push((addr, id));
                    },
                }
                proof {
                    assert forall|i: int|
                        0 <= i < self.entries.len() && #[trigger] self.entries[i] is Some
                        implies record_wf(
                        self.entries[i]->0.recipe_info.build_record,
                        self.entries.len() as nat,
                    ) by {
                        if i < id {
                            assert(self.entries[i] == old(self).entries[i]);
                            assert(record_wf(
                                old(self).entries[i]->0.recipe_info.build_record,
                                old(self).entries.len() as nat,
                            ));
                        }
                    }
                    assert forall|a: OpaqueSnoozyAddr| #[trigger] self.registered(a) == (if a == addr {
                        Some(id)
                    } else {
                        old(self).registered(a)
                    }) by {
                        if a == addr {
                            let k = self.refs.len() - 1;
                            if pos is Some {
                                let k = pos->0;
                                assert(self.refs[k as int].0 == addr);
                            } else {
                                assert(self.refs[k as int].0 == addr);
                            }
                        } else if exists|k: int| 0 <= k < self.refs.len() && #[trigger] self.refs[k].0 == a {
                            let k = choose|k: int| 0 <= k < self.refs.len() && #[trigger] self.refs[k].0 == a;
                            assert(old(self).refs[k].0 == a);
                        } else if exists|k: int| 0 <= k < old(self).refs.len() && #[trigger] old(self).refs[k].0 == a {
                            let k = choose|k: int| 0 <= k < old(self).refs.len() && #[trigger] old(self).refs[k].0 == a;
                            assert(self.refs[k].0 == a);
                        }
                    }
                }
                OpaqueSnoozyRef { inner: id, addr, use_prev: false }
            },
        }
    }

    /// The reverse-dependency lists of all slots, restricted to live assets.
    fn invalidation_graph(&self, alive: &Vec<bool>) -> (adj: Vec<Vec<usize>>)
        requires
            self.wf(),
            alive@ == self.alive_seq(),
        ensures
            adj.len() == self.entries.len(),
            edges_in_range(view_adj(adj@)),
            adj_edges(view_adj(adj@)) == self.invalidation_edge(),
    {
        let n = self.entries.len();
        let mut adj: Vec<Vec<usize>> = Vec::new();
        let mut i: usize = 0;
        while i < n
            invariant
                n == self.entries.len(),
                self.wf(),
                alive@ == self.alive_seq(),
                i <= n,
                adj.len() == i,
                forall|u: int|
                    0 <= u < i ==> #[trigger] adj[u]@ == rev_dep_slots(self.entries[u]).filter(
                        |v: usize| alive@[v as int],
                    ),
            decreases n - i,
        {
            let list: Vec<usize> = match &self.entries[i] {
                Some(e) => match &e.recipe_info.build_record {
                    Some(r) => {
                        assert(record_wf(e.recipe_info.build_record, n as nat));
                        r.get_valid_reverse_dependencies(alive)
                    },
                    None => {
                        proof {
                            reveal_with_fuel(Seq::filter, 1);
                        }
                        Vec::new()
                    },
                },
                None => {
                    proof {
                        reveal_with_fuel(Seq::filter, 1);
                    }
                    Vec::new()
                },
            };
            adj.push(list);
            i = i + 1;
        }
        proof {
            assert forall|u: usize, v: usize|
                #[trigger] adj_edges(view_adj(adj@))(u, v) == self.invalidation_edge()(u, v) by {
                if u < n {
                    assert(view_adj(adj@)[u as int] == adj[u as int]@);
                    lemma_filter_contains_iff(
                        rev_dep_slots(self.entries[u as int]),
                        |v: usize| alive@[v as int],
                        v,
                    );
                    if rev_dep_slots(self.entries[u as int]).contains(v) {
                        let k = choose|k: int|
                            0 <= k < rev_dep_slots(self.entries[u as int]).len() && rev_dep_slots(
                                self.entries[u as int],
                            )[k] == v;
                        assert(record_wf(self.entries[u as int]->0.recipe_info.build_record, n as nat));
                        assert(v < n);
                    }
                }
            }
            assert(adj_edges(view_adj(adj@)) =~= self.invalidation_edge());
            assert forall|u: int, j: int|
                0 <= u < view_adj(adj@).len() && 0 <= j < view_adj(adj@)[u].len()
                implies #[trigger] view_adj(adj@)[u][j] < view_adj(adj@).len() by {
                let v = view_adj(adj@)[u][j];
                assert(view_adj(adj@)[u] == adj[u]@);
                assert(adj[u]@.contains(v));
                lemma_filter_contains_iff(rev_dep_slots(self.entries[u]), |v: usize| alive@[v as int], v);
                let k = choose|k: int|
                    0 <= k < rev_dep_slots(self.entries[u]).len() && rev_dep_slots(self.entries[u])[k] == v;
                assert(record_wf(self.entries[u]->0.recipe_info.build_record, n as nat));
            }
        }
        adj
    }

    /// Sets the pending flag of every marked asset.
    fn mark_pending(&mut self, marked: &Vec<bool>)
        requires
            old(self).wf(),
            marked.len() == old(self).entries.len(),
        ensures
            final(self).wf(),
            final(self).refs == old(self).refs,
            final(self).queued_asset_invalidations == old(self).queued_asset_invalidations,
            final(self).entries.len() == old(self).entries.len(),
            forall|i: int|
                0 <= i < final(self).entries.len() ==> #[trigger] final(self).entries[i] == if marked[i]
                    && old(self).entries[i] is Some {
                    Some(with_pending(old(self).entries[i]->0, true))
                } else {
                    old(self).entries[i]
                },
    {
        let n = self.entries.len();
        let mut i: usize = 0;
        while i < n
            invariant
                n == self.entries.len(),
                n == old(self).entries.len(),
                marked.len() == n,
                i <= n,
                self.refs == old(self).refs,
                self.queued_asset_invalidations == old(self).queued_asset_invalidations,
                forall|t: int|
                    0 <= t < n ==> #[trigger] self.entries[t] == if t < i && marked[t]
                        && old(self).entries[t] is Some {
                        Some(with_pending(old(self).entries[t]->0, true))
                    } else {
                        old(self).entries[t]
                    },
            decreases n - i,
        {
            if marked[i] {
                match &mut self.entries[i] {
                    Some(e) => {
                        e.recipe_info.rebuild_pending = true;
                    },
                    None => {},
                }
            }
            i = i + 1;
        }
        proof {
            assert forall|t: int|
                0 <= t < self.entries.len() && #[trigger] self.entries[t] is Some implies record_wf(
                self.entries[t]->0.recipe_info.build_record,
                self.entries.len() as nat,
            ) by {
                assert(old(self).entries[t] is Some);
            }
        }
    }

    /// Marks for rebuild every asset that an invalidation of `starts` reaches.
    fn invalidate_from(&mut self, starts: &Vec<usize>)
        requires
            old(self).wf(),
            forall|k: int| 0 <= k < starts.len() ==> #[trigger] starts[k] < old(self).entries.len(),
        ensures
            final(self).wf(),
            final(self).refs == old(self).refs,
            final(self).queued_asset_invalidations == old(self).queued_asset_invalidations,
            final(self).entries.len() == old(self).entries.len(),
            forall|i: int|
                0 <= i < final(self).entries.len() ==> #[trigger] final(self).entries[i] == if old(
                    self,
                ).entries[i] is Some && reachable(
                    old(self).invalidation_edge(),
                    starts@.to_set(),
                    i as usize,
                ) {
                    Some(with_pending(old(self).entries[i]->0, true))
                } else {
                    old(self).entries[i]
                },
    {
        let alive = self.alive_set();
        let adj = self.invalidation_graph(&alive);
        let marked = reachable_from(&adj, starts);
        self.mark_pending(&marked);
    }

    /// Marks the asset of `opaque_ref` for rebuild, and with it every live
    /// asset whose last build read, directly or not, an asset so marked.
    pub fn invalidate_asset_tree(&mut self, opaque_ref: &OpaqueSnoozyRef)
        requires
            old(self).wf(),
            opaque_ref.inner < old(self).entries.len(),
        ensures
            final(self).wf(),
            final(self).refs == old(self).refs,
            final(self).queued_asset_invalidations == old(self).queued_asset_invalidations,
            final(self).entries.len() == old(self).entries.len(),
            forall|i: int|
                0 <= i < final(self).entries.len() ==> #[trigger] final(self).entries[i] == if old(
                    self,
                ).entries[i] is Some && reachable(
                    old(self).invalidation_edge(),
                    set![opaque_ref.inner],
                    i as usize,
                ) {
                    Some(with_pending(old(self).entries[i]->0, true))
                } else {
                    old(self).entries[i]
                },
    {
        let mut starts: Vec<usize> = Vec::new();
        starts.push(opaque_ref.inner);
        assert(starts@.to_set() =~= set![opaque_ref.inner]) by {
            assert(starts@[0] == opaque_ref.inner);
        }
        self.invalidate_from(&starts);
    }

    /// Queues the invalidation of `opaque_ref`; it takes effect at the next
    /// `propagate_invalidations`.
    pub fn queue_invalidation(&mut self, opaque_ref: OpaqueSnoozyRef)
        requires
            old(self).wf(),
            ref_names(old(self).entries@, opaque_ref),
        ensures
            final(self).wf(),
            final(self).entries == old(self).entries,
            final(self).refs == old(self).refs,
            final(self).queued_asset_invalidations@ == old(self).queued_asset_invalidations@.push(
                opaque_ref,
            ),
    {
        self.queued_asset_invalidations.push(opaque_ref);
        proof {
            lemma_names_kept_all(*old(self), *self);
        }
    }

    /// Applies every queued invalidation, then empties the queue.
    pub fn propagate_invalidations(&mut self)
        requires
            old(self).wf(),
        ensures
            old(self).propagated(*final(self)),
    {
        let mut starts: Vec<usize> = Vec::new();
        let mut k: usize = 0;
        while k < self.queued_asset_invalidations.len()
            invariant
                self.wf(),
                k <= self.queued_asset_invalidations.len(),
                starts@ == self.queued_slots().take(k as int),
            decreases self.queued_asset_invalidations.len() - k,
        {
            assert(self.queued_slots().take(k + 1) =~= self.queued_slots().take(k as int).push(
                self.queued_asset_invalidations@[k as int].inner,
            ));
            starts.push(self.queued_asset_invalidations[k].inner);
            k = k + 1;
        }
        assert(starts@ =~= self.queued_slots());
        self.invalidate_from(&starts);
        self.queued_asset_invalidations.clear();
        proof {
            assert forall|t: int|
                0 <= t < self.entries.len() && #[trigger] self.entries[t] is Some implies record_wf(
                self.entries[t]->0.recipe_info.build_record,
                self.entries.len() as nat,
            ) by {
                assert(old(self).entries[t] is Some);
            }
        }
    }

    /// Forgets the definitions of dead assets and frees their slots.
    pub fn collect_garbage(&mut self)
        requires
            old(self).wf(),
        ensures
            old(self).garbage_collected(*final(self)),
    {
        let alive = self.alive_set();
        let ghost pred = |p: (OpaqueSnoozyAddr, usize)| old(self).alive(p.1);
        let n = self.entries.len();
        let mut kept: Vec<(OpaqueSnoozyAddr, usize)> = Vec::new();
        let mut k: usize = 0;
        while k < self.refs.len()
            invariant
                self.wf(),
                self == old(self),
                n == self.entries.len(),
                alive@ == old(self).alive_seq(),
                pred == (|p: (OpaqueSnoozyAddr, usize)| old(self).alive(p.1)),
                k <= self.refs.len(),
                kept@ == self.refs@.take(k as int).filter(pred),
                forall|a: int|
                    0 <= a < kept.len() ==> exists|t: int|
                        0 <= t < k && #[trigger] self.refs@[t] == #[trigger] kept@[a],
                forall|a: int, b: int|
                    0 <= a < kept.len() && 0 <= b < kept.len() && a != b ==> #[trigger] kept@[a].0
                        != #[trigger] kept@[b].0,
            decreases self.refs.len() - k,
        {
            reveal_with_fuel(Seq::filter, 1);
            assert(self.refs@.take(k + 1).drop_last() =~= self.refs@.take(k as int));
            let entry = self.refs[k];
            if alive[entry.1] {
                let ghost before = kept@;
                kept.push(entry);
                proof {
                    assert forall|a: int, b: int|
                        0 <= a < kept.len() && 0 <= b < kept.len() && a != b implies #[trigger] kept@[a].0
                            != #[trigger] kept@[b].0 by {
                        if a == kept.len() - 1 {
                            let t = choose|t: int| 0 <= t < k && #[trigger] self.refs@[t] == before[b];
                            assert(self.refs@[t].0 != self.refs@[k as int].0);
                        } else if b == kept.len() - 1 {
                            let t = choose|t: int| 0 <= t < k && #[trigger] self.refs@[t] == before[a];
                            assert(self.refs@[t].0 != self.refs@[k as int].0);
                        } else {
                            assert(before[a].0 != before[b].0);
                        }
                    }
                    assert forall|a: int| 0 <= a < kept.len() implies exists|t: int|
                        0 <= t < k + 1 && #[trigger] self.refs@[t] == #[trigger] kept@[a] by {
                        if a == kept.len() - 1 {
                            assert(self.refs@[k as int] == kept@[a]);
                        } else {
                            let t = choose|t: int| 0 <= t < k && #[trigger] self.refs@[t] == before[a];
                            assert(self.refs@[t] == kept@[a]);
                        }
                    }
                }
            }
            k = k + 1;
        }
        assert(self.refs@.take(self.refs.len() as int) =~= self.refs@);
        let ghost kept_v = kept@;
        assert forall|a: int| 0 <= a < kept_v.len() implies #[trigger] kept_v[a].1 < n by {
            let t = choose|t: int|
                0 <= t < self.refs.len() && #[trigger] self.refs@[t] == #[trigger] kept@[a];
            assert(self.refs[t].1 < n);
        }
        self.refs = kept;
        let mut i: usize = 0;
        while i < n
            invariant
                n == self.entries.len(),
                n == old(self).entries.len(),
                alive@ == old(self).alive_seq(),
                i <= n,
                self.queued_asset_invalidations == old(self).queued_asset_invalidations,
                self.refs@ == kept_v,
                forall|t: int|
                    0 <= t < n ==> #[trigger] self.entries[t] == if t < i && !old(self).alive(
                        t as usize,
                    ) {
                        None
                    } else {
                        old(self).entries[t]
                    },
            decreases n - i,
        {
            if !alive[i] {
                self.entries.set(i, None);
            }
            i = i + 1;
        }
        proof {
            assert forall|t: int|
                0 <= t < self.entries.len() && #[trigger] self.entries[t] is Some implies record_wf(
                self.entries[t]->0.recipe_info.build_record,
                self.entries.len() as nat,
            ) by {
                assert(old(self).entries[t] is Some);
            }
            assert forall|a: int| 0 <= a < self.refs.len() implies #[trigger] self.refs[a].1
                < self.entries.len() by {
                assert(self.refs@[a] == kept_v[a]);
            }
        }
    }

    /// What evaluating the asset of `opaque_ref` from `evaluation_path` must do.
    pub fn begin_evaluation(
        &self,
        opaque_ref: &OpaqueSnoozyRef,
        evaluation_path: &Vec<EvaluationPathNode>,
    ) -> (step: EvaluationStep)
        requires
            opaque_ref.inner < self.entries.len(),
            self.entries[opaque_ref.inner as int] is Some,
        ensures
            step == if on_path(evaluation_path@, opaque_ref.inner) {
                EvaluationStep::AlreadyOnPath
            } else if self.entries[opaque_ref.inner as int]->0.recipe_info.rebuild_pending {
                EvaluationStep::Rebuild
            } else {
                EvaluationStep::UpToDate
            },
    {
        if path_contains(evaluation_path, opaque_ref.to_evaluation_path_node()) {
            return EvaluationStep::AlreadyOnPath;
        }
        match &self.entries[opaque_ref.inner] {
            Some(e) => if e.recipe_info.rebuild_pending {
                EvaluationStep::Rebuild
            } else {
                EvaluationStep::UpToDate
            },
            None => EvaluationStep::UpToDate,
        }
    }

    /// Records that the build of `opaque_ref`'s asset failed: the asset keeps
    /// its last build record and is no longer pending, since, unless anything
    /// changes, this is what it is stuck with.
    pub fn commit_build_failure(&mut self, opaque_ref: &OpaqueSnoozyRef)
        requires
            old(self).wf(),
            opaque_ref.inner < old(self).entries.len(),
            old(self).entries[opaque_ref.inner as int] is Some,
        ensures
            final(self).wf(),
            final(self).refs == old(self).refs,
            final(self).queued_asset_invalidations == old(self).queued_asset_invalidations,
            final(self).entries@ == old(self).entries@.update(
                opaque_ref.inner as int,
                Some(with_pending(old(self).entries[opaque_ref.inner as int]->0, false)),
            ),
    {
        match &mut self.entries[opaque_ref.inner] {
            Some(e) => {
                e.recipe_info.rebuild_pending = false;
            },
            None => {},
        }
        proof {
            assert forall|t: int|
                0 <= t < self.entries.len() && #[trigger] self.entries[t] is Some implies record_wf(
                self.entries[t]->0.recipe_info.build_record,
                self.entries.len() as nat,
            ) by {
                assert(old(self).entries[t] is Some);
            }
        }
    }

    /// Removes `dependent` from the reverse dependencies of `target`.
    fn remove_reverse_dependency(&mut self, target: usize, dependent: usize)
        requires
            old(self).wf(),
            target < old(self).entries.len(),
        ensures
            final(self).wf(),
            final(self).refs == old(self).refs,
            final(self).queued_asset_invalidations == old(self).queued_asset_invalidations,
            final(self).entries.len() == old(self).entries.len(),
            forall|j: int|
                0 <= j < final(self).entries.len() && j != target ==> #[trigger] final(self).entries[j]
                    == old(self).entries[j],
            rev_deps_updated(
                old(self).entries[target as int],
                final(self).entries[target as int],
                dependent,
                false,
                true,
            ),
    {
        let ghost n = self.entries.len();
        match &mut self.entries[target] {
            Some(e) => match &mut e.recipe_info.build_record {
                Some(r) => {
                    let list = without(&r.reverse_dependencies, dependent);
                    r.reverse_dependencies = list;
                },
                None => {},
            },
            None => {},
        }
        proof {
            assert forall|t: int|
                0 <= t < self.entries.len() && #[trigger] self.entries[t] is Some implies record_wf(
                self.entries[t]->0.recipe_info.build_record,
                self.entries.len() as nat,
            ) by {
                assert(old(self).entries[t] is Some);
                assert(record_wf(old(self).entries[t]->0.recipe_info.build_record, n as nat));
                if t == target && self.entries[t]->0.recipe_info.build_record is Some {
                    let r = self.entries[t]->0.recipe_info.build_record->0;
                    let r0 = old(self).entries[t]->0.recipe_info.build_record->0;
                    assert forall|k: int| 0 <= k < r.reverse_dependencies.len() implies #[trigger] r.reverse_dependencies[k]
                        < n by {
                        assert(r.reverse_dependencies@.contains(r.reverse_dependencies@[k]));
                        lemma_without_slot_contains(r0.reverse_dependencies@, dependent, r.reverse_dependencies@[k]);
                        let i = choose|i: int|
                            0 <= i < r0.reverse_dependencies.len() && r0.reverse_dependencies@[i]
                                == r.reverse_dependencies@[k];
                        assert(r0.reverse_dependencies[i] < n);
                    }
                }
            }
            assert forall|i: int|
                0 <= i < self.entries.len() && #[trigger] self.entries[i] is Some implies old(self).entries[i] is Some
                    && self.entries[i]->0.addr == old(self).entries[i]->0.addr && recorded_deps(
                    self.entries[i]->0.recipe_info.build_record,
                ) == recorded_deps(old(self).entries[i]->0.recipe_info.build_record) by {
                assert(old(self).entries[i] is Some);
            }
            lemma_names_kept_all(*old(self), *self);
        }
    }

    /// Adds `dependent` to the reverse dependencies of `target`, unless it is
    /// there already.
    fn add_reverse_dependency(&mut self, target: usize, dependent: usize)
        requires
            old(self).wf(),
            target < old(self).entries.len(),
            dependent < old(self).entries.len(),
        ensures
            final(self).wf(),
            final(self).refs == old(self).refs,
            final(self).queued_asset_invalidations == old(self).queued_asset_invalidations,
            final(self).entries.len() == old(self).entries.len(),
            forall|j: int|
                0 <= j < final(self).entries.len() && j != target ==> #[trigger] final(self).entries[j]
                    == old(self).entries[j],
            rev_deps_updated(
                old(self).entries[target as int],
                final(self).entries[target as int],
                dependent,
                true,
                false,
            ),
    {
        let ghost n = self.entries.len();
        match &mut self.entries[target] {
            Some(e) => match &mut e.recipe_info.build_record {
                Some(r) => {
                    let mut present = false;
                    let mut k: usize = 0;
                    while k < r.reverse_dependencies.len()
                        invariant
                            k <= r.reverse_dependencies.len(),
                            present == r.reverse_dependencies@.take(k as int).contains(dependent),
                        decreases r.reverse_dependencies.len() - k,
                    {
                        assert(r.reverse_dependencies@.take(k + 1) =~= r.reverse_dependencies@.take(
                            k as int,
                        ).push(r.reverse_dependencies@[k as int]));
                        if r.reverse_dependencies[k] == dependent {
                            present = true;
                        }
                        k = k + 1;
                    }
                    assert(r.reverse_dependencies@.take(r.reverse_dependencies.len() as int)
                        =~= r.reverse_dependencies@);
                    if !present {
                        proof {
                            lemma_push_no_duplicates(r.reverse_dependencies@, dependent);
                        }
                        r.reverse_dependencies.push(dependent);
                    }
                },
                None => {},
            },
            None => {},
        }
        proof {
            assert forall|t: int|
                0 <= t < self.entries.len() && #[trigger] self.entries[t] is Some implies record_wf(
                self.entries[t]->0.recipe_info.build_record,
                self.entries.len() as nat,
            ) by {
                assert(old(self).entries[t] is Some);
                assert(record_wf(old(self).entries[t]->0.recipe_info.build_record, n as nat));
                if t == target && self.entries[t]->0.recipe_info.build_record is Some {
                    let r = self.entries[t]->0.recipe_info.build_record->0;
                    let r0 = old(self).entries[t]->0.recipe_info.build_record->0;
                    assert forall|k: int| 0 <= k < r.reverse_dependencies.len() implies #[trigger] r.reverse_dependencies[k]
                        < n by {
                        if k < r0.reverse_dependencies.len() {
                            assert(r.reverse_dependencies[k] == r0.reverse_dependencies[k]);
                        }
                    }
                }
            }
            assert forall|i: int|
                0 <= i < self.entries.len() && #[trigger] self.entries[i] is Some implies old(self).entries[i] is Some
                    && self.entries[i]->0.addr == old(self).entries[i]->0.addr && recorded_deps(
                    self.entries[i]->0.recipe_info.build_record,
                ) == recorded_deps(old(self).entries[i]->0.recipe_info.build_record) by {
                assert(old(self).entries[i] is Some);
            }
            lemma_names_kept_all(*old(self), *self);
        }
    }

    /// Records a successful build of `opaque_ref`'s asset: it is no longer
    /// pending, its build record now holds `build_result` and `dependencies`
    /// (see `RecipeInfo::set_new_build_result`), and it is registered as a
    /// reverse dependency of each dependency it gained and unregistered from
    /// each it lost. Dependencies on `evaluation_path` are left alone, so that
    /// no circular reverse dependency is kept.
    pub fn commit_build_success(
        &mut self,
        opaque_ref: &OpaqueSnoozyRef,
        build_result: RecipeBuildResult<A>,
        dependencies: Vec<OpaqueSnoozyRef>,
        evaluation_path: &Vec<EvaluationPathNode>,
        build_snapshot_idx: usize,
    ) -> (diff: BuildRecordDiff)
        requires
            old(self).wf(),
            opaque_ref.inner < old(self).entries.len(),
            old(self).entries[opaque_ref.inner as int] is Some,
            forall|k: int|
                0 <= k < dependencies.len() ==> #[trigger] ref_names(
                    old(self).entries@,
                    dependencies[k],
                ),
            dependencies@.no_duplicates(),
            on_path(evaluation_path@, opaque_ref.inner),
        ensures
            final(self).wf(),
            final(self).refs == old(self).refs,
            final(self).queued_asset_invalidations == old(self).queued_asset_invalidations,
            final(self).entries.len() == old(self).entries.len(),
            ({
                let e0 = old(self).entries[opaque_ref.inner as int]->0;
                let rec0 = e0.recipe_info.build_record;
                let e = final(self).entries[opaque_ref.inner as int];
                &&& diff.added_deps@ == refs_not_in(dependencies@, recorded_deps(rec0))
                &&& diff.removed_deps@ == refs_not_in(recorded_deps(rec0), dependencies@)
                &&& e is Some
                &&& e->0.addr == e0.addr
                &&& e->0.handle_count == e0.handle_count
                &&& e->0.recipe_info.recipe_runner == e0.recipe_info.recipe_runner
                &&& e->0.recipe_info.recipe_meta == e0.recipe_info.recipe_meta
                &&& e->0.recipe_info.recipe_hash == e0.recipe_info.recipe_hash
                &&& !e->0.recipe_info.rebuild_pending
                &&& e->0.recipe_info.build_record is Some
                &&& e->0.recipe_info.build_record->0.build_result == build_result
                &&& e->0.recipe_info.build_record->0.prev_build_result == match rec0 {
                    Some(p) => Some(p.build_result),
                    None => None,
                }
                &&& e->0.recipe_info.build_record->0.build_snapshot_idx == build_snapshot_idx
                &&& e->0.recipe_info.build_record->0.dependencies == dependencies
                &&& e->0.recipe_info.build_record->0.reverse_dependencies@ == live_reverse_deps(
                    rec0,
                    old(self).alive_seq(),
                )
                &&& forall|j: int|
                    0 <= j < final(self).entries.len() && j != opaque_ref.inner
                        ==> #[trigger] rev_deps_updated(
                        old(self).entries[j],
                        final(self).entries[j],
                        opaque_ref.inner,
                        touches(diff.added_deps@, evaluation_path@, j as usize),
                        touches(diff.removed_deps@, evaluation_path@, j as usize),
                    )
            }),
    {
        let id = opaque_ref.inner;
        let n = self.entries.len();
        let alive = self.alive_set();
        let ghost e0 = self.entries[id as int]->0;
        let ghost old_entries = self.entries@;
        proof {
            assert(record_wf(e0.recipe_info.build_record, n as nat));
        }
        let mut slot = self.entries[id].take();
        let diff = match &mut slot {
            Some(e) => {
                e.recipe_info.rebuild_pending = false;
                e.recipe_info.set_new_build_result(build_result, dependencies, build_snapshot_idx, &alive)
            },
            None => BuildRecordDiff { added_deps: Vec::new(), removed_deps: Vec::new() },
        };
        self.entries.set(id, slot);
        let ghost e1 = self.entries[id as int];
        let ghost rec0 = e0.recipe_info.build_record;
        proof {
            lemma_live_reverse_deps_in_range(rec0, old(self).alive_seq(), n as nat);
            assert forall|t: int|
                0 <= t < self.entries.len() && #[trigger] self.entries[t] is Some implies record_wf(
                self.entries[t]->0.recipe_info.build_record,
                self.entries.len() as nat,
            ) by {
                assert(old(self).entries[t] is Some);
                if t == id {
                    assert forall|k: int| 0 <= k < dependencies.len() implies #[trigger] dependencies[k].inner < n by {
                        assert(ref_names(old(self).entries@, dependencies[k]));
                    }
                }
            }
            assert forall|i: int|
                0 <= i < n && #[trigger] self.entries[i] is Some implies old(self).entries[i] is Some
                    && self.entries[i]->0.addr == old(self).entries[i]->0.addr by {
                assert(old(self).entries[i] is Some);
            }
            assert forall|k: int| 0 <= k < dependencies.len() implies ref_names(
                self.entries@,
                #[trigger] dependencies[k],
            ) by {
                assert(ref_names(old(self).entries@, dependencies[k]));
                lemma_names_kept(old(self).entries@, self.entries@, dependencies[k]);
            }
            assert forall|i: int|
                0 <= i < n && i != id && #[trigger] self.entries[i] is Some implies recorded_deps(
                self.entries[i]->0.recipe_info.build_record,
            ) == recorded_deps(old(self).entries[i]->0.recipe_info.build_record) by {
                assert(self.entries[i] == old(self).entries[i]);
            }
            lemma_queue_named_kept(*old(self), *self);
            lemma_refs_named_kept(*old(self), *self);
            lemma_deps_named_kept(*old(self), *self, id as int);
            assert forall|j: int| 0 <= j < n && j != id implies #[trigger] rev_deps_updated(
                old_entries[j],
                self.entries[j],
                id,
                false,
                touches(diff.removed_deps@.take(0), evaluation_path@, j as usize),
            ) by {
                assert(self.entries[j] == old_entries[j]);
                if old_entries[j] is Some {
                    assert(record_wf(old_entries[j]->0.recipe_info.build_record, n as nat));
                }
                lemma_rev_deps_updated_refl(old_entries[j], id);
            }
            assert forall|k: int| 0 <= k < diff.removed_deps.len() implies #[trigger] diff.removed_deps[k].inner < n by {
                lemma_filter_contains_iff(recorded_deps(rec0), |d: OpaqueSnoozyRef| !dependencies@.contains(d), diff.removed_deps@[k]);
                assert(diff.removed_deps@.contains(diff.removed_deps@[k]));
                let i = choose|i: int| 0 <= i < recorded_deps(rec0).len() && recorded_deps(rec0)[i] == diff.removed_deps@[k];
                assert(rec0->0.dependencies[i].inner < n);
            }
            assert forall|k: int| 0 <= k < diff.added_deps.len() implies #[trigger] diff.added_deps[k].inner < n by {
                lemma_filter_contains_iff(dependencies@, |d: OpaqueSnoozyRef| !recorded_deps(rec0).contains(d), diff.added_deps@[k]);
                assert(diff.added_deps@.contains(diff.added_deps@[k]));
                let i = choose|i: int| 0 <= i < dependencies@.len() && dependencies@[i] == diff.added_deps@[k];
                assert(dependencies[i].inner < n);
            }
        }
        let mut k: usize = 0;
        while k < diff.removed_deps.len()
            invariant
                self.wf(),
                n == self.entries.len(),
                id < n,
                old_entries.len() == n,
                on_path(evaluation_path@, id),
                self.refs == old(self).refs,
                self.queued_asset_invalidations == old(self).queued_asset_invalidations,
                self.entries[id as int] == e1,
                forall|t: int| 0 <= t < diff.removed_deps.len() ==> #[trigger] diff.removed_deps[t].inner < n,
                k <= diff.removed_deps.len(),
                forall|j: int|
                    0 <= j < n && j != id ==> #[trigger] rev_deps_updated(
                        old_entries[j],
                        self.entries[j],
                        id,
                        false,
                        touches(diff.removed_deps@.take(k as int), evaluation_path@, j as usize),
                    ),
            decreases diff.removed_deps.len() - k,
        {
            let d = diff.removed_deps[k];
            let ghost before = self.entries@;
            assert(forall|j: int| 0 <= j < n && j != id ==> rev_deps_updated(
                old_entries[j],
                before[j],
                id,
                false,
                touches(diff.removed_deps@.take(k as int), evaluation_path@, j as usize),
            ));
            if !path_contains(evaluation_path, d.to_evaluation_path_node()) {
                self.remove_reverse_dependency(d.inner, id);
            }
            proof {
                assert forall|j: int| 0 <= j < n && j != id implies #[trigger] rev_deps_updated(
                    old_entries[j],
                    self.entries[j],
                    id,
                    false,
                    touches(diff.removed_deps@.take(k + 1), evaluation_path@, j as usize),
                ) by {
                    let tk = touches(diff.removed_deps@.take(k as int), evaluation_path@, j as usize);
                    let tk1 = touches(diff.removed_deps@.take(k + 1), evaluation_path@, j as usize);
                    assert(rev_deps_updated(old_entries[j], before[j], id, false, tk));
                    if tk {
                        let t = choose|t: int| 0 <= t < k && #[trigger] diff.removed_deps@.take(k as int)[t].inner == j as usize && !on_path(evaluation_path@, j as usize);
                        assert(diff.removed_deps@.take(k + 1)[t].inner == j);
                    }
                    if j == d.inner && !on_path(evaluation_path@, j as usize) {
                        assert(diff.removed_deps@.take(k + 1)[k as int].inner == j);
                        lemma_rev_deps_updated_compose(old_entries[j], before[j], self.entries[j], id, false, tk, false, true);
                    } else {
                        if tk1 {
                            let t = choose|t: int| 0 <= t < k + 1 && #[trigger] diff.removed_deps@.take(k + 1)[t].inner == j as usize && !on_path(evaluation_path@, j as usize);
                            assert(t != k);
                            assert(diff.removed_deps@.take(k as int)[t].inner == j);
                        }
                        assert(self.entries[j] == before[j]);
                    }
                }
            }
            k = k + 1;
        }
        assert(diff.removed_deps@.take(diff.removed_deps.len() as int) =~= diff.removed_deps@);
        let mut k: usize = 0;
        while k < diff.added_deps.len()
            invariant
                self.wf(),
                n == self.entries.len(),
                id < n,
                old_entries.len() == n,
                on_path(evaluation_path@, id),
                self.refs == old(self).refs,
                self.queued_asset_invalidations == old(self).queued_asset_invalidations,
                self.entries[id as int] == e1,
                forall|t: int| 0 <= t < diff.added_deps.len() ==> #[trigger] diff.added_deps[t].inner < n,
                k <= diff.added_deps.len(),
                forall|j: int|
                    0 <= j < n && j != id ==> #[trigger] rev_deps_updated(
                        old_entries[j],
                        self.entries[j],
                        id,
                        touches(diff.added_deps@.take(k as int), evaluation_path@, j as usize),
                        touches(diff.removed_deps@, evaluation_path@, j as usize),
                    ),
            decreases diff.added_deps.len() - k,
        {
            let d = diff.added_deps[k];
            let ghost before = self.entries@;
            assert(forall|j: int| 0 <= j < n && j != id ==> rev_deps_updated(
                old_entries[j],
                before[j],
                id,
                touches(diff.added_deps@.take(k as int), evaluation_path@, j as usize),
                touches(diff.removed_deps@, evaluation_path@, j as usize),
            ));
            if !path_contains(evaluation_path, d.to_evaluation_path_node()) {
                self.add_reverse_dependency(d.inner, id);
            }
            proof {
                assert forall|j: int| 0 <= j < n && j != id implies #[trigger] rev_deps_updated(
                    old_entries[j],
                    self.entries[j],
                    id,
                    touches(diff.added_deps@.take(k + 1), evaluation_path@, j as usize),
                    touches(diff.removed_deps@, evaluation_path@, j as usize),
                ) by {
                    let tk = touches(diff.added_deps@.take(k as int), evaluation_path@, j as usize);
                    let tk1 = touches(diff.added_deps@.take(k + 1), evaluation_path@, j as usize);
                    let tr = touches(diff.removed_deps@, evaluation_path@, j as usize);
                    if tk {
                        let t = choose|t: int| 0 <= t < k && #[trigger] diff.added_deps@.take(k as int)[t].inner == j as usize && !on_path(evaluation_path@, j as usize);
                        assert(diff.added_deps@.take(k + 1)[t].inner == j);
                    }
                    if j == d.inner && !on_path(evaluation_path@, j as usize) {
                        assert(diff.added_deps@.take(k + 1)[k as int].inner == j);
                        lemma_rev_deps_updated_compose(old_entries[j], before[j], self.entries[j], id, tk, tr, true, false);
                    } else {
                        if tk1 {
                            let t = choose|t: int| 0 <= t < k + 1 && #[trigger] diff.added_deps@.take(k + 1)[t].inner == j as usize && !on_path(evaluation_path@, j as usize);
                            assert(t != k);
                            assert(diff.added_deps@.take(k as int)[t].inner == j);
                        }
                        assert(self.entries[j] == before[j]);
                    }
                }
            }
            k = k + 1;
        }
        assert(diff.added_deps@.take(diff.added_deps.len() as int) =~= diff.added_deps@);
        diff
    }

    /// The asset in slot `i` is referenced by exactly one handle and by
    /// nothing else: no queued invalidation and no build record of a live
    /// asset.
    pub open spec fn sole_reference(self, i: usize) -> bool {
        &&& i < self.entries.len()
        &&& self.entries[i as int] is Some
        &&& self.entries[i as int]->0.handle_count == 1
        &&& !self.queued_slots().contains(i)
        &&& forall|j: int|
            0 <= j < self.entries.len() && self.alive(j as usize) ==> !(#[trigger] dep_slots(
                self.entries[j],
            )).contains(i)
    }

    /// Whether the asset in slot `i` is referenced by exactly one handle and by
    /// nothing else.
    pub fn is_sole_reference(&self, i: usize) -> (r: bool)
        requires
            self.wf(),
        ensures
            r == self.sole_reference(i),
    {
        if i >= self.entries.len() {
            return false;
        }
        let single = match &self.entries[i] {
            Some(e) => e.handle_count == 1,
            None => false,
        };
        if !single {
            return false;
        }
        let mut k: usize = 0;
        while k < self.queued_asset_invalidations.len()
            invariant
                k <= self.queued_asset_invalidations.len(),
                forall|t: int| 0 <= t < k ==> self.queued_slots()[t] != i,
            decreases self.queued_asset_invalidations.len() - k,
        {
            assert(self.queued_slots()[k as int] == self.queued_asset_invalidations@[k as int].inner);
            if self.queued_asset_invalidations[k].inner == i {
                assert(self.queued_slots()[k as int] == i);
                assert(self.queued_slots().contains(i));
                return false;
            }
            k = k + 1;
        }
        let adj = self.dependency_graph();
        let alive = self.alive_set();
        let mut j: usize = 0;
        while j < adj.len()
            invariant
                adj.len() == self.entries.len(),
                alive@ == self.alive_seq(),
                forall|u: int| 0 <= u < adj.len() ==> #[trigger] adj[u]@ == dep_slots(self.entries[u]),
                j <= adj.len(),
                forall|u: int|
                    0 <= u < j && self.alive(u as usize) ==> !(#[trigger] dep_slots(
                        self.entries[u],
                    )).contains(i),
            decreases adj.len() - j,
        {
            if !alive[j] {
                j = j + 1;
                continue;
            }
            let list = &adj[j];
            let mut t: usize = 0;
            while t < list.len()
                invariant
                    j < self.entries.len(),
                    alive@ == self.alive_seq(),
                    alive@[j as int],
                    list@ == dep_slots(self.entries[j as int]),
                    t <= list.len(),
                    forall|x: int| 0 <= x < t ==> list@[x] != i,
                decreases list.len() - t,
            {
                if list[t] == i {
                    assert(self.alive(j as usize));
                    assert(dep_slots(self.entries[j as int])[t as int] == i);
                    assert(dep_slots(self.entries[j as int]).contains(i));
                    return false;
                }
                t = t + 1;
            }
            assert(!dep_slots(self.entries[j as int]).contains(i));
            j = j + 1;
        }
        assert(!self.queued_slots().contains(i));
        true
    }

    /// Records one more handle to the asset in slot `i`.
    pub fn retain(&mut self, i: usize)
        requires
            old(self).wf(),
            i < old(self).entries.len(),
            old(self).entries[i as int] is Some,
            old(self).entries[i as int]->0.handle_count < u64::MAX,
        ensures
            final(self).wf(),
            final(self).refs == old(self).refs,
            final(self).queued_asset_invalidations == old(self).queued_asset_invalidations,
            final(self).entries@ == old(self).entries@.update(
                i as int,
                Some(with_handle_count(old(self).entries[i as int]->0, (old(self).entries[i as int]->0.handle_count + 1) as u64)),
            ),
    {
        let mut slot = self.entries[i].take();
        match &mut slot {
            Some(e) => {
                e.handle_count = e.handle_count + 1;
            },
            None => {},
        }
        self.entries.set(i, slot);
        proof {
            assert forall|t: int|
                0 <= t < self.entries.len() && #[trigger] self.entries[t] is Some implies record_wf(
                self.entries[t]->0.recipe_info.build_record,
                self.entries.len() as nat,
            ) by {
                assert(old(self).entries[t] is Some);
            }
        }
    }

    /// Records that one handle to the asset in slot `i` was dropped. The asset
    /// stays until `collect_garbage` finds it dead.
    pub fn release(&mut self, i: usize)
        requires
            old(self).wf(),
            i < old(self).entries.len(),
            old(self).entries[i as int] is Some,
            old(self).entries[i as int]->0.handle_count > 0,
        ensures
            final(self).wf(),
            final(self).refs == old(self).refs,
            final(self).queued_asset_invalidations == old(self).queued_asset_invalidations,
            final(self).entries@ == old(self).entries@.update(
                i as int,
                Some(with_handle_count(old(self).entries[i as int]->0, (old(self).entries[i as int]->0.handle_count - 1) as u64)),
            ),
    {
        let mut slot = self.entries[i].take();
        match &mut slot {
            Some(e) => {
                e.handle_count = e.handle_count - 1;
            },
            None => {},
        }
        self.entries.set(i, slot);
        proof {
            assert forall|t: int|
                0 <= t < self.entries.len() && #[trigger] self.entries[t] is Some implies record_wf(
                self.entries[t]->0.recipe_info.build_record,
                self.entries.len() as nat,
            ) by {
                assert(old(self).entries[t] is Some);
            }
        }
    }

    /// `after` is this registry once the handle `opaque_ref` was replaced by
    /// the handle `r` to a fresh copy of its asset.
    pub open spec fn isolated_into(self, opaque_ref: OpaqueSnoozyRef, after: Self, r: OpaqueSnoozyRef) -> bool where R: Clone {
        &&& after.wf()
        &&& after.refs == self.refs
        &&& after.queued_asset_invalidations == self.queued_asset_invalidations
        &&& {
                let e = self.entries[opaque_ref.inner as int]->0;
                &&& r == (OpaqueSnoozyRef {
                    inner: self.entries.len(),
                    addr: e.addr,
                    use_prev: opaque_ref.use_prev,
                })
                &&& after.entries@.len() == self.entries@.len() + 1
                &&& after.entries@.drop_last() == self.entries@.update(
                    opaque_ref.inner as int,
                    Some(with_handle_count(e, (e.handle_count - 1) as u64)),
                )
                &&& after.entries@.last() is Some
                &&& after.entries@.last()->0.addr == e.addr
                &&& after.entries@.last()->0.handle_count == 1
                &&& cloned::<R>(
                    e.recipe_info.recipe_runner,
                    after.entries@.last()->0.recipe_info.recipe_runner,
                )
                &&& after.entries@.last()->0.recipe_info.recipe_meta == e.recipe_info.recipe_meta
                &&& after.entries@.last()->0.recipe_info.recipe_hash == e.recipe_info.recipe_hash
                &&& after.entries@.last()->0.recipe_info.rebuild_pending
                &&& after.entries@.last()->0.recipe_info.build_record is None
            }
    }

    /// Replaces the handle `opaque_ref` by a handle to a fresh copy of its
    /// asset: same address and recipe, no build, rebuild pending. The copy is
    /// not registered under the address.
    pub fn isolate_entry(&mut self, opaque_ref: OpaqueSnoozyRef) -> (r: OpaqueSnoozyRef) where
        R: Clone,
        requires
            old(self).wf(),
            opaque_ref.inner < old(self).entries.len(),
            old(self).entries[opaque_ref.inner as int] is Some,
            old(self).entries[opaque_ref.inner as int]->0.handle_count > 0,
        ensures
            old(self).isolated_into(opaque_ref, *final(self), r),
    {
        let i = opaque_ref.inner;
        let mut slot = self.entries[i].take();
        let fresh = match &mut slot {
            Some(e) => {
                e.handle_count = e.handle_count - 1;
                Some(OpaqueSnoozyRefInner {
                    addr: e.addr,
                    recipe_info: e.recipe_info.clone_desc(),
                    handle_count: 1,
                })
            },
            None => None,
        };
        let addr = match &slot {
            Some(e) => e.addr,
            None => opaque_ref.addr,
        };
        self.entries.set(i, slot);
        let id = self.entries.len();
        self.entries.push(fresh);
        proof {
            assert forall|t: int|
                0 <= t < self.entries.len() && #[trigger] self.entries[t] is Some implies record_wf(
                self.entries[t]->0.recipe_info.build_record,
                self.entries.len() as nat,
            ) by {
                if t < id {
                    assert(old(self).entries[t] is Some);
                    assert(record_wf(old(self).entries[t]->0.recipe_info.build_record, id as nat));
                }
            }
            assert(self.entries@.drop_last() =~= old(self).entries@.update(
                i as int,
                Some(with_handle_count(old(self).entries[i as int]->0, (old(self).entries[i as int]->0.handle_count - 1) as u64)),
            ));
        }
        OpaqueSnoozyRef { inner: id, addr, use_prev: opaque_ref.use_prev }
    }

    /// `after` is this registry once the asset of `target` took the recipe of
    /// the asset in slot `source`, which was freed.
    pub open spec fn rebound(self, target: OpaqueSnoozyRef, source: usize, after: Self) -> bool {
        &&& after.wf()
        &&& after.refs == self.refs
        &&& {
                let t = self.entries[target.inner as int]->0;
                let s = self.entries[source as int]->0;
                &&& after.entries@ == self.entries@.update(source as int, None).update(
                    target.inner as int,
                    Some(OpaqueSnoozyRefInner {
                        recipe_info: RecipeInfo {
                            recipe_runner: s.recipe_info.recipe_runner,
                            recipe_meta: s.recipe_info.recipe_meta,
                            recipe_hash: s.recipe_info.recipe_hash,
                            rebuild_pending: s.recipe_info.rebuild_pending,
                            build_record: t.recipe_info.build_record,
                        },
                        ..t
                    }),
                )
                &&& after.queued_asset_invalidations@ == if t.recipe_info.recipe_hash
                    != s.recipe_info.recipe_hash {
                    self.queued_asset_invalidations@.push(target)
                } else {
                    self.queued_asset_invalidations@
                }
            }
    }

    /// Gives the asset of `target` the recipe of the asset in slot `source`
    /// (its runner, description, hash and pending flag), keeping the build
    /// record of `target`, and frees `source`, whose only handle is consumed.
    /// When the two recipes differ, an invalidation of `target` is queued so
    /// that it and everything built from it are rebuilt.
    pub fn rebind_entry(&mut self, target: OpaqueSnoozyRef, source: usize)
        requires
            old(self).wf(),
            target.inner < old(self).entries.len(),
            old(self).entries[target.inner as int] is Some,
            ref_names(old(self).entries@, target),
            source != target.inner,
            old(self).sole_reference(source),
        ensures
            old(self).rebound(target, source, *final(self)),
    {
        let src = self.entries[source].take();
        let mut slot = self.entries[target.inner].take();
        let mut hash_difference = false;
        match src {
            Some(s) => {
                match &mut slot {
                    Some(e) => {
                        hash_difference = e.recipe_info.recipe_hash != s.recipe_info.recipe_hash;
                        e.recipe_info.replace_desc(s.recipe_info);
                    },
                    None => {},
                }
            },
            None => {},
        }
        self.entries.set(target.inner, slot);
        proof {
            let t = old(self).entries[target.inner as int]->0;
            let s = old(self).entries[source as int]->0;
            assert(self.entries@ =~= old(self).entries@.update(source as int, None).update(
                target.inner as int,
                Some(OpaqueSnoozyRefInner {
                    recipe_info: RecipeInfo {
                        recipe_runner: s.recipe_info.recipe_runner,
                        recipe_meta: s.recipe_info.recipe_meta,
                        recipe_hash: s.recipe_info.recipe_hash,
                        rebuild_pending: s.recipe_info.rebuild_pending,
                        build_record: t.recipe_info.build_record,
                    },
                    ..t
                }),
            ));
        }
        if hash_difference {
            self.queued_asset_invalidations.push(target);
        }
        proof {
            assert forall|t: int|
                0 <= t < self.entries.len() && #[trigger] self.entries[t] is Some implies record_wf(
                self.entries[t]->0.recipe_info.build_record,
                self.entries.len() as nat,
            ) by {
                assert(old(self).entries[t] is Some);
            }
            assert forall|i: int|
                0 <= i < self.entries.len() && #[trigger] self.entries[i] is Some implies old(self).entries[i] is Some
                    && self.entries[i]->0.addr == old(self).entries[i]->0.addr && recorded_deps(
                    self.entries[i]->0.recipe_info.build_record,
                ) == recorded_deps(old(self).entries[i]->0.recipe_info.build_record) by {
                assert(old(self).entries[i] is Some);
            }
            lemma_names_kept_all(*old(self), *self);
        }
    }

    /// Whether the asset of `opaque_ref` has a successful build.
    pub fn has_build_result(&self, opaque_ref: &OpaqueSnoozyRef) -> (r: bool)
        requires
            opaque_ref.inner < self.entries.len(),
        ensures
            r == (self.entries[opaque_ref.inner as int] matches Some(e)
                && e.recipe_info.build_record is Some),
    {
        match &self.entries[opaque_ref.inner] {
            Some(e) => e.recipe_info.build_record.is_some(),
            None => false,
        }
    }

    /// The result of the last successful build of the asset of `opaque_ref`,
    /// which must have one.
    pub fn get_build_result(&self, opaque_ref: &OpaqueSnoozyRef) -> (r: &RecipeBuildResult<A>)
        requires
            opaque_ref.inner < self.entries.len(),
            self.entries[opaque_ref.inner as int] is Some,
            self.entries[opaque_ref.inner as int]->0.recipe_info.build_record is Some,
        ensures
            *r == self.entries[opaque_ref.inner as int]->0.recipe_info.build_record->0.build_result,
    {
        let e = self.entries[opaque_ref.inner].as_ref().unwrap();
        &e.recipe_info.build_record.as_ref().unwrap().build_result
    }
}


/// An asset with a held handle is alive.
pub proof fn lemma_held_is_alive<R, A>(reg: AssetReg<R, A>, i: usize)
    requires
        i < reg.entries.len(),
        held(reg.entries[i as int]),
    ensures
        reg.alive(i),
{
    assert(reg.roots().contains(i));
    lemma_start_reachable(reg.dep_edge(), reg.roots(), i);
}

/// While a handle to the definition of `addr` is held, defining `addr` again
/// finds that same asset.
pub proof fn law_definition_found_while_held<R, A>(reg: AssetReg<R, A>, addr: OpaqueSnoozyAddr, i: usize)
    requires
        reg.registered(addr) == Some(i),
        i < reg.entries.len(),
        held(reg.entries[i as int]),
    ensures
        reg.live_binding(addr) == Some(i),
{
    lemma_held_is_alive(reg, i);
}

/// Defining an address a second time, while the handle that the first
/// definition gave is held, gives the same asset.
pub proof fn law_def_binding_twice<R, A>(
    r0: AssetReg<R, A>,
    r1: AssetReg<R, A>,
    r2: AssetReg<R, A>,
    addr: OpaqueSnoozyAddr,
    hash1: u64,
    hash2: u64,
    a: OpaqueSnoozyRef,
    b: OpaqueSnoozyRef,
)
    requires
        r0.binding_defined(addr, hash1, r1, a),
        r1.binding_defined(addr, hash2, r2, b),
    ensures
        b == a,
{
    lemma_held_is_alive(r1, a.inner);
}

/// Two references to live assets are equal exactly when they reach the same
/// asset and both, or neither, ask for its previous result.
pub proof fn law_ref_equality<R, A>(reg: AssetReg<R, A>, a: OpaqueSnoozyRef, b: OpaqueSnoozyRef)
    requires
        ref_names(reg.entries@, a),
        ref_names(reg.entries@, b),
        reg.entries[a.inner as int] is Some,
        reg.entries[b.inner as int] is Some,
    ensures
        (a == b) <==> (a.inner == b.inner && a.use_prev == b.use_prev),
{
}

/// Collecting garbage keeps every asset to which a handle is held, with all
/// its state.
pub proof fn law_gc_keeps_held<R, A>(before: AssetReg<R, A>, after: AssetReg<R, A>, i: usize)
    requires
        before.garbage_collected(after),
        i < before.entries.len(),
        held(before.entries[i as int]),
    ensures
        after.entries[i as int] == before.entries[i as int],
{
    lemma_held_is_alive(before, i);
    assert(after.entries[i as int] == before.entries[i as int]);
}

/// Collecting garbage keeps every asset that holds itself through its own
/// recorded dependencies (one that read its own previous result, or assets
/// that read each other), with all its state.
pub proof fn law_gc_keeps_dependency_cycles<R, A>(
    before: AssetReg<R, A>,
    after: AssetReg<R, A>,
    i: usize,
)
    requires
        before.garbage_collected(after),
        before.on_dependency_cycle(i),
        before.entries[i as int] is Some,
    ensures
        after.entries[i as int] == before.entries[i as int],
{
    assert(before.roots().contains(i));
    lemma_start_reachable(before.dep_edge(), before.roots(), i);
    assert(after.entries[i as int] == before.entries[i as int]);
}

/// Collecting garbage keeps every asset that the last build of a live asset
/// read.
pub proof fn law_gc_keeps_dependencies<R, A>(
    before: AssetReg<R, A>,
    after: AssetReg<R, A>,
    i: usize,
    d: usize,
)
    requires
        before.garbage_collected(after),
        before.alive(i),
        dep_slots(before.entries[i as int]).contains(d),
        d < before.entries.len(),
        before.entries[d as int] is Some,
    ensures
        after.entries[d as int] == before.entries[d as int],
{
    assert(before.dep_edge()(i, d));
    lemma_reachable_step(before.dep_edge(), before.roots(), i, d);
    assert(after.entries[d as int] == before.entries[d as int]);
}

/// Propagating invalidations marks for rebuild every live asset recorded as
/// having read a queued asset.
pub proof fn law_invalidation_reaches_dependents<R, A>(
    before: AssetReg<R, A>,
    after: AssetReg<R, A>,
    d: usize,
    x: usize,
)
    requires
        before.propagated(after),
        before.queued_slots().contains(d),
        d < before.entries.len(),
        rev_dep_slots(before.entries[d as int]).contains(x),
        before.alive(x),
    ensures
        after.entries[x as int] is Some,
        after.entries[x as int]->0.recipe_info.rebuild_pending,
{
    let starts = before.queued_slots().to_set();
    lemma_start_reachable(before.invalidation_edge(), starts, d);
    assert(before.invalidation_edge()(d, x));
    lemma_reachable_step(before.invalidation_edge(), starts, d, x);
    assert(after.entries[x as int] == Some(with_pending(before.entries[x as int]->0, true)));
}

/// Propagating invalidations changes nothing but pending flags, and clears
/// none: an asset pending before is still pending after.
pub proof fn law_propagation_only_adds_pending<R, A>(
    before: AssetReg<R, A>,
    after: AssetReg<R, A>,
    i: usize,
)
    requires
        before.propagated(after),
        i < before.entries.len(),
    ensures
        after.entries[i as int] is Some <==> before.entries[i as int] is Some,
        before.entries[i as int] is Some ==> after.entries[i as int] == Some(
            with_pending(
                before.entries[i as int]->0,
                after.entries[i as int]->0.recipe_info.rebuild_pending,
            ),
        ),
        before.entries[i as int] is Some && before.entries[i as int]->0.recipe_info.rebuild_pending
            ==> after.entries[i as int]->0.recipe_info.rebuild_pending,
{
}

/// A dependency that a build gained, outside its evaluation path, is
/// watched: once an invalidation of it is propagated, the built asset is
/// pending again, as long as it is alive.
pub proof fn law_gained_dependency_invalidates<R, A>(
    before_d: Option<OpaqueSnoozyRefInner<R, A>>,
    after: AssetReg<R, A>,
    fin: AssetReg<R, A>,
    x: usize,
    added: Seq<OpaqueSnoozyRef>,
    removed: Seq<OpaqueSnoozyRef>,
    path: Seq<EvaluationPathNode>,
    d: usize,
)
    requires
        rev_deps_updated(
            before_d,
            after.entries[d as int],
            x,
            touches(added, path, d),
            touches(removed, path, d),
        ),
        touches(added, path, d),
        before_d is Some,
        before_d->0.recipe_info.build_record is Some,
        d < after.entries.len(),
        after.alive(x),
        after.propagated(fin),
        after.queued_slots().contains(d),
    ensures
        fin.entries[x as int] is Some,
        fin.entries[x as int]->0.recipe_info.rebuild_pending,
{
    assert(after.entries[d as int]->0.recipe_info.build_record->0.reverse_dependencies@.contains(x));
    assert(rev_dep_slots(after.entries[d as int]).contains(x));
    law_invalidation_reaches_dependents(after, fin, d, x);
}

/// Rebinding an asset to a recipe with another hash schedules a rebuild of
/// the asset and of every live asset an invalidation of it reaches: once
/// invalidations are propagated, all of them are pending.
pub proof fn law_rebind_schedules_rebuild<R, A>(
    before: AssetReg<R, A>,
    target: OpaqueSnoozyRef,
    source: usize,
    mid: AssetReg<R, A>,
    after: AssetReg<R, A>,
    x: usize,
)
    requires
        before.rebound(target, source, mid),
        before.entries[target.inner as int]->0.recipe_info.recipe_hash
            != before.entries[source as int]->0.recipe_info.recipe_hash,
        target.inner < mid.entries.len(),
        mid.propagated(after),
        x < mid.entries.len(),
        mid.entries[x as int] is Some,
        reachable(mid.invalidation_edge(), set![target.inner], x),
    ensures
        after.entries[x as int]->0.recipe_info.rebuild_pending,
{
    let q = mid.queued_slots();
    assert(q[q.len() - 1] == target.inner);
    assert(set![target.inner].subset_of(q.to_set()));
    lemma_reachable_more_starts(mid.invalidation_edge(), set![target.inner], q.to_set(), x);
    assert(after.entries[x as int] == Some(with_pending(mid.entries[x as int]->0, true)));
}


/// The last build of the asset in `e` recorded that slot `w` read it.
pub open spec fn records_reader<R, A>(e: Option<OpaqueSnoozyRefInner<R, A>>, w: usize) -> bool {
    &&& e is Some
    &&& e->0.recipe_info.build_record is Some
    &&& e->0.recipe_info.build_record->0.reverse_dependencies@.contains(w)
}

/// The last build of the asset in `e` read slot `v`: one of its recorded
/// dependencies names `v`.
pub open spec fn reads_slot<R, A>(e: Option<OpaqueSnoozyRefInner<R, A>>, v: usize) -> bool {
    &&& e is Some
    &&& e->0.recipe_info.build_record is Some
    &&& exists|m: int|
        0 <= m < e->0.recipe_info.build_record->0.dependencies.len()
            && (#[trigger] e->0.recipe_info.build_record->0.dependencies@[m]).inner == v
}

/// Every queued invalidation is applied: after propagation, the asset of each
/// queued reference is pending, and so is every live asset reached from it by
/// following, step by step, the readers that builds recorded.
pub proof fn law_propagation_applies_every_queued_invalidation<R, A>(
    before: AssetReg<R, A>,
    after: AssetReg<R, A>,
    k: int,
    p: Seq<usize>,
)
    requires
        before.propagated(after),
        0 <= k < before.queued_asset_invalidations.len(),
        p.len() > 0,
        p[0] == before.queued_asset_invalidations[k].inner,
        p[0] < before.entries.len(),
        before.entries[p[0] as int] is Some,
        forall|j: int|
            0 <= j < p.len() - 1 ==> p[j] < before.entries.len() && #[trigger] records_reader(
                before.entries[p[j] as int],
                p[j + 1],
            ) && before.alive(p[j + 1]),
    ensures
        after.entries[p.last() as int] is Some,
        after.entries[p.last() as int]->0.recipe_info.rebuild_pending,
{
    let q = before.queued_slots();
    assert(q[k] == p[0]);
    assert(q.contains(p[0]));
    assert(q.to_set().contains(p[0]));
    assert forall|j: int| 0 <= j < p.len() - 1 implies #[trigger] (before.invalidation_edge())(
        p[j],
        p[j + 1],
    ) by {
        assert(records_reader(before.entries[p[j] as int], p[j + 1]));
    }
    assert(is_walk(before.invalidation_edge(), p));
    assert(reachable(before.invalidation_edge(), q.to_set(), p.last()));
    let v = p.last();
    if p.len() > 1 {
        let j: int = p.len() - 2;
        assert(records_reader(before.entries[p[j] as int], p[j + 1]));
        assert(p[j + 1] == v);
        assert(before.alive(v));
    }
    assert(after.entries[v as int] == Some(with_pending(before.entries[v as int]->0, true)));
}

/// A queued invalidation holds its asset alive until it is applied.
pub proof fn law_queued_asset_is_alive<R, A>(reg: AssetReg<R, A>, k: int)
    requires
        0 <= k < reg.queued_asset_invalidations.len(),
        reg.queued_asset_invalidations[k].inner < reg.entries.len(),
        reg.entries[reg.queued_asset_invalidations[k].inner as int] is Some,
    ensures
        reg.alive(reg.queued_asset_invalidations[k].inner),
{
    let i = reg.queued_asset_invalidations[k].inner;
    assert(reg.queued_slots()[k] == i);
    assert(reg.queued_slots().contains(i));
    assert(reg.roots().contains(i));
    lemma_start_reachable(reg.dep_edge(), reg.roots(), i);
}

/// Collecting garbage keeps every asset on a cycle of reads of any length:
/// a walk that starts and ends at one asset, each of whose steps goes from
/// an asset to one that its last build read. Each such asset keeps all its
/// state, and its definitions stay registered.
pub proof fn law_gc_keeps_read_cycles<R, A>(
    before: AssetReg<R, A>,
    after: AssetReg<R, A>,
    p: Seq<usize>,
    j: int,
)
    requires
        before.garbage_collected(after),
        p.len() >= 2,
        p[0] == p.last(),
        forall|i: int| 0 <= i < p.len() ==> #[trigger] p[i] < before.entries.len(),
        forall|i: int| 0 <= i < p.len() - 1 ==> #[trigger] reads_slot(before.entries[p[i] as int], p[i + 1]),
        0 <= j < p.len(),
    ensures
        after.entries[p[j] as int] == before.entries[p[j] as int],
        after.entries[p[j] as int] is Some,
        forall|k: int|
            0 <= k < before.refs.len() && before.refs[k].1 == p[j] ==> after.refs@.contains(
                #[trigger] before.refs[k],
            ),
{
    let edge = before.dep_edge();
    assert forall|i: int| 0 <= i < p.len() - 1 implies #[trigger] edge(p[i], p[i + 1]) by {
        assert(reads_slot(before.entries[p[i] as int], p[i + 1]));
        let e = before.entries[p[i] as int]->0;
        let m = choose|m: int|
            0 <= m < e.recipe_info.build_record->0.dependencies.len()
                && (#[trigger] e.recipe_info.build_record->0.dependencies@[m]).inner == p[i + 1];
        assert(dep_slots(before.entries[p[i] as int])[m] == p[i + 1]);
        assert(dep_slots(before.entries[p[i] as int]).contains(p[i + 1]));
    }
    let tail = p.subrange(1, p.len() as int);
    assert forall|i: int| 0 <= i < tail.len() - 1 implies #[trigger] edge(tail[i], tail[i + 1]) by {
        assert(tail[i] == p[i + 1] && tail[i + 1] == p[i + 2]);
        assert(edge(p[i + 1], p[i + 2]));
    }
    assert(is_walk(edge, tail));
    let z: int = 0;
    assert(edge(p[z], p[z + 1]));
    assert(dep_slots(before.entries[p[0] as int]).to_set().contains(tail[0]));
    assert(tail.last() == p[0]);
    assert(reachable(edge, dep_slots(before.entries[p[0] as int]).to_set(), p[0]));
    assert(before.on_dependency_cycle(p[0]));
    assert(before.roots().contains(p[0]));
    let head = p.subrange(0, j + 1);
    assert forall|i: int| 0 <= i < head.len() - 1 implies #[trigger] edge(head[i], head[i + 1]) by {
        assert(head[i] == p[i] && head[i + 1] == p[i + 1]);
        assert(edge(p[i], p[i + 1]));
    }
    assert(is_walk(edge, head));
    assert(head.last() == p[j]);
    assert(before.roots().contains(head[0]));
    assert(reachable(edge, before.roots(), p[j]));
    if j < p.len() - 1 {
        assert(reads_slot(before.entries[p[j] as int], p[j + 1]));
    } else {
        assert(reads_slot(before.entries[p[z] as int], p[z + 1]));
    }
    assert(before.alive(p[j]));
    assert(after.entries[p[j] as int] == before.entries[p[j] as int]);
    assert forall|k: int|
        0 <= k < before.refs.len() && before.refs[k].1 == p[j] implies after.refs@.contains(
        #[trigger] before.refs[k],
    ) by {
        lemma_filter_contains_iff(
            before.refs@,
            |pr: (OpaqueSnoozyAddr, usize)| before.alive(pr.1),
            before.refs[k],
        );
        assert(before.refs@.contains(before.refs[k]));
    }
}

/// Defining an address whose registered asset is alive, whatever holds it
/// (a handle, a queued invalidation, the build record of a live asset that
/// read it, or a cycle of reads), returns that asset.
pub proof fn law_def_binding_returns_live_definition<R, A>(
    before: AssetReg<R, A>,
    after: AssetReg<R, A>,
    addr: OpaqueSnoozyAddr,
    recipe_hash: u64,
    r: OpaqueSnoozyRef,
    k: int,
)
    requires
        before.wf(),
        before.binding_defined(addr, recipe_hash, after, r),
        0 <= k < before.refs.len(),
        before.refs[k].0 == addr,
        before.alive(before.refs[k].1),
    ensures
        r.inner == before.refs[k].1,
{
    assert(exists|l: int| 0 <= l < before.refs.len() && #[trigger] before.refs[l].0 == addr);
    let l = choose|l: int| 0 <= l < before.refs.len() && #[trigger] before.refs[l].0 == addr;
    if l != k {
        assert(before.refs[l].0 != before.refs[k].0);
    }
    assert(before.registered(addr) == Some(before.refs[k].1));
    assert(before.live_binding(addr) == Some(before.refs[k].1));
}


/// What a live asset's last build read is alive too: a build record holds
/// its dependencies.
pub proof fn law_read_by_live_asset_is_alive<R, A>(reg: AssetReg<R, A>, u: usize, v: usize)
    requires
        reg.alive(u),
        reads_slot(reg.entries[u as int], v),
        v < reg.entries.len(),
        reg.entries[v as int] is Some,
    ensures
        reg.alive(v),
{
    let e = reg.entries[u as int]->0;
    let m = choose|m: int|
        0 <= m < e.recipe_info.build_record->0.dependencies.len()
            && (#[trigger] e.recipe_info.build_record->0.dependencies@[m]).inner == v;
    assert(dep_slots(reg.entries[u as int])[m] == v);
    assert(dep_slots(reg.entries[u as int]).contains(v));
    assert((reg.dep_edge())(u, v));
    lemma_reachable_step(reg.dep_edge(), reg.roots(), u, v);
}

} // verus!
