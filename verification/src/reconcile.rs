use vstd::prelude::*;

use crate::collision::{grid_view, CollisionTiles, GridContentV};
use crate::document::{doc_wf, MapDocument};
use crate::layers::{
    build_map_layers, collision_content, grid_after_rebuild, last_collision_pass,
    lemma_registry_unique, lemma_storages_equal_refl, registry_built_from, storages_equal,
    TiledLayersStorage,
};

verus! {

/// An asset-change notification for a map document, carrying the
/// document's opaque identifier.
#[derive(Clone, Copy, PartialEq, Eq, Structural, Debug)]
pub enum AssetEvent {
    Added { id: u64 },
    Modified { id: u64 },
    Removed { id: u64 },
}

/// One slot of the asset store: a document id, and the parsed
/// document once it has finished loading (`None` while it is still
/// loading; a document that fails to parse never appears here).
pub struct DocSlot {
    pub id: u64,
    pub doc: Option<MapDocument>,
}

/// The resolved map documents, keyed by id.
pub struct AssetStore {
    pub docs: Vec<DocSlot>,
}

/// A live map instance in the scene: bound to a document id and
/// carrying the registry of built layers.
#[derive(Debug, PartialEq)]
pub struct MapInstance {
    pub doc_id: u64,
    pub layers: TiledLayersStorage,
}

/// `s` without every occurrence of `id`, order kept.
pub open spec fn remove_id(s: Seq<u64>, id: u64) -> Seq<u64>
    decreases s.len(),
{
    if s.len() == 0 {
        Seq::empty()
    } else {
        let pre = remove_id(s.drop_last(), id);
        if s.last() == id {
            pre
        } else {
            pre.push(s.last())
        }
    }
}

/// The pending changed ids that a batch of events leaves: `Added`
/// and `Modified` append their id; `Removed` drops every pending
/// entry bearing the removed id, since that document is no longer
/// loadable and nothing of it may survive into the rebuild.
pub open spec fn spec_changed_after(events: Seq<AssetEvent>) -> Seq<u64>
    decreases events.len(),
{
    if events.len() == 0 {
        Seq::empty()
    } else {
        let pre = spec_changed_after(events.drop_last());
        match events.last() {
            AssetEvent::Added { id } => pre.push(id),
            AssetEvent::Modified { id } => pre.push(id),
            AssetEvent::Removed { id } => remove_id(pre, id),
        }
    }
}

/// The full change set of one tick: the pending ids the events
/// leave, followed by the ids of newly discovered instances whose
/// documents had already finished loading.
pub open spec fn spec_changed_ids(events: Seq<AssetEvent>, discovered: Seq<u64>) -> Seq<u64> {
    spec_changed_after(events) + discovered
}

fn remove_id_from(v: &Vec<u64>, id: u64) -> (out: Vec<u64>)
    ensures
        out@ == remove_id(v@, id),
{
    let mut out: Vec<u64> = Vec::new();
    let mut i: usize = 0;
    while i < v.len()
        invariant
            i <= v@.len(),
            out@ == remove_id(v@.take(i as int), id),
        decreases v@.len() - i,
    {
        proof {
            assert(v@.take(i + 1).drop_last() =~= v@.take(i as int));
            assert(v@.take(i + 1).last() == v@[i as int]);
        }
        if v[i] != id {
            out.push(v[i]);
        }
        i = i + 1;
    }
    proof {
        assert(v@.take(v@.len() as int) =~= v@);
    }
    out
}

/// Collect the tick's change set: scan the events in order -- each
/// `Added` or `Modified` appends its id, each `Removed` drops the
/// id's pending entries -- then append the discovered instances' ids.
pub fn collect_changed_maps(events: &Vec<AssetEvent>, discovered: &Vec<u64>) -> (ids: Vec<u64>)
    ensures
        ids@ == spec_changed_ids(events@, discovered@),
{
    let mut ids: Vec<u64> = Vec::new();
    let mut i: usize = 0;
    while i < events.len()
        invariant
            i <= events@.len(),
            ids@ == spec_changed_after(events@.take(i as int)),
        decreases events@.len() - i,
    {
        proof {
            assert(events@.take(i + 1).drop_last() =~= events@.take(i as int));
            assert(events@.take(i + 1).last() == events@[i as int]);
        }
        match events[i] {
            AssetEvent::Added { id } => ids.push(id),
            AssetEvent::Modified { id } => ids.push(id),
            AssetEvent::Removed { id } => {
                ids = remove_id_from(&ids, id);
            },
        }
        i = i + 1;
    }
    proof {
        assert(events@.take(events@.len() as int) =~= events@);
    }
    let mut j: usize = 0;
    while j < discovered.len()
        invariant
            j <= discovered@.len(),
            ids@ == spec_changed_after(events@) + discovered@.take(j as int),
        decreases discovered@.len() - j,
    {
        ids.push(discovered[j]);
        proof {
            assert(spec_changed_after(events@) + discovered@.take(j + 1) =~= (spec_changed_after(
                events@,
            ) + discovered@.take(j as int)).push(discovered@[j as int]));
        }
        j = j + 1;
    }
    proof {
        assert(spec_changed_after(events@) + discovered@.take(discovered@.len() as int)
            =~= spec_changed_after(events@) + discovered@);
    }
    ids
}

proof fn lemma_remove_id_absent(s: Seq<u64>, id: u64)
    ensures
        !remove_id(s, id).contains(id),
    decreases s.len(),
{
    if s.len() > 0 {
        lemma_remove_id_absent(s.drop_last(), id);
        if s.last() != id {
            let r = remove_id(s.drop_last(), id).push(s.last());
            assert forall|i: int| 0 <= i < r.len() implies r[i] != id by {
                if i < r.len() - 1 {
                    assert(r[i] == remove_id(s.drop_last(), id)[i]);
                    assert(remove_id(s.drop_last(), id).contains(r[i])) by {
                        assert(remove_id(s.drop_last(), id)[i] == r[i]);
                    }
                }
            }
        }
    }
}

proof fn lemma_remove_id_keeps_absent(s: Seq<u64>, id: u64, d: u64)
    requires
        !s.contains(d),
    ensures
        !remove_id(s, id).contains(d),
    decreases s.len(),
{
    if s.len() > 0 {
        assert forall|i: int| 0 <= i < s.drop_last().len() implies s.drop_last()[i] != d by {
            assert(s[i] == s.drop_last()[i]);
        }
        lemma_remove_id_keeps_absent(s.drop_last(), id, d);
        if s.last() != id {
            let pre = remove_id(s.drop_last(), id);
            let r = pre.push(s.last());
            assert(s.contains(s.last())) by {
                assert(s[s.len() - 1] == s.last());
            }
            assert forall|i: int| 0 <= i < r.len() implies r[i] != d by {
                if i < r.len() - 1 {
                    assert(pre.contains(pre[i])) by {
                        assert(pre[i] == r[i]);
                    }
                }
            }
        }
    }
}

proof fn lemma_changed_after_absent(events: Seq<AssetEvent>, i: int, d: u64)
    requires
        0 <= i < events.len(),
        events[i] == (AssetEvent::Removed { id: d }),
        forall|j: int|
            i < j < events.len() ==> #[trigger] events[j] != (AssetEvent::Added { id: d })
                && events[j] != (AssetEvent::Modified { id: d }),
    ensures
        !spec_changed_after(events).contains(d),
    decreases events.len(),
{
    let pre = spec_changed_after(events.drop_last());
    if i == events.len() - 1 {
        lemma_remove_id_absent(pre, d);
    } else {
        assert forall|j: int|
            i < j < events.drop_last().len() implies #[trigger] events.drop_last()[j] != (
        AssetEvent::Added { id: d }) && events.drop_last()[j] != (AssetEvent::Modified {
            id: d,
        }) by {
            assert(events.drop_last()[j] == events[j]);
        }
        assert(events.drop_last()[i] == events[i]);
        lemma_changed_after_absent(events.drop_last(), i, d);
        match events.last() {
            AssetEvent::Added { id } => {
                assert(id != d);
                assert forall|x: int| 0 <= x < pre.push(id).len() implies pre.push(id)[x] != d by {
                    if x < pre.len() {
                        assert(pre.contains(pre[x])) by {
                            assert(pre[x] == pre.push(id)[x]);
                        }
                    }
                }
            },
            AssetEvent::Modified { id } => {
                assert(id != d);
                assert forall|x: int| 0 <= x < pre.push(id).len() implies pre.push(id)[x] != d by {
                    if x < pre.len() {
                        assert(pre.contains(pre[x])) by {
                            assert(pre[x] == pre.push(id)[x]);
                        }
                    }
                }
            },
            AssetEvent::Removed { id } => {
                lemma_remove_id_keeps_absent(pre, id, d);
            },
        }
    }
}

/// A removed document stays removed: when event `i` removes id `d`,
/// no later event in the batch adds or modifies `d`, and no
/// discovered instance carries `d`, then `d` is absent from the
/// tick's change set, so no rebuild pass will touch it.
pub proof fn lemma_removed_id_absent(events: Seq<AssetEvent>, discovered: Seq<u64>, i: int, d: u64)
    requires
        0 <= i < events.len(),
        events[i] == (AssetEvent::Removed { id: d }),
        forall|j: int|
            i < j < events.len() ==> #[trigger] events[j] != (AssetEvent::Added { id: d })
                && events[j] != (AssetEvent::Modified { id: d }),
        !discovered.contains(d),
    ensures
        !spec_changed_ids(events, discovered).contains(d),
{
    lemma_changed_after_absent(events, i, d);
    let a = spec_changed_after(events);
    let full = a + discovered;
    assert forall|x: int| 0 <= x < full.len() implies full[x] != d by {
        if x < a.len() {
            assert(a.contains(a[x])) by {
                assert(a[x] == full[x]);
            }
        } else {
            assert(discovered.contains(discovered[x - a.len()])) by {
                assert(discovered[x - a.len()] == full[x]);
            }
        }
    }
}

/// The document the store holds for `id`: the first slot bearing the
/// id, when that slot has resolved.
pub open spec fn store_lookup(docs: Seq<DocSlot>, id: u64) -> Option<MapDocument>
    decreases docs.len(),
{
    if docs.len() == 0 {
        None
    } else if docs[0].id == id {
        docs[0].doc
    } else {
        store_lookup(docs.subrange(1, docs.len() as int), id)
    }
}

/// Every resolved document in the store is well formed.
pub open spec fn store_wf(s: AssetStore) -> bool {
    forall|i: int|
        0 <= i < s.docs@.len() ==> ((#[trigger] s.docs@[i]).doc matches Some(doc) ==> doc_wf(doc@))
}

proof fn lemma_lookup_wf(docs: Seq<DocSlot>, id: u64)
    requires
        forall|i: int|
            0 <= i < docs.len() ==> ((#[trigger] docs[i]).doc matches Some(doc) ==> doc_wf(doc@)),
    ensures
        store_lookup(docs, id) matches Some(doc) ==> doc_wf(doc@),
    decreases docs.len(),
{
    if docs.len() > 0 && docs[0].id != id {
        let rest = docs.subrange(1, docs.len() as int);
        assert forall|i: int|
            0 <= i < rest.len() implies ((#[trigger] rest[i]).doc matches Some(doc) ==> doc_wf(
            doc@,
        )) by {
            assert(rest[i] == docs[i + 1]);
        }
        lemma_lookup_wf(rest, id);
    }
}

impl AssetStore {
    /// Look up the document bound to `id`, when it has resolved.
    pub fn get(&self, id: u64) -> (r: Option<&MapDocument>)
        ensures
            (match r {
                Some(doc) => store_lookup(self.docs@, id) == Some(*doc),
                None => store_lookup(self.docs@, id) is None,
            }),
    {
        let n = self.docs.len();
        proof {
            assert(self.docs@.subrange(0, n as int) =~= self.docs@);
        }
        let mut i: usize = 0;
        while i < n
            invariant
                i <= n,
                n == self.docs@.len(),
                store_lookup(self.docs@, id) == store_lookup(
                    self.docs@.subrange(i as int, n as int),
                    id,
                ),
                forall|j: int| 0 <= j < i ==> (#[trigger] self.docs@[j]).id != id,
            decreases n - i,
        {
            let slot = &self.docs[i];
            if slot.id == id {
                proof {
                    assert(self.docs@.subrange(i as int, n as int)[0] == self.docs@[i as int]);
                }
                match &slot.doc {
                    Some(doc) => {
                        return Some(doc);
                    },
                    None => {
                        return None;
                    },
                }
            }
            proof {
                let cur = self.docs@.subrange(i as int, n as int);
                assert(cur[0] == self.docs@[i as int]);
                assert(cur.subrange(1, cur.len() as int) =~= self.docs@.subrange(
                    i + 1,
                    n as int,
                ));
            }
            i = i + 1;
        }
        proof {
            assert(self.docs@.subrange(n as int, n as int).len() == 0);
        }
        None
    }
}

/// The ids the scene's instances are bound to, in order.
pub open spec fn instance_ids(s: Seq<MapInstance>) -> Seq<u64> {
    s.map_values(|m: MapInstance| m.doc_id)
}

/// The grid content after rebuilding, in order, every instance bound
/// to `id`: each rebuild of a resolved document applies that
/// document's grid effect; other instances, or an unresolved id,
/// leave the grid alone.
pub open spec fn grid_after_id(
    inst_ids: Seq<u64>,
    store: AssetStore,
    id: u64,
    g: GridContentV,
) -> GridContentV
    decreases inst_ids.len(),
{
    if inst_ids.len() == 0 {
        g
    } else {
        let pre = grid_after_id(inst_ids.drop_last(), store, id, g);
        if inst_ids.last() == id {
            match store_lookup(store.docs@, id) {
                Some(doc) => grid_after_rebuild(doc@, pre),
                None => pre,
            }
        } else {
            pre
        }
    }
}

/// The grid content after processing every changed id in order.
pub open spec fn grid_after_ids(
    ids: Seq<u64>,
    inst_ids: Seq<u64>,
    store: AssetStore,
    g: GridContentV,
) -> GridContentV
    decreases ids.len(),
{
    if ids.len() == 0 {
        g
    } else {
        grid_after_id(
            inst_ids,
            store,
            ids.last(),
            grid_after_ids(ids.drop_last(), inst_ids, store, g),
        )
    }
}

/// How one reconciliation tick relates the scene's instances, given
/// the tick's change set `ids`: an instance bound to a changed,
/// resolved document carries a registry freshly rebuilt from that
/// document; every other instance is untouched.
pub open spec fn reconciled(
    ids: Seq<u64>,
    store: AssetStore,
    before: Seq<MapInstance>,
    after: Seq<MapInstance>,
) -> bool {
    &&& after.len() == before.len()
    &&& forall|k: int|
        0 <= k < before.len() ==> (#[trigger] after[k]).doc_id == before[k].doc_id
    &&& forall|k: int|
        0 <= k < before.len() ==> {
            let id = before[k].doc_id;
            &&& (ids.contains(id) && store_lookup(store.docs@, id) is Some ==> (store_lookup(
                store.docs@,
                id,
            ) matches Some(doc) && registry_built_from(doc@, (#[trigger] after[k]).layers)))
            &&& (!(ids.contains(id) && store_lookup(store.docs@, id) is Some) ==> after[k]
                == before[k])
        }
}

/// One reconciliation tick: collect the change set from the events
/// and the discovered instances, then, for every instance bound to a
/// changed document that has resolved, tear down its registry and
/// rebuild every (tileset, layer) combination from the document --
/// rebuilding the collision grid wherever a collision pass runs. An
/// instance whose document is still loading is skipped and will be
/// retried when a later tick names it again.
pub fn process_loaded_maps(
    instances: &mut Vec<MapInstance>,
    assets: &AssetStore,
    events: &Vec<AssetEvent>,
    discovered: &Vec<u64>,
    collisions: &mut CollisionTiles,
)
    requires
        store_wf(*assets),
    ensures
        reconciled(
            spec_changed_ids(events@, discovered@),
            *assets,
            old(instances)@,
            final(instances)@,
        ),
        grid_view(*final(collisions)) == grid_after_ids(
            spec_changed_ids(events@, discovered@),
            instance_ids(old(instances)@),
            *assets,
            grid_view(*old(collisions)),
        ),
{
    let ghost inst0 = old(instances)@;
    let ghost g0 = grid_view(*old(collisions));
    let changed = collect_changed_maps(events, discovered);
    let n = instances.len();
    let mut ci: usize = 0;
    while ci < changed.len()
        invariant
            store_wf(*assets),
            changed@ == spec_changed_ids(events@, discovered@),
            ci <= changed@.len(),
            n == inst0.len(),
            instances@.len() == inst0.len(),
            inst0 == old(instances)@,
            g0 == grid_view(*old(collisions)),
            reconciled(changed@.take(ci as int), *assets, inst0, instances@),
            grid_view(*collisions) == grid_after_ids(
                changed@.take(ci as int),
                instance_ids(inst0),
                *assets,
                g0,
            ),
        decreases changed@.len() - ci,
    {
        let id = changed[ci];
        let ghost gbase = grid_view(*collisions);
        let mut k: usize = 0;
        while k < n
            invariant
                store_wf(*assets),
                changed@ == spec_changed_ids(events@, discovered@),
                ci < changed@.len(),
                id == changed@[ci as int],
                k <= n,
                n == inst0.len(),
                instances@.len() == inst0.len(),
                inst0 == old(instances)@,
                g0 == grid_view(*old(collisions)),
                gbase == grid_after_ids(changed@.take(ci as int), instance_ids(inst0), *assets, g0),
                forall|idx: int|
                    0 <= idx < inst0.len() ==> (#[trigger] instances@[idx]).doc_id
                        == inst0[idx].doc_id,
                forall|idx: int|
                    0 <= idx < inst0.len() ==> {
                        let iid = inst0[idx].doc_id;
                        let hit = (changed@.take(ci as int).contains(iid) || (idx < k && iid == id))
                            && store_lookup(assets.docs@, iid) is Some;
                        &&& (hit ==> (store_lookup(assets.docs@, iid) matches Some(doc)
                            && registry_built_from(doc@, (#[trigger] instances@[idx]).layers)))
                        &&& (!hit ==> instances@[idx] == inst0[idx])
                    },
                grid_view(*collisions) == grid_after_id(
                    instance_ids(inst0).take(k as int),
                    *assets,
                    id,
                    gbase,
                ),
            decreases n - k,
        {
            proof {
                assert(instance_ids(inst0).take(k + 1).drop_last() =~= instance_ids(inst0).take(
                    k as int,
                ));
                assert(instance_ids(inst0).take(k + 1).last() == inst0[k as int].doc_id);
            }
            if instances[k].doc_id == id {
                match assets.get(id) {
                    Some(doc) => {
                        proof {
                            lemma_lookup_wf(assets.docs@, id);
                        }
                        let reg = build_map_layers(doc, collisions);
                        let did = instances[k].doc_id;
                        instances.set(k, MapInstance { doc_id: did, layers: reg });
                    },
                    None => {},
                }
            }
            k = k + 1;
        }
        proof {
            assert(instance_ids(inst0).take(n as int) =~= instance_ids(inst0));
            assert(changed@.take(ci + 1).drop_last() =~= changed@.take(ci as int));
            assert(changed@.take(ci + 1).last() == changed@[ci as int]);
            assert forall|idx: int| 0 <= idx < inst0.len() implies {
                let iid = (#[trigger] inst0[idx]).doc_id;
                (changed@.take(ci as int).contains(iid) || iid == id) == changed@.take(
                    ci + 1,
                ).contains(iid)
            } by {
                let iid = inst0[idx].doc_id;
                let pre = changed@.take(ci as int);
                let cur = changed@.take(ci + 1);
                if pre.contains(iid) {
                    let w = choose|w: int| 0 <= w < pre.len() && pre[w] == iid;
                    assert(cur[w] == iid);
                    assert(cur.contains(iid));
                } else if iid == id {
                    assert(cur[ci as int] == iid);
                    assert(cur.contains(iid));
                }
                if cur.contains(iid) && !pre.contains(iid) && iid != id {
                    let w = choose|w: int| 0 <= w < cur.len() && cur[w] == iid;
                    assert(w < ci ==> pre[w] == iid);
                }
            }
        }
        ci = ci + 1;
    }
    proof {
        assert(changed@.take(changed@.len() as int) =~= changed@);
    }
}

proof fn lemma_grid_id_shape(iids: Seq<u64>, store: AssetStore, id: u64)
    ensures
        (forall|g: GridContentV| #[trigger] grid_after_id(iids, store, id, g) == g) || (forall|
            ga: GridContentV,
            gb: GridContentV,
        |
            #![trigger grid_after_id(iids, store, id, ga), grid_after_id(iids, store, id, gb)]
            grid_after_id(iids, store, id, ga) == grid_after_id(iids, store, id, gb)),
    decreases iids.len(),
{
    if iids.len() == 0 {
    } else {
        lemma_grid_id_shape(iids.drop_last(), store, id);
        let constant_step = iids.last() == id && (match store_lookup(store.docs@, id) {
            Some(doc) => last_collision_pass(doc@) is Some,
            None => false,
        });
        if constant_step {
            assert forall|ga: GridContentV, gb: GridContentV|
                #![trigger grid_after_id(iids, store, id, ga), grid_after_id(iids, store, id, gb)]
                grid_after_id(iids, store, id, ga) == grid_after_id(iids, store, id, gb) by {}
        } else {
            assert forall|g: GridContentV| #[trigger]
                grid_after_id(iids, store, id, g) == grid_after_id(
                    iids.drop_last(),
                    store,
                    id,
                    g,
                ) by {}
        }
    }
}

proof fn lemma_grid_ids_shape(ids: Seq<u64>, iids: Seq<u64>, store: AssetStore)
    ensures
        (forall|g: GridContentV| #[trigger] grid_after_ids(ids, iids, store, g) == g) || (forall|
            ga: GridContentV,
            gb: GridContentV,
        |
            #![trigger grid_after_ids(ids, iids, store, ga), grid_after_ids(ids, iids, store, gb)]
            grid_after_ids(ids, iids, store, ga) == grid_after_ids(ids, iids, store, gb)),
    decreases ids.len(),
{
    if ids.len() == 0 {
    } else {
        lemma_grid_ids_shape(ids.drop_last(), iids, store);
        lemma_grid_id_shape(iids, store, ids.last());
        if forall|ga: GridContentV, gb: GridContentV|
            #![trigger grid_after_id(iids, store, ids.last(), ga), grid_after_id(iids, store, ids.last(), gb)]
            grid_after_id(iids, store, ids.last(), ga) == grid_after_id(
                iids,
                store,
                ids.last(),
                gb,
            ) {
            assert forall|ga: GridContentV, gb: GridContentV|
                #![trigger grid_after_ids(ids, iids, store, ga), grid_after_ids(ids, iids, store, gb)]
                grid_after_ids(ids, iids, store, ga) == grid_after_ids(ids, iids, store, gb) by {}
        } else {
            assert(forall|g: GridContentV| #[trigger] grid_after_id(iids, store, ids.last(), g)
                == g);
            assert forall|g: GridContentV| #[trigger]
                grid_after_ids(ids, iids, store, g) == grid_after_ids(
                    ids.drop_last(),
                    iids,
                    store,
                    g,
                ) by {}
        }
    }
}

proof fn lemma_grid_ids_absorb(ids: Seq<u64>, iids: Seq<u64>, store: AssetStore, g: GridContentV)
    ensures
        grid_after_ids(ids, iids, store, grid_after_ids(ids, iids, store, g)) == grid_after_ids(
            ids,
            iids,
            store,
            g,
        ),
{
    lemma_grid_ids_shape(ids, iids, store);
}

/// Idempotence: reconciling the same unchanged documents twice
/// produces registries and a collision grid identical to what the
/// first reconciliation produced -- the same blocked set and the
/// same tile placements, slot by slot.
pub proof fn lemma_reconcile_idempotent(
    ids: Seq<u64>,
    store: AssetStore,
    inst0: Seq<MapInstance>,
    inst1: Seq<MapInstance>,
    inst2: Seq<MapInstance>,
    g0: GridContentV,
    g1: GridContentV,
    g2: GridContentV,
)
    requires
        reconciled(ids, store, inst0, inst1),
        g1 == grid_after_ids(ids, instance_ids(inst0), store, g0),
        reconciled(ids, store, inst1, inst2),
        g2 == grid_after_ids(ids, instance_ids(inst1), store, g1),
    ensures
        inst2.len() == inst1.len(),
        forall|k: int|
            0 <= k < inst1.len() ==> storages_equal((#[trigger] inst2[k]).layers, inst1[k].layers),
        g2 == g1,
{
    assert(instance_ids(inst1) =~= instance_ids(inst0)) by {
        assert forall|idx: int|
            0 <= idx < inst1.len() implies instance_ids(inst1)[idx] == instance_ids(
            inst0,
        )[idx] by {
            assert(inst1[idx].doc_id == inst0[idx].doc_id);
        }
    }
    assert forall|k: int|
        0 <= k < inst1.len() implies storages_equal(
        (#[trigger] inst2[k]).layers,
        inst1[k].layers,
    ) by {
        let iid = inst1[k].doc_id;
        assert(iid == inst0[k].doc_id);
        if ids.contains(iid) && store_lookup(store.docs@, iid) is Some {
            match store_lookup(store.docs@, iid) {
                Some(doc) => {
                    lemma_registry_unique(doc@, inst2[k].layers, inst1[k].layers);
                },
                None => {
                    assert(false);
                },
            }
        } else {
            assert(inst2[k] == inst1[k]);
            lemma_storages_equal_refl(inst1[k].layers);
        }
    }
    lemma_grid_ids_absorb(ids, instance_ids(inst0), store, g0);
}

} // verus!
