//! A lightweight transactional key-value store standing in for a runtime's
//! externalities while fuzzing.
//!
//! Committed storage lives in plain maps; every open transaction is a layer
//! of pending writes on top of them. Reads look through the layers from the
//! innermost one down. Hashes and roots are a fixed dummy value: no trie is
//! built.
use vstd::prelude::*;

use crate::bytemap::{write_model, ByteMap, ByteValue};
use crate::bytes::{bytes_less, has_prefix, lex_lt};
use crate::compact::append_to_storage_vec;
use crate::model::{
    apply_write, base_child_value, fresh_child_layer, merge_children_into, merge_layers, merge_top_into,
    resolve_child_in, resolve_top_in, ChildLayerModel, ChildModel, LayerModel, StoreModel,
};

verus! {

// ---------------------------------------------------------------------------
// Snapshots of committed storage
// ---------------------------------------------------------------------------

/// The committed contents of one child storage.
pub struct StorageChild {
    pub data: ByteMap<Vec<u8>>,
    /// The child's storage key, which identifies it.
    pub child_info: Vec<u8>,
}

impl ByteValue for StorageChild {
    type M = ChildModel;

    open spec fn model(&self) -> ChildModel {
        ChildModel { info: self.child_info@, data: self.data.map() }
    }

    open spec fn value_wf(&self) -> bool {
        self.data.wf()
    }
}

/// Committed storage: the top-level map and the default child storages.
pub struct Storage {
    pub top: ByteMap<Vec<u8>>,
    pub children_default: ByteMap<StorageChild>,
}

impl Storage {
    pub open spec fn wf(&self) -> bool {
        self.top.wf() && self.children_default.wf()
    }

    /// An empty storage.
    pub fn new() -> (res: Self)
        ensures
            res.wf(),
            res.top.map() == Map::<Seq<u8>, Seq<u8>>::empty(),
            res.children_default.map() == Map::<Seq<u8>, ChildModel>::empty(),
    {
        Storage { top: ByteMap::new(), children_default: ByteMap::new() }
    }
}

/// What a removal reports: a cursor to resume from (if not done) and how
/// many keys were removed.
pub struct RemovalResults {
    pub maybe_cursor: Option<Vec<u8>>,
    pub backend: u32,
    pub unique: u32,
    pub loops: u32,
}

/// The fixed hash returned in place of every storage hash and root.
pub open spec fn dummy_hash() -> Seq<u8> {
    Seq::new(32, |i: int| 0u8)
}

fn make_dummy_hash() -> (res: Vec<u8>)
    ensures
        res@ == dummy_hash(),
{
    let mut res: Vec<u8> = Vec::with_capacity(32);
    let mut i: usize = 0;
    while i < 32
        invariant
            i <= 32,
            res@ == Seq::new(i as nat, |j: int| 0u8),
        decreases 32 - i,
    {
        res.push(0u8);
        i = i + 1;
        assert(res@ =~= Seq::new(i as nat, |j: int| 0u8));
    }
    res
}

/// The prefix under which child storages are rooted in the top-level trie:
/// the bytes of `":child_storage:"`.
pub open spec fn child_storage_key_prefix() -> Seq<u8> {
    seq![58u8, 99, 104, 105, 108, 100, 95, 115, 116, 111, 114, 97, 103, 101, 58]
}

/// Whether `key` lies under the child storage prefix.
pub open spec fn is_child_storage_key(key: Seq<u8>) -> bool {
    child_storage_key_prefix().is_prefix_of(key)
}

/// `sp_core::storage::well_known_keys::is_child_storage_key`, claimed to test
/// whether `key` starts with `":child_storage:"`.
#[verifier::external_body]
fn child_storage_key(key: &[u8]) -> (res: bool)
    ensures
        res == is_child_storage_key(key@),
{
    sp_core::storage::well_known_keys::is_child_storage_key(key)
}

// ---------------------------------------------------------------------------
// Transaction layers
// ---------------------------------------------------------------------------

/// Pending changes of one layer to one child storage.
struct ChildLayer {
    /// Set once the child was wiped within this layer. Hides all state for
    /// this child below this layer; only later `writes` contribute.
    killed: bool,
    writes: ByteMap<Option<Vec<u8>>>,
}

impl ByteValue for ChildLayer {
    type M = ChildLayerModel;

    closed spec fn model(&self) -> ChildLayerModel {
        ChildLayerModel { killed: self.killed, writes: self.writes.map() }
    }

    closed spec fn value_wf(&self) -> bool {
        self.writes.wf()
    }
}

impl ChildLayer {
    fn new() -> (res: Self)
        ensures
            res.value_wf(),
            res.model() == fresh_child_layer(),
    {
        ChildLayer { killed: false, writes: ByteMap::new() }
    }
}

/// One layer of pending changes. `Some(v)` is a write; `None` is an
/// explicit delete.
struct Layer {
    top: ByteMap<Option<Vec<u8>>>,
    children: ByteMap<ChildLayer>,
}

impl Layer {
    spec fn model(&self) -> LayerModel {
        LayerModel { top: self.top.map(), children: self.children.map() }
    }

    spec fn wf(&self) -> bool {
        self.top.wf() && self.children.wf()
    }

    fn new() -> (res: Self)
        ensures
            res.wf(),
            res.model() == crate::model::empty_layer(),
    {
        let res = Layer { top: ByteMap::new(), children: ByteMap::new() };
        assert(res.model() =~= crate::model::empty_layer());
        res
    }
}

spec fn layers_model(layers: Seq<Layer>) -> Seq<LayerModel> {
    layers.map_values(|l: Layer| l.model())
}

spec fn layers_wf(layers: Seq<Layer>) -> bool {
    forall|i: int| 0 <= i < layers.len() ==> (#[trigger] layers[i]).wf()
}

/// Writes `value` (or deletes, for `None`) into a committed map.
fn apply_write_to(map: &mut ByteMap<Vec<u8>>, key: Vec<u8>, value: Option<Vec<u8>>)
    requires
        old(map).wf(),
    ensures
        final(map).wf(),
        final(map).map() == apply_write(old(map).map(), key@, write_model(value)),
{
    match value {
        Some(v) => {
            map.insert(key, v);
        },
        None => {
            map.remove(key.as_slice());
        },
    }
}

// ---------------------------------------------------------------------------
// Folding pending writes into what lies below them
// ---------------------------------------------------------------------------

/// The part of `whole` whose keys are no longer in `rest`.
spec fn taken<V>(whole: Map<Seq<u8>, V>, rest: Map<Seq<u8>, V>) -> Map<Seq<u8>, V> {
    Map::new(|k: Seq<u8>| whole.contains_key(k) && !rest.contains_key(k), |k: Seq<u8>| whole[k])
}

proof fn lemma_taken_start<V>(whole: Map<Seq<u8>, V>)
    ensures
        taken(whole, whole) == Map::<Seq<u8>, V>::empty(),
{
    assert(taken(whole, whole) =~= Map::<Seq<u8>, V>::empty());
}

proof fn lemma_taken_end<V>(whole: Map<Seq<u8>, V>, rest: Map<Seq<u8>, V>)
    requires
        rest == Map::<Seq<u8>, V>::empty(),
    ensures
        taken(whole, rest) == whole,
{
    assert(taken(whole, rest) =~= whole);
}

proof fn lemma_taken_step<V>(whole: Map<Seq<u8>, V>, rest: Map<Seq<u8>, V>, k: Seq<u8>)
    requires
        rest.contains_key(k),
        whole.contains_key(k),
        rest[k] == whole[k],
        forall|kk: Seq<u8>| #[trigger] rest.contains_key(kk) ==> whole.contains_key(kk),
    ensures
        taken(whole, rest.remove(k)) == taken(whole, rest).insert(k, whole[k]),
        !taken(whole, rest).contains_key(k),
{
    assert(taken(whole, rest.remove(k)) =~= taken(whole, rest).insert(k, whole[k]));
}

/// Lays pending writes over a committed map: `Some` values are stored,
/// `None` deletes.
pub fn merge_top_into_base(base: &mut ByteMap<Vec<u8>>, overlay: ByteMap<Option<Vec<u8>>>)
    requires
        old(base).wf(),
        overlay.wf(),
    ensures
        final(base).wf(),
        final(base).map() == merge_top_into(old(base).map(), overlay.map()),
{
    let ghost b0 = base.map();
    let ghost o = overlay.map();
    let mut rest = overlay;
    proof {
        lemma_taken_start(o);
    }
    while rest.len() > 0
        invariant
            base.wf(),
            rest.wf(),
            forall|k: Seq<u8>| #[trigger]
                rest.map().contains_key(k) ==> o.contains_key(k) && rest.map()[k] == o[k],
            base.map() == merge_top_into(b0, taken(o, rest.map())),
        decreases rest.entries@.len(),
    {
        let ghost r = rest.map();
        match rest.pop() {
            Some((k, w)) => {
                proof {
                    lemma_taken_step(o, r, k@);
                }
                let ghost d = taken(o, r);
                apply_write_to(base, k, w);
                proof {
                    assert(base.map() =~= merge_top_into(b0, d.insert(k@, write_model(w))));
                }
            },
            None => {},
        }
    }
    proof {
        rest.lemma_dom_len();
        assert(rest.map() =~= Map::<Seq<u8>, Option<Seq<u8>>>::empty());
        lemma_taken_end(o, rest.map());
    }
}

/// Lays the pending writes `src` over `dst`, later writes winning.
fn extend_writes(dst: &mut ByteMap<Option<Vec<u8>>>, src: ByteMap<Option<Vec<u8>>>)
    requires
        old(dst).wf(),
        src.wf(),
    ensures
        final(dst).wf(),
        final(dst).map() == old(dst).map().union_prefer_right(src.map()),
{
    let ghost d0 = dst.map();
    let ghost o = src.map();
    let mut rest = src;
    proof {
        lemma_taken_start(o);
        assert(d0.union_prefer_right(taken(o, o)) =~= d0);
    }
    while rest.len() > 0
        invariant
            dst.wf(),
            rest.wf(),
            forall|k: Seq<u8>| #[trigger]
                rest.map().contains_key(k) ==> o.contains_key(k) && rest.map()[k] == o[k],
            dst.map() == d0.union_prefer_right(taken(o, rest.map())),
        decreases rest.entries@.len(),
    {
        let ghost r = rest.map();
        match rest.pop() {
            Some((k, w)) => {
                proof {
                    lemma_taken_step(o, r, k@);
                }
                let ghost d = taken(o, r);
                dst.insert(k, w);
                proof {
                    assert(dst.map() =~= d0.union_prefer_right(d.insert(k@, write_model(w))));
                }
            },
            None => {},
        }
    }
    proof {
        rest.lemma_dom_len();
        assert(rest.map() =~= Map::<Seq<u8>, Option<Seq<u8>>>::empty());
        lemma_taken_end(o, rest.map());
    }
}

proof fn lemma_merge_children_step(
    b0: Map<Seq<u8>, ChildModel>,
    d: Map<Seq<u8>, ChildLayerModel>,
    sk: Seq<u8>,
    c: ChildLayerModel,
)
    requires
        !d.contains_key(sk),
    ensures
        merge_children_into(b0, d.insert(sk, c)) == match crate::model::merge_child_into(
            crate::model::child_entry(b0, sk),
            sk,
            c,
        ) {
            Some(e) => merge_children_into(b0, d).insert(sk, e),
            None => merge_children_into(b0, d).remove(sk),
        },
{
    let lhs = merge_children_into(b0, d.insert(sk, c));
    let rhs = match crate::model::merge_child_into(crate::model::child_entry(b0, sk), sk, c) {
        Some(e) => merge_children_into(b0, d).insert(sk, e),
        None => merge_children_into(b0, d).remove(sk),
    };
    assert(lhs =~= rhs);
}

/// Lays pending child layers over the committed child storages: a wiped
/// child loses its committed contents, and non-empty writes are laid over
/// what is left.
fn merge_children_into_base(base: &mut ByteMap<StorageChild>, overlay: ByteMap<ChildLayer>)
    requires
        old(base).wf(),
        overlay.wf(),
    ensures
        final(base).wf(),
        final(base).map() == merge_children_into(old(base).map(), overlay.map()),
{
    let ghost b0 = base.map();
    let ghost o = overlay.map();
    let mut rest = overlay;
    proof {
        lemma_taken_start(o);
        assert(merge_children_into(b0, taken(o, o)) =~= b0);
    }
    while rest.len() > 0
        invariant
            base.wf(),
            rest.wf(),
            forall|k: Seq<u8>| #[trigger]
                rest.map().contains_key(k) ==> o.contains_key(k) && rest.map()[k] == o[k],
            base.map() == merge_children_into(b0, taken(o, rest.map())),
        decreases rest.entries@.len(),
    {
        let ghost r = rest.map();
        match rest.pop() {
            Some((sk, child)) => {
                let ghost d = taken(o, r);
                let ghost cm = child.model();
                proof {
                    lemma_taken_step(o, r, sk@);
                    lemma_merge_children_step(b0, d, sk@, cm);
                    assert(base.map().contains_key(sk@) == b0.contains_key(sk@));
                }
                let ChildLayer { killed, writes } = child;
                if killed {
                    base.remove(sk.as_slice());
                }
                proof {
                    writes.lemma_dom_len();
                }
                if writes.len() > 0 {
                    proof {
                        let k0 = writes.key_at(0);
                        writes.lemma_entry(0);
                        assert(cm.writes.dom().contains(k0));
                        assert(cm.writes.dom() != Set::<Seq<u8>>::empty());
                    }
                    let mut entry = match base.remove(sk.as_slice()) {
                        Some(e) => e,
                        None => StorageChild { data: ByteMap::new(), child_info: sk.clone() },
                    };
                    merge_top_into_base(&mut entry.data, writes);
                    base.insert(sk, entry);
                } else {
                    proof {
                        assert(cm.writes.dom() =~= Set::<Seq<u8>>::empty());
                    }
                }
                proof {
                    assert(base.map() =~= merge_children_into(b0, d.insert(sk@, cm)));
                }
            },
            None => {},
        }
    }
    proof {
        rest.lemma_dom_len();
        assert(rest.map() =~= Map::<Seq<u8>, ChildLayerModel>::empty());
        lemma_taken_end(o, rest.map());
    }
}

proof fn lemma_merge_child_layers_step(
    b0: Map<Seq<u8>, ChildLayerModel>,
    d: Map<Seq<u8>, ChildLayerModel>,
    sk: Seq<u8>,
    c: ChildLayerModel,
)
    requires
        !d.contains_key(sk),
    ensures
        crate::model::merge_child_layer_maps(b0, d.insert(sk, c)) == crate::model::merge_child_layer_maps(
            b0,
            d,
        ).insert(
            sk,
            crate::model::merge_child_layer(
                if b0.contains_key(sk) {
                    b0[sk]
                } else {
                    fresh_child_layer()
                },
                c,
            ),
        ),
{
    assert(crate::model::merge_child_layer_maps(b0, d.insert(sk, c)) =~= crate::model::merge_child_layer_maps(
        b0,
        d,
    ).insert(
        sk,
        crate::model::merge_child_layer(
            if b0.contains_key(sk) {
                b0[sk]
            } else {
                fresh_child_layer()
            },
            c,
        ),
    ));
}

/// Folds the child layers of a committed transaction into those of the
/// layer below it.
fn merge_child_layers(dst: &mut ByteMap<ChildLayer>, src: ByteMap<ChildLayer>)
    requires
        old(dst).wf(),
        src.wf(),
    ensures
        final(dst).wf(),
        final(dst).map() == crate::model::merge_child_layer_maps(old(dst).map(), src.map()),
{
    let ghost b0 = dst.map();
    let ghost o = src.map();
    let mut rest = src;
    proof {
        lemma_taken_start(o);
        assert(crate::model::merge_child_layer_maps(b0, taken(o, o)) =~= b0);
    }
    while rest.len() > 0
        invariant
            dst.wf(),
            rest.wf(),
            forall|k: Seq<u8>| #[trigger]
                rest.map().contains_key(k) ==> o.contains_key(k) && rest.map()[k] == o[k],
            dst.map() == crate::model::merge_child_layer_maps(b0, taken(o, rest.map())),
        decreases rest.entries@.len(),
    {
        let ghost r = rest.map();
        match rest.pop() {
            Some((sk, child)) => {
                let ghost d = taken(o, r);
                let ghost cm = child.model();
                proof {
                    lemma_taken_step(o, r, sk@);
                    lemma_merge_child_layers_step(b0, d, sk@, cm);
                }
                let ChildLayer { killed, writes } = child;
                let mut entry = match dst.remove(sk.as_slice()) {
                    Some(e) => e,
                    None => ChildLayer::new(),
                };
                if killed {
                    entry.killed = true;
                    entry.writes.clear();
                }
                extend_writes(&mut entry.writes, writes);
                dst.insert(sk, entry);
                proof {
                    assert(dst.map() =~= crate::model::merge_child_layer_maps(b0, d.insert(sk@, cm)));
                }
            },
            None => {},
        }
    }
    proof {
        rest.lemma_dom_len();
        assert(rest.map() =~= Map::<Seq<u8>, ChildLayerModel>::empty());
        lemma_taken_end(o, rest.map());
    }
}

// ---------------------------------------------------------------------------
// Where a visible key can come from
// ---------------------------------------------------------------------------

/// A visible top-level key is committed or written in some layer.
proof fn lemma_top_source(base: Map<Seq<u8>, Seq<u8>>, layers: Seq<LayerModel>, k: Seq<u8>)
    ensures
        resolve_top_in(base, layers, k) is Some ==> base.contains_key(k) || exists|j: int|
            0 <= j < layers.len() && #[trigger] layers[j].top.contains_key(k),
    decreases layers.len(),
{
    if layers.len() > 0 {
        lemma_top_source(base, layers.drop_last(), k);
        if resolve_top_in(base, layers, k) is Some && !layers.last().top.contains_key(k)
            && !base.contains_key(k) {
            let j = choose|j: int|
                0 <= j < layers.drop_last().len() && #[trigger] layers.drop_last()[j].top.contains_key(
                    k,
                );
            assert(layers[j] == layers.drop_last()[j]);
        }
    }
}

spec fn killed_in(l: LayerModel, sk: Seq<u8>) -> bool {
    l.children.contains_key(sk) && l.children[sk].killed
}

spec fn writes_in(l: LayerModel, sk: Seq<u8>, k: Seq<u8>) -> bool {
    l.children.contains_key(sk) && l.children[sk].writes.contains_key(k)
}

/// A visible child key is written in a layer from `start` up, or (when no
/// layer wiped the child) committed.
proof fn lemma_child_source(
    children: Map<Seq<u8>, ChildModel>,
    layers: Seq<LayerModel>,
    sk: Seq<u8>,
    k: Seq<u8>,
    start: int,
    floor_found: bool,
)
    requires
        0 <= start <= layers.len(),
        floor_found ==> start < layers.len() && killed_in(layers[start], sk),
        !floor_found ==> start == 0,
        forall|j: int| start < j < layers.len() ==> !killed_in(#[trigger] layers[j], sk),
        !floor_found ==> forall|j: int| 0 <= j < layers.len() ==> !killed_in(#[trigger] layers[j], sk),
    ensures
        resolve_child_in(children, layers, sk, k) is Some ==> (exists|j: int|
            start <= j < layers.len() && #[trigger] writes_in(layers[j], sk, k)) || (!floor_found
            && base_child_value(children, sk, k) is Some),
    decreases layers.len(),
{
    if layers.len() > 0 {
        let t = layers.len() - 1;
        assert(layers.last() == layers[t]);
        if writes_in(layers[t], sk, k) {
        } else if killed_in(layers[t], sk) {
        } else {
            let rest = layers.drop_last();
            assert forall|j: int| start < j < rest.len() implies !killed_in(#[trigger] rest[j], sk) by {
                assert(rest[j] == layers[j]);
            }
            assert forall|j: int| 0 <= j < rest.len() && !floor_found implies !killed_in(
                #[trigger] rest[j],
                sk,
            ) by {
                assert(rest[j] == layers[j]);
            }
            if floor_found {
                assert(start != t);
            }
            lemma_child_source(children, rest, sk, k, start, floor_found);
            if resolve_child_in(children, layers, sk, k) is Some && !(!floor_found
                && base_child_value(children, sk, k) is Some) {
                let j = choose|j: int| start <= j < rest.len() && #[trigger] writes_in(rest[j], sk, k);
                assert(rest[j] == layers[j]);
            }
        }
    }
}

/// Picks the least key of `keys` that comes strictly after `key`.
fn least_key_after(keys: &ByteMap<bool>, key: &[u8]) -> (res: Option<Vec<u8>>)
    requires
        keys.wf(),
    ensures
        match res {
            Some(r) => {
                &&& keys.map().contains_key(r@)
                &&& lex_lt(key@, r@)
                &&& forall|k: Seq<u8>| #[trigger]
                    keys.map().contains_key(k) && lex_lt(key@, k) ==> !lex_lt(k, r@)
            },
            None => forall|k: Seq<u8>| #[trigger] keys.map().contains_key(k) ==> !lex_lt(key@, k),
        },
{
    let mut best: Option<Vec<u8>> = None;
    let mut i: usize = 0;
    while i < keys.entries.len()
        invariant
            keys.wf(),
            i <= keys.entries@.len(),
            match best {
                Some(b) => {
                    &&& keys.map().contains_key(b@)
                    &&& lex_lt(key@, b@)
                    &&& forall|j: int|
                        0 <= j < i && lex_lt(key@, #[trigger] keys.key_at(j)) ==> !lex_lt(
                            keys.key_at(j),
                            b@,
                        )
                },
                None => forall|j: int| 0 <= j < i ==> !lex_lt(key@, #[trigger] keys.key_at(j)),
            },
        decreases keys.entries@.len() - i,
    {
        proof {
            keys.lemma_entry(i as int);
        }
        let c = &keys.entries[i].0;
        if bytes_less(key, c.as_slice()) {
            let take = match &best {
                None => true,
                Some(b) => bytes_less(c.as_slice(), b.as_slice()),
            };
            if take {
                proof {
                    if best is Some {
                        let b = best.unwrap()@;
                        assert forall|j: int|
                            0 <= j < i + 1 && lex_lt(key@, #[trigger] keys.key_at(j)) implies !lex_lt(
                            keys.key_at(j),
                            c@,
                        ) by {
                            if j < i {
                                crate::bytes::lemma_lex_transitive(keys.key_at(j), c@, b);
                            } else {
                                crate::bytes::lemma_lex_irreflexive(c@);
                            }
                        }
                    } else {
                        crate::bytes::lemma_lex_irreflexive(c@);
                    }
                }
                best = Some(c.clone());
            }
        }
        i = i + 1;
    }
    proof {
        assert forall|k: Seq<u8>| #[trigger] keys.map().contains_key(k) implies (match best {
            Some(b) => lex_lt(key@, k) ==> !lex_lt(k, b@),
            None => !lex_lt(key@, k),
        }) by {
            keys.lemma_contains(k);
            let j = keys.keys().index_of(k);
            assert(keys.key_at(j) == k);
        }
    }
    best
}

/// `keys` ascend strictly.
spec fn ascending(keys: Seq<Vec<u8>>) -> bool {
    forall|i: int, j: int| 0 <= i < j < keys.len() ==> lex_lt(#[trigger] keys[i]@, #[trigger] keys[j]@)
}

/// The byte strings that `keys` hold.
spec fn key_views(keys: Seq<Vec<u8>>) -> Seq<Seq<u8>> {
    keys.map_values(|v: Vec<u8>| v@)
}

proof fn lemma_ascending_distinct(keys: Seq<Vec<u8>>)
    requires
        ascending(keys),
    ensures
        key_views(keys).no_duplicates(),
        key_views(keys).to_set().len() == keys.len(),
{
    let vs = key_views(keys);
    assert forall|i: int, j: int| 0 <= i < vs.len() && 0 <= j < vs.len() && i != j implies vs[i] != vs[j] by {
        if i < j {
            assert(lex_lt(keys[i]@, keys[j]@));
            crate::bytes::lemma_lex_irreflexive(keys[i]@);
        } else {
            assert(lex_lt(keys[j]@, keys[i]@));
            crate::bytes::lemma_lex_irreflexive(keys[j]@);
        }
    }
    vs.unique_seq_to_set();
}

/// The keys of `keys`, in ascending order.
fn sorted_keys(keys: &ByteMap<bool>) -> (res: Vec<Vec<u8>>)
    requires
        keys.wf(),
    ensures
        ascending(res@),
        forall|i: int| 0 <= i < res@.len() ==> keys.map().contains_key(#[trigger] res@[i]@),
        forall|k: Seq<u8>| #[trigger] keys.map().contains_key(k) ==> key_views(res@).contains(k),
{
    let mut out: Vec<Vec<u8>> = Vec::new();
    let mut last: Vec<u8> = Vec::new();
    if keys.contains_key(last.as_slice()) {
        out.push(Vec::new());
    }
    proof {
        keys.lemma_dom_len();
        assert forall|k: Seq<u8>| #[trigger] keys.map().contains_key(k) && !lex_lt(last@, k) implies key_views(
            out@,
        ).contains(k) by {
            assert(k.len() == 0);
            assert(k =~= last@);
            assert(key_views(out@)[0] == out@[0]@);
        }
    }
    loop
        invariant
            keys.wf(),
            keys.map().dom().finite(),
            keys.map().dom().len() == keys.entries@.len(),
            ascending(out@),
            forall|i: int| 0 <= i < out@.len() ==> keys.map().contains_key(#[trigger] out@[i]@),
            forall|i: int| 0 <= i < out@.len() ==> !lex_lt(last@, #[trigger] out@[i]@),
            forall|k: Seq<u8>| #[trigger] keys.map().contains_key(k) && !lex_lt(last@, k) ==> key_views(out@).contains(k),
        ensures
            ascending(out@),
            forall|i: int| 0 <= i < out@.len() ==> keys.map().contains_key(#[trigger] out@[i]@),
            forall|k: Seq<u8>| #[trigger] keys.map().contains_key(k) ==> key_views(out@).contains(k),
        decreases keys.entries@.len() - out@.len(),
    {
        match least_key_after(keys, last.as_slice()) {
            None => {
                break;
            },
            Some(r) => {
                let ghost before = out@;
                let r2 = r.clone();
                proof {
                    assert(r2@ == r@);
                    lemma_ascending_distinct(before);
                    assert forall|i: int| 0 <= i < before.len() implies lex_lt(#[trigger] before[i]@, r@) by {
                        crate::bytes::lemma_lex_total(before[i]@, last@);
                        crate::bytes::lemma_lex_transitive(before[i]@, last@, r@);
                    }
                    assert(key_views(before.push(r2)) =~= key_views(before).push(r@));
                    assert(ascending(before.push(r2))) by {
                        assert forall|i: int, j: int| 0 <= i < j < before.len() + 1 implies lex_lt(
                            #[trigger] before.push(r2)[i]@,
                            #[trigger] before.push(r2)[j]@,
                        ) by {
                            if j < before.len() {
                                assert(lex_lt(before[i]@, before[j]@));
                            }
                        }
                    }
                    lemma_ascending_distinct(before.push(r2));
                    assert(key_views(before.push(r2)).to_set().subset_of(keys.map().dom()));
                    vstd::set_lib::lemma_len_subset(key_views(before.push(r2)).to_set(), keys.map().dom());
                }
                out.push(r2);
                proof {
                    assert(out@ =~= before.push(r2));
                    assert forall|i: int| 0 <= i < out@.len() implies !lex_lt(r@, #[trigger] out@[i]@) by {
                        if i < before.len() {
                            crate::bytes::lemma_lex_asymmetric(out@[i]@, r@);
                        } else {
                            crate::bytes::lemma_lex_irreflexive(r@);
                        }
                    }
                    assert forall|k: Seq<u8>| #[trigger] keys.map().contains_key(k) && !lex_lt(r@, k) implies key_views(
                        out@,
                    ).contains(k) by {
                        assert(key_views(out@) =~= key_views(before).push(r@));
                        if !lex_lt(last@, k) {
                            assert(key_views(before).contains(k));
                            let i = choose|i: int| 0 <= i < key_views(before).len() && key_views(before)[i] == k;
                            assert(key_views(out@)[i] == k);
                        } else {
                            crate::bytes::lemma_lex_total(k, r@);
                            assert(k == r@);
                            assert(key_views(out@)[before.len() as int] == r@);
                        }
                    }
                }
                last = r;
            },
        }
    }
    out
}

proof fn lemma_sorted_key_views(keys: &ByteMap<bool>, res: Seq<Vec<u8>>)
    requires
        forall|i: int| 0 <= i < res.len() ==> keys.map().contains_key(#[trigger] res[i]@),
        forall|k: Seq<u8>| #[trigger] keys.map().contains_key(k) ==> key_views(res).contains(k),
    ensures
        key_views(res).to_set() == keys.map().dom(),
{
    assert forall|k: Seq<u8>| #[trigger] key_views(res).to_set().contains(k) == keys.map().dom().contains(k) by {
        if key_views(res).contains(k) {
            let i = choose|i: int| 0 <= i < key_views(res).len() && key_views(res)[i] == k;
            assert(keys.map().contains_key(res[i]@));
        }
    }
    assert(key_views(res).to_set() =~= keys.map().dom());
}

/// Deleting one more key is the same as deleting the larger set.
proof fn lemma_delete_top_step(m: StoreModel, done: Set<Seq<u8>>, k: Seq<u8>)
    ensures
        m.delete_top_keys(done).set_top(k, None) == m.delete_top_keys(done.insert(k)),
{
    let a = m.delete_top_keys(done).set_top(k, None);
    let b = m.delete_top_keys(done.insert(k));
    if m.layers.len() > 0 {
        assert(a.layers.last().top =~= b.layers.last().top);
        assert(a.layers =~= b.layers);
    } else {
        assert(a.top =~= b.top);
    }
}

proof fn lemma_delete_child_step(m: StoreModel, sk: Seq<u8>, done: Set<Seq<u8>>, k: Seq<u8>)
    ensures
        m.delete_child_keys(sk, done).set_child(sk, k, None) == m.delete_child_keys(sk, done.insert(k)),
{
    let a = m.delete_child_keys(sk, done).set_child(sk, k, None);
    let b = m.delete_child_keys(sk, done.insert(k));
    assert(done.insert(k).contains(k));
    assert(done.insert(k) != Set::<Seq<u8>>::empty());
    if m.layers.len() > 0 {
        if done == Set::<Seq<u8>>::empty() {
            assert(a.layers.last().children[sk].writes =~= b.layers.last().children[sk].writes);
        } else {
            assert(a.layers.last().children[sk].writes =~= b.layers.last().children[sk].writes);
        }
        assert(a.layers.last().children =~= b.layers.last().children);
        assert(a.layers =~= b.layers);
    } else {
        assert(a.children[sk].data =~= b.children[sk].data);
        assert(a.children =~= b.children);
    }
}

// ---------------------------------------------------------------------------
// The store
// ---------------------------------------------------------------------------

/// Externalities state backed by committed maps plus a stack of layers.
pub struct FuzzingExternalities {
    base_top: ByteMap<Vec<u8>>,
    base_children: ByteMap<StorageChild>,
    layers: Vec<Layer>,
}

impl FuzzingExternalities {
    /// The store that this value stands for.
    pub closed spec fn model(&self) -> StoreModel {
        StoreModel {
            top: self.base_top.map(),
            children: self.base_children.map(),
            layers: layers_model(self.layers@),
        }
    }

    /// Every map holds each key at most once.
    #[verifier::type_invariant]
    pub closed spec fn wf(&self) -> bool {
        &&& self.base_top.wf()
        &&& self.base_children.wf()
        &&& layers_wf(self.layers@)
    }

    /// A store whose committed contents are `storage`, with no transaction open.
    pub fn new(storage: Storage) -> (res: Self)
        requires
            storage.wf(),
        ensures
            res.wf(),
            res.model() == (StoreModel {
                top: storage.top.map(),
                children: storage.children_default.map(),
                layers: Seq::empty(),
            }),
    {
        let res = FuzzingExternalities {
            base_top: storage.top,
            base_children: storage.children_default,
            layers: Vec::new(),
        };
        assert(layers_model(res.layers@) =~= Seq::<LayerModel>::empty());
        res
    }

    proof fn lemma_layer_model(&self, i: int)
        requires
            0 <= i < self.layers@.len(),
        ensures
            self.model().layers[i] == self.layers@[i].model(),
            self.model().layers.len() == self.layers@.len(),
    {
    }

    /// The value that a read of `key` sees, walking the layers top-down.
    fn resolve_top(&self, key: &[u8]) -> (res: Option<&Vec<u8>>)
        requires
            self.wf(),
        ensures
            match res {
                Some(v) => self.model().resolve_top(key@) == Some(v@),
                None => self.model().resolve_top(key@) is None,
            },
    {
        let ghost m = self.model();
        let mut i = self.layers.len();
        assert(m.layers.take(i as int) =~= m.layers);
        while i > 0
            invariant
                self.wf(),
                m == self.model(),
                i <= self.layers@.len(),
                resolve_top_in(m.top, m.layers, key@) == resolve_top_in(
                    m.top,
                    m.layers.take(i as int),
                    key@,
                ),
            decreases i,
        {
            i = i - 1;
            proof {
                self.lemma_layer_model(i as int);
                assert(m.layers.take(i + 1).drop_last() =~= m.layers.take(i as int));
                assert(m.layers.take(i + 1).last() == m.layers[i as int]);
                assert(self.layers@[i as int].wf());
            }
            match self.layers[i].top.get(key) {
                Some(w) => {
                    return match w {
                        Some(v) => Some(v),
                        None => None,
                    };
                },
                None => {},
            }
        }
        assert(m.layers.take(0) =~= Seq::<LayerModel>::empty());
        self.base_top.get(key)
    }

    /// The value that a read of `key` in child `child_key` sees; a layer that
    /// wiped the child hides everything below it.
    fn resolve_child(&self, child_key: &[u8], key: &[u8]) -> (res: Option<&Vec<u8>>)
        requires
            self.wf(),
        ensures
            match res {
                Some(v) => self.model().resolve_child(child_key@, key@) == Some(v@),
                None => self.model().resolve_child(child_key@, key@) is None,
            },
    {
        let ghost m = self.model();
        let mut i = self.layers.len();
        assert(m.layers.take(i as int) =~= m.layers);
        while i > 0
            invariant
                self.wf(),
                m == self.model(),
                i <= self.layers@.len(),
                resolve_child_in(m.children, m.layers, child_key@, key@) == resolve_child_in(
                    m.children,
                    m.layers.take(i as int),
                    child_key@,
                    key@,
                ),
            decreases i,
        {
            i = i - 1;
            proof {
                self.lemma_layer_model(i as int);
                assert(m.layers.take(i + 1).drop_last() =~= m.layers.take(i as int));
                assert(m.layers.take(i + 1).last() == m.layers[i as int]);
                assert(self.layers@[i as int].wf());
            }
            match self.layers[i].children.get(child_key) {
                Some(child) => {
                    match child.writes.get(key) {
                        Some(w) => {
                            return match w {
                                Some(v) => Some(v),
                                None => None,
                            };
                        },
                        None => {},
                    }
                    if child.killed {
                        return None;
                    }
                },
                None => {},
            }
        }
        assert(m.layers.take(0) =~= Seq::<LayerModel>::empty());
        match self.base_children.get(child_key) {
            Some(child) => child.data.get(key),
            None => None,
        }
    }

    /// Takes the innermost layer off the stack.
    fn pop_layer(&mut self) -> (res: Layer)
        requires
            old(self).wf(),
            old(self).layers@.len() > 0,
        ensures
            final(self).wf(),
            res.wf(),
            res.model() == old(self).model().layers.last(),
            final(self).model() == (StoreModel {
                layers: old(self).model().layers.drop_last(),
                ..old(self).model()
            }),
    {
        let mut layers: Vec<Layer> = Vec::new();
        std::mem::swap(&mut layers, &mut self.layers);
        let ghost before = layers@;
        let res = layers.pop().unwrap();
        self.layers = layers;
        proof {
            assert(self.layers@ =~= before.drop_last());
            assert(before.last().wf());
            assert(layers_model(self.layers@) =~= layers_model(before).drop_last());
            assert forall|i: int| 0 <= i < self.layers@.len() implies (
            #[trigger] self.layers@[i]).wf() by {
                assert(self.layers@[i] == before[i]);
            }
        }
        res
    }

    /// Puts a layer on top of the stack.
    fn push_layer(&mut self, layer: Layer)
        requires
            old(self).wf(),
            layer.wf(),
        ensures
            final(self).wf(),
            final(self).model() == (StoreModel {
                layers: old(self).model().layers.push(layer.model()),
                ..old(self).model()
            }),
    {
        let mut layers: Vec<Layer> = Vec::new();
        std::mem::swap(&mut layers, &mut self.layers);
        let ghost before = layers@;
        layers.push(layer);
        self.layers = layers;
        proof {
            assert(self.layers@ =~= before.push(layer));
            assert(layers_model(self.layers@) =~= layers_model(before).push(layer.model()));
            assert forall|i: int| 0 <= i < self.layers@.len() implies (
            #[trigger] self.layers@[i]).wf() by {
                if i < before.len() {
                    assert(self.layers@[i] == before[i]);
                }
            }
        }
    }

    /// Writes a top-level key into the current layer, or into the committed
    /// map if no transaction is open.
    fn set_top(&mut self, key: Vec<u8>, value: Option<Vec<u8>>)
        requires
            old(self).wf(),
        ensures
            final(self).wf(),
            final(self).model() == old(self).model().set_top(key@, write_model(value)),
    {
        let ghost m = self.model();
        if self.layers.len() > 0 {
            let mut layer = self.pop_layer();
            layer.top.insert(key, value);
            self.push_layer(layer);
            assert(self.model().layers =~= m.set_top(key@, write_model(value)).layers);
        } else {
            let mut base = ByteMap::new();
            std::mem::swap(&mut base, &mut self.base_top);
            apply_write_to(&mut base, key, value);
            self.base_top = base;
        }
    }

    /// Writes a key of child `child_key` into the current layer, or into the
    /// committed map if no transaction is open.
    fn set_child(&mut self, child_key: &[u8], key: Vec<u8>, value: Option<Vec<u8>>)
        requires
            old(self).wf(),
        ensures
            final(self).wf(),
            final(self).model() == old(self).model().set_child(child_key@, key@, write_model(value)),
    {
        let ghost m = self.model();
        if self.layers.len() > 0 {
            let mut layer = self.pop_layer();
            let mut child = match layer.children.remove(child_key) {
                Some(c) => c,
                None => ChildLayer::new(),
            };
            child.writes.insert(key, value);
            layer.children.insert(vstd::slice::slice_to_vec(child_key), child);
            self.push_layer(layer);
            proof {
                let l = m.layers.last();
                assert(layer.model().children =~= l.children.insert(
                    child_key@,
                    m.set_child(child_key@, key@, write_model(value)).layers.last().children[child_key@],
                ));
                assert(self.model().layers =~= m.set_child(child_key@, key@, write_model(value)).layers);
            }
        } else {
            let mut base = ByteMap::new();
            std::mem::swap(&mut base, &mut self.base_children);
            let mut entry = match base.remove(child_key) {
                Some(e) => e,
                None => StorageChild {
                    data: ByteMap::new(),
                    child_info: vstd::slice::slice_to_vec(child_key),
                },
            };
            apply_write_to(&mut entry.data, key, value);
            base.insert(vstd::slice::slice_to_vec(child_key), entry);
            self.base_children = base;
            assert(self.model().children =~= m.set_child(child_key@, key@, write_model(value)).children);
        }
    }

    // -----------------------------------------------------------------------
    // Scanning visible keys
    // -----------------------------------------------------------------------

    spec fn wanted_top(&self, prefix: Seq<u8>, k: Seq<u8>) -> bool {
        self.model().resolve_top(k) is Some && prefix.is_prefix_of(k)
    }

    /// Adds to `found` every key of `cands` that is visible and starts with
    /// `prefix`.
    fn add_visible_top<V: ByteValue>(&self, found: &mut ByteMap<bool>, cands: &ByteMap<V>, prefix: &[u8])
        requires
            self.wf(),
            old(found).wf(),
            cands.wf(),
            forall|k: Seq<u8>| #[trigger] old(found).map().contains_key(k) ==> self.wanted_top(prefix@, k),
        ensures
            final(found).wf(),
            forall|k: Seq<u8>| #[trigger] final(found).map().contains_key(k) ==> self.wanted_top(prefix@, k),
            forall|k: Seq<u8>| old(found).map().contains_key(k) ==> #[trigger] final(found).map().contains_key(k),
            forall|k: Seq<u8>|
                cands.map().contains_key(k) && self.wanted_top(prefix@, k) ==> #[trigger] final(found).map().contains_key(k),
    {
        let ghost f0 = found.map();
        let mut i: usize = 0;
        while i < cands.entries.len()
            invariant
                self.wf(),
                found.wf(),
                cands.wf(),
                i <= cands.entries@.len(),
                forall|k: Seq<u8>| #[trigger] found.map().contains_key(k) ==> self.wanted_top(prefix@, k),
                forall|k: Seq<u8>| f0.contains_key(k) ==> #[trigger] found.map().contains_key(k),
                forall|j: int|
                    0 <= j < i && self.wanted_top(prefix@, #[trigger] cands.key_at(j)) ==> found.map().contains_key(
                        cands.key_at(j),
                    ),
            decreases cands.entries@.len() - i,
        {
            let k = &cands.entries[i].0;
            if has_prefix(k.as_slice(), prefix) && self.resolve_top(k.as_slice()).is_some() {
                found.insert(k.clone(), true);
            }
            i = i + 1;
        }
        proof {
            assert forall|k: Seq<u8>|
                cands.map().contains_key(k) && self.wanted_top(prefix@, k) implies #[trigger] found.map().contains_key(
                k,
            ) by {
                cands.lemma_contains(k);
                let j = cands.keys().index_of(k);
                assert(cands.key_at(j) == k);
            }
        }
    }

    /// The set of visible top-level keys that start with `prefix`.
    fn visible_top_key_set(&self, prefix: &[u8]) -> (res: ByteMap<bool>)
        requires
            self.wf(),
        ensures
            res.wf(),
            res.map().dom() == self.model().top_keys_with_prefix(prefix@),
    {
        let mut found: ByteMap<bool> = ByteMap::new();
        self.add_visible_top(&mut found, &self.base_top, prefix);
        let mut j: usize = 0;
        while j < self.layers.len()
            invariant
                self.wf(),
                found.wf(),
                j <= self.layers@.len(),
                forall|k: Seq<u8>| #[trigger] found.map().contains_key(k) ==> self.wanted_top(prefix@, k),
                forall|k: Seq<u8>|
                    self.base_top.map().contains_key(k) && self.wanted_top(prefix@, k) ==> #[trigger] found.map().contains_key(k),
                forall|jj: int, k: Seq<u8>|
                    0 <= jj < j && self.model().layers[jj].top.contains_key(k) && self.wanted_top(prefix@, k)
                        ==> #[trigger] found.map().contains_key(k) && #[trigger] self.model().layers[jj].top.contains_key(k),
            decreases self.layers@.len() - j,
        {
            proof {
                self.lemma_layer_model(j as int);
                assert(self.layers@[j as int].wf());
            }
            self.add_visible_top(&mut found, &self.layers[j].top, prefix);
            j = j + 1;
        }
        proof {
            let m = self.model();
            assert forall|k: Seq<u8>| #[trigger] found.map().dom().contains(k) == m.top_keys_with_prefix(
                prefix@,
            ).contains(k) by {
                lemma_top_source(m.top, m.layers, k);
                if self.wanted_top(prefix@, k) && !m.top.contains_key(k) {
                    let jj = choose|jj: int| 0 <= jj < m.layers.len() && #[trigger] m.layers[jj].top.contains_key(k);
                    assert(found.map().contains_key(k) && m.layers[jj].top.contains_key(k));
                }
            }
            assert(found.map().dom() =~= m.top_keys_with_prefix(prefix@));
        }
        found
    }

    /// The visible top-level keys that start with `prefix`, in ascending
    /// order.
    fn visible_top_keys_with_prefix(&self, prefix: &[u8]) -> (res: Vec<Vec<u8>>)
        requires
            self.wf(),
        ensures
            ascending(res@),
            key_views(res@).to_set() == self.model().top_keys_with_prefix(prefix@),
    {
        let set = self.visible_top_key_set(prefix);
        let res = sorted_keys(&set);
        proof {
            lemma_sorted_key_views(&set, res@);
        }
        res
    }

    spec fn wanted_child(&self, child_key: Seq<u8>, prefix: Seq<u8>, k: Seq<u8>) -> bool {
        self.model().resolve_child(child_key, k) is Some && prefix.is_prefix_of(k)
    }

    /// Adds to `found` every key of `cands` that is visible in child
    /// `child_key` and starts with `prefix`.
    fn add_visible_child<V: ByteValue>(
        &self,
        found: &mut ByteMap<bool>,
        cands: &ByteMap<V>,
        child_key: &[u8],
        prefix: &[u8],
    )
        requires
            self.wf(),
            old(found).wf(),
            cands.wf(),
            forall|k: Seq<u8>| #[trigger]
                old(found).map().contains_key(k) ==> self.wanted_child(child_key@, prefix@, k),
        ensures
            final(found).wf(),
            forall|k: Seq<u8>| #[trigger]
                final(found).map().contains_key(k) ==> self.wanted_child(child_key@, prefix@, k),
            forall|k: Seq<u8>| old(found).map().contains_key(k) ==> #[trigger] final(found).map().contains_key(k),
            forall|k: Seq<u8>|
                cands.map().contains_key(k) && self.wanted_child(child_key@, prefix@, k) ==> #[trigger] final(found).map().contains_key(k),
    {
        let ghost f0 = found.map();
        let mut i: usize = 0;
        while i < cands.entries.len()
            invariant
                self.wf(),
                found.wf(),
                cands.wf(),
                i <= cands.entries@.len(),
                forall|k: Seq<u8>| #[trigger]
                    found.map().contains_key(k) ==> self.wanted_child(child_key@, prefix@, k),
                forall|k: Seq<u8>| f0.contains_key(k) ==> #[trigger] found.map().contains_key(k),
                forall|j: int|
                    0 <= j < i && self.wanted_child(child_key@, prefix@, #[trigger] cands.key_at(j))
                        ==> found.map().contains_key(cands.key_at(j)),
            decreases cands.entries@.len() - i,
        {
            let k = &cands.entries[i].0;
            if has_prefix(k.as_slice(), prefix) && self.resolve_child(child_key, k.as_slice()).is_some() {
                found.insert(k.clone(), true);
            }
            i = i + 1;
        }
        proof {
            assert forall|k: Seq<u8>|
                cands.map().contains_key(k) && self.wanted_child(child_key@, prefix@, k) implies #[trigger] found.map().contains_key(
                k,
            ) by {
                cands.lemma_contains(k);
                let j = cands.keys().index_of(k);
                assert(cands.key_at(j) == k);
            }
        }
    }

    /// The highest layer in which child `child_key` was wiped, if any. The
    /// committed map and the layers below it contribute nothing to reads of
    /// this child.
    fn child_kill_floor(&self, child_key: &[u8]) -> (res: Option<usize>)
        requires
            self.wf(),
        ensures
            match res {
                Some(f) => {
                    &&& f < self.layers@.len()
                    &&& killed_in(self.model().layers[f as int], child_key@)
                    &&& forall|j: int|
                        f < j < self.layers@.len() ==> !killed_in(#[trigger] self.model().layers[j], child_key@)
                },
                None => forall|j: int|
                    0 <= j < self.layers@.len() ==> !killed_in(#[trigger] self.model().layers[j], child_key@),
            },
    {
        let mut i = self.layers.len();
        while i > 0
            invariant
                self.wf(),
                i <= self.layers@.len(),
                forall|j: int| i <= j < self.layers@.len() ==> !killed_in(#[trigger] self.model().layers[j], child_key@),
            decreases i,
        {
            i = i - 1;
            proof {
                self.lemma_layer_model(i as int);
                assert(self.layers@[i as int].wf());
            }
            match self.layers[i].children.get(child_key) {
                Some(child) => {
                    if child.killed {
                        return Some(i);
                    }
                },
                None => {},
            }
        }
        None
    }

    /// The visible keys of child `child_key` that start with `prefix`.
    fn visible_child_key_set(&self, child_key: &[u8], prefix: &[u8]) -> (res: ByteMap<bool>)
        requires
            self.wf(),
        ensures
            res.wf(),
            res.map().dom() == self.model().child_keys_with_prefix(child_key@, prefix@),
    {
        let ghost m = self.model();
        let kill_floor = self.child_kill_floor(child_key);
        let mut found: ByteMap<bool> = ByteMap::new();
        if kill_floor.is_none() {
            match self.base_children.get(child_key) {
                Some(base) => {
                    self.add_visible_child(&mut found, &base.data, child_key, prefix);
                },
                None => {},
            }
        }
        let start = match kill_floor {
            Some(f) => f,
            None => 0,
        };
        let mut j: usize = start;
        while j < self.layers.len()
            invariant
                self.wf(),
                m == self.model(),
                found.wf(),
                start <= j <= self.layers@.len(),
                forall|k: Seq<u8>| #[trigger]
                    found.map().contains_key(k) ==> self.wanted_child(child_key@, prefix@, k),
                kill_floor is None ==> forall|k: Seq<u8>|
                    base_child_value(m.children, child_key@, k) is Some && self.wanted_child(
                        child_key@,
                        prefix@,
                        k,
                    ) ==> #[trigger] found.map().contains_key(k),
                forall|jj: int, k: Seq<u8>|
                    start <= jj < j && writes_in(m.layers[jj], child_key@, k) && self.wanted_child(
                        child_key@,
                        prefix@,
                        k,
                    ) ==> #[trigger] found.map().contains_key(k) && #[trigger] writes_in(
                        m.layers[jj],
                        child_key@,
                        k,
                    ),
            decreases self.layers@.len() - j,
        {
            proof {
                self.lemma_layer_model(j as int);
                assert(self.layers@[j as int].wf());
            }
            match self.layers[j].children.get(child_key) {
                Some(child) => {
                    self.add_visible_child(&mut found, &child.writes, child_key, prefix);
                },
                None => {},
            }
            j = j + 1;
        }
        proof {
            assert forall|k: Seq<u8>| #[trigger] found.map().dom().contains(k) == m.child_keys_with_prefix(
                child_key@,
                prefix@,
            ).contains(k) by {
                lemma_child_source(m.children, m.layers, child_key@, k, start as int, kill_floor is Some);
                if self.wanted_child(child_key@, prefix@, k) {
                    if !(kill_floor is None && base_child_value(m.children, child_key@, k) is Some) {
                        let jj = choose|jj: int|
                            start <= jj < m.layers.len() && #[trigger] writes_in(m.layers[jj], child_key@, k);
                        assert(found.map().contains_key(k) && writes_in(m.layers[jj], child_key@, k));
                    }
                }
            }
            assert(found.map().dom() =~= m.child_keys_with_prefix(child_key@, prefix@));
        }
        found
    }

    /// The visible keys of child `child_key` that start with `prefix`, in
    /// ascending order.
    fn visible_child_keys_with_prefix(&self, child_key: &[u8], prefix: &[u8]) -> (res: Vec<Vec<u8>>)
        requires
            self.wf(),
        ensures
            ascending(res@),
            key_views(res@).to_set() == self.model().child_keys_with_prefix(child_key@, prefix@),
    {
        let set = self.visible_child_key_set(child_key, prefix);
        let res = sorted_keys(&set);
        proof {
            lemma_sorted_key_views(&set, res@);
        }
        res
    }

    /// The number of visible keys in child `child_key`.
    fn visible_child_key_count(&self, child_key: &[u8]) -> (res: u32)
        requires
            self.wf(),
        ensures
            self.model().visible_child(child_key@).dom().finite(),
            res == self.model().visible_child(child_key@).dom().len() as u32,
    {
        let no_prefix: Vec<u8> = Vec::new();
        let keys = self.visible_child_key_set(child_key, no_prefix.as_slice());
        proof {
            let m = self.model();
            assert forall|k: Seq<u8>| #[trigger] m.visible_child(child_key@).dom().contains(k) implies no_prefix@.is_prefix_of(
                k,
            ) by {
                assert(no_prefix@ =~= k.subrange(0, 0));
            }
            assert(m.child_keys_with_prefix(child_key@, no_prefix@) =~= m.visible_child(child_key@).dom());
            keys.lemma_dom_len();
        }
        keys.len() as u32
    }

    // -----------------------------------------------------------------------
    // Reads
    // -----------------------------------------------------------------------

    /// The visible value of a top-level key.
    pub fn storage(&self, key: &[u8]) -> (res: Option<Vec<u8>>)
        ensures
            write_model(res) == self.model().resolve_top(key@),
    {
        proof {
            use_type_invariant(&*self);
        }
        match self.resolve_top(key) {
            Some(v) => Some(v.clone()),
            None => None,
        }
    }

    /// The hash of a visible top-level value: the fixed dummy hash, or
    /// `None` for an absent key.
    pub fn storage_hash(&self, key: &[u8]) -> (res: Option<Vec<u8>>)
        ensures
            res is Some <==> self.model().resolve_top(key@) is Some,
            res matches Some(h) ==> h@ == dummy_hash(),
    {
        proof {
            use_type_invariant(&*self);
        }
        match self.resolve_top(key) {
            Some(_) => Some(make_dummy_hash()),
            None => None,
        }
    }

    /// The visible value of `key` in child `child_key`.
    pub fn child_storage(&self, child_key: &[u8], key: &[u8]) -> (res: Option<Vec<u8>>)
        ensures
            write_model(res) == self.model().resolve_child(child_key@, key@),
    {
        proof {
            use_type_invariant(&*self);
        }
        match self.resolve_child(child_key, key) {
            Some(v) => Some(v.clone()),
            None => None,
        }
    }

    /// The hash of a visible child value: the fixed dummy hash, or `None`
    /// for an absent key.
    pub fn child_storage_hash(&self, child_key: &[u8], key: &[u8]) -> (res: Option<Vec<u8>>)
        ensures
            res is Some <==> self.model().resolve_child(child_key@, key@) is Some,
            res matches Some(h) ==> h@ == dummy_hash(),
    {
        proof {
            use_type_invariant(&*self);
        }
        match self.resolve_child(child_key, key) {
            Some(_) => Some(make_dummy_hash()),
            None => None,
        }
    }

    /// The storage root: the fixed dummy hash.
    pub fn storage_root(&self) -> (res: Vec<u8>)
        ensures
            res@ == dummy_hash(),
    {
        make_dummy_hash()
    }

    /// A child storage root: the fixed dummy hash.
    pub fn child_storage_root(&self, child_key: &[u8]) -> (res: Vec<u8>)
        ensures
            res@ == dummy_hash(),
    {
        make_dummy_hash()
    }

    // -----------------------------------------------------------------------
    // Writes
    // -----------------------------------------------------------------------

    /// Writes (or, with `None`, deletes) a top-level key. Keys under the
    /// child storage prefix are left alone.
    pub fn place_storage(&mut self, key: Vec<u8>, value: Option<Vec<u8>>)
        ensures
            final(self).model() == if is_child_storage_key(key@) {
                old(self).model()
            } else {
                old(self).model().set_top(key@, write_model(value))
            },
    {
        proof {
            use_type_invariant(&*self);
        }
        if child_storage_key(key.as_slice()) {
            return;
        }
        self.set_top(key, value);
    }

    /// Writes (or, with `None`, deletes) a key of child `child_key`.
    pub fn place_child_storage(&mut self, child_key: &[u8], key: Vec<u8>, value: Option<Vec<u8>>)
        ensures
            final(self).model() == old(self).model().set_child(child_key@, key@, write_model(value)),
    {
        proof {
            use_type_invariant(&*self);
        }
        self.set_child(child_key, key, value);
    }

    /// The least visible top-level key strictly after `key`.
    pub fn next_storage_key(&self, key: &[u8]) -> (res: Option<Vec<u8>>)
        ensures
            match res {
                Some(r) => {
                    &&& self.model().visible_top().contains_key(r@)
                    &&& lex_lt(key@, r@)
                    &&& forall|k: Seq<u8>| #[trigger]
                        self.model().visible_top().contains_key(k) && lex_lt(key@, k) ==> !lex_lt(k, r@)
                },
                None => forall|k: Seq<u8>| #[trigger]
                    self.model().visible_top().contains_key(k) ==> !lex_lt(key@, k),
            },
    {
        proof {
            use_type_invariant(&*self);
        }
        let no_prefix: Vec<u8> = Vec::new();
        let keys = self.visible_top_key_set(no_prefix.as_slice());
        proof {
            let m = self.model();
            assert forall|k: Seq<u8>| #[trigger] m.visible_top().contains_key(k) implies keys.map().contains_key(k) by {
                assert(no_prefix@ =~= k.subrange(0, 0));
                assert(m.top_keys_with_prefix(no_prefix@).contains(k));
            }
        }
        least_key_after(&keys, key)
    }

    /// The least visible key of child `child_key` strictly after `key`.
    pub fn next_child_storage_key(&self, child_key: &[u8], key: &[u8]) -> (res: Option<Vec<u8>>)
        ensures
            match res {
                Some(r) => {
                    &&& self.model().visible_child(child_key@).contains_key(r@)
                    &&& lex_lt(key@, r@)
                    &&& forall|k: Seq<u8>| #[trigger]
                        self.model().visible_child(child_key@).contains_key(k) && lex_lt(key@, k) ==> !lex_lt(k, r@)
                },
                None => forall|k: Seq<u8>| #[trigger]
                    self.model().visible_child(child_key@).contains_key(k) ==> !lex_lt(key@, k),
            },
    {
        proof {
            use_type_invariant(&*self);
        }
        let no_prefix: Vec<u8> = Vec::new();
        let keys = self.visible_child_key_set(child_key, no_prefix.as_slice());
        proof {
            let m = self.model();
            assert forall|k: Seq<u8>| #[trigger] m.visible_child(child_key@).contains_key(k) implies keys.map().contains_key(k) by {
                assert(no_prefix@ =~= k.subrange(0, 0));
                assert(m.child_keys_with_prefix(child_key@, no_prefix@).contains(k));
            }
        }
        least_key_after(&keys, key)
    }

    /// Wipes child `child_key`, reporting how many keys it held.
    pub fn kill_child_storage(
        &mut self,
        child_key: &[u8],
        _maybe_limit: Option<u32>,
        _maybe_cursor: Option<&[u8]>,
    ) -> (res: RemovalResults)
        ensures
            final(self).model() == old(self).model().kill_child(child_key@),
            old(self).model().visible_child(child_key@).dom().finite(),
            res.maybe_cursor is None,
            res.backend == old(self).model().visible_child(child_key@).dom().len() as u32,
            res.unique == res.backend,
            res.loops == res.backend,
    {
        proof {
            use_type_invariant(&*self);
        }
        let ghost m = self.model();
        let count = self.visible_child_key_count(child_key);
        if self.layers.len() > 0 {
            let mut layer = self.pop_layer();
            let mut entry = match layer.children.remove(child_key) {
                Some(e) => e,
                None => ChildLayer::new(),
            };
            entry.killed = true;
            entry.writes.clear();
            layer.children.insert(vstd::slice::slice_to_vec(child_key), entry);
            self.push_layer(layer);
            proof {
                assert(layer.model().children =~= m.kill_child(child_key@).layers.last().children);
                assert(self.model().layers =~= m.kill_child(child_key@).layers);
            }
        } else {
            let mut base = ByteMap::new();
            std::mem::swap(&mut base, &mut self.base_children);
            base.remove(child_key);
            self.base_children = base;
        }
        RemovalResults { maybe_cursor: None, backend: count, unique: count, loops: count }
    }

    /// Deletes every visible top-level key that starts with `prefix`,
    /// reporting how many there were. A prefix under the child storage
    /// prefix is refused: nothing is deleted and the prefix comes back as
    /// the cursor.
    pub fn clear_prefix(
        &mut self,
        prefix: &[u8],
        _maybe_limit: Option<u32>,
        _maybe_cursor: Option<&[u8]>,
    ) -> (res: RemovalResults)
        ensures
            if is_child_storage_key(prefix@) {
                &&& final(self).model() == old(self).model()
                &&& res.maybe_cursor matches Some(c) && c@ == prefix@
                &&& res.backend == 0 && res.unique == 0 && res.loops == 0
            } else {
                let keys = old(self).model().top_keys_with_prefix(prefix@);
                &&& final(self).model() == old(self).model().delete_top_keys(keys)
                &&& keys.finite()
                &&& res.maybe_cursor is None
                &&& res.backend == keys.len() as u32
                &&& res.unique == res.backend
                &&& res.loops == res.backend
            },
    {
        proof {
            use_type_invariant(&*self);
        }
        if child_storage_key(prefix) {
            return RemovalResults {
                maybe_cursor: Some(vstd::slice::slice_to_vec(prefix)),
                backend: 0,
                unique: 0,
                loops: 0,
            };
        }
        let ghost m = self.model();
        let ghost all = m.top_keys_with_prefix(prefix@);
        let keys = self.visible_top_keys_with_prefix(prefix);
        let count = keys.len() as u32;
        proof {
            assert(m.delete_top_keys(Set::<Seq<u8>>::empty()) == m) by {
                if m.layers.len() > 0 {
                    assert(m.delete_top_keys(Set::<Seq<u8>>::empty()).layers.last().top =~= m.layers.last().top);
                    assert(m.delete_top_keys(Set::<Seq<u8>>::empty()).layers =~= m.layers);
                } else {
                    assert(m.top.remove_keys(Set::<Seq<u8>>::empty()) =~= m.top);
                }
            }
            assert(key_views(keys@).take(0).to_set() =~= Set::<Seq<u8>>::empty());
            lemma_ascending_distinct(keys@);
        }
        let mut i: usize = 0;
        while i < keys.len()
            invariant
                self.wf(),
                i <= keys@.len(),
                self.model() == m.delete_top_keys(key_views(keys@).take(i as int).to_set()),
            decreases keys@.len() - i,
        {
            let k = keys[i].clone();
            proof {
                let done = key_views(keys@).take(i as int).to_set();
                lemma_delete_top_step(m, done, k@);
                assert(done.insert(k@) =~= key_views(keys@).take(i + 1).to_set()) by {
                    assert(key_views(keys@).take(i + 1) =~= key_views(keys@).take(i as int).push(k@));
                    key_views(keys@).take(i as int).lemma_push_to_set_commute(k@);
                }
            }
            self.set_top(k, None);
            i = i + 1;
        }
        proof {
            assert(key_views(keys@).take(keys@.len() as int) =~= key_views(keys@));
        }
        RemovalResults { maybe_cursor: None, backend: count, unique: count, loops: count }
    }

    /// Deletes every visible key of child `child_key` that starts with
    /// `prefix`, reporting how many there were.
    pub fn clear_child_prefix(
        &mut self,
        child_key: &[u8],
        prefix: &[u8],
        _maybe_limit: Option<u32>,
        _maybe_cursor: Option<&[u8]>,
    ) -> (res: RemovalResults)
        ensures
            ({
                let keys = old(self).model().child_keys_with_prefix(child_key@, prefix@);
                &&& final(self).model() == old(self).model().delete_child_keys(child_key@, keys)
                &&& keys.finite()
                &&& res.maybe_cursor is None
                &&& res.backend == keys.len() as u32
                &&& res.unique == res.backend
                &&& res.loops == res.backend
            }),
    {
        proof {
            use_type_invariant(&*self);
        }
        let ghost m = self.model();
        let ghost all = m.child_keys_with_prefix(child_key@, prefix@);
        let keys = self.visible_child_keys_with_prefix(child_key, prefix);
        let count = keys.len() as u32;
        proof {
            assert(key_views(keys@).take(0).to_set() =~= Set::<Seq<u8>>::empty());
            lemma_ascending_distinct(keys@);
        }
        let mut i: usize = 0;
        while i < keys.len()
            invariant
                self.wf(),
                i <= keys@.len(),
                self.model() == m.delete_child_keys(child_key@, key_views(keys@).take(i as int).to_set()),
            decreases keys@.len() - i,
        {
            let k = keys[i].clone();
            proof {
                let done = key_views(keys@).take(i as int).to_set();
                lemma_delete_child_step(m, child_key@, done, k@);
                assert(done.insert(k@) =~= key_views(keys@).take(i + 1).to_set()) by {
                    assert(key_views(keys@).take(i + 1) =~= key_views(keys@).take(i as int).push(k@));
                    key_views(keys@).take(i as int).lemma_push_to_set_commute(k@);
                }
            }
            self.set_child(child_key, k, None);
            i = i + 1;
        }
        proof {
            assert(key_views(keys@).take(keys@.len() as int) =~= key_views(keys@));
        }
        RemovalResults { maybe_cursor: None, backend: count, unique: count, loops: count }
    }

    /// Appends a SCALE-encoded element to the SCALE-encoded vector stored
    /// under `key` (an absent value counts as an empty vector).
    pub fn storage_append(&mut self, key: Vec<u8>, element: Vec<u8>)
        ensures
            final(self).model() == old(self).model().append(key@, element@),
    {
        proof {
            use_type_invariant(&*self);
        }
        let ghost m = self.model();
        // Fast path: a value already written in the innermost layer is
        // extended in place.
        if self.layers.len() > 0 {
            let mut layer = self.pop_layer();
            let written = match layer.top.get(key.as_slice()) {
                Some(w) => w.is_some(),
                None => false,
            };
            if written {
                let ghost old_top = layer.top.map();
                proof {
                    assert(m.layers.last().top == old_top);
                    assert(m.resolve_top(key@) == old_top[key@]);
                }
                let mut v = match layer.top.remove(key.as_slice()) {
                    Some(Some(v)) => v,
                    _ => Vec::new(),
                };
                append_to_storage_vec(&mut v, element.as_slice());
                layer.top.insert(key, Some(v));
                self.push_layer(layer);
                proof {
                    assert(layer.top.map() =~= old_top.insert(
                        key@,
                        Some(crate::compact::appended(m.resolve_top(key@).unwrap(), element@)),
                    ));
                    assert(self.model().layers =~= m.append(key@, element@).layers);
                }
                return;
            }
            self.push_layer(layer);
            proof {
                assert(self.model().layers =~= m.layers);
            }
        }
        let mut v = match self.resolve_top(key.as_slice()) {
            Some(v) => v.clone(),
            None => Vec::new(),
        };
        append_to_storage_vec(&mut v, element.as_slice());
        self.set_top(key, Some(v));
    }

    // -----------------------------------------------------------------------
    // Transactions
    // -----------------------------------------------------------------------

    /// How many transactions are open.
    pub fn transaction_depth(&self) -> (res: usize)
        ensures
            res == self.model().layers.len(),
    {
        self.layers.len()
    }

    /// Opens a transaction.
    pub fn storage_start_transaction(&mut self)
        ensures
            final(self).model() == old(self).model().start(),
    {
        proof {
            use_type_invariant(&*self);
        }
        let layer = Layer::new();
        self.push_layer(layer);
    }

    /// Discards the innermost transaction; fails when none is open.
    pub fn storage_rollback_transaction(&mut self) -> (res: Result<(), ()>)
        ensures
            res is Err <==> old(self).model().layers.len() == 0,
            final(self).model() == if res is Err {
                old(self).model()
            } else {
                old(self).model().rollback()
            },
    {
        proof {
            use_type_invariant(&*self);
        }
        if self.layers.len() == 0 {
            return Err(());
        }
        let _ = self.pop_layer();
        Ok(())
    }

    /// Folds the innermost transaction into the one below it, or into the
    /// committed maps; fails when none is open.
    pub fn storage_commit_transaction(&mut self) -> (res: Result<(), ()>)
        ensures
            res is Err <==> old(self).model().layers.len() == 0,
            final(self).model() == if res is Err {
                old(self).model()
            } else {
                old(self).model().commit()
            },
    {
        proof {
            use_type_invariant(&*self);
        }
        if self.layers.len() == 0 {
            return Err(());
        }
        let ghost m = self.model();
        let above = self.pop_layer();
        if self.layers.len() > 0 {
            let mut below = self.pop_layer();
            let Layer { top, children } = above;
            extend_writes(&mut below.top, top);
            merge_child_layers(&mut below.children, children);
            self.push_layer(below);
            proof {
                let rest = m.layers.drop_last();
                assert(below.model() == merge_layers(rest.last(), m.layers.last()));
                assert(self.model().layers =~= m.commit().layers);
            }
        } else {
            let Layer { top, children } = above;
            let mut base_top = ByteMap::new();
            std::mem::swap(&mut base_top, &mut self.base_top);
            merge_top_into_base(&mut base_top, top);
            self.base_top = base_top;
            let mut base_children = ByteMap::new();
            std::mem::swap(&mut base_children, &mut self.base_children);
            merge_children_into_base(&mut base_children, children);
            self.base_children = base_children;
            proof {
                assert(self.model().layers =~= Seq::<LayerModel>::empty());
            }
        }
        Ok(())
    }

    /// Converts back into committed storage. Still-open transaction layers
    /// are flushed bottom-up, as if they had been committed.
    pub fn into_storage(self) -> (res: Storage)
        ensures
            res.wf(),
            (res.top.map(), res.children_default.map()) == self.model().flush(),
    {
        proof {
            use_type_invariant(&self);
        }
        let ghost m = self.model();
        let FuzzingExternalities { mut base_top, mut base_children, mut layers } = self;
        while layers.len() > 0
            invariant
                base_top.wf(),
                base_children.wf(),
                layers_wf(layers@),
                crate::model::flush_layers(base_top.map(), base_children.map(), layers_model(layers@))
                    == m.flush(),
            decreases layers@.len(),
        {
            let ghost before = layers@;
            let layer = layers.remove(0);
            proof {
                assert(layer == before[0]);
                assert(before[0].wf());
                assert(layers@ =~= before.drop_first());
                assert(layers_model(layers@) =~= layers_model(before).drop_first());
                assert forall|i: int| 0 <= i < layers@.len() implies (#[trigger] layers@[i]).wf() by {
                    assert(layers@[i] == before[i + 1]);
                }
            }
            let Layer { top, children } = layer;
            merge_top_into_base(&mut base_top, top);
            merge_children_into_base(&mut base_children, children);
        }
        proof {
            assert(layers_model(layers@) =~= Seq::<LayerModel>::empty());
        }
        Storage { top: base_top, children_default: base_children }
    }
}

impl Default for FuzzingExternalities {
    /// An empty store with no transaction open.
    fn default() -> (res: Self)
        ensures
            res.wf(),
            res.model() == (StoreModel {
                top: Map::empty(),
                children: Map::empty(),
                layers: Seq::empty(),
            }),
    {
        Self::new(Storage::new())
    }
}

} // verus!
