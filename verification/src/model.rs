//! The mathematical model of the transactional key-value store: committed
//! maps plus a stack of pending layers, what a read sees through them, and
//! what each operation does to them.
use vstd::prelude::*;

verus! {

/// Pending changes of one transaction layer to one child storage.
pub struct ChildLayerModel {
    /// The child was wiped in this layer: nothing below shows through.
    pub killed: bool,
    /// Writes made after any wipe: `Some(v)` writes, `None` deletes.
    pub writes: Map<Seq<u8>, Option<Seq<u8>>>,
}

/// Pending changes of one transaction layer.
pub struct LayerModel {
    pub top: Map<Seq<u8>, Option<Seq<u8>>>,
    pub children: Map<Seq<u8>, ChildLayerModel>,
}

/// Committed contents of one child storage.
pub struct ChildModel {
    pub info: Seq<u8>,
    pub data: Map<Seq<u8>, Seq<u8>>,
}

/// The whole store: committed top-level and child maps, and the open layers,
/// the last one being the innermost transaction.
pub struct StoreModel {
    pub top: Map<Seq<u8>, Seq<u8>>,
    pub children: Map<Seq<u8>, ChildModel>,
    pub layers: Seq<LayerModel>,
}

/// A map after one write: `Some(v)` stores `v`, `None` deletes the key.
pub open spec fn apply_write(
    m: Map<Seq<u8>, Seq<u8>>,
    k: Seq<u8>,
    v: Option<Seq<u8>>,
) -> Map<Seq<u8>, Seq<u8>> {
    match v {
        Some(x) => m.insert(k, x),
        None => m.remove(k),
    }
}

pub open spec fn empty_layer() -> LayerModel {
    LayerModel { top: Map::empty(), children: Map::empty() }
}

pub open spec fn fresh_child_layer() -> ChildLayerModel {
    ChildLayerModel { killed: false, writes: Map::empty() }
}

/// The committed value of `k` in child `sk`.
pub open spec fn base_child_value(
    children: Map<Seq<u8>, ChildModel>,
    sk: Seq<u8>,
    k: Seq<u8>,
) -> Option<Seq<u8>> {
    if children.contains_key(sk) && children[sk].data.contains_key(k) {
        Some(children[sk].data[k])
    } else {
        None
    }
}

/// What a read of top-level key `k` sees: the innermost layer that wrote
/// it decides, else the committed map.
pub open spec fn resolve_top_in(
    base: Map<Seq<u8>, Seq<u8>>,
    layers: Seq<LayerModel>,
    k: Seq<u8>,
) -> Option<Seq<u8>>
    decreases layers.len(),
{
    if layers.len() == 0 {
        if base.contains_key(k) {
            Some(base[k])
        } else {
            None
        }
    } else if layers.last().top.contains_key(k) {
        layers.last().top[k]
    } else {
        resolve_top_in(base, layers.drop_last(), k)
    }
}

/// What a read of key `k` in child `sk` sees: the innermost layer that
/// wrote it decides; a layer that wiped the child hides everything below.
pub open spec fn resolve_child_in(
    children: Map<Seq<u8>, ChildModel>,
    layers: Seq<LayerModel>,
    sk: Seq<u8>,
    k: Seq<u8>,
) -> Option<Seq<u8>>
    decreases layers.len(),
{
    if layers.len() == 0 {
        base_child_value(children, sk, k)
    } else if layers.last().children.contains_key(sk)
        && layers.last().children[sk].writes.contains_key(k) {
        layers.last().children[sk].writes[k]
    } else if layers.last().children.contains_key(sk) && layers.last().children[sk].killed {
        None
    } else {
        resolve_child_in(children, layers.drop_last(), sk, k)
    }
}

/// Pending writes laid over a committed map.
pub open spec fn merge_top_into(
    base: Map<Seq<u8>, Seq<u8>>,
    overlay: Map<Seq<u8>, Option<Seq<u8>>>,
) -> Map<Seq<u8>, Seq<u8>> {
    Map::new(
        |k: Seq<u8>|
            if overlay.contains_key(k) {
                overlay[k] is Some
            } else {
                base.contains_key(k)
            },
        |k: Seq<u8>|
            if overlay.contains_key(k) {
                overlay[k].unwrap()
            } else {
                base[k]
            },
    )
}

/// One child's pending layer applied to its committed contents (if any):
/// a wipe drops them, and non-empty writes are laid over what is left.
pub open spec fn merge_child_into(base: Option<ChildModel>, sk: Seq<u8>, c: ChildLayerModel) -> Option<
    ChildModel,
> {
    let kept = if c.killed {
        None
    } else {
        base
    };
    if c.writes.dom() == Set::<Seq<u8>>::empty() {
        kept
    } else {
        let e = match kept {
            Some(e) => e,
            None => ChildModel { info: sk, data: Map::empty() },
        };
        Some(ChildModel { info: e.info, data: merge_top_into(e.data, c.writes) })
    }
}

pub open spec fn child_entry(children: Map<Seq<u8>, ChildModel>, sk: Seq<u8>) -> Option<ChildModel> {
    if children.contains_key(sk) {
        Some(children[sk])
    } else {
        None
    }
}

pub open spec fn merged_child(
    base: Map<Seq<u8>, ChildModel>,
    overlay: Map<Seq<u8>, ChildLayerModel>,
    sk: Seq<u8>,
) -> Option<ChildModel> {
    if overlay.contains_key(sk) {
        merge_child_into(child_entry(base, sk), sk, overlay[sk])
    } else {
        child_entry(base, sk)
    }
}

/// Pending child layers applied to the committed child storages.
pub open spec fn merge_children_into(
    base: Map<Seq<u8>, ChildModel>,
    overlay: Map<Seq<u8>, ChildLayerModel>,
) -> Map<Seq<u8>, ChildModel> {
    Map::new(
        |sk: Seq<u8>| merged_child(base, overlay, sk) is Some,
        |sk: Seq<u8>| merged_child(base, overlay, sk).unwrap(),
    )
}

/// A child's pending layer folded into the pending layer below it.
pub open spec fn merge_child_layer(below: ChildLayerModel, c: ChildLayerModel) -> ChildLayerModel {
    let e = if c.killed {
        ChildLayerModel { killed: true, writes: Map::empty() }
    } else {
        below
    };
    ChildLayerModel { killed: e.killed, writes: e.writes.union_prefer_right(c.writes) }
}

/// The child layers of one layer folded into those of the layer below it.
pub open spec fn merge_child_layer_maps(
    below: Map<Seq<u8>, ChildLayerModel>,
    above: Map<Seq<u8>, ChildLayerModel>,
) -> Map<Seq<u8>, ChildLayerModel> {
    Map::new(
        |sk: Seq<u8>| below.contains_key(sk) || above.contains_key(sk),
        |sk: Seq<u8>|
            if above.contains_key(sk) {
                let b = if below.contains_key(sk) {
                    below[sk]
                } else {
                    fresh_child_layer()
                };
                merge_child_layer(b, above[sk])
            } else {
                below[sk]
            },
    )
}

/// A layer folded into the layer below it.
pub open spec fn merge_layers(below: LayerModel, above: LayerModel) -> LayerModel {
    LayerModel {
        top: below.top.union_prefer_right(above.top),
        children: merge_child_layer_maps(below.children, above.children),
    }
}

/// The committed maps after folding `layers`, bottom first, into them.
pub open spec fn flush_layers(
    top: Map<Seq<u8>, Seq<u8>>,
    children: Map<Seq<u8>, ChildModel>,
    layers: Seq<LayerModel>,
) -> (Map<Seq<u8>, Seq<u8>>, Map<Seq<u8>, ChildModel>)
    decreases layers.len(),
{
    if layers.len() == 0 {
        (top, children)
    } else {
        flush_layers(
            merge_top_into(top, layers[0].top),
            merge_children_into(children, layers[0].children),
            layers.drop_first(),
        )
    }
}

impl StoreModel {
    pub open spec fn resolve_top(self, k: Seq<u8>) -> Option<Seq<u8>> {
        resolve_top_in(self.top, self.layers, k)
    }

    pub open spec fn resolve_child(self, sk: Seq<u8>, k: Seq<u8>) -> Option<Seq<u8>> {
        resolve_child_in(self.children, self.layers, sk, k)
    }

    /// The top-level map as reads see it.
    pub open spec fn visible_top(self) -> Map<Seq<u8>, Seq<u8>> {
        Map::new(|k: Seq<u8>| self.resolve_top(k) is Some, |k: Seq<u8>| self.resolve_top(k).unwrap())
    }

    /// Child storage `sk` as reads see it.
    pub open spec fn visible_child(self, sk: Seq<u8>) -> Map<Seq<u8>, Seq<u8>> {
        Map::new(
            |k: Seq<u8>| self.resolve_child(sk, k) is Some,
            |k: Seq<u8>| self.resolve_child(sk, k).unwrap(),
        )
    }

    /// A top-level write, into the innermost layer or else the committed map.
    pub open spec fn set_top(self, k: Seq<u8>, v: Option<Seq<u8>>) -> StoreModel {
        if self.layers.len() > 0 {
            let l = self.layers.last();
            StoreModel {
                layers: self.layers.update(
                    self.layers.len() - 1,
                    LayerModel { top: l.top.insert(k, v), children: l.children },
                ),
                ..self
            }
        } else {
            StoreModel { top: apply_write(self.top, k, v), ..self }
        }
    }

    /// A write to child `sk`, into the innermost layer or else the committed map.
    pub open spec fn set_child(self, sk: Seq<u8>, k: Seq<u8>, v: Option<Seq<u8>>) -> StoreModel {
        if self.layers.len() > 0 {
            let l = self.layers.last();
            let c = if l.children.contains_key(sk) {
                l.children[sk]
            } else {
                fresh_child_layer()
            };
            let c2 = ChildLayerModel { killed: c.killed, writes: c.writes.insert(k, v) };
            StoreModel {
                layers: self.layers.update(
                    self.layers.len() - 1,
                    LayerModel { top: l.top, children: l.children.insert(sk, c2) },
                ),
                ..self
            }
        } else {
            let c = if self.children.contains_key(sk) {
                self.children[sk]
            } else {
                ChildModel { info: sk, data: Map::empty() }
            };
            StoreModel {
                children: self.children.insert(
                    sk,
                    ChildModel { info: c.info, data: apply_write(c.data, k, v) },
                ),
                ..self
            }
        }
    }

    /// Wipes child `sk`: in the innermost layer, or else from the committed map.
    pub open spec fn kill_child(self, sk: Seq<u8>) -> StoreModel {
        if self.layers.len() > 0 {
            let l = self.layers.last();
            let c = if l.children.contains_key(sk) {
                l.children[sk]
            } else {
                fresh_child_layer()
            };
            let c2 = ChildLayerModel { killed: true, writes: Map::empty() };
            StoreModel {
                layers: self.layers.update(
                    self.layers.len() - 1,
                    LayerModel { top: l.top, children: l.children.insert(sk, c2) },
                ),
                ..self
            }
        } else {
            StoreModel { children: self.children.remove(sk), ..self }
        }
    }

    /// Deletes every key in `keys` from the top level: in the innermost
    /// layer, or from the committed map.
    pub open spec fn delete_top_keys(self, keys: Set<Seq<u8>>) -> StoreModel {
        if self.layers.len() > 0 {
            let l = self.layers.last();
            let top = Map::new(
                |k: Seq<u8>| l.top.contains_key(k) || keys.contains(k),
                |k: Seq<u8>|
                    if keys.contains(k) {
                        None
                    } else {
                        l.top[k]
                    },
            );
            StoreModel {
                layers: self.layers.update(
                    self.layers.len() - 1,
                    LayerModel { top, children: l.children },
                ),
                ..self
            }
        } else {
            StoreModel { top: self.top.remove_keys(keys), ..self }
        }
    }

    /// Deletes every key in `keys` from child `sk`: in the innermost layer,
    /// or from the committed map. Nothing happens for no keys.
    pub open spec fn delete_child_keys(self, sk: Seq<u8>, keys: Set<Seq<u8>>) -> StoreModel {
        if keys == Set::<Seq<u8>>::empty() {
            self
        } else if self.layers.len() > 0 {
            let l = self.layers.last();
            let c = if l.children.contains_key(sk) {
                l.children[sk]
            } else {
                fresh_child_layer()
            };
            let writes = Map::new(
                |k: Seq<u8>| c.writes.contains_key(k) || keys.contains(k),
                |k: Seq<u8>|
                    if keys.contains(k) {
                        None
                    } else {
                        c.writes[k]
                    },
            );
            let c2 = ChildLayerModel { killed: c.killed, writes };
            StoreModel {
                layers: self.layers.update(
                    self.layers.len() - 1,
                    LayerModel { top: l.top, children: l.children.insert(sk, c2) },
                ),
                ..self
            }
        } else {
            let c = if self.children.contains_key(sk) {
                self.children[sk]
            } else {
                ChildModel { info: sk, data: Map::empty() }
            };
            StoreModel {
                children: self.children.insert(
                    sk,
                    ChildModel { info: c.info, data: c.data.remove_keys(keys) },
                ),
                ..self
            }
        }
    }

    /// The visible top-level keys that start with `prefix`.
    pub open spec fn top_keys_with_prefix(self, prefix: Seq<u8>) -> Set<Seq<u8>> {
        self.visible_top().dom().filter(|k: Seq<u8>| prefix.is_prefix_of(k))
    }

    /// The visible keys of child `sk` that start with `prefix`.
    pub open spec fn child_keys_with_prefix(self, sk: Seq<u8>, prefix: Seq<u8>) -> Set<Seq<u8>> {
        self.visible_child(sk).dom().filter(|k: Seq<u8>| prefix.is_prefix_of(k))
    }

    /// Appends `element` to the stored vector under `k` (an absent value
    /// counts as empty), writing the result as an ordinary write would.
    pub open spec fn append(self, k: Seq<u8>, element: Seq<u8>) -> StoreModel {
        let current = match self.resolve_top(k) {
            Some(v) => v,
            None => Seq::empty(),
        };
        self.set_top(k, Some(crate::compact::appended(current, element)))
    }

    /// Opens a transaction.
    pub open spec fn start(self) -> StoreModel {
        StoreModel { layers: self.layers.push(empty_layer()), ..self }
    }

    /// Drops the innermost transaction.
    pub open spec fn rollback(self) -> StoreModel {
        StoreModel { layers: self.layers.drop_last(), ..self }
    }

    /// Folds the innermost transaction into the one below it, or into the
    /// committed maps.
    pub open spec fn commit(self) -> StoreModel {
        let above = self.layers.last();
        let rest = self.layers.drop_last();
        if rest.len() > 0 {
            StoreModel {
                layers: rest.update(rest.len() - 1, merge_layers(rest.last(), above)),
                ..self
            }
        } else {
            StoreModel {
                top: merge_top_into(self.top, above.top),
                children: merge_children_into(self.children, above.children),
                layers: Seq::empty(),
            }
        }
    }

    /// The committed maps once every open layer is folded in, bottom first.
    pub open spec fn flush(self) -> (Map<Seq<u8>, Seq<u8>>, Map<Seq<u8>, ChildModel>) {
        flush_layers(self.top, self.children, self.layers)
    }
}

} // verus!
