//! What the store's operations do to what reads see, proved over the model.
use vstd::prelude::*;

use crate::model::{
    apply_write, base_child_value, merge_children_into, merge_top_into, resolve_child_in,
    resolve_top_in, flush_layers, merge_layers, ChildModel, LayerModel, StoreModel,
};

verus! {

// ---------------------------------------------------------------------------
// One step of resolution through a changed innermost layer
// ---------------------------------------------------------------------------

proof fn lemma_resolve_top_set(m: StoreModel, k: Seq<u8>, v: Option<Seq<u8>>, k2: Seq<u8>)
    ensures
        m.set_top(k, v).resolve_top(k2) == if k2 == k {
            v
        } else {
            m.resolve_top(k2)
        },
{
    let m2 = m.set_top(k, v);
    if m.layers.len() > 0 {
        assert(m2.layers.drop_last() =~= m.layers.drop_last());
    }
}

proof fn lemma_resolve_child_set_top(m: StoreModel, k: Seq<u8>, v: Option<Seq<u8>>, sk: Seq<u8>, k2: Seq<u8>)
    ensures
        m.set_top(k, v).resolve_child(sk, k2) == m.resolve_child(sk, k2),
{
    let m2 = m.set_top(k, v);
    if m.layers.len() > 0 {
        assert(m2.layers.drop_last() =~= m.layers.drop_last());
    }
}

proof fn lemma_resolve_top_set_child(m: StoreModel, sk: Seq<u8>, k: Seq<u8>, v: Option<Seq<u8>>, k2: Seq<u8>)
    ensures
        m.set_child(sk, k, v).resolve_top(k2) == m.resolve_top(k2),
{
    let m2 = m.set_child(sk, k, v);
    if m.layers.len() > 0 {
        assert(m2.layers.drop_last() =~= m.layers.drop_last());
    }
}

proof fn lemma_resolve_child_set_child(
    m: StoreModel,
    sk: Seq<u8>,
    k: Seq<u8>,
    v: Option<Seq<u8>>,
    sk2: Seq<u8>,
    k2: Seq<u8>,
)
    ensures
        m.set_child(sk, k, v).resolve_child(sk2, k2) == if sk2 == sk && k2 == k {
            v
        } else {
            m.resolve_child(sk2, k2)
        },
{
    let m2 = m.set_child(sk, k, v);
    if m.layers.len() > 0 {
        assert(m2.layers.drop_last() =~= m.layers.drop_last());
    }
}

proof fn lemma_resolve_top_kill(m: StoreModel, sk: Seq<u8>, k2: Seq<u8>)
    ensures
        m.kill_child(sk).resolve_top(k2) == m.resolve_top(k2),
{
    let m2 = m.kill_child(sk);
    if m.layers.len() > 0 {
        assert(m2.layers.drop_last() =~= m.layers.drop_last());
    }
}

proof fn lemma_resolve_child_kill(m: StoreModel, sk: Seq<u8>, sk2: Seq<u8>, k2: Seq<u8>)
    ensures
        m.kill_child(sk).resolve_child(sk2, k2) == if sk2 == sk {
            None
        } else {
            m.resolve_child(sk2, k2)
        },
{
    let m2 = m.kill_child(sk);
    if m.layers.len() > 0 {
        assert(m2.layers.drop_last() =~= m.layers.drop_last());
    }
}

// ---------------------------------------------------------------------------
// Writes
// ---------------------------------------------------------------------------

/// A top-level write is seen by every later read of that key, and changes
/// nothing else that reads see.
pub proof fn lemma_set_top_visible(m: StoreModel, k: Seq<u8>, v: Option<Seq<u8>>)
    ensures
        m.set_top(k, v).visible_top() == apply_write(m.visible_top(), k, v),
        forall|sk: Seq<u8>| #[trigger] m.set_top(k, v).visible_child(sk) == m.visible_child(sk),
{
    let m2 = m.set_top(k, v);
    assert forall|k2: Seq<u8>| #[trigger] m2.resolve_top(k2) == (if k2 == k {
        v
    } else {
        m.resolve_top(k2)
    }) by {
        lemma_resolve_top_set(m, k, v, k2);
    }
    assert(m2.visible_top() =~= apply_write(m.visible_top(), k, v));
    assert forall|sk: Seq<u8>| #[trigger] m2.visible_child(sk) == m.visible_child(sk) by {
        assert forall|k2: Seq<u8>| #[trigger] m2.resolve_child(sk, k2) == m.resolve_child(sk, k2) by {
            lemma_resolve_child_set_top(m, k, v, sk, k2);
        }
        assert(m2.visible_child(sk) =~= m.visible_child(sk));
    }
}

/// A write to a child storage is seen by every later read of that key in
/// that child, and changes nothing else that reads see.
pub proof fn lemma_set_child_visible(m: StoreModel, sk: Seq<u8>, k: Seq<u8>, v: Option<Seq<u8>>)
    ensures
        m.set_child(sk, k, v).visible_top() == m.visible_top(),
        m.set_child(sk, k, v).visible_child(sk) == apply_write(m.visible_child(sk), k, v),
        forall|sk2: Seq<u8>|
            sk2 != sk ==> #[trigger] m.set_child(sk, k, v).visible_child(sk2) == m.visible_child(sk2),
{
    let m2 = m.set_child(sk, k, v);
    assert forall|k2: Seq<u8>| #[trigger] m2.resolve_top(k2) == m.resolve_top(k2) by {
        lemma_resolve_top_set_child(m, sk, k, v, k2);
    }
    assert(m2.visible_top() =~= m.visible_top());
    assert forall|sk2: Seq<u8>, k2: Seq<u8>| #[trigger] m2.resolve_child(sk2, k2) == (if sk2 == sk
        && k2 == k {
        v
    } else {
        m.resolve_child(sk2, k2)
    }) by {
        lemma_resolve_child_set_child(m, sk, k, v, sk2, k2);
    }
    assert(m2.visible_child(sk) =~= apply_write(m.visible_child(sk), k, v));
    assert forall|sk2: Seq<u8>| sk2 != sk implies #[trigger] m2.visible_child(sk2) == m.visible_child(
        sk2,
    ) by {
        assert(m2.visible_child(sk2) =~= m.visible_child(sk2));
    }
}

/// Wiping a child storage empties it for every later read and changes
/// nothing else that reads see.
pub proof fn lemma_kill_child_visible(m: StoreModel, sk: Seq<u8>)
    ensures
        m.kill_child(sk).visible_top() == m.visible_top(),
        m.kill_child(sk).visible_child(sk) == Map::<Seq<u8>, Seq<u8>>::empty(),
        forall|sk2: Seq<u8>| sk2 != sk ==> #[trigger] m.kill_child(sk).visible_child(sk2) == m.visible_child(sk2),
{
    let m2 = m.kill_child(sk);
    assert forall|k2: Seq<u8>| #[trigger] m2.resolve_top(k2) == m.resolve_top(k2) by {
        lemma_resolve_top_kill(m, sk, k2);
    }
    assert(m2.visible_top() =~= m.visible_top());
    assert forall|sk2: Seq<u8>, k2: Seq<u8>| #[trigger] m2.resolve_child(sk2, k2) == (if sk2 == sk {
        None
    } else {
        m.resolve_child(sk2, k2)
    }) by {
        lemma_resolve_child_kill(m, sk, sk2, k2);
    }
    assert(m2.visible_child(sk) =~= Map::<Seq<u8>, Seq<u8>>::empty());
    assert forall|sk2: Seq<u8>| sk2 != sk implies #[trigger] m2.visible_child(sk2) == m.visible_child(
        sk2,
    ) by {
        assert(m2.visible_child(sk2) =~= m.visible_child(sk2));
    }
}

/// Deleting a set of top-level keys removes exactly those keys from what
/// reads see.
pub proof fn lemma_delete_top_keys_visible(m: StoreModel, keys: Set<Seq<u8>>)
    ensures
        m.delete_top_keys(keys).visible_top() == m.visible_top().remove_keys(keys),
        forall|sk: Seq<u8>| #[trigger] m.delete_top_keys(keys).visible_child(sk) == m.visible_child(sk),
{
    let m2 = m.delete_top_keys(keys);
    if m.layers.len() > 0 {
        assert(m2.layers.drop_last() =~= m.layers.drop_last());
    }
    assert forall|k: Seq<u8>| #[trigger] m2.resolve_top(k) == (if keys.contains(k) {
        None
    } else {
        m.resolve_top(k)
    }) by {}
    assert(m2.visible_top() =~= m.visible_top().remove_keys(keys));
    assert forall|sk: Seq<u8>| #[trigger] m2.visible_child(sk) == m.visible_child(sk) by {
        assert forall|k: Seq<u8>| #[trigger] m2.resolve_child(sk, k) == m.resolve_child(sk, k) by {}
        assert(m2.visible_child(sk) =~= m.visible_child(sk));
    }
}

/// Deleting a set of keys of one child storage removes exactly those keys
/// from what reads of that child see, and changes nothing else.
pub proof fn lemma_delete_child_keys_visible(m: StoreModel, sk: Seq<u8>, keys: Set<Seq<u8>>)
    ensures
        m.delete_child_keys(sk, keys).visible_top() == m.visible_top(),
        m.delete_child_keys(sk, keys).visible_child(sk) == m.visible_child(sk).remove_keys(keys),
        forall|sk2: Seq<u8>|
            sk2 != sk ==> #[trigger] m.delete_child_keys(sk, keys).visible_child(sk2)
                == m.visible_child(sk2),
{
    let m2 = m.delete_child_keys(sk, keys);
    if m.layers.len() > 0 {
        assert(m2.layers.drop_last() =~= m.layers.drop_last());
    }
    assert forall|k: Seq<u8>| #[trigger] m2.resolve_top(k) == m.resolve_top(k) by {}
    assert(m2.visible_top() =~= m.visible_top());
    assert forall|sk2: Seq<u8>, k: Seq<u8>| #[trigger] m2.resolve_child(sk2, k) == (if sk2 == sk
        && keys.contains(k) {
        None
    } else {
        m.resolve_child(sk2, k)
    }) by {
        if keys == Set::<Seq<u8>>::empty() {
            assert(!keys.contains(k));
        }
    }
    assert(m2.visible_child(sk) =~= m.visible_child(sk).remove_keys(keys));
    assert forall|sk2: Seq<u8>| sk2 != sk implies #[trigger] m2.visible_child(sk2) == m.visible_child(
        sk2,
    ) by {
        assert(m2.visible_child(sk2) =~= m.visible_child(sk2));
    }
}

/// Appending to a stored vector is seen by every later read of that key
/// and changes nothing else that reads see.
pub proof fn lemma_append_visible(m: StoreModel, k: Seq<u8>, element: Seq<u8>)
    ensures
        m.append(k, element).visible_top() == m.visible_top().insert(
            k,
            crate::compact::appended(
                if m.visible_top().contains_key(k) {
                    m.visible_top()[k]
                } else {
                    Seq::empty()
                },
                element,
            ),
        ),
        forall|sk: Seq<u8>| #[trigger] m.append(k, element).visible_child(sk) == m.visible_child(sk),
{
    let current = match m.resolve_top(k) {
        Some(v) => v,
        None => Seq::empty(),
    };
    lemma_set_top_visible(m, k, Some(crate::compact::appended(current, element)));
}

// ---------------------------------------------------------------------------
// Transactions
// ---------------------------------------------------------------------------

/// Opening a transaction changes nothing that reads see, and rolling it back
/// right away gives back the store as it was.
pub proof fn lemma_start_transaction(m: StoreModel)
    ensures
        m.start().visible_top() == m.visible_top(),
        forall|sk: Seq<u8>| #[trigger] m.start().visible_child(sk) == m.visible_child(sk),
        m.start().rollback() == m,
{
    let m2 = m.start();
    assert(m2.layers.drop_last() =~= m.layers);
    assert forall|k: Seq<u8>| #[trigger] m2.resolve_top(k) == m.resolve_top(k) by {}
    assert(m2.visible_top() =~= m.visible_top());
    assert forall|sk: Seq<u8>| #[trigger] m2.visible_child(sk) == m.visible_child(sk) by {
        assert forall|k: Seq<u8>| #[trigger] m2.resolve_child(sk, k) == m.resolve_child(sk, k) by {}
        assert(m2.visible_child(sk) =~= m.visible_child(sk));
    }
}

/// `after` differs from `before` at most in the innermost layer: the
/// committed maps and every outer layer are untouched.
pub open spec fn confined(before: StoreModel, after: StoreModel) -> bool {
    &&& after.top == before.top
    &&& after.children == before.children
    &&& after.layers.len() == before.layers.len()
    &&& after.layers.drop_last() == before.layers.drop_last()
}

/// While a transaction is open, every write, deletion, wipe and append only
/// touches the innermost layer.
pub proof fn lemma_writes_confined(
    m: StoreModel,
    k: Seq<u8>,
    v: Option<Seq<u8>>,
    sk: Seq<u8>,
    keys: Set<Seq<u8>>,
    element: Seq<u8>,
)
    requires
        m.layers.len() > 0,
    ensures
        confined(m, m.set_top(k, v)),
        confined(m, m.set_child(sk, k, v)),
        confined(m, m.kill_child(sk)),
        confined(m, m.delete_top_keys(keys)),
        confined(m, m.delete_child_keys(sk, keys)),
        confined(m, m.append(k, element)),
{
    assert(m.set_top(k, v).layers.drop_last() =~= m.layers.drop_last());
    assert(m.set_child(sk, k, v).layers.drop_last() =~= m.layers.drop_last());
    assert(m.kill_child(sk).layers.drop_last() =~= m.layers.drop_last());
    assert(m.delete_top_keys(keys).layers.drop_last() =~= m.layers.drop_last());
    assert(m.delete_child_keys(sk, keys).layers.drop_last() =~= m.layers.drop_last());
    let current = match m.resolve_top(k) {
        Some(x) => x,
        None => Seq::empty(),
    };
    assert(m.set_top(k, Some(crate::compact::appended(current, element))).layers.drop_last()
        =~= m.layers.drop_last());
}

/// Confinement composes over a sequence of operations.
pub proof fn lemma_confined_transitive(a: StoreModel, b: StoreModel, c: StoreModel)
    requires
        confined(a, b),
        confined(b, c),
    ensures
        confined(a, c),
{
}

/// Rolling back drops exactly what was done since the matching start: any
/// store reached from `before.start()` by operations confined to the new
/// layer rolls back to `before`.
pub proof fn lemma_rollback_restores(before: StoreModel, after: StoreModel)
    requires
        confined(before.start(), after),
    ensures
        after.rollback() == before,
{
    assert(before.start().layers.drop_last() =~= before.layers);
    assert(after.rollback().layers =~= before.layers);
}

/// An operation on the store, as the store's functions perform it.
pub enum StoreOp {
    SetTop(Seq<u8>, Option<Seq<u8>>),
    SetChild(Seq<u8>, Seq<u8>, Option<Seq<u8>>),
    KillChild(Seq<u8>),
    DeleteTopKeys(Set<Seq<u8>>),
    DeleteChildKeys(Seq<u8>, Set<Seq<u8>>),
    Append(Seq<u8>, Seq<u8>),
    Start,
    Commit,
    Rollback,
}

/// The store after `op`; a commit or rollback with no transaction open
/// fails and changes nothing.
pub open spec fn apply_op(m: StoreModel, op: StoreOp) -> StoreModel {
    match op {
        StoreOp::SetTop(k, v) => m.set_top(k, v),
        StoreOp::SetChild(sk, k, v) => m.set_child(sk, k, v),
        StoreOp::KillChild(sk) => m.kill_child(sk),
        StoreOp::DeleteTopKeys(keys) => m.delete_top_keys(keys),
        StoreOp::DeleteChildKeys(sk, keys) => m.delete_child_keys(sk, keys),
        StoreOp::Append(k, e) => m.append(k, e),
        StoreOp::Start => m.start(),
        StoreOp::Commit => if m.layers.len() > 0 {
            m.commit()
        } else {
            m
        },
        StoreOp::Rollback => if m.layers.len() > 0 {
            m.rollback()
        } else {
            m
        },
    }
}

/// The store after `ops`, in order.
pub open spec fn run_ops(m: StoreModel, ops: Seq<StoreOp>) -> StoreModel
    decreases ops.len(),
{
    if ops.len() == 0 {
        m
    } else {
        run_ops(apply_op(m, ops[0]), ops.drop_first())
    }
}

/// With `depth` transactions of their own already open, `ops` never commit
/// or roll back more transactions than they opened, and close all of them.
pub open spec fn balanced(ops: Seq<StoreOp>, depth: nat) -> bool
    decreases ops.len(),
{
    if ops.len() == 0 {
        depth == 0
    } else {
        match ops[0] {
            StoreOp::Start => balanced(ops.drop_first(), depth + 1),
            StoreOp::Commit => depth > 0 && balanced(ops.drop_first(), (depth - 1) as nat),
            StoreOp::Rollback => depth > 0 && balanced(ops.drop_first(), (depth - 1) as nat),
            _ => balanced(ops.drop_first(), depth),
        }
    }
}

/// `s` keeps the committed maps and the first `n` layers of `m`.
spec fn keeps_outer(m: StoreModel, n: nat, s: StoreModel) -> bool {
    &&& s.top == m.top
    &&& s.children == m.children
    &&& s.layers.len() >= n
    &&& s.layers.take(n as int) == m.layers
}

proof fn lemma_apply_op_keeps_outer(m: StoreModel, n: nat, s: StoreModel, op: StoreOp)
    requires
        m.layers.len() == n,
        keeps_outer(m, n, s),
        s.layers.len() > n,
        (op is Commit || op is Rollback) ==> s.layers.len() > n + 1,
    ensures
        keeps_outer(m, n, apply_op(s, op)),
        apply_op(s, op).layers.len() == match op {
            StoreOp::Start => (s.layers.len() + 1) as int,
            StoreOp::Commit => s.layers.len() - 1,
            StoreOp::Rollback => s.layers.len() - 1,
            _ => s.layers.len() as int,
        },
{
    let s2 = apply_op(s, op);
    match op {
        StoreOp::Start => {
            assert(s2.layers.take(n as int) =~= s.layers.take(n as int));
        },
        StoreOp::Commit => {
            let rest = s.layers.drop_last();
            assert(s2.layers.take(n as int) =~= s.layers.take(n as int));
        },
        StoreOp::Rollback => {
            assert(s2.layers.take(n as int) =~= s.layers.take(n as int));
        },
        StoreOp::SetTop(k, v) => {
            lemma_writes_confined(s, k, v, Seq::empty(), Set::empty(), Seq::empty());
            assert(s2.layers.take(n as int) =~= s2.layers.drop_last().take(n as int));
            assert(s.layers.take(n as int) =~= s.layers.drop_last().take(n as int));
        },
        StoreOp::SetChild(sk, k, v) => {
            lemma_writes_confined(s, k, v, sk, Set::empty(), Seq::empty());
            assert(s2.layers.take(n as int) =~= s2.layers.drop_last().take(n as int));
            assert(s.layers.take(n as int) =~= s.layers.drop_last().take(n as int));
        },
        StoreOp::KillChild(sk) => {
            lemma_writes_confined(s, Seq::empty(), None, sk, Set::empty(), Seq::empty());
            assert(s2.layers.take(n as int) =~= s2.layers.drop_last().take(n as int));
            assert(s.layers.take(n as int) =~= s.layers.drop_last().take(n as int));
        },
        StoreOp::DeleteTopKeys(keys) => {
            lemma_writes_confined(s, Seq::empty(), None, Seq::empty(), keys, Seq::empty());
            assert(s2.layers.take(n as int) =~= s2.layers.drop_last().take(n as int));
            assert(s.layers.take(n as int) =~= s.layers.drop_last().take(n as int));
        },
        StoreOp::DeleteChildKeys(sk, keys) => {
            lemma_writes_confined(s, Seq::empty(), None, sk, keys, Seq::empty());
            assert(s2.layers.take(n as int) =~= s2.layers.drop_last().take(n as int));
            assert(s.layers.take(n as int) =~= s.layers.drop_last().take(n as int));
        },
        StoreOp::Append(k, e) => {
            lemma_writes_confined(s, k, None, Seq::empty(), Set::empty(), e);
            assert(s2.layers.take(n as int) =~= s2.layers.drop_last().take(n as int));
            assert(s.layers.take(n as int) =~= s.layers.drop_last().take(n as int));
        },
    }
}

proof fn lemma_run_ops_keeps_outer(m: StoreModel, s: StoreModel, ops: Seq<StoreOp>, depth: nat)
    requires
        keeps_outer(m, m.layers.len(), s),
        s.layers.len() == m.layers.len() + 1 + depth,
        balanced(ops, depth),
    ensures
        keeps_outer(m, m.layers.len(), run_ops(s, ops)),
        run_ops(s, ops).layers.len() == m.layers.len() + 1,
    decreases ops.len(),
{
    if ops.len() > 0 {
        let op = ops[0];
        lemma_apply_op_keeps_outer(m, m.layers.len(), s, op);
        let d2: nat = match op {
            StoreOp::Start => depth + 1,
            StoreOp::Commit => (depth - 1) as nat,
            StoreOp::Rollback => (depth - 1) as nat,
            _ => depth,
        };
        lemma_run_ops_keeps_outer(m, apply_op(s, op), ops.drop_first(), d2);
    }
}

/// Rolling back a transaction undoes everything done inside it, nested
/// transactions included: whatever balanced sequence of writes, deletions,
/// wipes, appends, starts, commits and rollbacks ran after a start, rolling
/// back then gives the store as it was before the start.
pub proof fn lemma_rollback_undoes_nested(m: StoreModel, ops: Seq<StoreOp>)
    requires
        balanced(ops, 0),
    ensures
        run_ops(m.start(), ops).layers.len() == m.layers.len() + 1,
        run_ops(m.start(), ops).rollback() == m,
{
    let s = m.start();
    assert(s.layers.take(m.layers.len() as int) =~= m.layers);
    lemma_run_ops_keeps_outer(m, s, ops, 0);
    let t = run_ops(s, ops);
    assert(t.layers.drop_last() =~= t.layers.take(m.layers.len() as int));
    assert(t.rollback().layers =~= m.layers);
}

proof fn lemma_commit_resolve_top(m: StoreModel, k: Seq<u8>)
    requires
        m.layers.len() > 0,
    ensures
        m.commit().resolve_top(k) == m.resolve_top(k),
{
    let rest = m.layers.drop_last();
    let m2 = m.commit();
    reveal_with_fuel(resolve_top_in, 2);
    if rest.len() > 0 {
        assert(m2.layers.drop_last() =~= rest.drop_last());
        assert(m2.layers.last() == merge_layers(rest.last(), m.layers.last()));
    } else {
        assert(m.layers.drop_last() =~= Seq::<LayerModel>::empty());
    }
}

proof fn lemma_commit_resolve_child(m: StoreModel, sk: Seq<u8>, k: Seq<u8>)
    requires
        m.layers.len() > 0,
    ensures
        m.commit().resolve_child(sk, k) == m.resolve_child(sk, k),
{
    let rest = m.layers.drop_last();
    let m2 = m.commit();
    let above = m.layers.last();
    reveal_with_fuel(resolve_child_in, 2);
    if rest.len() > 0 {
        assert(m2.layers.drop_last() =~= rest.drop_last());
        assert(m2.layers.last() == merge_layers(rest.last(), above));
        if above.children.contains_key(sk) && !above.children[sk].writes.contains_key(k)
            && !above.children[sk].killed {
            let below = rest.last();
            if below.children.contains_key(sk) {
            } else {
                assert(!m2.layers.last().children[sk].writes.contains_key(k));
            }
        }
    } else {
        assert(m.layers.drop_last() =~= Seq::<LayerModel>::empty());
        if above.children.contains_key(sk) {
            let c = above.children[sk];
            if c.writes.contains_key(k) {
                assert(c.writes.dom() != Set::<Seq<u8>>::empty());
            }
        }
    }
}

/// Committing a transaction changes nothing that reads see.
pub proof fn lemma_commit_visible(m: StoreModel)
    requires
        m.layers.len() > 0,
    ensures
        m.commit().visible_top() == m.visible_top(),
        forall|sk: Seq<u8>| #[trigger] m.commit().visible_child(sk) == m.visible_child(sk),
        m.commit().layers.len() == m.layers.len() - 1,
{
    let m2 = m.commit();
    assert forall|k: Seq<u8>| #[trigger] m2.resolve_top(k) == m.resolve_top(k) by {
        lemma_commit_resolve_top(m, k);
    }
    assert(m2.visible_top() =~= m.visible_top());
    assert forall|sk: Seq<u8>| #[trigger] m2.visible_child(sk) == m.visible_child(sk) by {
        assert forall|k: Seq<u8>| #[trigger] m2.resolve_child(sk, k) == m.resolve_child(sk, k) by {
            lemma_commit_resolve_child(m, sk, k);
        }
        assert(m2.visible_child(sk) =~= m.visible_child(sk));
    }
}

// ---------------------------------------------------------------------------
// Flushing every layer
// ---------------------------------------------------------------------------

proof fn lemma_merge_bottom_top(
    base: Map<Seq<u8>, Seq<u8>>,
    l: LayerModel,
    upper: Seq<LayerModel>,
    k: Seq<u8>,
)
    ensures
        resolve_top_in(merge_top_into(base, l.top), upper, k) == resolve_top_in(
            base,
            seq![l] + upper,
            k,
        ),
    decreases upper.len(),
{
    reveal_with_fuel(resolve_top_in, 2);
    if upper.len() > 0 {
        assert((seq![l] + upper).drop_last() =~= seq![l] + upper.drop_last());
        assert((seq![l] + upper).last() == upper.last());
        lemma_merge_bottom_top(base, l, upper.drop_last(), k);
    } else {
        assert((seq![l] + upper).drop_last() =~= Seq::<LayerModel>::empty());
        assert((seq![l] + upper).last() == l);
    }
}

proof fn lemma_merge_bottom_child(
    base: Map<Seq<u8>, ChildModel>,
    l: LayerModel,
    upper: Seq<LayerModel>,
    sk: Seq<u8>,
    k: Seq<u8>,
)
    ensures
        resolve_child_in(merge_children_into(base, l.children), upper, sk, k) == resolve_child_in(
            base,
            seq![l] + upper,
            sk,
            k,
        ),
    decreases upper.len(),
{
    reveal_with_fuel(resolve_child_in, 2);
    if upper.len() > 0 {
        assert((seq![l] + upper).drop_last() =~= seq![l] + upper.drop_last());
        assert((seq![l] + upper).last() == upper.last());
        lemma_merge_bottom_child(base, l, upper.drop_last(), sk, k);
    } else {
        assert((seq![l] + upper).drop_last() =~= Seq::<LayerModel>::empty());
        assert((seq![l] + upper).last() == l);
        if l.children.contains_key(sk) {
            let c = l.children[sk];
            if c.writes.contains_key(k) {
                assert(c.writes.dom() != Set::<Seq<u8>>::empty());
            }
        }
    }
}

proof fn lemma_flush_layers(
    top: Map<Seq<u8>, Seq<u8>>,
    children: Map<Seq<u8>, ChildModel>,
    layers: Seq<LayerModel>,
    sk: Seq<u8>,
    k: Seq<u8>,
)
    ensures
        ({
            let (t, c) = flush_layers(top, children, layers);
            &&& (if t.contains_key(k) {
                Some(t[k])
            } else {
                None
            }) == resolve_top_in(top, layers, k)
            &&& base_child_value(c, sk, k) == resolve_child_in(children, layers, sk, k)
        }),
    decreases layers.len(),
{
    if layers.len() > 0 {
        let l = layers[0];
        let rest = layers.drop_first();
        lemma_flush_layers(
            merge_top_into(top, l.top),
            merge_children_into(children, l.children),
            rest,
            sk,
            k,
        );
        lemma_merge_bottom_top(top, l, rest, k);
        lemma_merge_bottom_child(children, l, rest, sk, k);
        assert(seq![l] + rest =~= layers);
    }
}

/// Folding every open layer into the committed maps yields exactly what
/// reads see.
pub proof fn lemma_flush_visible(m: StoreModel)
    ensures
        m.flush().0 == m.visible_top(),
        forall|sk: Seq<u8>, k: Seq<u8>| #[trigger]
            base_child_value(m.flush().1, sk, k) == m.resolve_child(sk, k),
{
    assert forall|k: Seq<u8>| #[trigger]
        m.flush().0.contains_key(k) == m.visible_top().contains_key(k) && (m.flush().0.contains_key(k)
            ==> m.flush().0[k] == m.visible_top()[k]) by {
        lemma_flush_layers(m.top, m.children, m.layers, Seq::empty(), k);
    }
    assert(m.flush().0 =~= m.visible_top());
    assert forall|sk: Seq<u8>, k: Seq<u8>| #[trigger]
        base_child_value(m.flush().1, sk, k) == m.resolve_child(sk, k) by {
        lemma_flush_layers(m.top, m.children, m.layers, sk, k);
    }
}


proof fn lemma_merge_top_twice(
    t: Map<Seq<u8>, Seq<u8>>,
    a: Map<Seq<u8>, Option<Seq<u8>>>,
    b: Map<Seq<u8>, Option<Seq<u8>>>,
)
    ensures
        merge_top_into(merge_top_into(t, a), b) == merge_top_into(t, a.union_prefer_right(b)),
{
    assert(merge_top_into(merge_top_into(t, a), b) =~= merge_top_into(t, a.union_prefer_right(b)));
}

proof fn lemma_merge_child_twice(
    base: Option<ChildModel>,
    sk: Seq<u8>,
    ca: crate::model::ChildLayerModel,
    cb: crate::model::ChildLayerModel,
)
    ensures
        crate::model::merge_child_into(crate::model::merge_child_into(base, sk, ca), sk, cb)
            == crate::model::merge_child_into(base, sk, crate::model::merge_child_layer(ca, cb)),
{
    let e = Map::<Seq<u8>, Option<Seq<u8>>>::empty();
    let c = crate::model::merge_child_layer(ca, cb);
    let empty = Set::<Seq<u8>>::empty();
    if cb.killed {
        assert(c.writes =~= cb.writes);
    } else {
        let kept = if ca.killed {
            None
        } else {
            base
        };
        let kd = match kept {
            Some(x) => x.data,
            None => Map::<Seq<u8>, Seq<u8>>::empty(),
        };
        lemma_merge_top_twice(kd, ca.writes, cb.writes);
        if ca.writes.dom() == empty {
            assert(ca.writes =~= e);
            assert(c.writes =~= cb.writes);
        } else {
            assert(c.writes.dom() != empty) by {
                assert(exists|k: Seq<u8>| ca.writes.dom().contains(k)) by {
                    if !(exists|k: Seq<u8>| ca.writes.dom().contains(k)) {
                        assert(ca.writes.dom() =~= empty);
                    }
                }
                let k0 = choose|k: Seq<u8>| ca.writes.dom().contains(k);
                assert(c.writes.dom().contains(k0));
            }
            if cb.writes.dom() == empty {
                assert(cb.writes =~= e);
                assert(c.writes =~= ca.writes);
            }
        }
    }
}

proof fn lemma_merge_children_twice(
    base: Map<Seq<u8>, ChildModel>,
    a: Map<Seq<u8>, crate::model::ChildLayerModel>,
    b: Map<Seq<u8>, crate::model::ChildLayerModel>,
)
    ensures
        merge_children_into(merge_children_into(base, a), b) == merge_children_into(
            base,
            crate::model::merge_child_layer_maps(a, b),
        ),
{
    let lhs = merge_children_into(merge_children_into(base, a), b);
    let ab = crate::model::merge_child_layer_maps(a, b);
    let rhs = merge_children_into(base, ab);
    assert forall|sk: Seq<u8>| #[trigger]
        crate::model::merged_child(merge_children_into(base, a), b, sk) == crate::model::merged_child(base, ab, sk) by {
        let inner = merge_children_into(base, a);
        assert(crate::model::child_entry(inner, sk) == crate::model::merged_child(base, a, sk));
        if b.contains_key(sk) {
            if a.contains_key(sk) {
                lemma_merge_child_twice(crate::model::child_entry(base, sk), sk, a[sk], b[sk]);
            } else {
                let f = crate::model::fresh_child_layer();
                assert(crate::model::merge_child_layer(f, b[sk]).writes =~= b[sk].writes);
                assert(crate::model::merge_child_layer(f, b[sk]) == b[sk]);
            }
        }
    }
    assert(lhs =~= rhs);
}

proof fn lemma_flush_last_two(
    top: Map<Seq<u8>, Seq<u8>>,
    children: Map<Seq<u8>, ChildModel>,
    below: Seq<LayerModel>,
    a: LayerModel,
    b: LayerModel,
)
    ensures
        flush_layers(top, children, below + seq![a, b]) == flush_layers(
            top,
            children,
            below + seq![merge_layers(a, b)],
        ),
    decreases below.len(),
{
    if below.len() == 0 {
        reveal_with_fuel(flush_layers, 3);
        assert(below + seq![a, b] =~= seq![a, b]);
        assert(below + seq![merge_layers(a, b)] =~= seq![merge_layers(a, b)]);
        assert(seq![a, b].drop_first() =~= seq![b]);
        assert(seq![b].drop_first() =~= Seq::<LayerModel>::empty());
        assert(seq![merge_layers(a, b)].drop_first() =~= Seq::<LayerModel>::empty());
        lemma_merge_top_twice(top, a.top, b.top);
        lemma_merge_children_twice(children, a.children, b.children);
    } else {
        let l = below[0];
        assert((below + seq![a, b]).drop_first() =~= below.drop_first() + seq![a, b]);
        assert((below + seq![merge_layers(a, b)]).drop_first() =~= below.drop_first() + seq![merge_layers(a, b)]);
        lemma_flush_last_two(
            merge_top_into(top, l.top),
            merge_children_into(children, l.children),
            below.drop_first(),
            a,
            b,
        );
    }
}

/// Flushing the open layers into committed storage gives the same snapshot
/// as committing the innermost transaction first and then flushing.
pub proof fn lemma_flush_as_if_committed(m: StoreModel)
    requires
        m.layers.len() > 0,
    ensures
        m.commit().flush() == m.flush(),
{
    let n = m.layers.len();
    if n == 1 {
        assert(m.layers.drop_first() =~= Seq::<LayerModel>::empty());
    } else {
        let rest = m.layers.drop_last();
        let below = rest.drop_last();
        let a = rest.last();
        let b = m.layers.last();
        assert(m.layers =~= below + seq![a, b]);
        assert(m.commit().layers =~= below + seq![merge_layers(a, b)]);
        lemma_flush_last_two(m.top, m.children, below, a, b);
    }
}

/// The store after committing its `d` innermost transactions.
pub open spec fn commit_times(m: StoreModel, d: nat) -> StoreModel
    decreases d,
{
    if d == 0 {
        m
    } else {
        commit_times(m.commit(), (d - 1) as nat)
    }
}

/// Open transactions are flushed bottom-up as if they had been committed:
/// committing any number of the open transactions first leaves the flushed
/// snapshot as it was, and committing all of them leaves no open
/// transaction and the snapshot as the committed maps.
pub proof fn lemma_flush_after_commits(m: StoreModel, d: nat)
    requires
        d <= m.layers.len(),
    ensures
        commit_times(m, d).flush() == m.flush(),
        commit_times(m, d).layers.len() == m.layers.len() - d,
        d == m.layers.len() ==> m.flush() == (commit_times(m, d).top, commit_times(m, d).children),
    decreases d,
{
    if d > 0 {
        lemma_flush_as_if_committed(m);
        assert(m.commit().layers.len() == m.layers.len() - 1) by {
            if m.layers.len() > 1 {
            }
        }
        lemma_flush_after_commits(m.commit(), (d - 1) as nat);
    }
}

/// There is only one least visible key after a given key, so the result of
/// `next_storage_key` is fully determined.
pub proof fn lemma_least_key_unique(keys: Set<Seq<u8>>, key: Seq<u8>, r1: Seq<u8>, r2: Seq<u8>)
    requires
        keys.contains(r1),
        keys.contains(r2),
        crate::bytes::lex_lt(key, r1),
        crate::bytes::lex_lt(key, r2),
        forall|k: Seq<u8>| #[trigger] keys.contains(k) && crate::bytes::lex_lt(key, k) ==> !crate::bytes::lex_lt(k, r1),
        forall|k: Seq<u8>| #[trigger] keys.contains(k) && crate::bytes::lex_lt(key, k) ==> !crate::bytes::lex_lt(k, r2),
    ensures
        r1 == r2,
{
    crate::bytes::lemma_lex_total(r1, r2);
}

} // verus!
