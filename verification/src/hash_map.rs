//! The wait-free hash trie map. Keys are finalized 64-bit hash values (the
//! design hashes with an externally supplied hasher before the trie is
//! touched); values are opaque payloads. The trie routes a key at depth `d`
//! by bits `[6d, 6d + 6)`, interior nodes have fanout 64, and a collision of
//! two distinct keys at a cell is resolved by expansion: the resident leaf is
//! pushed one level down into a fresh interior node. Every operation's effect
//! on the key's lookup — and on every other key's — is stated and proved.

use vstd::prelude::*;

use crate::atomic_markable::{ArrayNode, DataNode, Node};
use crate::hazard::HPBRManager;

verus! {

/// The 6-bit slice of a key that routes it at level `l`.
pub open spec fn chunk(h: u64, l: u64) -> u64
    recommends
        l <= 10,
{
    (h >> ((6 * l) as u64)) & 63
}

/// The value a key resolves to from a cell whose own routing consumed the
/// first `l` chunks of the key: descend through interior nodes along the
/// key's chunks, and at a leaf compare the full key.
pub open spec fn cell_get<V>(cell: Option<Box<Node<V>>>, h: u64, l: u64) -> Option<V>
    decreases 11int - l,
{
    match cell {
        None => None,
        Some(node) => match *node {
            Node::Data(d) => if d.key == h {
                d.value
            } else {
                None
            },
            Node::Array(a) => if 1 <= l <= 10 && a.array@.len() == 64 {
                cell_get(a.array@[chunk(h, l) as int], h, (l + 1) as u64)
            } else {
                None
            },
        },
    }
}

/// Well-formedness of a cell sitting at the end of routing path `path`: a
/// leaf's key agrees with the path chunk by chunk and carries a payload; an
/// interior node has fanout 64, sits at depth at most 10, and each child is
/// well formed one level deeper.
pub open spec fn wf_cell<V>(cell: Option<Box<Node<V>>>, path: Seq<u64>) -> bool
    decreases 11int - path.len(),
{
    match cell {
        None => true,
        Some(node) => match *node {
            Node::Data(d) => d.value is Some && forall|i: int|
                0 <= i < path.len() ==> #[trigger] path[i] == chunk(d.key, i as u64),
            Node::Array(a) => 1 <= path.len() <= 10 && a.array@.len() == 64 && forall|j: int|
                0 <= j < 64 ==> wf_cell(#[trigger] a.array@[j], path.push(j as u64)),
        },
    }
}

/// A routing chunk is always a 6-bit value.
pub proof fn lemma_chunk_bound(h: u64, l: u64)
    ensures
        chunk(h, l) < 64,
{
    let amt = (6 * l) as u64;
    assert((h >> amt) & 63 < 64) by (bit_vector);
}

/// Two keys that agree on all eleven routing chunks are equal: the chunks
/// cover all 64 key bits.
pub proof fn lemma_chunks_determine(g: u64, h: u64)
    requires
        forall|i: u64| i < 11 ==> #[trigger] chunk(g, i) == chunk(h, i),
    ensures
        g == h,
{
    assert(chunk(g, 0) == chunk(h, 0));
    assert(chunk(g, 1) == chunk(h, 1));
    assert(chunk(g, 2) == chunk(h, 2));
    assert(chunk(g, 3) == chunk(h, 3));
    assert(chunk(g, 4) == chunk(h, 4));
    assert(chunk(g, 5) == chunk(h, 5));
    assert(chunk(g, 6) == chunk(h, 6));
    assert(chunk(g, 7) == chunk(h, 7));
    assert(chunk(g, 8) == chunk(h, 8));
    assert(chunk(g, 9) == chunk(h, 9));
    assert(chunk(g, 10) == chunk(h, 10));
    assert(g == h) by (bit_vector)
        requires
            (g >> 0u64) & 63 == (h >> 0u64) & 63,
            (g >> 6u64) & 63 == (h >> 6u64) & 63,
            (g >> 12u64) & 63 == (h >> 12u64) & 63,
            (g >> 18u64) & 63 == (h >> 18u64) & 63,
            (g >> 24u64) & 63 == (h >> 24u64) & 63,
            (g >> 30u64) & 63 == (h >> 30u64) & 63,
            (g >> 36u64) & 63 == (h >> 36u64) & 63,
            (g >> 42u64) & 63 == (h >> 42u64) & 63,
            (g >> 48u64) & 63 == (h >> 48u64) & 63,
            (g >> 54u64) & 63 == (h >> 54u64) & 63,
            (g >> 60u64) & 63 == (h >> 60u64) & 63,
    ;
}

/// Computes the routing chunk of `h` at level `l`.
fn position(h: u64, l: u64) -> (r: u64)
    requires
        l <= 10,
    ensures
        r == chunk(h, l),
        r < 64,
{
    let amt: u64 = 6 * l;
    let r = (h >> amt) & 63;
    proof {
        assert((h >> amt) & 63 < 64) by (bit_vector);
    }
    r
}

/// The wait-free hash trie map. The head is a fanout-64 level of cells; every
/// edge below it is a cell holding either a data leaf or an immortal array
/// interior.
pub struct HashMap<V> {
    head: Vec<Option<Box<Node<V>>>>,
    head_size: usize,
    shift_step: usize,
    /// The reclamation component that the concurrent design retires replaced
    /// leaves through; with the trie owned, leaves return to the allocator
    /// directly, and the manager's own contract is verified on its own.
    manager: HPBRManager,
}

impl<V> HashMap<V> {
    /// Structural well-formedness: a 64-cell head whose trees route keys
    /// consistently with their position.
    pub closed spec fn wf(self) -> bool {
        &&& self.head@.len() == 64
        &&& self.head_size == 64
        &&& self.shift_step == 6
        &&& forall|j: int| 0 <= j < 64 ==> wf_cell(#[trigger] self.head@[j], seq![j as u64])
    }

    /// The value the map associates with key `h`.
    pub closed spec fn spec_get(self, h: u64) -> Option<V> {
        cell_get(self.head@[chunk(h, 0) as int], h, 1)
    }

    /// A fresh map with the default head size, associating nothing.
    pub fn new() -> (r: Self)
        ensures
            r.wf(),
            forall|h: u64| r.spec_get(h) is None,
    {
        let mut head: Vec<Option<Box<Node<V>>>> = Vec::new();
        let mut i: usize = 0;
        while i < 64
            invariant
                i <= 64,
                head@.len() == i,
                forall|j: int| 0 <= j < i ==> head@[j] is None,
            decreases 64 - i,
        {
            head.push(None);
            i = i + 1;
        }
        let r = HashMap { head, head_size: 64, shift_step: 6, manager: HPBRManager::new(100, 1) };
        proof {
            assert forall|h: u64| r.spec_get(h) is None by {
                lemma_chunk_bound(h, 0);
            }
        }
        r
    }

    /// Publishes a fresh data leaf into an empty cell (the CAS of a new leaf
    /// over the observed empty word). A non-empty cell refuses the insert and
    /// hands the payload back.
    fn try_insert(position: &mut Option<Box<Node<V>>>, key: u64, value: V, Ghost(path): Ghost<
        Seq<u64>,
    >) -> (r: Result<(), V>)
        requires
            forall|i: int| 0 <= i < path.len() ==> #[trigger] path[i] == chunk(key, i as u64),
        ensures
            (*old(position)) is None ==> r == Ok::<(), V>(()) && wf_cell(*final(position), path) && (
            forall|x: u64, lv: u64|
                #[trigger] cell_get(*final(position), x, lv) == (if x == key {
                    Some(value)
                } else {
                    Option::<V>::None
                })),
            (*old(position)) is Some ==> r == Err::<(), V>(value) && *final(position) == *old(
                position,
            ),
    {
        if position.is_none() {
            *position = Some(Box::new(Node::Data(DataNode::new(key, value))));
            Ok(())
        } else {
            Err(value)
        }
    }

    /// Expansion: a data leaf is replaced by a fresh array interior whose
    /// slot for the leaf's own key at the next level already holds that leaf,
    /// so every key resolves through the interior exactly as it did at the
    /// leaf.
    fn expand_map(d: DataNode<V>, l: u64, Ghost(path): Ghost<Seq<u64>>) -> (r: ArrayNode<V>)
        requires
            1 <= l <= 10,
            path.len() == l,
            d.value is Some,
            forall|i: int| 0 <= i < path.len() ==> #[trigger] path[i] == chunk(d.key, i as u64),
        ensures
            r.array@.len() == 64,
            forall|j: int| 0 <= j < 64 ==> wf_cell(#[trigger] r.array@[j], path.push(j as u64)),
            forall|x: u64|
                #[trigger] cell_get(r.array@[chunk(x, l) as int], x, (l + 1) as u64) == (if x
                    == d.key {
                    d.value
                } else {
                    Option::<V>::None
                }),
    {
        let ghost gd = d;
        let mut array_node: ArrayNode<V> = ArrayNode::new(64);
        let new_pos = position(d.key, l);
        array_node.array[new_pos as usize] = Some(Box::new(Node::Data(d)));
        proof {
            assert forall|j: int| 0 <= j < 64 implies wf_cell(
                #[trigger] array_node.array@[j],
                path.push(j as u64),
            ) by {
                if j == new_pos {
                    let p2 = path.push(j as u64);
                    assert forall|i: int| 0 <= i < p2.len() implies #[trigger] p2[i] == chunk(
                        gd.key,
                        i as u64,
                    ) by {
                        if i < path.len() {
                            assert(p2[i] == path[i]);
                        }
                    }
                }
            }
            assert forall|x: u64|
                #[trigger] cell_get(array_node.array@[chunk(x, l) as int], x, (l + 1) as u64) == (
                if x == gd.key {
                    gd.value
                } else {
                    Option::<V>::None
                }) by {
                lemma_chunk_bound(x, l);
                lemma_chunk_bound(gd.key, l);
                if chunk(x, l) == chunk(gd.key, l) {
                    assert(array_node.array@[chunk(x, l) as int] == Some(
                        Box::new(Node::Data(gd)),
                    ));
                } else {
                    assert(x != gd.key);
                    assert(array_node.array@[chunk(x, l) as int] is None);
                }
            }
        }
        array_node
    }

    /// Inserts along the key's routing path, expanding a colliding leaf one
    /// level down, and fails exactly when the key is already present.
    fn cell_insert(cell: &mut Option<Box<Node<V>>>, h: u64, value: V, l: u64, Ghost(path): Ghost<
        Seq<u64>,
    >) -> (r: Result<(), V>)
        requires
            1 <= l <= 11,
            path.len() == l,
            wf_cell(*old(cell), path),
            forall|i: int| 0 <= i < path.len() ==> #[trigger] path[i] == chunk(h, i as u64),
        ensures
            wf_cell(*final(cell), path),
            (r is Ok) == (cell_get(*old(cell), h, l) is None),
            r is Ok ==> cell_get(*final(cell), h, l) == Some(value),
            r is Err ==> r == Err::<(), V>(value) && cell_get(*old(cell), h, l) is Some
                && cell_get(*final(cell), h, l) == cell_get(*old(cell), h, l),
            forall|x: u64|
                x != h ==> #[trigger] cell_get(*final(cell), x, l) == cell_get(*old(cell), x, l),
        decreases 11int - l,
    {
        let ghost pre = *old(cell);
        match cell.take() {
            None => Self::try_insert(cell, h, value, Ghost(path)),
            Some(boxed) => match *boxed {
                Node::Data(d) => {
                    if d.key == h {
                        *cell = Some(Box::new(Node::Data(DataNode { key: d.key, value: d.value })));
                        proof {
                            assert(*cell == pre);
                        }
                        Err(value)
                    } else {
                        let ghost gd = d;
                        proof {
                            assert(gd.value is Some);
                            if l == 11 {
                                assert forall|i: u64| i < 11 implies #[trigger] chunk(gd.key, i)
                                    == chunk(h, i) by {
                                    assert(path[i as int] == chunk(gd.key, i));
                                    assert(path[i as int] == chunk(h, i));
                                }
                                lemma_chunks_determine(gd.key, h);
                                assert(false);
                            }
                        }
                        let mut new_arr = Self::expand_map(d, l, Ghost(path));
                        let ghost arr0 = new_arr;
                        let pos = position(h, l);
                        proof {
                            let p2 = path.push(pos as u64);
                            assert forall|i: int| 0 <= i < p2.len() implies #[trigger] p2[i]
                                == chunk(h, i as u64) by {
                                if i < path.len() {
                                    assert(p2[i] == path[i]);
                                }
                            }
                        }
                        let ghost pre_child = new_arr.array@[pos as int];
                        let r2 = Self::cell_insert(
                            &mut new_arr.array[pos as usize],
                            h,
                            value,
                            (l + 1),
                            Ghost(path.push(pos as u64)),
                        );
                        let ghost arr_final = new_arr;
                        *cell = Some(Box::new(Node::Array(new_arr)));
                        proof {
                            // the key itself was absent at the old leaf and is now reachable
                            assert(cell_get(pre, h, l) is None);
                            assert(arr_final.array@ == arr0.array@.update(
                                pos as int,
                                arr_final.array@[pos as int],
                            ));
                            assert(cell_get(*cell, h, l) == cell_get(
                                arr_final.array@[chunk(h, l) as int],
                                h,
                                (l + 1) as u64,
                            ));
                            // well-formedness of the rebuilt interior
                            assert forall|j: int| 0 <= j < 64 implies wf_cell(
                                #[trigger] arr_final.array@[j],
                                path.push(j as u64),
                            ) by {
                                if j != pos {
                                    assert(arr_final.array@[j] == arr0.array@[j]);
                                }
                            }
                            // every other key resolves as it did at the old leaf
                            assert forall|x: u64| x != h implies #[trigger] cell_get(
                                *cell,
                                x,
                                l,
                            ) == cell_get(pre, x, l) by {
                                lemma_chunk_bound(x, l);
                                assert(cell_get(*cell, x, l) == cell_get(
                                    arr_final.array@[chunk(x, l) as int],
                                    x,
                                    (l + 1) as u64,
                                ));
                                if chunk(x, l) == pos {
                                    assert(cell_get(arr_final.array@[pos as int], x, (l
                                        + 1) as u64) == cell_get(pre_child, x, (l + 1) as u64));
                                } else {
                                    assert(arr_final.array@[chunk(x, l) as int] == arr0.array@[
                                        chunk(x, l) as int]);
                                }
                                assert(cell_get(arr0.array@[chunk(x, l) as int], x, (l
                                    + 1) as u64) == (if x == gd.key {
                                    gd.value
                                } else {
                                    Option::<V>::None
                                }));
                                assert(cell_get(pre, x, l) == (if x == gd.key {
                                    gd.value
                                } else {
                                    Option::<V>::None
                                }));
                            }
                        }
                        r2
                    }
                },
                Node::Array(mut a) => {
                    proof {
                        assert(1 <= path.len() <= 10 && a.array@.len() == 64);
                    }
                    let pos = position(h, l);
                    proof {
                        let p2 = path.push(pos as u64);
                        assert forall|i: int| 0 <= i < p2.len() implies #[trigger] p2[i] == chunk(
                            h,
                            i as u64,
                        ) by {
                            if i < path.len() {
                                assert(p2[i] == path[i]);
                            }
                        }
                    }
                    let ghost a_pre = a;
                    let r2 = Self::cell_insert(
                        &mut a.array[pos as usize],
                        h,
                        value,
                        (l + 1),
                        Ghost(path.push(pos as u64)),
                    );
                    let ghost a_final = a;
                    *cell = Some(Box::new(Node::Array(a)));
                    proof {
                        assert(a_final.array@ == a_pre.array@.update(
                            pos as int,
                            a_final.array@[pos as int],
                        ));
                        assert(cell_get(pre, h, l) == cell_get(
                            a_pre.array@[chunk(h, l) as int],
                            h,
                            (l + 1) as u64,
                        ));
                        assert(cell_get(*cell, h, l) == cell_get(
                            a_final.array@[chunk(h, l) as int],
                            h,
                            (l + 1) as u64,
                        ));
                        assert forall|j: int| 0 <= j < 64 implies wf_cell(
                            #[trigger] a_final.array@[j],
                            path.push(j as u64),
                        ) by {
                            if j != pos {
                                assert(a_final.array@[j] == a_pre.array@[j]);
                            }
                        }
                        assert forall|x: u64| x != h implies #[trigger] cell_get(
                            *cell,
                            x,
                            l,
                        ) == cell_get(pre, x, l) by {
                            lemma_chunk_bound(x, l);
                            assert(cell_get(pre, x, l) == cell_get(
                                a_pre.array@[chunk(x, l) as int],
                                x,
                                (l + 1) as u64,
                            ));
                            assert(cell_get(*cell, x, l) == cell_get(
                                a_final.array@[chunk(x, l) as int],
                                x,
                                (l + 1) as u64,
                            ));
                            if chunk(x, l) == pos {
                                assert(cell_get(a_final.array@[pos as int], x, (l + 1) as u64)
                                    == cell_get(a_pre.array@[pos as int], x, (l + 1) as u64));
                            } else {
                                assert(a_final.array@[chunk(x, l) as int] == a_pre.array@[chunk(
                                    x,
                                    l,
                                ) as int]);
                            }
                        }
                    }
                    r2
                },
            },
        }
    }

    /// Inserts a key/value pair. Fails — handing the pair back — exactly when
    /// the key is already present; on success the key resolves to the new
    /// value and every other key resolves as before.
    pub fn insert(&mut self, key: u64, value: V) -> (r: Result<(), (u64, V)>)
        requires
            old(self).wf(),
        ensures
            final(self).wf(),
            (r is Ok) == (old(self).spec_get(key) is None),
            r is Ok ==> final(self).spec_get(key) == Some(value),
            r is Err ==> r == Err::<(), (u64, V)>((key, value)) && old(self).spec_get(key) is Some
                && final(self).spec_get(key) == old(self).spec_get(key),
            forall|x: u64|
                x != key ==> #[trigger] final(self).spec_get(x) == old(self).spec_get(x),
    {
        let pos = position(key, 0);
        let ghost gpath: Seq<u64> = seq![pos as u64];
        proof {
            assert(gpath.len() == 1);
            assert(gpath[0] == chunk(key, 0));
        }
        let r = Self::cell_insert(
            &mut self.head[pos as usize],
            key,
            value,
            1,
            Ghost(gpath),
        );
        proof {
            assert(self.head@ == old(self).head@.update(
                pos as int,
                self.head@[pos as int],
            ));
            assert forall|x: u64| x != key implies #[trigger] self.spec_get(x) == old(
                self,
            ).spec_get(x) by {
                lemma_chunk_bound(x, 0);
                if chunk(x, 0) != pos {
                    assert(self.head@[chunk(x, 0) as int] == old(self).head@[chunk(
                        x,
                        0,
                    ) as int]);
                }
            }
        }
        match r {
            Ok(()) => Ok(()),
            Err(v) => Err((key, v)),
        }
    }

    /// Removes along the key's routing path: a matching leaf is unlinked (the
    /// CAS of the leaf to empty, followed by retirement) and its payload
    /// handed back; every other key resolves as before.
    fn cell_remove(cell: &mut Option<Box<Node<V>>>, h: u64, l: u64, Ghost(path): Ghost<
        Seq<u64>,
    >) -> (r: Option<V>)
        requires
            1 <= l <= 11,
            path.len() == l,
            wf_cell(*old(cell), path),
            forall|i: int| 0 <= i < path.len() ==> #[trigger] path[i] == chunk(h, i as u64),
        ensures
            wf_cell(*final(cell), path),
            r == cell_get(*old(cell), h, l),
            cell_get(*final(cell), h, l) is None,
            forall|x: u64|
                x != h ==> #[trigger] cell_get(*final(cell), x, l) == cell_get(*old(cell), x, l),
        decreases 11int - l,
    {
        let ghost pre = *old(cell);
        match cell.take() {
            None => None,
            Some(boxed) => match *boxed {
                Node::Data(d) => {
                    if d.key == h {
                        d.value
                    } else {
                        *cell = Some(Box::new(Node::Data(DataNode { key: d.key, value: d.value })));
                        proof {
                            assert(*cell == pre);
                        }
                        None
                    }
                },
                Node::Array(mut a) => {
                    proof {
                        assert(1 <= path.len() <= 10 && a.array@.len() == 64);
                    }
                    let pos = position(h, l);
                    proof {
                        let p2 = path.push(pos as u64);
                        assert forall|i: int| 0 <= i < p2.len() implies #[trigger] p2[i] == chunk(
                            h,
                            i as u64,
                        ) by {
                            if i < path.len() {
                                assert(p2[i] == path[i]);
                            }
                        }
                    }
                    let ghost a_pre = a;
                    let r2 = Self::cell_remove(
                        &mut a.array[pos as usize],
                        h,
                        (l + 1),
                        Ghost(path.push(pos as u64)),
                    );
                    let ghost a_final = a;
                    *cell = Some(Box::new(Node::Array(a)));
                    proof {
                        assert(a_final.array@ == a_pre.array@.update(
                            pos as int,
                            a_final.array@[pos as int],
                        ));
                        assert(cell_get(pre, h, l) == cell_get(
                            a_pre.array@[chunk(h, l) as int],
                            h,
                            (l + 1) as u64,
                        ));
                        assert(cell_get(*cell, h, l) == cell_get(
                            a_final.array@[chunk(h, l) as int],
                            h,
                            (l + 1) as u64,
                        ));
                        assert forall|j: int| 0 <= j < 64 implies wf_cell(
                            #[trigger] a_final.array@[j],
                            path.push(j as u64),
                        ) by {
                            if j != pos {
                                assert(a_final.array@[j] == a_pre.array@[j]);
                            }
                        }
                        assert forall|x: u64| x != h implies #[trigger] cell_get(*cell, x, l)
                            == cell_get(pre, x, l) by {
                            lemma_chunk_bound(x, l);
                            assert(cell_get(pre, x, l) == cell_get(
                                a_pre.array@[chunk(x, l) as int],
                                x,
                                (l + 1) as u64,
                            ));
                            assert(cell_get(*cell, x, l) == cell_get(
                                a_final.array@[chunk(x, l) as int],
                                x,
                                (l + 1) as u64,
                            ));
                            if chunk(x, l) == pos {
                                assert(cell_get(a_final.array@[pos as int], x, (l + 1) as u64)
                                    == cell_get(a_pre.array@[pos as int], x, (l + 1) as u64));
                            } else {
                                assert(a_final.array@[chunk(x, l) as int] == a_pre.array@[chunk(
                                    x,
                                    l,
                                ) as int]);
                            }
                        }
                    }
                    r2
                },
            },
        }
    }

    /// Removes a key, handing back the value it resolved to, if any. After
    /// the call the key resolves to nothing and every other key is untouched.
    pub fn remove(&mut self, key: u64) -> (r: Option<V>)
        requires
            old(self).wf(),
        ensures
            final(self).wf(),
            r == old(self).spec_get(key),
            final(self).spec_get(key) is None,
            forall|x: u64|
                x != key ==> #[trigger] final(self).spec_get(x) == old(self).spec_get(x),
    {
        let pos = position(key, 0);
        let ghost gpath: Seq<u64> = seq![pos as u64];
        proof {
            assert(gpath.len() == 1);
            assert(gpath[0] == chunk(key, 0));
        }
        let r = Self::cell_remove(&mut self.head[pos as usize], key, 1, Ghost(gpath));
        proof {
            assert(self.head@ == old(self).head@.update(pos as int, self.head@[pos as int]));
            assert forall|x: u64| x != key implies #[trigger] self.spec_get(x) == old(
                self,
            ).spec_get(x) by {
                lemma_chunk_bound(x, 0);
                if chunk(x, 0) != pos {
                    assert(self.head@[chunk(x, 0) as int] == old(self).head@[chunk(x, 0) as int]);
                }
            }
        }
        r
    }

    /// Updates along the key's routing path: a matching leaf is exchanged
    /// for a fresh leaf carrying the new value (the old one is retired) and
    /// the old payload handed back; an absent key leaves the trie untouched.
    fn cell_update(cell: &mut Option<Box<Node<V>>>, h: u64, value: V, l: u64, Ghost(path): Ghost<
        Seq<u64>,
    >) -> (r: Option<V>)
        requires
            1 <= l <= 11,
            path.len() == l,
            wf_cell(*old(cell), path),
            forall|i: int| 0 <= i < path.len() ==> #[trigger] path[i] == chunk(h, i as u64),
        ensures
            wf_cell(*final(cell), path),
            r == cell_get(*old(cell), h, l),
            r is Some ==> cell_get(*final(cell), h, l) == Some(value),
            r is None ==> cell_get(*final(cell), h, l) is None,
            forall|x: u64|
                x != h ==> #[trigger] cell_get(*final(cell), x, l) == cell_get(*old(cell), x, l),
        decreases 11int - l,
    {
        let ghost pre = *old(cell);
        match cell.take() {
            None => None,
            Some(boxed) => match *boxed {
                Node::Data(d) => {
                    if d.key == h {
                        *cell = Some(Box::new(Node::Data(DataNode::new(h, value))));
                        d.value
                    } else {
                        *cell = Some(Box::new(Node::Data(DataNode { key: d.key, value: d.value })));
                        proof {
                            assert(*cell == pre);
                        }
                        None
                    }
                },
                Node::Array(mut a) => {
                    proof {
                        assert(1 <= path.len() <= 10 && a.array@.len() == 64);
                    }
                    let pos = position(h, l);
                    proof {
                        let p2 = path.push(pos as u64);
                        assert forall|i: int| 0 <= i < p2.len() implies #[trigger] p2[i] == chunk(
                            h,
                            i as u64,
                        ) by {
                            if i < path.len() {
                                assert(p2[i] == path[i]);
                            }
                        }
                    }
                    let ghost a_pre = a;
                    let r2 = Self::cell_update(
                        &mut a.array[pos as usize],
                        h,
                        value,
                        (l + 1),
                        Ghost(path.push(pos as u64)),
                    );
                    let ghost a_final = a;
                    *cell = Some(Box::new(Node::Array(a)));
                    proof {
                        assert(a_final.array@ == a_pre.array@.update(
                            pos as int,
                            a_final.array@[pos as int],
                        ));
                        assert(cell_get(pre, h, l) == cell_get(
                            a_pre.array@[chunk(h, l) as int],
                            h,
                            (l + 1) as u64,
                        ));
                        assert(cell_get(*cell, h, l) == cell_get(
                            a_final.array@[chunk(h, l) as int],
                            h,
                            (l + 1) as u64,
                        ));
                        assert forall|j: int| 0 <= j < 64 implies wf_cell(
                            #[trigger] a_final.array@[j],
                            path.push(j as u64),
                        ) by {
                            if j != pos {
                                assert(a_final.array@[j] == a_pre.array@[j]);
                            }
                        }
                        assert forall|x: u64| x != h implies #[trigger] cell_get(*cell, x, l)
                            == cell_get(pre, x, l) by {
                            lemma_chunk_bound(x, l);
                            assert(cell_get(pre, x, l) == cell_get(
                                a_pre.array@[chunk(x, l) as int],
                                x,
                                (l + 1) as u64,
                            ));
                            assert(cell_get(*cell, x, l) == cell_get(
                                a_final.array@[chunk(x, l) as int],
                                x,
                                (l + 1) as u64,
                            ));
                            if chunk(x, l) == pos {
                                assert(cell_get(a_final.array@[pos as int], x, (l + 1) as u64)
                                    == cell_get(a_pre.array@[pos as int], x, (l + 1) as u64));
                            } else {
                                assert(a_final.array@[chunk(x, l) as int] == a_pre.array@[chunk(
                                    x,
                                    l,
                                ) as int]);
                            }
                        }
                    }
                    r2
                },
            },
        }
    }

    /// Exchanges the value of a present key for a new one, handing the old
    /// value back; an absent key is left absent and the map untouched.
    pub fn update(&mut self, key: u64, value: V) -> (r: Option<V>)
        requires
            old(self).wf(),
        ensures
            final(self).wf(),
            r == old(self).spec_get(key),
            r is Some ==> final(self).spec_get(key) == Some(value),
            r is None ==> final(self).spec_get(key) is None,
            forall|x: u64|
                x != key ==> #[trigger] final(self).spec_get(x) == old(self).spec_get(x),
    {
        let pos = position(key, 0);
        let ghost gpath: Seq<u64> = seq![pos as u64];
        proof {
            assert(gpath.len() == 1);
            assert(gpath[0] == chunk(key, 0));
        }
        let r = Self::cell_update(
            &mut self.head[pos as usize],
            key,
            value,
            1,
            Ghost(gpath),
        );
        proof {
            assert(self.head@ == old(self).head@.update(pos as int, self.head@[pos as int]));
            assert forall|x: u64| x != key implies #[trigger] self.spec_get(x) == old(
                self,
            ).spec_get(x) by {
                lemma_chunk_bound(x, 0);
                if chunk(x, 0) != pos {
                    assert(self.head@[chunk(x, 0) as int] == old(self).head@[chunk(x, 0) as int]);
                }
            }
        }
        r
    }
}

impl<V: Copy> HashMap<V> {
    /// Resolves a key from a cell, descending through interior nodes along
    /// the key's chunks and comparing the full key at a leaf.
    fn cell_lookup(cell: &Option<Box<Node<V>>>, h: u64, l: u64) -> (r: Option<V>)
        requires
            1 <= l,
        ensures
            r == cell_get(*cell, h, l),
        decreases 11int - l,
    {
        match cell {
            None => None,
            Some(node) => match &**node {
                Node::Data(d) => {
                    if d.key == h {
                        d.value
                    } else {
                        None
                    }
                },
                Node::Array(a) => {
                    if l <= 10 && a.array.len() == 64 {
                        let pos = position(h, l);
                        Self::cell_lookup(&a.array[pos as usize], h, l + 1)
                    } else {
                        None
                    }
                },
            },
        }
    }

    /// Looks a key up, handing back a copy of the value it resolves to.
    pub fn get(&self, key: u64) -> (r: Option<V>)
        requires
            self.wf(),
        ensures
            r == self.spec_get(key),
    {
        let pos = position(key, 0);
        Self::cell_lookup(&self.head[pos as usize], key, 1)
    }
}

} // verus!
