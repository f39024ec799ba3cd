//! The hybrid tree: an append-only arena of nodes, each a flat leaf of
//! features or a branch routing by per-level classification key.
use vstd::prelude::*;
use vstd::multiset::Multiset;
use crate::bits::{hamming, level_key, key_at, distance, lemma_pop_le};
use crate::lanes::{key_dist, lower_bound_at, lemma_level_lower_bound};
use crate::keymap::{KeyMap, key_map_contents, km_new, km_get, km_insert, km_entries};

verus! {

broadcast use vstd::multiset::group_multiset_axioms, vstd::seq_lib::group_to_multiset_ensures;

/// A leaf holding more than this many features is converted to a branch;
/// a branch at most this large is traversed entry by entry.
pub const TAU: usize = 1024;

/// One node of the arena.
pub enum Internal {
    /// Features stored directly.
    Leaf(Vec<u128>),
    /// Classification key to child node identifier.
    Branch(KeyMap),
}

/// Ghost record of a node's place in the tree: its parent's identifier and
/// the classification keys on the path from the root down to it.
pub ghost struct NodeMeta {
    pub parent: int,
    pub path: Seq<u128>,
}

/// The multiset of features a node holds directly.
pub open spec fn node_contents(n: Internal) -> Multiset<u128> {
    match n {
        Internal::Leaf(v) => v@.to_multiset(),
        Internal::Branch(_) => Multiset::empty(),
    }
}

/// The features held by the first `n` nodes of the arena.
pub open spec fn arena_sum(a: Seq<Internal>, n: int) -> Multiset<u128>
    decreases n,
{
    if n <= 0 {
        Multiset::empty()
    } else {
        arena_sum(a, n - 1).add(node_contents(a[n - 1]))
    }
}

/// Two arenas that agree on their first `n` nodes hold the same features
/// there.
proof fn lemma_arena_sum_agree(a: Seq<Internal>, b: Seq<Internal>, n: int)
    requires
        n <= a.len(),
        n <= b.len(),
        forall|j: int| 0 <= j < n ==> a[j] == b[j],
    ensures
        arena_sum(a, n) == arena_sum(b, n),
    decreases n,
{
    if n > 0 {
        lemma_arena_sum_agree(a, b, n - 1);
    }
}

/// Replacing a node by one with one more feature inserts that feature.
proof fn lemma_sum_update_insert(a: Seq<Internal>, i: int, x: Internal, n: int, f: u128)
    requires
        0 <= i < n <= a.len(),
        node_contents(x) == node_contents(a[i]).insert(f),
    ensures
        arena_sum(a.update(i, x), n) == arena_sum(a, n).insert(f),
    decreases n,
{
    let b = a.update(i, x);
    if i == n - 1 {
        lemma_arena_sum_agree(a, b, n - 1);
        assert(arena_sum(b, n) =~= arena_sum(a, n).insert(f));
    } else {
        lemma_sum_update_insert(a, i, x, n - 1, f);
        assert(b[n - 1] == a[n - 1]);
        assert(arena_sum(b, n) =~= arena_sum(a, n).insert(f));
    }
}

/// Replacing a node by an empty one removes exactly its contents.
proof fn lemma_sum_update_take(a: Seq<Internal>, i: int, x: Internal, n: int)
    requires
        0 <= i < n <= a.len(),
        node_contents(x) == Multiset::<u128>::empty(),
    ensures
        arena_sum(a, n) == arena_sum(a.update(i, x), n).add(node_contents(a[i])),
    decreases n,
{
    let b = a.update(i, x);
    if i == n - 1 {
        lemma_arena_sum_agree(a, b, n - 1);
        assert(arena_sum(a, n) =~= arena_sum(b, n).add(node_contents(a[i])));
    } else {
        lemma_sum_update_take(a, i, x, n - 1);
        assert(b[n - 1] == a[n - 1]);
        assert(arena_sum(a, n) =~= arena_sum(b, n).add(node_contents(a[i])));
    }
}

/// Replacing a node by one with the same contents changes nothing.
proof fn lemma_sum_update_same(a: Seq<Internal>, i: int, x: Internal, n: int)
    requires
        0 <= i < n <= a.len(),
        node_contents(x) == node_contents(a[i]),
    ensures
        arena_sum(a.update(i, x), n) == arena_sum(a, n),
    decreases n,
{
    let b = a.update(i, x);
    if i == n - 1 {
        lemma_arena_sum_agree(a, b, n - 1);
        assert(arena_sum(b, n) =~= arena_sum(a, n));
    } else {
        lemma_sum_update_same(a, i, x, n - 1);
        assert(b[n - 1] == a[n - 1]);
        assert(arena_sum(b, n) =~= arena_sum(a, n));
    }
}

/// Appending a node adds exactly its contents to the total.
proof fn lemma_arena_sum_push(a: Seq<Internal>, x: Internal)
    ensures
        arena_sum(a.push(x), a.len() as int + 1) == arena_sum(a, a.len() as int).add(node_contents(x)),
{
    let b = a.push(x);
    lemma_arena_sum_agree(a, b, a.len() as int);
    assert(b[a.len() as int] == x);
}

/// The features held by those of the first `n` nodes whose recorded path
/// extends `p`: the contents of the subtree addressed by the key path `p`.
pub open spec fn contents_pre(
    a: Seq<Internal>,
    m: Map<int, NodeMeta>,
    p: Seq<u128>,
    n: int,
) -> Multiset<u128>
    decreases n,
{
    if n <= 0 {
        Multiset::empty()
    } else {
        contents_pre(a, m, p, n - 1).add(
            if p.is_prefix_of(m[n - 1].path) {
                node_contents(a[n - 1])
            } else {
                Multiset::empty()
            },
        )
    }
}

/// The subtree contents reached through each key of an entry list in turn.
pub open spec fn entries_sum(
    a: Seq<Internal>,
    m: Map<int, NodeMeta>,
    p: Seq<u128>,
    es: Seq<(u128, usize)>,
    n: int,
) -> Multiset<u128>
    decreases es.len(),
{
    if es.len() == 0 {
        Multiset::empty()
    } else {
        contents_pre(a, m, p.push(es[0].0), n).add(entries_sum(a, m, p, es.drop_first(), n))
    }
}

/// Whether a sequence is ordered by non-decreasing Hamming distance to `q`.
pub open spec fn sorted_by_distance(s: Seq<u128>, q: u128) -> bool {
    forall|i: int, j: int|
        #![trigger s[i], s[j]]
        0 <= i <= j < s.len() ==> hamming(s[i], q) <= hamming(s[j], q)
}

/// Whether nothing left in `m` beyond `s` is closer to `q` than anything in
/// `s`: the output is a true minimum-distance selection.
pub open spec fn no_closer_left_out(s: Seq<u128>, q: u128, m: Multiset<u128>) -> bool {
    forall|i: int, g: u128|
        #![trigger s[i], m.sub(s.to_multiset()).count(g)]
        0 <= i < s.len() && m.sub(s.to_multiset()).count(g) > 0 ==> hamming(s[i], q) <= hamming(
            g,
            q,
        )
}

/// Law: a radius of 128 excludes nothing. A result standing in the relation
/// `search_radius` ensures for radius 128 is the whole stored multiset.
pub proof fn lemma_radius_full_covers(m: Multiset<u128>, q: u128, r: Multiset<u128>)
    requires
        forall|g: u128|
            #[trigger] r.count(g) == if hamming(g, q) <= 128 {
                m.count(g)
            } else {
                0
            },
    ensures
        r == m,
{
    assert forall|g: u128| #[trigger] r.count(g) == m.count(g) by {
        lemma_pop_le((g ^ q) as nat, 128);
    }
    assert(r =~= m);
}

/// Law: a radius of 0 keeps exactly the stored occurrences equal to the
/// query. A result standing in the relation `search_radius` ensures for
/// radius 0 holds the query's own occurrences and nothing else.
pub proof fn lemma_radius_zero_exact(m: Multiset<u128>, q: u128, r: Multiset<u128>)
    requires
        forall|g: u128|
            #[trigger] r.count(g) == if hamming(g, q) <= 0 {
                m.count(g)
            } else {
                0
            },
    ensures
        r.count(q) == m.count(q),
        forall|g: u128| g != q ==> #[trigger] r.count(g) == 0,
{
    assert(hamming(q, q) == 0) by {
        assert(q ^ q == 0) by (bit_vector);
        crate::bits::lemma_pop_zero(128);
    }
    assert forall|g: u128| g != q implies #[trigger] r.count(g) == 0 by {
        if hamming(g, q) == 0 {
            lemma_hamming_zero_eq(g, q);
        }
    }
}

/// Law: two words at Hamming distance zero are the same word.
pub proof fn lemma_hamming_zero_eq(g: u128, q: u128)
    requires
        hamming(g, q) == 0,
    ensures
        g == q,
{
    crate::bits::lemma_u128_bound(g ^ q);
    crate::bits::lemma_pop_zero_iff((g ^ q) as nat, 128);
    assert((g ^ q) as nat == 0);
    assert(g ^ q == 0 ==> g == q) by (bit_vector);
}

/// Whether the Hamming distance from `g` to `q` lies between `lo` and `hi`.
pub open spec fn in_range(g: u128, q: u128, lo: u32, hi: u32) -> bool {
    lo as nat <= hamming(g, q) && hamming(g, q) <= hi as nat
}

/// A sequence that a pushed prefix matches carries the pushed key at the
/// prefix's former length.
proof fn lemma_prefix_push_index(p: Seq<u128>, k: u128, q: Seq<u128>)
    requires
        (p.push(k)).is_prefix_of(q),
    ensures
        0 <= p.len() < q.len(),
        q[p.len() as int] == k,
{
    assert(p.push(k)[p.len() as int] == k);
    assert(q.subrange(0, p.len() as int + 1)[p.len() as int] == q[p.len() as int]);
}

/// Establishes structural well-formedness from its individual clauses.
proof fn lemma_wf_arena_intro(s: Hwt)
    requires
        s.internals@.len() >= 1,
        forall|i: int| #[trigger] s.meta@.dom().contains(i) <==> 0 <= i < s.internals@.len(),
        s.meta@[0].path.len() == 0,
        forall|i: int| 0 <= i < s.internals@.len() ==> (#[trigger] s.meta@[i].path).len() <= 8,
        forall|i: int|
            0 <= i < s.internals@.len() && s.internals@[i] is Branch ==> (
            #[trigger] s.meta@[i].path).len() <= 7,
        forall|i: int|
            1 <= i < s.internals@.len() ==> {
                let p = (#[trigger] s.meta@[i]).parent;
                &&& 0 <= p < i
                &&& s.internals@[p] is Branch
                &&& s.meta@[i].path.len() >= 1
                &&& s.meta@[i].path =~= s.meta@[p].path.push(s.meta@[i].path.last())
                &&& key_map_contents(s.internals@[p]->Branch_0).dom().contains(s.meta@[i].path.last())
                &&& key_map_contents(s.internals@[p]->Branch_0)[s.meta@[i].path.last()] as int == i
            },
        forall|i: int, k: u128|
            0 <= i < s.internals@.len() && s.internals@[i] is Branch
                && #[trigger] key_map_contents(s.internals@[i]->Branch_0).dom().contains(k) ==> {
                let c = key_map_contents(s.internals@[i]->Branch_0)[k] as int;
                &&& i < c < s.internals@.len()
                &&& key_map_contents(s.internals@[i]->Branch_0)[k] == c
                &&& s.meta@[c].parent == i
                &&& s.meta@[c].path =~= s.meta@[i].path.push(k)
            },
        forall|i: int|
            0 <= i < s.internals@.len() && s.internals@[i] is Branch ==> (
            #[trigger] key_map_contents(s.internals@[i]->Branch_0)).dom().finite(),
        forall|i: int, j: int, l: int|
            0 <= i < s.internals@.len() && s.internals@[i] is Leaf && 0 <= j
                < s.internals@[i]->Leaf_0@.len() && 0 <= l < s.meta@[i].path.len()
                ==> #[trigger] level_key(s.internals@[i]->Leaf_0@[j], l) == s.meta@[i].path[l],
    ensures
        s.wf_arena(),
{
}

/// The index over 128-bit features.
pub struct Hwt {
    internals: Vec<Internal>,
    count: usize,
    meta: Ghost<Map<int, NodeMeta>>,
}

impl View for Hwt {
    type V = Multiset<u128>;

    /// The multiset of all stored features.
    closed spec fn view(&self) -> Multiset<u128> {
        arena_sum(self.internals@, self.internals@.len() as int)
    }
}

impl Hwt {
    /// Structural well-formedness: node 0 is the root; every branch entry
    /// points forward to a child one level deeper whose recorded path
    /// extends the branch's path by the entry's key; every feature in a
    /// leaf classifies, level by level, to the keys on the leaf's path;
    /// branches stop before the deepest level; the running count is the
    /// total number of stored features.
    pub closed spec fn wf(self) -> bool {
        &&& self.wf_arena()
        &&& self.count == arena_sum(self.internals@, self.internals@.len() as int).len()
    }

    /// The structural part of well-formedness, without the running count.
    pub closed spec fn wf_arena(self) -> bool {
        let a = self.internals@;
        let m = self.meta@;
        &&& a.len() >= 1
        &&& (forall|i: int| #[trigger] m.dom().contains(i) <==> 0 <= i < a.len())
        &&& m[0].path.len() == 0
        &&& (forall|i: int|
            0 <= i < a.len() ==> (#[trigger] m[i].path).len() <= 8)
        &&& (forall|i: int|
            0 <= i < a.len() && a[i] is Branch ==> (#[trigger] m[i].path).len() <= 7)
        &&& (forall|i: int|
            1 <= i < a.len() ==> {
                let p = (#[trigger] m[i]).parent;
                &&& 0 <= p < i
                &&& a[p] is Branch
                &&& m[i].path.len() >= 1
                &&& m[i].path =~= m[p].path.push(m[i].path.last())
                &&& key_map_contents(a[p]->Branch_0).dom().contains(m[i].path.last())
                &&& key_map_contents(a[p]->Branch_0)[m[i].path.last()] as int == i
            })
        &&& (forall|i: int, k: u128|
            0 <= i < a.len() && a[i] is Branch && #[trigger] key_map_contents(
                a[i]->Branch_0,
            ).dom().contains(k) ==> {
                let c = key_map_contents(a[i]->Branch_0)[k] as int;
                &&& i < c < a.len()
                &&& key_map_contents(a[i]->Branch_0)[k] == c
                &&& m[c].parent == i
                &&& m[c].path =~= m[i].path.push(k)
            })
        &&& (forall|i: int|
            0 <= i < a.len() && a[i] is Branch ==> (#[trigger] key_map_contents(
                a[i]->Branch_0,
            )).dom().finite())
        &&& (forall|i: int, j: int, l: int|
            0 <= i < a.len() && a[i] is Leaf && 0 <= j < a[i]->Leaf_0@.len() && 0 <= l
                < m[i].path.len() ==> #[trigger] level_key(a[i]->Leaf_0@[j], l)
                == m[i].path[l])
    }

    /// Makes an empty index: the root is an empty leaf and nothing is stored.
    pub fn new() -> (r: Hwt)
        ensures
            r.wf(),
            r@ =~= Multiset::<u128>::empty(),
    {
        let mut internals: Vec<Internal> = Vec::new();
        internals.push(Internal::Leaf(Vec::new()));
        let r = Hwt {
            internals,
            count: 0,
            meta: Ghost(
                Map::<int, NodeMeta>::empty().insert(
                    0,
                    NodeMeta { parent: -1, path: Seq::empty() },
                ),
            ),
        };
        proof {
            assert(r.internals@.len() == 1);
            assert(arena_sum(r.internals@, 0) =~= Multiset::<u128>::empty());
            assert(arena_sum(r.internals@, 1) =~= node_contents(r.internals@[0]));
            assert(r.internals@[0]->Leaf_0@.len() == 0);
            r.internals@[0]->Leaf_0@.to_multiset_ensures();
            assert(arena_sum(r.internals@, 1).len() == 0);
        }
        r
    }

    /// The number of stored features: every insertion counts, duplicates
    /// included.
    pub fn len(&self) -> (n: usize)
        requires
            self.wf(),
        ensures
            n == self@.len(),
    {
        self.count
    }

    /// Stores one feature. The running count always grows by one; duplicate
    /// values are stored independently. The feature is appended to the leaf
    /// its classification keys select, splitting an overfull leaf into a
    /// branch of per-key children.
    #[verifier::rlimit(100)]
    pub fn insert(&mut self, feature: u128)
        requires
            old(self).wf(),
            old(self)@.len() < usize::MAX,
        ensures
            final(self).wf(),
            final(self)@ == old(self)@.insert(feature),
    {
        self.count = self.count + 1;
        let ghost m0 = *old(self);
        let mut bucket: usize = 0;
        let mut i: usize = 0;
        let mut vacant_key: Option<u128> = None;
        loop
            invariant_except_break
                vacant_key is None,
            invariant
                self.wf_arena(),
                m0.wf(),
                self.internals@ == m0.internals@,
                self.meta@ == m0.meta@,
                self.count == m0.count + 1,
                bucket < self.internals@.len(),
                i == self.meta@[bucket as int].path.len(),
                i <= 8,
                forall|l: int|
                    0 <= l < i ==> self.meta@[bucket as int].path[l] == level_key(feature, l),
            ensures
                self.internals@ == m0.internals@,
                self.meta@ == m0.meta@,
                self.count == m0.count + 1,
                bucket < self.internals@.len(),
                i == self.meta@[bucket as int].path.len(),
                i <= 8,
                forall|l: int|
                    0 <= l < i ==> self.meta@[bucket as int].path[l] == level_key(feature, l),
                match vacant_key {
                    Some(k) => {
                        &&& self.internals@[bucket as int] is Branch
                        &&& !key_map_contents(
                            self.internals@[bucket as int]->Branch_0,
                        ).dom().contains(k)
                        &&& k == level_key(feature, i as int)
                        &&& i <= 7
                    },
                    None => self.internals@[bucket as int] is Leaf,
                },
            decreases 8 - i,
        {
            match &self.internals[bucket] {
                Internal::Leaf(_) => {
                    break ;
                },
                Internal::Branch(km) => {
                    proof {
                        assert(self.meta@[bucket as int].path.len() <= 7);
                    }
                    let k = key_at(feature, i);
                    match km_get(km, k) {
                        Some(c) => {
                            proof {
                                assert(key_map_contents(
                                    self.internals@[bucket as int]->Branch_0,
                                ).dom().contains(k));
                            }
                            bucket = c;
                            i = i + 1;
                        },
                        None => {
                            vacant_key = Some(k);
                            break ;
                        },
                    }
                },
            }
        }
        if let Some(k) = vacant_key {
            let new_id = self.internals.len();
            let mut nv: Vec<u128> = Vec::new();
            nv.push(feature);
            proof {
                lemma_arena_sum_push(self.internals@, Internal::Leaf(nv));
            }
            self.internals.push(Internal::Leaf(nv));
            proof {
                self.meta@ = self.meta@.insert(
                    new_id as int,
                    NodeMeta {
                        parent: bucket as int,
                        path: m0.meta@[bucket as int].path.push(k),
                    },
                );
            }
            let ghost a2 = self.internals@;
            match &mut self.internals[bucket] {
                Internal::Branch(km) => {
                    km_insert(km, k, new_id);
                },
                Internal::Leaf(_) => {
                    proof {
                        assert(false);
                    }
                },
            }
            proof {
                lemma_sum_update_same(
                    a2,
                    bucket as int,
                    self.internals@[bucket as int],
                    a2.len() as int,
                );
                assert(node_contents(Internal::Leaf(nv)) =~= Multiset::<u128>::empty().insert(
                    feature,
                ));
                assert(self@ =~= m0@.insert(feature));
                let a = self.internals@;
                let mm = self.meta@;
                assert forall|ii: int, jj: int, ll: int|
                    0 <= ii < a.len() && a[ii] is Leaf && 0 <= jj < a[ii]->Leaf_0@.len() && 0 <= ll
                        < mm[ii].path.len() implies #[trigger] level_key(a[ii]->Leaf_0@[jj], ll)
                    == mm[ii].path[ll] by {
                    if ii == new_id as int {
                        assert(a[ii]->Leaf_0@[jj] == feature);
                        assert(mm[ii].path =~= m0.meta@[bucket as int].path.push(k));
                        if ll < i as int {
                            assert(m0.meta@[bucket as int].path[ll] == level_key(feature, ll));
                        }
                    } else {
                        assert(a[ii] == m0.internals@[ii]);
                        assert(mm[ii] == m0.meta@[ii]);
                        assert(level_key(m0.internals@[ii]->Leaf_0@[jj], ll) == m0.meta@[
                            ii
                        ].path[ll]);
                    }
                }
                lemma_wf_arena_intro(*self);
            }
        } else {
            let ghost a0 = self.internals@;
            match &mut self.internals[bucket] {
                Internal::Leaf(v) => {
                    v.push(feature);
                },
                Internal::Branch(_) => {
                    proof {
                        assert(false);
                    }
                },
            }
            proof {
                assert(node_contents(self.internals@[bucket as int]) =~= node_contents(
                    a0[bucket as int],
                ).insert(feature));
                lemma_sum_update_insert(
                    a0,
                    bucket as int,
                    self.internals@[bucket as int],
                    a0.len() as int,
                    feature,
                );
                assert(self@ =~= m0@.insert(feature));
                let a = self.internals@;
                let mm = self.meta@;
                assert forall|ii: int, jj: int, ll: int|
                    0 <= ii < a.len() && a[ii] is Leaf && 0 <= jj < a[ii]->Leaf_0@.len() && 0 <= ll
                        < mm[ii].path.len() implies #[trigger] level_key(a[ii]->Leaf_0@[jj], ll)
                    == mm[ii].path[ll] by {
                    if ii == bucket as int && jj == a0[ii]->Leaf_0@.len() {
                        assert(a[ii]->Leaf_0@[jj] == feature);
                        assert(mm[bucket as int].path[ll] == level_key(feature, ll));
                    } else {
                        if ii == bucket as int {
                            assert(a[ii]->Leaf_0@[jj] == a0[ii]->Leaf_0@[jj]);
                        } else {
                            assert(a[ii] == a0[ii]);
                        }
                        assert(level_key(a0[ii]->Leaf_0@[jj], ll) == m0.meta@[ii].path[ll]);
                    }
                }
                lemma_wf_arena_intro(*self);
            }
            let needs = match &self.internals[bucket] {
                Internal::Leaf(v) => v.len() > TAU,
                Internal::Branch(_) => false,
            };
            if needs && i < 8 {
                self.convert(bucket, i);
            }
        }
    }

    /// Splits a leaf into a branch: every stored feature is reclassified by
    /// its key at `level` and appended to a child leaf per distinct key,
    /// preserving exactly the multiset of stored features.
    #[verifier::rlimit(100)]
    fn convert(&mut self, internal: usize, level: usize)
        requires
            old(self).wf(),
            internal < old(self).internals@.len(),
            old(self).internals@[internal as int] is Leaf,
            old(self).meta@[internal as int].path.len() == level,
            level <= 7,
        ensures
            final(self).wf(),
            final(self)@ == old(self)@,
    {
        let ghost m0 = *old(self);
        let mut taken = Internal::Branch(km_new());
        std::mem::swap(&mut taken, &mut self.internals[internal]);
        let items = match taken {
            Internal::Leaf(v) => v,
            Internal::Branch(_) => {
                proof {
                    assert(false);
                }
                Vec::new()
            },
        };
        proof {
            lemma_sum_update_take(
                m0.internals@,
                internal as int,
                self.internals@[internal as int],
                m0.internals@.len() as int,
            );
        }
        let ghost p = m0.meta@[internal as int].path;
        let ghost base = arena_sum(self.internals@, self.internals@.len() as int);
        proof {
            assert(base.add(items@.to_multiset()) =~= m0@);
            assert(items@.take(0).to_multiset() =~= Multiset::<u128>::empty());
            assert(arena_sum(self.internals@, self.internals@.len() as int) =~= base.add(
                items@.take(0).to_multiset(),
            ));
        }
        let mut j: usize = 0;
        while j < items.len()
            invariant
                self.wf_arena(),
                j <= items.len(),
                internal < self.internals@.len(),
                self.internals@[internal as int] is Branch,
                self.meta@[internal as int] == m0.meta@[internal as int],
                self.count == m0.count,
                p == m0.meta@[internal as int].path,
                p.len() == level,
                level <= 7,
                m0.wf(),
                base.add(items@.to_multiset()) == m0@,
                forall|idx: int, l: int|
                    0 <= idx < items@.len() && 0 <= l < level ==> #[trigger] level_key(
                        items@[idx],
                        l,
                    ) == p[l],
                forall|k: u128|
                    #[trigger] key_map_contents(
                        self.internals@[internal as int]->Branch_0,
                    ).dom().contains(k) ==> self.internals@[key_map_contents(
                        self.internals@[internal as int]->Branch_0,
                    )[k] as int] is Leaf,
                arena_sum(self.internals@, self.internals@.len() as int) == base.add(
                    items@.take(j as int).to_multiset(),
                ),
            decreases items@.len() - j,
        {
            let f = items[j];
            let k = key_at(f, level);
            let found: Option<usize> = match &self.internals[internal] {
                Internal::Branch(km) => km_get(km, k),
                Internal::Leaf(_) => {
                    proof {
                        assert(false);
                    }
                    None
                },
            };
            let ghost a_before = self.internals@;
            match found {
                Some(c) => {
                    proof {
                        assert(key_map_contents(
                            self.internals@[internal as int]->Branch_0,
                        ).dom().contains(k));
                    }
                    match &mut self.internals[c] {
                        Internal::Leaf(v2) => {
                            v2.push(f);
                        },
                        Internal::Branch(_) => {
                            proof {
                                assert(false);
                            }
                        },
                    }
                    proof {
                        assert(node_contents(self.internals@[c as int]) =~= node_contents(
                            a_before[c as int],
                        ).insert(f));
                        lemma_sum_update_insert(
                            a_before,
                            c as int,
                            self.internals@[c as int],
                            a_before.len() as int,
                            f,
                        );
                        assert(items@.take(j + 1) =~= items@.take(j as int).push(items@[j as int]));
                        assert(arena_sum(self.internals@, self.internals@.len() as int)
                            == base.add(items@.take(j + 1).to_multiset())) by {
                            assert(arena_sum(self.internals@, self.internals@.len() as int)
                                =~= base.add(items@.take(j + 1).to_multiset()));
                        }
                        let a = self.internals@;
                        let mm = self.meta@;
                        assert forall|ii: int, jj: int, ll: int|
                            0 <= ii < a.len() && a[ii] is Leaf && 0 <= jj < a[ii]->Leaf_0@.len()
                                && 0 <= ll < mm[ii].path.len() implies #[trigger] level_key(
                            a[ii]->Leaf_0@[jj], ll) == mm[ii].path[ll] by {
                            if ii == c as int && jj == a_before[ii]->Leaf_0@.len() {
                                assert(a[ii]->Leaf_0@[jj] == f);
                                assert(mm[ii].path =~= p.push(k));
                                if ll < level as int {
                                    assert(level_key(items@[j as int], ll) == p[ll]);
                                }
                            } else {
                                if ii == c as int {
                                    assert(a[ii]->Leaf_0@[jj] == a_before[ii]->Leaf_0@[jj]);
                                } else {
                                    assert(a[ii] == a_before[ii]);
                                }
                                assert(level_key(a_before[ii]->Leaf_0@[jj], ll) == mm[ii].path[
                                    ll
                                ]);
                            }
                        }
                        lemma_wf_arena_intro(*self);
                    }
                },
                None => {
                    let new_id = self.internals.len();
                    let mut nv: Vec<u128> = Vec::new();
                    nv.push(f);
                    proof {
                        lemma_arena_sum_push(self.internals@, Internal::Leaf(nv));
                    }
                    self.internals.push(Internal::Leaf(nv));
                    proof {
                        self.meta@ = self.meta@.insert(
                            new_id as int,
                            NodeMeta { parent: internal as int, path: p.push(k) },
                        );
                    }
                    let ghost a2 = self.internals@;
                    match &mut self.internals[internal] {
                        Internal::Branch(km) => {
                            km_insert(km, k, new_id);
                        },
                        Internal::Leaf(_) => {
                            proof {
                                assert(false);
                            }
                        },
                    }
                    proof {
                        lemma_sum_update_same(
                            a2,
                            internal as int,
                            self.internals@[internal as int],
                            a2.len() as int,
                        );
                        assert(node_contents(Internal::Leaf(nv))
                            =~= Multiset::<u128>::empty().insert(f));
                        assert(items@.take(j + 1) =~= items@.take(j as int).push(items@[j as int]));
                        assert(arena_sum(self.internals@, self.internals@.len() as int)
                            == base.add(items@.take(j + 1).to_multiset())) by {
                            assert(arena_sum(self.internals@, self.internals@.len() as int)
                                =~= base.add(items@.take(j + 1).to_multiset()));
                        }
                        let a = self.internals@;
                        let mm = self.meta@;
                        assert forall|ii: int, jj: int, ll: int|
                            0 <= ii < a.len() && a[ii] is Leaf && 0 <= jj < a[ii]->Leaf_0@.len()
                                && 0 <= ll < mm[ii].path.len() implies #[trigger] level_key(
                            a[ii]->Leaf_0@[jj], ll) == mm[ii].path[ll] by {
                            if ii == new_id as int {
                                assert(a[ii]->Leaf_0@[jj] == f);
                                assert(mm[ii].path =~= p.push(k));
                                if ll < level as int {
                                    assert(level_key(items@[j as int], ll) == p[ll]);
                                }
                            } else {
                                assert(a[ii] == a_before[ii]);
                                assert(mm[ii] == self.meta@[ii]);
                                assert(level_key(a_before[ii]->Leaf_0@[jj], ll) == mm[ii].path[
                                    ll
                                ]);
                            }
                        }
                        lemma_wf_arena_intro(*self);
                    }
                },
            }
            j = j + 1;
        }
        proof {
            assert(items@.take(items@.len() as int) =~= items@);
            assert(self@ =~= m0@);
        }
    }

    /// Whether nothing is stored.
    pub fn is_empty(&self) -> (r: bool)
        requires
            self.wf(),
        ensures
            r == (self@.len() == 0),
    {
        self.count == 0
    }

    /// Whether at least one stored occurrence equals the given feature,
    /// decided by descending its classification keys and scanning one leaf.
    pub fn contains(&self, feature: u128) -> (r: bool)
        requires
            self.wf(),
        ensures
            r == self@.contains(feature),
    {
        proof {
            self.lemma_pre_empty(self.internals@.len() as int);
            assert(Seq::<u128>::empty() =~= self.meta@[0].path);
        }
        let mut bucket: usize = 0;
        let mut i: usize = 0;
        loop
            invariant
                self.wf(),
                bucket < self.internals@.len(),
                i == self.meta@[bucket as int].path.len(),
                i <= 8,
                forall|l: int|
                    0 <= l < i ==> self.meta@[bucket as int].path[l] == level_key(feature, l),
                self@.count(feature) == contents_pre(
                    self.internals@,
                    self.meta@,
                    self.meta@[bucket as int].path,
                    self.internals@.len() as int,
                ).count(feature),
            ensures
                bucket < self.internals@.len(),
                self.internals@[bucket as int] is Leaf,
                self@.count(feature) == contents_pre(
                    self.internals@,
                    self.meta@,
                    self.meta@[bucket as int].path,
                    self.internals@.len() as int,
                ).count(feature),
            decreases 8 - i,
        {
            match &self.internals[bucket] {
                Internal::Leaf(_) => {
                    break ;
                },
                Internal::Branch(km) => {
                    proof {
                        assert(self.meta@[bucket as int].path.len() <= 7);
                    }
                    let k = key_at(feature, i);
                    match km_get(km, k) {
                        Some(c) => {
                            proof {
                                self.lemma_descend_count(
                                    bucket as int,
                                    k,
                                    feature,
                                    self.internals@.len() as int,
                                );
                                assert(key_map_contents(
                                    self.internals@[bucket as int]->Branch_0,
                                ).dom().contains(k));
                                assert(self.meta@[c as int].path
                                    =~= self.meta@[bucket as int].path.push(k));
                            }
                            bucket = c;
                            i = i + 1;
                        },
                        None => {
                            proof {
                                self.lemma_vacant_count(
                                    bucket as int,
                                    k,
                                    feature,
                                    self.internals@.len() as int,
                                );
                            }
                            return false;
                        },
                    }
                },
            }
        }
        proof {
            self.lemma_pre_leaf_n(bucket as int, self.internals@.len() as int);
        }
        let mut found = false;
        let mut j: usize = 0;
        match &self.internals[bucket] {
            Internal::Leaf(v) => {
                while j < v.len()
                    invariant
                        j <= v@.len(),
                        found == exists|t: int| 0 <= t < j && #[trigger] v@[t] == feature,
                    decreases v@.len() - j,
                {
                    if v[j] == feature {
                        found = true;
                    }
                    j = j + 1;
                }
                proof {
                    if found {
                        assert(v@.contains(feature));
                    } else {
                        assert(!v@.contains(feature));
                    }
                }
            },
            Internal::Branch(_) => {
                proof {
                    assert(false);
                }
            },
        }
        found
    }

    /// Collects, from the subtree addressed by node `id`, every stored
    /// feature whose true Hamming distance to `feature` lies between `lo`
    /// and `hi` inclusive, each as often as it is stored there.
    fn collect_range(&self, id: usize, level: usize, feature: u128, lo: u32, hi: u32) -> (r: Vec<
        u128,
    >)
        requires
            self.wf(),
            id < self.internals@.len(),
            level == self.meta@[id as int].path.len(),
        ensures
            forall|g: u128|
                #[trigger] r@.to_multiset().count(g) == if in_range(g, feature, lo, hi) {
                    contents_pre(
                        self.internals@,
                        self.meta@,
                        self.meta@[id as int].path,
                        self.internals@.len() as int,
                    ).count(g)
                } else {
                    0
                },
        decreases self.internals@.len() - id,
    {
        let mut out: Vec<u128> = Vec::new();
        match &self.internals[id] {
            Internal::Leaf(v) => {
                let mut j: usize = 0;
                while j < v.len()
                    invariant
                        j <= v@.len(),
                        forall|g: u128|
                            #[trigger] out@.to_multiset().count(g) == if in_range(
                                g,
                                feature,
                                lo,
                                hi,
                            ) {
                                v@.take(j as int).to_multiset().count(g)
                            } else {
                                0
                            },
                    decreases v@.len() - j,
                {
                    let d = distance(v[j], feature);
                    if lo <= d && d <= hi {
                        out.push(v[j]);
                    }
                    proof {
                        assert(v@.take(j + 1) =~= v@.take(j as int).push(v@[j as int]));
                    }
                    j = j + 1;
                }
                proof {
                    assert(v@.take(v@.len() as int) =~= v@);
                    self.lemma_pre_leaf_n(id as int, self.internals@.len() as int);
                }
            },
            Internal::Branch(km) => {
                proof {
                    assert(self.meta@[id as int].path.len() <= 7);
                }
                let qkey = key_at(feature, level);
                let es = km_entries(km);
                proof {
                    self.lemma_branch_decompose_n(id as int, es@, self.internals@.len() as int);
                    assert(es@.skip(0) =~= es@);
                    out@.to_multiset_ensures();
                    assert(out@.to_multiset().len() == 0);
                }
                let mut l: usize = 0;
                while l < es.len()
                    invariant
                        self.wf(),
                        id < self.internals@.len(),
                        self.internals@[id as int] is Branch,
                        l <= es@.len(),
                        forall|t: int|
                            0 <= t < es@.len() ==> key_map_contents(
                                self.internals@[id as int]->Branch_0,
                            ).contains_pair((#[trigger] es@[t]).0, es@[t].1),
                        forall|g: u128|
                            in_range(g, feature, lo, hi) ==> #[trigger] out@.to_multiset().count(g)
                                + entries_sum(
                                self.internals@,
                                self.meta@,
                                self.meta@[id as int].path,
                                es@.skip(l as int),
                                self.internals@.len() as int,
                            ).count(g) == entries_sum(
                                self.internals@,
                                self.meta@,
                                self.meta@[id as int].path,
                                es@,
                                self.internals@.len() as int,
                            ).count(g),
                        forall|g: u128|
                            !in_range(g, feature, lo, hi) ==> #[trigger] out@.to_multiset().count(
                                g,
                            ) == 0,
                        level == self.meta@[id as int].path.len(),
                        level <= 7,
                        qkey == level_key(feature, level as int),
                    decreases es@.len() - l,
                {
                    let k = es[l].0;
                    let c = es[l].1;
                    proof {
                        assert(key_map_contents(
                            self.internals@[id as int]->Branch_0,
                        ).contains_pair(k, c));
                        assert(self.meta@[c as int].path =~= self.meta@[id as int].path.push(k));
                    }
                    let lb = lower_bound_at(k, qkey, level);
                    if lb > hi as u128 {
                        proof {
                            let a = self.internals@;
                            let m = self.meta@;
                            let p = m[id as int].path;
                            let n = a.len() as int;
                            assert(es@.skip(l as int).drop_first() =~= es@.skip(l as int + 1));
                            assert(es@.skip(l as int)[0] == es@[l as int]);
                            assert forall|g: u128|
                                in_range(g, feature, lo, hi) implies contents_pre(
                                a,
                                m,
                                p.push(k),
                                n,
                            ).count(g) == 0 by {
                                if contents_pre(a, m, p.push(k), n).count(g) > 0 {
                                    self.lemma_subtree_key(p.push(k), p.len() as int, g, n);
                                    assert(level_key(g, level as int) == k);
                                    lemma_level_lower_bound(g, feature, level as int);
                                    lemma_pop_le((g ^ feature) as nat, 128);
                                    assert(key_dist(
                                        level_key(g, level as int),
                                        level_key(feature, level as int),
                                        crate::bits::lane_width(level as int),
                                        crate::bits::lane_count(level as int),
                                    ) <= hamming(g, feature));
                                    assert(false);
                                }
                            }
                        }
                        l = l + 1;
                        continue ;
                    }
                    let mut sub = self.collect_range(c, level + 1, feature, lo, hi);
                    proof {
                        assert(self.meta@[c as int].path == self.meta@[id as int].path.push(k));
                        assert(es@.skip(l as int).drop_first() =~= es@.skip(l as int + 1));
                        assert(es@.skip(l as int)[0] == es@[l as int]);
                    }
                    let ghost out_pre = out@;
                    let ghost sub_pre = sub@;
                    out.append(&mut sub);
                    proof {
                        assert(out@ == out_pre + sub_pre);
                        vstd::seq_lib::lemma_multiset_commutative::<u128>(out_pre, sub_pre);
                        assert forall|g: u128|
                            #[trigger] out@.to_multiset().count(g) == out_pre.to_multiset().count(
                                g,
                            ) + sub_pre.to_multiset().count(g) by {
                            assert((out_pre + sub_pre).to_multiset() =~= out_pre.to_multiset().add(
                                sub_pre.to_multiset(),
                            ));
                            assert(out_pre.to_multiset().add(sub_pre.to_multiset()).count(g)
                                == out_pre.to_multiset().count(g) + sub_pre.to_multiset().count(
                                g,
                            ));
                        }
                    }
                    l = l + 1;
                }
                proof {
                    assert(es@.skip(es@.len() as int) =~= Seq::<(u128, usize)>::empty());
                }
            },
        }
        out
    }

    /// All stored occurrences whose Hamming distance to `feature` is at
    /// most `radius`: exactly the stored multiset restricted to the ball of
    /// that radius around `feature`, in unspecified order.
    pub fn search_radius(&self, radius: u32, feature: u128) -> (r: Vec<u128>)
        requires
            self.wf(),
        ensures
            forall|g: u128|
                #[trigger] r@.to_multiset().count(g) == if hamming(g, feature) <= radius {
                    self@.count(g)
                } else {
                    0
                },
    {
        proof {
            self.lemma_pre_empty(self.internals@.len() as int);
            assert(Seq::<u128>::empty() =~= self.meta@[0].path);
        }
        self.collect_range(0, 0, feature, 0, radius)
    }

    /// Up to `capacity` stored features of smallest true Hamming distance to
    /// `feature`, in non-decreasing distance order, found by expanding the
    /// search shell one distance at a time. The output is exact: nothing
    /// stored but left out is closer than anything returned.
    pub fn nearest(&self, feature: u128, capacity: usize) -> (r: Vec<u128>)
        requires
            self.wf(),
        ensures
            r@.len() == if capacity as nat <= self@.len() {
                capacity as nat
            } else {
                self@.len()
            },
            r@.to_multiset().subset_of(self@),
            sorted_by_distance(r@, feature),
            no_closer_left_out(r@, feature, self@),
    {
        let mut out: Vec<u128> = Vec::new();
        proof {
            out@.to_multiset_ensures();
        }
        if capacity == 0 {
            proof {
                assert(out@.to_multiset().subset_of(self@));
                assert(self@.sub(out@.to_multiset()) =~= self@);
            }
            return out;
        }
        let mut d: u32 = 0;
        loop
            invariant_except_break
                out@.len() < capacity,
                forall|g: u128|
                    #[trigger] out@.to_multiset().count(g) == if hamming(g, feature) < d {
                        self@.count(g)
                    } else {
                        0
                    },
                forall|i: int| 0 <= i < out@.len() ==> hamming(#[trigger] out@[i], feature) < d,
            invariant
                self.wf(),
                capacity >= 1,
                d <= 129,
                sorted_by_distance(out@, feature),
            ensures
                sorted_by_distance(out@, feature),
                out@.to_multiset().subset_of(self@),
                no_closer_left_out(out@, feature, self@),
                out@.len() == if capacity as nat <= self@.len() {
                    capacity as nat
                } else {
                    self@.len()
                },
            decreases 130 - d,
        {
            proof {
                out@.to_multiset_ensures();
                assert forall|g: u128| hamming(g, feature) <= 128 by {
                    lemma_pop_le((g ^ feature) as nat, 128);
                }
            }
            if d > 128 {
                proof {
                    assert(out@.to_multiset() =~= self@);
                    assert(out@.to_multiset().subset_of(self@));
                    assert forall|i: int, g: u128|
                        0 <= i < out@.len() && self@.sub(out@.to_multiset()).count(g) > 0
                        implies hamming(out@[i], feature) <= hamming(g, feature) by {
                        assert(self@.sub(out@.to_multiset()).count(g) == 0);
                    }
                    assert(out@.len() == self@.len());
                }
                break ;
            }
            let shell = self.collect_range(0, 0, feature, d, d);
            proof {
                self.lemma_pre_empty(self.internals@.len() as int);
                assert(Seq::<u128>::empty() =~= self.meta@[0].path);
                shell@.to_multiset_ensures();
                assert forall|tt: int|
                    0 <= tt < shell@.len() implies hamming(#[trigger] shell@[tt], feature)
                    == d by {
                    assert(shell@.contains(shell@[tt]));
                    assert(shell@.to_multiset().count(shell@[tt]) > 0);
                }
                assert(shell@.take(0).to_multiset() =~= Multiset::<u128>::empty());
            }
            let mut t: usize = 0;
            while t < shell.len() && out.len() < capacity
                invariant
                    self.wf(),
                    capacity >= 1,
                    d <= 128,
                    t <= shell@.len(),
                    out@.len() <= capacity,
                    forall|g: u128|
                        #[trigger] out@.to_multiset().count(g) == (if hamming(g, feature) < d {
                            self@.count(g)
                        } else {
                            0
                        }) + shell@.take(t as int).to_multiset().count(g),
                    forall|tt: int|
                        0 <= tt < shell@.len() ==> hamming(#[trigger] shell@[tt], feature) == d,
                    forall|g: u128|
                        #[trigger] shell@.to_multiset().count(g) == if in_range(g, feature, d, d) {
                            self@.count(g)
                        } else {
                            0
                        },
                    forall|i: int|
                        0 <= i < out@.len() ==> hamming(#[trigger] out@[i], feature) <= d,
                    sorted_by_distance(out@, feature),
                decreases shell@.len() - t,
            {
                let ghost out_pre = out@;
                out.push(shell[t]);
                proof {
                    assert(shell@.take(t + 1) =~= shell@.take(t as int).push(shell@[t as int]));
                    assert(out@ =~= out_pre.push(shell@[t as int]));
                    assert forall|i: int, j: int|
                        #![trigger out@[i], out@[j]]
                        0 <= i <= j < out@.len() implies hamming(out@[i], feature) <= hamming(
                        out@[j],
                        feature,
                    ) by {
                        if j < out@.len() - 1 {
                            assert(out_pre[i] == out@[i]);
                            assert(out_pre[j] == out@[j]);
                        } else {
                            assert(out@[j] == shell@[t as int]);
                            if i < out@.len() - 1 {
                                assert(hamming(out_pre[i], feature) <= d);
                            }
                        }
                    }
                }
                t = t + 1;
            }
            proof {
                shell@.take(t as int).to_multiset_ensures();
                out@.to_multiset_ensures();
                vstd::seq_lib::lemma_multiset_commutative::<u128>(
                    shell@.take(t as int),
                    shell@.skip(t as int),
                );
                assert(shell@.take(t as int) + shell@.skip(t as int) =~= shell@);
                assert forall|g: u128|
                    shell@.take(t as int).to_multiset().count(g) <= shell@.to_multiset().count(
                    g,
                ) by {
                    assert(shell@.to_multiset() == (shell@.take(t as int) + shell@.skip(
                        t as int,
                    )).to_multiset());
                }
                assert forall|g: u128| out@.to_multiset().count(g) <= self@.count(g) by {
                    if hamming(g, feature) == d {
                        assert(shell@.to_multiset().count(g) == self@.count(g));
                    } else if shell@.take(t as int).to_multiset().count(g) > 0 {
                        assert(shell@.take(t as int).contains(g));
                        let ti = choose|ti: int|
                            0 <= ti < shell@.take(t as int).len() && #[trigger] shell@.take(
                                t as int,
                            )[ti] == g;
                        assert(shell@[ti] == g);
                        assert(false);
                    }
                }
                assert(out@.to_multiset().subset_of(self@));
            }
            if out.len() == capacity {
                proof {
                    assert forall|i: int, g: u128|
                        0 <= i < out@.len() && self@.sub(out@.to_multiset()).count(g) > 0
                        implies hamming(out@[i], feature) <= hamming(g, feature) by {
                        if hamming(g, feature) < d {
                            assert(out@.to_multiset().count(g) == self@.count(g));
                            assert(self@.sub(out@.to_multiset()).count(g) == 0);
                        }
                        assert(hamming(out@[i], feature) <= d);
                    }
                    assert(out@.to_multiset().len() <= self@.len()) by {
                        assert(out@.to_multiset().subset_of(self@));
                        assert(self@.sub(out@.to_multiset()).len() == self@.len()
                            - out@.to_multiset().len());
                    }
                    out@.to_multiset_ensures();
                    assert(out@.len() == capacity);
                }
                break ;
            }
            proof {
                assert(t == shell@.len());
                assert(shell@.take(shell@.len() as int) =~= shell@);
                assert forall|g: u128|
                    #[trigger] out@.to_multiset().count(g) == if hamming(g, feature) < d + 1 {
                        self@.count(g)
                    } else {
                        0
                    } by {
                    if hamming(g, feature) == d {
                        assert(shell@.to_multiset().count(g) == self@.count(g));
                    }
                }
            }
            d = d + 1;
        }
        out
    }

    /// Every feature in the subtree addressed by a key path classifies to
    /// that path's keys, level by level.
    proof fn lemma_subtree_key(self, pp: Seq<u128>, l: int, g: u128, n: int)
        requires
            self.wf_arena(),
            0 <= l < pp.len(),
            0 <= n <= self.internals@.len(),
            contents_pre(self.internals@, self.meta@, pp, n).count(g) > 0,
        ensures
            level_key(g, l) == pp[l],
        decreases n,
    {
        let a = self.internals@;
        let m = self.meta@;
        if n > 0 {
            if pp.is_prefix_of(m[n - 1].path) && node_contents(a[n - 1]).count(g) > 0 {
                assert(a[n - 1] is Leaf);
                assert(a[n - 1]->Leaf_0@.contains(g));
                let idx = choose|idx: int|
                    0 <= idx < a[n - 1]->Leaf_0@.len() && #[trigger] a[n - 1]->Leaf_0@[idx] == g;
                assert(level_key(g, l) == m[n - 1].path[l]);
                assert(m[n - 1].path[l] == pp[l]) by {
                    assert(pp =~= m[n - 1].path.subrange(0, pp.len() as int));
                }
            } else {
                self.lemma_subtree_key(pp, l, g, n - 1);
            }
        }
    }

    /// Descending along a feature's own key keeps its multiplicity: nodes
    /// pruned away by the step cannot hold the feature.
    proof fn lemma_descend_count(self, b: int, k: u128, f: u128, n: int)
        requires
            self.wf_arena(),
            0 <= b < self.internals@.len(),
            0 <= n <= self.internals@.len(),
            self.internals@[b] is Branch,
            forall|l: int|
                0 <= l < self.meta@[b].path.len() ==> #[trigger] self.meta@[b].path[l]
                    == level_key(f, l),
            k == level_key(f, self.meta@[b].path.len() as int),
        ensures
            contents_pre(self.internals@, self.meta@, self.meta@[b].path, n).count(f)
                == contents_pre(
                self.internals@,
                self.meta@,
                self.meta@[b].path.push(k),
                n,
            ).count(f),
        decreases n,
    {
        let a = self.internals@;
        let m = self.meta@;
        let p = m[b].path;
        if n > 0 {
            self.lemma_descend_count(b, k, f, n - 1);
            let q = m[n - 1].path;
            if (p.push(k)).is_prefix_of(q) {
                assert(p.is_prefix_of(q)) by {
                    assert(p =~= q.subrange(0, p.len() as int));
                }
            } else if p.is_prefix_of(q) {
                if q.len() == p.len() {
                    assert(q =~= p);
                    self.lemma_path_unique(b, n - 1);
                } else {
                    if a[n - 1] is Leaf && node_contents(a[n - 1]).count(f) > 0 {
                        assert(a[n - 1]->Leaf_0@.contains(f));
                        let idx = choose|idx: int|
                            0 <= idx < a[n - 1]->Leaf_0@.len() && #[trigger] a[n
                                - 1]->Leaf_0@[idx] == f;
                        assert(level_key(f, p.len() as int) == q[p.len() as int]);
                        assert(p.push(k) =~= q.subrange(0, p.len() as int + 1));
                        assert(false);
                    }
                }
            }
        }
    }

    /// Where the next key of a feature is absent from the branch, the
    /// feature is not stored in that branch's subtree.
    proof fn lemma_vacant_count(self, b: int, k: u128, f: u128, n: int)
        requires
            self.wf_arena(),
            0 <= b < self.internals@.len(),
            0 <= n <= self.internals@.len(),
            self.internals@[b] is Branch,
            forall|l: int|
                0 <= l < self.meta@[b].path.len() ==> #[trigger] self.meta@[b].path[l]
                    == level_key(f, l),
            k == level_key(f, self.meta@[b].path.len() as int),
            !key_map_contents(self.internals@[b]->Branch_0).dom().contains(k),
        ensures
            contents_pre(self.internals@, self.meta@, self.meta@[b].path, n).count(f) == 0,
        decreases n,
    {
        let a = self.internals@;
        let m = self.meta@;
        let p = m[b].path;
        if n > 0 {
            self.lemma_vacant_count(b, k, f, n - 1);
            let q = m[n - 1].path;
            if p.is_prefix_of(q) {
                if q.len() == p.len() {
                    assert(q =~= p);
                    self.lemma_path_unique(b, n - 1);
                } else {
                    if a[n - 1] is Leaf && node_contents(a[n - 1]).count(f) > 0 {
                        assert(a[n - 1]->Leaf_0@.contains(f));
                        let idx = choose|idx: int|
                            0 <= idx < a[n - 1]->Leaf_0@.len() && #[trigger] a[n
                                - 1]->Leaf_0@[idx] == f;
                        assert(level_key(f, p.len() as int) == q[p.len() as int]);
                        self.lemma_prefix_child(b, n - 1);
                        assert(false);
                    }
                }
            }
        }
    }

    /// A node is determined by its recorded key path.
    proof fn lemma_path_unique(self, i: int, j: int)
        requires
            self.wf_arena(),
            0 <= i < self.internals@.len(),
            0 <= j < self.internals@.len(),
            self.meta@[i].path =~= self.meta@[j].path,
        ensures
            i == j,
        decreases i + j,
    {
        let m = self.meta@;
        if i == 0 || j == 0 {
            if i != 0 {
                assert(m[i].path.len() >= 1);
            }
            if j != 0 {
                assert(m[j].path.len() >= 1);
            }
        } else {
            let pi = m[i].parent;
            let pj = m[j].parent;
            assert(m[i].path =~= m[pi].path.push(m[i].path.last()));
            assert(m[j].path =~= m[pj].path.push(m[j].path.last()));
            assert(m[pi].path.len() == m[i].path.len() - 1);
            assert(m[pj].path.len() == m[j].path.len() - 1);
            assert forall|t: int| 0 <= t < m[pi].path.len() implies m[pi].path[t] == m[pj].path[t]
                by {
                assert(m[pi].path.push(m[i].path.last())[t] == m[pi].path[t]);
                assert(m[pj].path.push(m[j].path.last())[t] == m[pj].path[t]);
                assert(m[i].path[t] == m[j].path[t]);
            }
            assert(m[pi].path =~= m[pj].path);
            self.lemma_path_unique(pi, pj);
            let la = m[i].path.last();
            let lb = m[j].path.last();
            assert(la == m[i].path[m[i].path.len() - 1]);
            assert(la == lb);
            assert(key_map_contents(self.internals@[pi]->Branch_0)[la] as int == i);
            assert(key_map_contents(self.internals@[pj]->Branch_0)[lb] as int == j);
        }
    }

    /// Below a node whose path is a proper prefix of another node's path,
    /// the next key of the longer path is present in the branch.
    proof fn lemma_prefix_child(self, i: int, j: int)
        requires
            self.wf_arena(),
            0 <= i < self.internals@.len(),
            0 <= j < self.internals@.len(),
            self.meta@[i].path.is_prefix_of(self.meta@[j].path),
            self.meta@[j].path.len() > self.meta@[i].path.len(),
        ensures
            self.internals@[i] is Branch,
            key_map_contents(self.internals@[i]->Branch_0).dom().contains(
                self.meta@[j].path[self.meta@[i].path.len() as int],
            ),
        decreases j,
    {
        let a = self.internals@;
        let m = self.meta@;
        let ll = m[i].path.len() as int;
        let pj = m[j].parent;
        if m[pj].path.len() == ll {
            assert(m[pj].path =~= m[i].path);
            self.lemma_path_unique(i, pj);
            assert(m[j].path[ll] == m[j].path.last());
        } else {
            assert(m[i].path.is_prefix_of(m[pj].path));
            assert(m[pj].path[ll] == m[j].path[ll]);
            self.lemma_prefix_child(i, pj);
        }
    }

    /// No other node's path extends a leaf's path.
    proof fn lemma_no_ext_of_leaf(self, i: int, j: int)
        requires
            self.wf_arena(),
            0 <= i < self.internals@.len(),
            0 <= j < self.internals@.len(),
            self.internals@[i] is Leaf,
            self.meta@[i].path.is_prefix_of(self.meta@[j].path),
        ensures
            i == j,
    {
        if self.meta@[j].path.len() == self.meta@[i].path.len() {
            assert(self.meta@[i].path =~= self.meta@[j].path);
            self.lemma_path_unique(i, j);
        } else {
            self.lemma_prefix_child(i, j);
        }
    }

    /// The whole structure is the subtree addressed by the empty path.
    proof fn lemma_pre_empty(self, n: int)
        requires
            n <= self.internals@.len(),
        ensures
            contents_pre(self.internals@, self.meta@, Seq::empty(), n) == arena_sum(
                self.internals@,
                n,
            ),
        decreases n,
    {
        if n > 0 {
            self.lemma_pre_empty(n - 1);
            assert(Seq::<u128>::empty().is_prefix_of(self.meta@[n - 1].path));
        }
    }

    /// A leaf's subtree is exactly its own contents.
    proof fn lemma_pre_leaf_n(self, i: int, n: int)
        requires
            self.wf_arena(),
            0 <= i < self.internals@.len(),
            n <= self.internals@.len(),
            self.internals@[i] is Leaf,
        ensures
            contents_pre(self.internals@, self.meta@, self.meta@[i].path, n) == if i < n {
                node_contents(self.internals@[i])
            } else {
                Multiset::<u128>::empty()
            },
        decreases n,
    {
        let a = self.internals@;
        let m = self.meta@;
        let p = m[i].path;
        if n > 0 {
            self.lemma_pre_leaf_n(i, n - 1);
            if p.is_prefix_of(m[n - 1].path) {
                self.lemma_no_ext_of_leaf(i, n - 1);
                assert(i == n - 1);
                assert(contents_pre(a, m, p, n) =~= node_contents(a[i]));
            } else {
                assert(!p.is_prefix_of(m[i].path) ==> false) by {
                    assert(p =~= p.subrange(0, p.len() as int));
                }
                assert(contents_pre(a, m, p, n) =~= contents_pre(a, m, p, n - 1));
            }
        }
    }

    /// Splitting off one node of the arena from an entry-list sum.
    proof fn lemma_entries_sum_step(self, p: Seq<u128>, es: Seq<(u128, usize)>, n: int)
        requires
            1 <= n <= self.internals@.len(),
            forall|l1: int, l2: int|
                0 <= l1 < l2 < es.len() ==> (#[trigger] es[l1]).0 != (#[trigger] es[l2]).0,
        ensures
            entries_sum(self.internals@, self.meta@, p, es, n) == entries_sum(
                self.internals@,
                self.meta@,
                p,
                es,
                n - 1,
            ).add(
                if exists|l: int|
                    0 <= l < es.len() && (p.push((#[trigger] es[l]).0)).is_prefix_of(
                        self.meta@[n - 1].path,
                    ) {
                    node_contents(self.internals@[n - 1])
                } else {
                    Multiset::<u128>::empty()
                },
            ),
        decreases es.len(),
    {
        let a = self.internals@;
        let m = self.meta@;
        if es.len() == 0 {
            assert(entries_sum(a, m, p, es, n) =~= entries_sum(a, m, p, es, n - 1).add(
                Multiset::<u128>::empty(),
            ));
        } else {
            let rest = es.drop_first();
            assert(forall|l1: int, l2: int|
                0 <= l1 < l2 < rest.len() ==> (#[trigger] rest[l1]).0 != (#[trigger] rest[l2]).0);
            self.lemma_entries_sum_step(p, rest, n);
            if (p.push(es[0].0)).is_prefix_of(m[n - 1].path) {
                assert(forall|l: int|
                    1 <= l < es.len() ==> !(p.push((#[trigger] es[l]).0)).is_prefix_of(
                        m[n - 1].path,
                    )) by {
                    assert forall|l: int|
                        1 <= l < es.len() && (p.push((#[trigger] es[l]).0)).is_prefix_of(
                            m[n - 1].path,
                        ) implies false by {
                        lemma_prefix_push_index(p, es[0].0, m[n - 1].path);
                        lemma_prefix_push_index(p, es[l].0, m[n - 1].path);
                    }
                }
                assert(!(exists|l: int|
                    0 <= l < rest.len() && (p.push((#[trigger] rest[l]).0)).is_prefix_of(
                        m[n - 1].path,
                    )));
                assert(exists|l: int|
                    0 <= l < es.len() && (p.push((#[trigger] es[l]).0)).is_prefix_of(
                        m[n - 1].path,
                    ));
                assert(entries_sum(a, m, p, es, n) =~= entries_sum(a, m, p, es, n - 1).add(
                    node_contents(a[n - 1]),
                ));
            } else {
                if exists|l: int|
                    0 <= l < es.len() && (p.push((#[trigger] es[l]).0)).is_prefix_of(
                        m[n - 1].path,
                    ) {
                    let lw = choose|l: int|
                        0 <= l < es.len() && (p.push((#[trigger] es[l]).0)).is_prefix_of(
                            m[n - 1].path,
                        );
                    assert(lw >= 1);
                    assert(rest[lw - 1] == es[lw]);
                    assert(exists|l: int|
                        0 <= l < rest.len() && (p.push((#[trigger] rest[l]).0)).is_prefix_of(
                            m[n - 1].path,
                        ));
                    assert(entries_sum(a, m, p, es, n) =~= entries_sum(a, m, p, es, n - 1).add(
                        node_contents(a[n - 1]),
                    ));
                } else {
                    assert(forall|l: int|
                        0 <= l < rest.len() ==> !(p.push((#[trigger] rest[l]).0)).is_prefix_of(
                            m[n - 1].path,
                        )) by {
                        assert forall|l: int|
                            0 <= l < rest.len() && (p.push((#[trigger] rest[l]).0)).is_prefix_of(
                                m[n - 1].path,
                            ) implies false by {
                            assert(es[l + 1] == rest[l]);
                        }
                    }
                    assert(entries_sum(a, m, p, es, n) =~= entries_sum(a, m, p, es, n - 1).add(
                        Multiset::<u128>::empty(),
                    ));
                }
            }
        }
    }

    /// A branch's subtree decomposes into the subtrees of its entries.
    proof fn lemma_branch_decompose_n(self, i: int, es: Seq<(u128, usize)>, n: int)
        requires
            self.wf_arena(),
            0 <= i < self.internals@.len(),
            0 <= n <= self.internals@.len(),
            self.internals@[i] is Branch,
            forall|l: int|
                0 <= l < es.len() ==> key_map_contents(
                    self.internals@[i]->Branch_0,
                ).contains_pair((#[trigger] es[l]).0, es[l].1),
            forall|l1: int, l2: int|
                0 <= l1 < l2 < es.len() ==> (#[trigger] es[l1]).0 != (#[trigger] es[l2]).0,
            forall|k: u128|
                key_map_contents(self.internals@[i]->Branch_0).dom().contains(k)
                    ==> exists|l: int| 0 <= l < es.len() && (#[trigger] es[l]).0 == k,
        ensures
            contents_pre(self.internals@, self.meta@, self.meta@[i].path, n) == entries_sum(
                self.internals@,
                self.meta@,
                self.meta@[i].path,
                es,
                n,
            ),
        decreases n,
    {
        let a = self.internals@;
        let m = self.meta@;
        let p = m[i].path;
        if n == 0 {
            assert(entries_sum(a, m, p, es, 0) =~= Multiset::<u128>::empty()) by {
                self.lemma_entries_sum_zero(p, es);
            }
        } else {
            self.lemma_branch_decompose_n(i, es, n - 1);
            self.lemma_entries_sum_step(p, es, n);
            if p.is_prefix_of(m[n - 1].path) {
                if m[n - 1].path.len() == p.len() {
                    assert(m[n - 1].path =~= p);
                    self.lemma_path_unique(i, n - 1);
                    assert(node_contents(a[n - 1]) =~= Multiset::<u128>::empty());
                    assert(forall|l: int|
                        0 <= l < es.len() ==> !(p.push((#[trigger] es[l]).0)).is_prefix_of(
                            m[n - 1].path,
                        ));
                } else {
                    self.lemma_prefix_child(i, n - 1);
                    let k = m[n - 1].path[p.len() as int];
                    let lw = choose|l: int| 0 <= l < es.len() && (#[trigger] es[l]).0 == k;
                    assert((p.push(es[lw].0)).is_prefix_of(m[n - 1].path)) by {
                        assert(p.push(k) =~= m[n - 1].path.subrange(0, p.len() as int + 1));
                    }
                }
            } else {
                assert(forall|l: int|
                    0 <= l < es.len() ==> !(p.push((#[trigger] es[l]).0)).is_prefix_of(
                        m[n - 1].path,
                    )) by {
                    assert forall|l: int|
                        0 <= l < es.len() && (p.push((#[trigger] es[l]).0)).is_prefix_of(
                            m[n - 1].path,
                        ) implies false by {
                        assert(p =~= m[n - 1].path.subrange(0, p.len() as int));
                    }
                }
            }
            assert(contents_pre(a, m, p, n) =~= entries_sum(a, m, p, es, n));
        }
    }

    /// An entry-list sum over no nodes is empty.
    proof fn lemma_entries_sum_zero(self, p: Seq<u128>, es: Seq<(u128, usize)>)
        ensures
            entries_sum(self.internals@, self.meta@, p, es, 0) == Multiset::<u128>::empty(),
        decreases es.len(),
    {
        if es.len() > 0 {
            self.lemma_entries_sum_zero(p, es.drop_first());
            assert(entries_sum(self.internals@, self.meta@, p, es, 0)
                =~= Multiset::<u128>::empty());
        }
    }
}

impl Default for Hwt {
    /// An empty index, as `new` makes it.
    fn default() -> (r: Hwt)
        ensures
            r.wf(),
            r@ =~= Multiset::<u128>::empty(),
    {
        Hwt::new()
    }
}

} // verus!
