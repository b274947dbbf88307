//! The dependency graph: forward and reverse adjacency held side by side,
//! with the mirror invariant that `y` is among the dependencies of `x`
//! exactly when `x` is among the reverse dependencies of `y`. Updates
//! return a new graph; the old one stays usable.

use vstd::prelude::*;
use vstd::std_specs::cmp::PartialEqSpec;

verus! {

/// Equality on the id type is trusted to mean value equality; the standard
/// integer types and the library's own key types satisfy this.
pub open spec fn eq_well_behaved<I: PartialEq>() -> bool {
    &&& I::obeys_eq_spec()
    &&& forall|a: I, b: I| #[trigger] a.eq_spec(&b) <==> a == b
}

/// Something that advertises an id and the ids it depends on.
pub trait Node<I> {
    /// The id the node answers.
    spec fn id_spec(&self) -> I;

    /// The dependency list the node answers.
    spec fn deps_spec(&self) -> Seq<I>;

    fn get_id(&self) -> (r: I)
        ensures
            r == self.id_spec(),
    ;

    fn get_deps(&self) -> (r: &Vec<I>)
        ensures
            r@ == self.deps_spec(),
    ;
}

/// A plain record node: an id and the ids it depends on.
pub struct GraphNode<I> {
    pub id: I,
    pub deps: Vec<I>,
}

impl<I: Copy> Node<I> for GraphNode<I> {
    open spec fn id_spec(&self) -> I {
        self.id
    }

    open spec fn deps_spec(&self) -> Seq<I> {
        self.deps@
    }

    fn get_id(&self) -> I {
        self.id
    }

    fn get_deps(&self) -> &Vec<I> {
        &self.deps
    }
}

/// An association list of id-to-ids entries, later entries shadowing
/// earlier ones (the graph keeps its keys unique).
pub open spec fn edges_map<I>(entries: Seq<(I, Vec<I>)>) -> Map<I, Seq<I>>
    decreases entries.len(),
{
    if entries.len() == 0 {
        Map::empty()
    } else {
        edges_map(entries.drop_last()).insert(entries.last().0, entries.last().1@)
    }
}

pub open spec fn keys_nodup<I>(entries: Seq<(I, Vec<I>)>) -> bool {
    forall|i: int, j: int|
        0 <= i < j < entries.len() ==> (#[trigger] entries[i]).0 != (#[trigger] entries[j]).0
}

/// The edge pairs of one entry: the key paired with each target in order.
pub open spec fn pair_list<I>(k: I, vs: Seq<I>) -> Seq<(I, I)>
    decreases vs.len(),
{
    if vs.len() == 0 {
        Seq::empty()
    } else {
        pair_list(k, vs.drop_last()).push((k, vs.last()))
    }
}

/// All edge pairs of an association list, in storage order.
pub open spec fn edges_list<I>(entries: Seq<(I, Vec<I>)>) -> Seq<(I, I)>
    decreases entries.len(),
{
    if entries.len() == 0 {
        Seq::empty()
    } else {
        edges_list(entries.drop_last()) + pair_list(entries.last().0, entries.last().1@)
    }
}

/// `y` is a recorded edge target of `x` in the map.
pub open spec fn has_edge<I>(m: Map<I, Seq<I>>, x: I, y: I) -> bool {
    m.contains_key(x) && m[x].contains(y)
}

/// `x` is `start`, or reaches it over forward edges in at most `n` steps.
pub open spec fn depends_within<I>(m: Map<I, Seq<I>>, start: I, x: I, n: nat) -> bool
    decreases n,
{
    x == start || (n > 0 && exists|y: I|
        #[trigger] has_edge(m, x, y) && depends_within(m, start, y, (n - 1) as nat))
}

/// `x` is `start` or transitively depends on it.
pub open spec fn depends_on_trans<I>(m: Map<I, Seq<I>>, start: I, x: I) -> bool {
    exists|n: nat| #[trigger] depends_within(m, start, x, n)
}

/// A direct dependent of a transitive dependent is one too.
pub proof fn lemma_depends_step<I>(m: Map<I, Seq<I>>, start: I, a: I, x: I)
    requires
        depends_on_trans(m, start, a),
        has_edge(m, x, a),
    ensures
        depends_on_trans(m, start, x),
{
    let n = choose|n: nat| #[trigger] depends_within(m, start, a, n);
    assert(depends_within(m, start, x, n + 1));
}

proof fn lemma_edges_map_found<I>(entries: Seq<(I, Vec<I>)>, k: int)
    requires
        0 <= k < entries.len(),
        forall|m: int| k < m < entries.len() ==> (#[trigger] entries[m]).0 != entries[k].0,
    ensures
        edges_map(entries).contains_key(entries[k].0),
        edges_map(entries)[entries[k].0] == entries[k].1@,
    decreases entries.len(),
{
    if k == entries.len() - 1 {
    } else {
        assert(entries.drop_last()[k] == entries[k]);
        assert forall|m: int|
            k < m < entries.drop_last().len() implies (#[trigger] entries.drop_last()[m]).0
            != entries[k].0 by {
            assert(entries.drop_last()[m] == entries[m]);
        }
        lemma_edges_map_found(entries.drop_last(), k);
        assert(entries.last().0 != entries[k].0);
    }
}

proof fn lemma_edges_map_missing<I>(entries: Seq<(I, Vec<I>)>, key: I)
    requires
        forall|m: int| 0 <= m < entries.len() ==> (#[trigger] entries[m]).0 != key,
    ensures
        !edges_map(entries).contains_key(key),
    decreases entries.len(),
{
    if entries.len() > 0 {
        assert forall|m: int|
            0 <= m < entries.drop_last().len() implies (#[trigger] entries.drop_last()[m]).0
            != key by {
            assert(entries.drop_last()[m] == entries[m]);
        }
        lemma_edges_map_missing(entries.drop_last(), key);
    }
}

proof fn lemma_edges_map_dom<I>(entries: Seq<(I, Vec<I>)>, key: I)
    requires
        edges_map(entries).contains_key(key),
    ensures
        exists|i: int| 0 <= i < entries.len() && (#[trigger] entries[i]).0 == key,
    decreases entries.len(),
{
    if entries.len() > 0 {
        if entries.last().0 == key {
            assert(entries[entries.len() - 1].0 == key);
        } else {
            lemma_edges_map_dom(entries.drop_last(), key);
            let i = choose|i: int|
                0 <= i < entries.drop_last().len() && (#[trigger] entries.drop_last()[i]).0 == key;
            assert(entries[i].0 == key);
        }
    }
}

/// Finds the entry holding `key`.
fn assoc_find<I: PartialEq + Copy>(entries: &Vec<(I, Vec<I>)>, key: I) -> (r: Option<usize>)
    requires
        eq_well_behaved::<I>(),
    ensures
        match r {
            Option::Some(i) => i < entries@.len() && entries@[i as int].0 == key,
            Option::None => forall|j: int|
                0 <= j < entries@.len() ==> (#[trigger] entries@[j]).0 != key,
        },
{
    let mut j: usize = 0;
    while j < entries.len()
        invariant
            j <= entries@.len(),
            eq_well_behaved::<I>(),
            forall|m: int| 0 <= m < j ==> (#[trigger] entries@[m]).0 != key,
        decreases entries@.len() - j,
    {
        if entries[j].0.eq(&key) {
            return Some(j);
        }
        j = j + 1;
    }
    None
}

fn vec_contains<I: PartialEq + Copy>(v: &Vec<I>, x: I) -> (r: bool)
    requires
        eq_well_behaved::<I>(),
    ensures
        r == v@.contains(x),
{
    let mut j: usize = 0;
    while j < v.len()
        invariant
            j <= v@.len(),
            eq_well_behaved::<I>(),
            forall|m: int| 0 <= m < j ==> v@[m] != x,
        decreases v@.len() - j,
    {
        if v[j].eq(&x) {
            return true;
        }
        j = j + 1;
    }
    false
}

pub(crate) fn vec_copy<I: Copy>(v: &Vec<I>) -> (r: Vec<I>)
    ensures
        r@ == v@,
{
    let mut r: Vec<I> = Vec::new();
    let mut j: usize = 0;
    while j < v.len()
        invariant
            j <= v@.len(),
            r@ == v@.take(j as int),
        decreases v@.len() - j,
    {
        r.push(v[j]);
        proof {
            assert(r@ =~= v@.take(j + 1));
        }
        j = j + 1;
    }
    proof {
        assert(r@ =~= v@);
    }
    r
}

/// The elements of a sequence without duplicates, first occurrences kept,
/// in order.
pub open spec fn dedup_first<I>(s: Seq<I>) -> Seq<I>
    decreases s.len(),
{
    if s.len() == 0 {
        Seq::empty()
    } else {
        let d = dedup_first(s.drop_last());
        if d.contains(s.last()) {
            d
        } else {
            d.push(s.last())
        }
    }
}

/// The elements of `v` without duplicates, first occurrences kept.
fn vec_dedup<I: PartialEq + Copy>(v: &Vec<I>) -> (r: Vec<I>)
    requires
        eq_well_behaved::<I>(),
    ensures
        r@ == dedup_first(v@),
        r@.no_duplicates(),
        forall|x: I| r@.contains(x) <==> v@.contains(x),
{
    let mut r: Vec<I> = Vec::new();
    let mut j: usize = 0;
    while j < v.len()
        invariant
            j <= v@.len(),
            eq_well_behaved::<I>(),
            r@ == dedup_first(v@.take(j as int)),
            r@.no_duplicates(),
            forall|x: I| r@.contains(x) <==> v@.take(j as int).contains(x),
        decreases v@.len() - j,
    {
        let ghost r0 = r@;
        if !vec_contains(&r, v[j]) {
            r.push(v[j]);
        }
        proof {
            assert(v@.take(j + 1).drop_last() =~= v@.take(j as int));
            assert(v@.take(j + 1).last() == v@[j as int]);
            assert(r@ == dedup_first(v@.take(j + 1)));
            assert forall|x: I| r@.contains(x) <==> v@.take(j + 1).contains(x) by {
                if r@.contains(x) {
                    if r0.contains(x) {
                        let m = choose|m: int| 0 <= m < v@.take(j as int).len() && v@.take(
                            j as int,
                        )[m] == x;
                        assert(v@.take(j + 1)[m] == x);
                    } else {
                        assert(v@.take(j + 1)[j as int] == x);
                    }
                }
                if v@.take(j + 1).contains(x) {
                    let m = choose|m: int| 0 <= m < v@.take(j + 1).len() && #[trigger] v@.take(j + 1)[m] == x;
                    if m < j {
                        assert(v@.take(j as int)[m] == x);
                        assert(r0.contains(x));
                        if !r0.contains(v@[j as int]) {
                            assert(r@ == r0.push(v@[j as int]));
                            assert(r@[choose|i: int| 0 <= i < r0.len() && r0[i] == x] == x);
                        }
                    } else {
                        assert(x == v@[j as int]);
                        if r0.contains(v@[j as int]) {
                        } else {
                            assert(r@.last() == x);
                        }
                    }
                }
            }
        }
        j = j + 1;
    }
    proof {
        assert(v@.take(v@.len() as int) =~= v@);
    }
    r
}

/// The elements of `v` with every occurrence of `x` removed.
fn vec_remove_elem<I: PartialEq + Copy>(v: &Vec<I>, x: I) -> (r: Vec<I>)
    requires
        eq_well_behaved::<I>(),
        v@.no_duplicates(),
    ensures
        r@.no_duplicates(),
        forall|y: I| r@.contains(y) <==> (v@.contains(y) && y != x),
{
    let mut r: Vec<I> = Vec::new();
    let mut j: usize = 0;
    while j < v.len()
        invariant
            j <= v@.len(),
            eq_well_behaved::<I>(),
            v@.no_duplicates(),
            r@.no_duplicates(),
            forall|y: I| r@.contains(y) <==> (v@.take(j as int).contains(y) && y != x),
        decreases v@.len() - j,
    {
        let ghost r0 = r@;
        if !v[j].eq(&x) {
            proof {
                if r0.contains(v@[j as int]) {
                    let m = choose|m: int| 0 <= m < r0.len() && r0[m] == v@[j as int];
                    let m2 = choose|m2: int| 0 <= m2 < j && v@.take(j as int)[m2] == v@[j as int];
                    assert(v@[m2] == v@[j as int]);
                    assert(false);
                }
            }
            r.push(v[j]);
        }
        proof {
            assert forall|y: I| r@.contains(y) <==> (v@.take(j + 1).contains(y) && y != x) by {
                if r@.contains(y) {
                    let i = choose|i: int| 0 <= i < r@.len() && r@[i] == y;
                    if r0.contains(y) {
                        let m = choose|m: int|
                            0 <= m < j && #[trigger] v@.take(j as int)[m] == y;
                        assert(v@.take(j + 1)[m] == y);
                    } else {
                        assert(r@ == r0.push(v@[j as int]));
                        assert(i == r0.len());
                        assert(y == v@[j as int]);
                        assert(v@.take(j + 1)[j as int] == y);
                    }
                }
                if v@.take(j + 1).contains(y) && y != x {
                    let m = choose|m: int| 0 <= m < j + 1 && #[trigger] v@.take(j + 1)[m] == y;
                    if m < j {
                        assert(v@.take(j as int)[m] == y);
                        assert(v@.take(j as int).contains(y));
                        assert(r0.contains(y));
                        let i = choose|i: int| 0 <= i < r0.len() && r0[i] == y;
                        assert(r@[i] == y);
                        assert(r@.contains(y));
                    } else {
                        assert(y == v@.take(j + 1)[j as int]);
                        assert(y == v@[j as int]);
                        assert(r@.last() == y);
                        assert(r@.contains(y));
                    }
                }
            }
        }
        j = j + 1;
    }
    proof {
        assert(v@.take(v@.len() as int) =~= v@);
    }
    r
}

/// The forward map after replacing each node's edges in order, starting
/// from `m`.
pub open spec fn deps_after<I, N: Node<I>>(m: Map<I, Seq<I>>, nodes: Seq<N>) -> Map<I, Seq<I>>
    decreases nodes.len(),
{
    if nodes.len() == 0 {
        m
    } else {
        deps_after(m, nodes.drop_last()).insert(
            nodes.last().id_spec(),
            dedup_first(nodes.last().deps_spec()),
        )
    }
}

/// A persistent dependency graph over ids of type `I`.
pub struct DepGraph<I> {
    pub deps: Vec<(I, Vec<I>)>,
    pub rdeps: Vec<(I, Vec<I>)>,
    pub ready: Vec<I>,
}

impl<I: PartialEq + Copy> DepGraph<I> {
    /// The forward map: what each id depends on.
    pub open spec fn deps_m(self) -> Map<I, Seq<I>> {
        edges_map(self.deps@)
    }

    /// The reverse map: what depends on each id.
    pub open spec fn rdeps_m(self) -> Map<I, Seq<I>> {
        edges_map(self.rdeps@)
    }

    /// The graph invariant: unique keys, duplicate-free edge lists, the two
    /// maps mirror each other, and `ready` holds exactly the ids whose
    /// dependency list is empty.
    pub open spec fn wf(self) -> bool {
        &&& keys_nodup(self.deps@)
        &&& keys_nodup(self.rdeps@)
        &&& (forall|i: int|
            0 <= i < self.deps@.len() ==> (#[trigger] self.deps@[i]).1@.no_duplicates())
        &&& (forall|i: int|
            0 <= i < self.rdeps@.len() ==> (#[trigger] self.rdeps@[i]).1@.no_duplicates())
        &&& (forall|x: I, y: I|
            #[trigger] has_edge(self.deps_m(), x, y) <==> #[trigger] has_edge(
                self.rdeps_m(),
                y,
                x,
            ))
        &&& self.ready@.no_duplicates()
        &&& (forall|x: I|
            self.ready@.contains(x) <==> (self.deps_m().contains_key(x) && self.deps_m()[x].len()
                == 0))
    }

    /// A graph with no nodes.
    pub fn empty() -> (r: Self)
        ensures
            r.wf(),
            r.deps_m() == Map::<I, Seq<I>>::empty(),
            r.rdeps_m() == Map::<I, Seq<I>>::empty(),
    {
        let r = DepGraph { deps: Vec::new(), rdeps: Vec::new(), ready: Vec::new() };
        proof {
            assert(r.deps_m() =~= Map::<I, Seq<I>>::empty());
            assert(r.rdeps_m() =~= Map::<I, Seq<I>>::empty());
        }
        r
    }
}

/// For all ids `x` and `y` of a well-formed graph, `y` is among the
/// dependencies of `x` exactly when `x` is among the reverse dependencies
/// of `y` — at all times, since every operation returns a well-formed
/// graph.
pub proof fn lemma_graph_mirror<I: PartialEq + Copy>(g: DepGraph<I>, x: I, y: I)
    requires
        g.wf(),
    ensures
        has_edge(g.deps_m(), x, y) <==> has_edge(g.rdeps_m(), y, x),
{
}

proof fn lemma_edges_map_equiv<I>(a: Seq<(I, Vec<I>)>, b: Seq<(I, Vec<I>)>)
    requires
        a.len() == b.len(),
        forall|i: int|
            0 <= i < a.len() ==> (#[trigger] a[i]).0 == b[i].0 && (#[trigger] a[i]).1@ == b[i].1@,
    ensures
        edges_map(a) == edges_map(b),
    decreases a.len(),
{
    if a.len() > 0 {
        assert forall|i: int|
            0 <= i < a.drop_last().len() implies (#[trigger] a.drop_last()[i]).0
            == b.drop_last()[i].0 && (#[trigger] a.drop_last()[i]).1@ == b.drop_last()[i].1@ by {
            assert(a.drop_last()[i] == a[i]);
            assert(b.drop_last()[i] == b[i]);
        }
        lemma_edges_map_equiv(a.drop_last(), b.drop_last());
        assert(a[a.len() - 1].0 == b[b.len() - 1].0 && a[a.len() - 1].1@ == b[b.len() - 1].1@);
        assert(edges_map(a) =~= edges_map(b));
    }
}

/// Copies an association vector.
fn entries_copy<I: Copy>(entries: &Vec<(I, Vec<I>)>) -> (r: Vec<(I, Vec<I>)>)
    ensures
        r@.len() == entries@.len(),
        forall|i: int|
            0 <= i < r@.len() ==> (#[trigger] r@[i]).0 == entries@[i].0 && (#[trigger] r@[i]).1@
                == entries@[i].1@,
        edges_map(r@) == edges_map(entries@),
{
    let mut r: Vec<(I, Vec<I>)> = Vec::new();
    let mut j: usize = 0;
    while j < entries.len()
        invariant
            j <= entries@.len(),
            r@.len() == j,
            forall|i: int|
                0 <= i < j ==> (#[trigger] r@[i]).0 == entries@[i].0 && (#[trigger] r@[i]).1@
                    == entries@[i].1@,
        decreases entries@.len() - j,
    {
        let inner = vec_copy(&entries[j].1);
        r.push((entries[j].0, inner));
        j = j + 1;
    }
    proof {
        lemma_edges_map_equiv(r@, entries@);
    }
    r
}

/// Replaces or adds the entry for `key`.
#[verifier::loop_isolation(false)]
fn assoc_set<I: PartialEq + Copy>(entries: Vec<(I, Vec<I>)>, key: I, value: Vec<I>) -> (r: Vec<
    (I, Vec<I>),
>)
    requires
        eq_well_behaved::<I>(),
        keys_nodup(entries@),
    ensures
        keys_nodup(r@),
        edges_map(r@) == edges_map(entries@).insert(key, value@),
        forall|i: int|
            0 <= i < r@.len() ==> ((#[trigger] r@[i]).0 == key && r@[i].1@ == value@) || (r@[i].0
                != key && entries@.contains(r@[i])),
{
    let mut entries = entries;
    match assoc_find(&entries, key) {
        Some(i) => {
            let ghost olds = entries@;
            entries.set(i, (key, value));
            proof {
                assert forall|k: I|
                    edges_map(entries@).contains_key(k) <==> edges_map(olds).insert(
                    key,
                    value@,
                ).contains_key(k) by {
                    if k == key {
                        lemma_edges_map_found(entries@, i as int);
                    } else {
                        if edges_map(olds).contains_key(k) {
                            lemma_edges_map_dom(olds, k);
                            let m = choose|m: int|
                                0 <= m < olds.len() && (#[trigger] olds[m]).0 == k;
                            lemma_edges_map_found(entries@, m);
                        }
                        if edges_map(entries@).contains_key(k) {
                            lemma_edges_map_dom(entries@, k);
                            let m = choose|m: int|
                                0 <= m < entries@.len() && (#[trigger] entries@[m]).0 == k;
                            lemma_edges_map_found(olds, m);
                        }
                    }
                }
                assert forall|k: I|
                    edges_map(entries@).contains_key(k) implies edges_map(entries@)[k]
                    == edges_map(olds).insert(key, value@)[k] by {
                    if k == key {
                        lemma_edges_map_found(entries@, i as int);
                    } else {
                        lemma_edges_map_dom(entries@, k);
                        let m = choose|m: int|
                            0 <= m < entries@.len() && (#[trigger] entries@[m]).0 == k;
                        lemma_edges_map_found(entries@, m);
                        lemma_edges_map_found(olds, m);
                    }
                }
                assert(edges_map(entries@) =~= edges_map(olds).insert(key, value@));
            }
            entries
        },
        None => {
            let ghost olds = entries@;
            entries.push((key, value));
            proof {
                assert(entries@.drop_last() =~= olds);
                assert(edges_map(entries@) =~= edges_map(olds).insert(key, value@));
                assert forall|i: int|
                    0 <= i < entries@.len() implies ((#[trigger] entries@[i]).0 == key
                    && entries@[i].1@ == value@) || (entries@[i].0 != key && olds.contains(
                    entries@[i],
                )) by {
                    if i < olds.len() {
                        assert(olds[i] == entries@[i]);
                    }
                }
            }
            entries
        },
    }
}

/// Removes the entry for `key`, if any.
#[verifier::loop_isolation(false)]
fn assoc_remove<I: PartialEq + Copy>(entries: Vec<(I, Vec<I>)>, key: I) -> (r: Vec<(I, Vec<I>)>)
    requires
        eq_well_behaved::<I>(),
        keys_nodup(entries@),
    ensures
        keys_nodup(r@),
        edges_map(r@) == edges_map(entries@).remove(key),
        forall|i: int|
            0 <= i < r@.len() ==> (#[trigger] r@[i]).0 != key && (exists|m: int|
                0 <= m < entries@.len() && (#[trigger] entries@[m]).0 == r@[i].0
                    && entries@[m].1@ == r@[i].1@),
{
    let n = entries.len();
    let ghost olds = entries@;
    let mut entries = entries;
    let mut r: Vec<(I, Vec<I>)> = Vec::new();
    let mut j: usize = 0;
    while j < n
        invariant
            j <= n,
            n == olds.len(),
            entries@ == olds,
            edges_map(r@) == edges_map(olds.take(j as int)).remove(key),
            keys_nodup(r@),
            forall|i: int|
                0 <= i < r@.len() ==> (#[trigger] r@[i]).0 != key && (exists|m: int|
                    0 <= m < j && (#[trigger] olds[m]).0 == r@[i].0 && olds[m].1@ == r@[i].1@),
        decreases n - j,
    {
        proof {
            assert(olds.take(j + 1).drop_last() =~= olds.take(j as int));
            assert(olds.take(j + 1).last() == olds[j as int]);
        }
        let hit = entries[j].0.eq(&key);
        if !hit {
            let ghost r0 = r@;
            let inner = vec_copy(&entries[j].1);
            r.push((entries[j].0, inner));
            proof {
                assert(r@.drop_last() =~= r0);
                assert(edges_map(r@) == edges_map(r0).insert(olds[j as int].0, olds[j as int].1@));
                assert(edges_map(olds.take(j + 1)) == edges_map(olds.take(j as int)).insert(
                    olds[j as int].0,
                    olds[j as int].1@,
                ));
                assert(edges_map(r@) =~= edges_map(olds.take(j + 1)).remove(key));
                assert forall|i: int|
                    0 <= i < r@.len() implies (#[trigger] r@[i]).0 != key && (exists|m: int|
                    0 <= m < j + 1 && (#[trigger] olds[m]).0 == r@[i].0 && olds[m].1@
                        == r@[i].1@) by {
                    if i < r0.len() {
                        let m = choose|m: int|
                            0 <= m < j && (#[trigger] olds[m]).0 == r0[i].0 && olds[m].1@
                                == r0[i].1@;
                        assert(olds[m].0 == r@[i].0 && olds[m].1@ == r@[i].1@);
                    } else {
                        assert(r@[i].0 == olds[j as int].0 && r@[i].1@ == olds[j as int].1@);
                    }
                }
                assert forall|a: int, b: int| 0 <= a < b < r@.len() implies (#[trigger] r@[a]).0
                    != (#[trigger] r@[b]).0 by {
                    if b < r0.len() {
                    } else {
                        assert(r@[b].0 == olds[j as int].0);
                        let m = choose|m: int|
                            0 <= m < j && (#[trigger] olds[m]).0 == r0[a].0 && olds[m].1@
                                == r0[a].1@;
                        assert(olds[m].0 != olds[j as int].0);
                    }
                }
            }
        } else {
            proof {
                assert(edges_map(olds.take(j + 1)) == edges_map(olds.take(j as int)).insert(
                    key,
                    olds[j as int].1@,
                ));
                assert(edges_map(r@) =~= edges_map(olds.take(j + 1)).remove(key));
            }
        }
        j = j + 1;
    }
    proof {
        assert(olds.take(n as int) =~= olds);
    }
    r
}


/// Adds `id` to the edge list of `y`, creating the entry when absent.
#[verifier::loop_isolation(false)]
fn adj_add<I: PartialEq + Copy>(entries: Vec<(I, Vec<I>)>, y: I, id: I) -> (r: Vec<(I, Vec<I>)>)
    requires
        eq_well_behaved::<I>(),
        keys_nodup(entries@),
        forall|i: int| 0 <= i < entries@.len() ==> (#[trigger] entries@[i]).1@.no_duplicates(),
    ensures
        keys_nodup(r@),
        forall|i: int| 0 <= i < r@.len() ==> (#[trigger] r@[i]).1@.no_duplicates(),
        forall|a: I, b: I|
            #[trigger] has_edge(edges_map(r@), a, b) <==> (has_edge(edges_map(entries@), a, b) || (
            a == y && b == id)),
        forall|k: I|
            edges_map(r@).contains_key(k) <==> (edges_map(entries@).contains_key(k) || k == y),
{
    let ghost olds = entries@;
    match assoc_find(&entries, y) {
        Some(i) => {
            proof {
                lemma_edges_map_found(olds, i as int);
            }
            let mut inner = vec_copy(&entries[i].1);
            let had = vec_contains(&inner, id);
            if !had {
                inner.push(id);
            }
            proof {
                if !had {
                    assert(inner@.drop_last() =~= olds[i as int].1@);
                    assert(inner@ =~= olds[i as int].1@.push(id));
                } else {
                    assert(inner@ == olds[i as int].1@);
                }
            }
            let ghost innerv = inner@;
            let r = assoc_set(entries, y, inner);
            proof {
                assert forall|a: I, b: I|
                    #[trigger] has_edge(edges_map(r@), a, b) <==> (has_edge(
                    edges_map(olds),
                    a,
                    b,
                ) || (a == y && b == id)) by {
                    if a == y {
                        assert(edges_map(r@)[y] == innerv);
                        assert forall|b2: I| innerv.contains(b2) <==> (olds[i as int].1@.contains(
                            b2,
                        ) || b2 == id) by {
                            let lst = olds[i as int].1@;
                            if had {
                                assert(innerv == lst);
                                assert(lst.contains(id));
                            } else {
                                assert(innerv == lst.push(id));
                                if innerv.contains(b2) && b2 != id {
                                    let m = choose|m: int|
                                        0 <= m < innerv.len() && innerv[m] == b2;
                                    assert(m < innerv.len() - 1);
                                    assert(lst[m] == b2);
                                    assert(lst.contains(b2));
                                }
                                if lst.contains(b2) {
                                    let m = choose|m: int| 0 <= m < lst.len() && lst[m] == b2;
                                    assert(innerv[m] == b2);
                                    assert(innerv.contains(b2));
                                }
                                assert(innerv[innerv.len() - 1] == id);
                                assert(innerv.contains(id));
                            }
                        }
                    }
                }
            }
            r
        },
        None => {
            proof {
                lemma_edges_map_missing(olds, y);
            }
            let mut inner: Vec<I> = Vec::new();
            inner.push(id);
            let ghost innerv = inner@;
            let r = assoc_set(entries, y, inner);
            proof {
                assert(innerv =~= seq![id]);
                assert forall|a: I, b: I|
                    #[trigger] has_edge(edges_map(r@), a, b) <==> (has_edge(
                    edges_map(olds),
                    a,
                    b,
                ) || (a == y && b == id)) by {
                    if a == y {
                        assert(edges_map(r@)[y] == innerv);
                        assert(innerv[0] == id);
                        assert(innerv.contains(id));
                        if has_edge(edges_map(r@), y, b) && b != id {
                            let m = choose|m: int| 0 <= m < innerv.len() && innerv[m] == b;
                            assert(innerv[m] == id);
                        }
                    }
                }
            }
            r
        },
    }
}

/// Removes `id` from the edge list of `y`, if the entry exists.
#[verifier::loop_isolation(false)]
fn adj_remove<I: PartialEq + Copy>(entries: Vec<(I, Vec<I>)>, y: I, id: I) -> (r: Vec<(I, Vec<I>)>)
    requires
        eq_well_behaved::<I>(),
        keys_nodup(entries@),
        forall|i: int| 0 <= i < entries@.len() ==> (#[trigger] entries@[i]).1@.no_duplicates(),
    ensures
        keys_nodup(r@),
        forall|i: int| 0 <= i < r@.len() ==> (#[trigger] r@[i]).1@.no_duplicates(),
        forall|a: I, b: I|
            #[trigger] has_edge(edges_map(r@), a, b) <==> (has_edge(edges_map(entries@), a, b)
                && !(a == y && b == id)),
        forall|k: I| edges_map(r@).contains_key(k) <==> edges_map(entries@).contains_key(k),
{
    let ghost olds = entries@;
    match assoc_find(&entries, y) {
        Some(i) => {
            proof {
                lemma_edges_map_found(olds, i as int);
            }
            let inner = vec_remove_elem(&entries[i].1, id);
            let ghost innerv = inner@;
            let r = assoc_set(entries, y, inner);
            proof {
                assert forall|a: I, b: I|
                    #[trigger] has_edge(edges_map(r@), a, b) <==> (has_edge(
                    edges_map(olds),
                    a,
                    b,
                ) && !(a == y && b == id)) by {
                    if a == y {
                        assert(edges_map(r@)[y] == innerv);
                    }
                }
            }
            r
        },
        None => {
            proof {
                lemma_edges_map_missing(olds, y);
            }
            entries
        },
    }
}

impl<I: PartialEq + Copy> DepGraph<I> {
    /// Logically replaces the outgoing edges of `id` with `new_deps`:
    /// `id`'s dependency set becomes exactly the given ids, the reverse map
    /// follows, and `ready` keeps exactly the ids with no dependencies.
    #[verifier::loop_isolation(false)]
    #[verifier::rlimit(100)]
    pub fn update_edges(&self, id: I, new_deps: &Vec<I>) -> (g: Self)
        requires
            eq_well_behaved::<I>(),
            self.wf(),
        ensures
            g.wf(),
            g.deps_m() == self.deps_m().insert(id, dedup_first(new_deps@)),
            forall|y: I| #[trigger] g.deps_m()[id].contains(y) <==> new_deps@.contains(y),
            // the reverse map follows: `id` now sits in exactly the reverse
            // entries of its new dependencies
            forall|d: I, x: I|
                #[trigger] has_edge(g.rdeps_m(), d, x) <==> (if x == id {
                    new_deps@.contains(d)
                } else {
                    has_edge(self.rdeps_m(), d, x)
                }),
    {
        let nd = vec_dedup(new_deps);
        let ghost ndv = nd@;
        // the previous dependency list of `id`, empty when absent
        let old_list: Vec<I> = match assoc_find(&self.deps, id) {
            Some(i) => {
                proof {
                    lemma_edges_map_found(self.deps@, i as int);
                }
                vec_copy(&self.deps[i].1)
            },
            None => {
                proof {
                    lemma_edges_map_missing(self.deps@, id);
                }
                Vec::new()
            },
        };
        let ghost oldv = old_list@;
        proof {
            assert(self.deps_m().contains_key(id) ==> self.deps_m()[id] == oldv);
            assert(!self.deps_m().contains_key(id) ==> oldv =~= Seq::<I>::empty());
        }
        let deps_copy = entries_copy(&self.deps);
        let ghost dcv = deps_copy@;
        let deps2 = assoc_set(deps_copy, id, nd);
        proof {
            assert forall|i: int|
                0 <= i < deps2@.len() implies (#[trigger] deps2@[i]).1@.no_duplicates() by {
                if !(deps2@[i].0 == id && deps2@[i].1@ == ndv) {
                    assert(dcv.contains(deps2@[i]));
                    let q = choose|q: int| 0 <= q < dcv.len() && dcv[q] == deps2@[i];
                    assert(dcv[q].1@ == self.deps@[q].1@);
                }
            }
        }
        // reverse edges gained: every new dependency not already recorded
        let mut rdeps2 = entries_copy(&self.rdeps);
        let ghost rd0 = edges_map(self.rdeps@);
        let nd2 = vec_copy(&deps_value_of(&deps2, id));
        let mut k: usize = 0;
        while k < nd2.len()
            invariant
                k <= nd2@.len(),
                nd2@ == ndv,
                eq_well_behaved::<I>(),
                keys_nodup(rdeps2@),
                forall|i: int|
                    0 <= i < rdeps2@.len() ==> (#[trigger] rdeps2@[i]).1@.no_duplicates(),
                forall|a: I, b: I|
                    #[trigger] has_edge(edges_map(rdeps2@), a, b) <==> (has_edge(rd0, a, b) || (b
                        == id && ndv.take(k as int).contains(a))),
            decreases nd2@.len() - k,
        {
            let y = nd2[k];
            let r2 = adj_add(rdeps2, y, id);
            rdeps2 = r2;
            proof {
                assert forall|a: I|
                    ndv.take(k + 1).contains(a) <==> (ndv.take(k as int).contains(a) || a
                        == ndv[k as int]) by {
                    if ndv.take(k + 1).contains(a) {
                        let m = choose|m: int|
                            0 <= m < k + 1 && #[trigger] ndv.take(k + 1)[m] == a;
                        if m < k {
                            assert(ndv.take(k as int)[m] == a);
                        }
                    }
                    if ndv.take(k as int).contains(a) {
                        let m = choose|m: int|
                            0 <= m < k && #[trigger] ndv.take(k as int)[m] == a;
                        assert(ndv.take(k + 1)[m] == a);
                    }
                    if a == ndv[k as int] {
                        assert(ndv.take(k + 1)[k as int] == a);
                    }
                }
            }
            k = k + 1;
        }
        proof {
            assert(ndv.take(ndv.len() as int) =~= ndv);
        }
        // reverse edges lost: every old dependency no longer present
        let mut m: usize = 0;
        let ghost rd1 = edges_map(rdeps2@);
        proof {
            assert(forall|a: I, b: I|
                #[trigger] has_edge(rd1, a, b) <==> (has_edge(rd0, a, b) || (b == id
                    && ndv.contains(a))));
        }
        while m < old_list.len()
            invariant
                m <= oldv.len(),
                old_list@ == oldv,
                nd2@ == ndv,
                eq_well_behaved::<I>(),
                keys_nodup(rdeps2@),
                forall|i: int|
                    0 <= i < rdeps2@.len() ==> (#[trigger] rdeps2@[i]).1@.no_duplicates(),
                forall|a: I, b: I|
                    #[trigger] has_edge(edges_map(rdeps2@), a, b) <==> (has_edge(rd1, a, b) && !(b
                        == id && !ndv.contains(a) && oldv.take(m as int).contains(a))),
            decreases oldv.len() - m,
        {
            let y = old_list[m];
            let keep = vec_contains(&nd2, y);
            if !keep {
                let r2 = adj_remove(rdeps2, y, id);
                rdeps2 = r2;
            }
            proof {
                assert forall|a: I|
                    oldv.take(m + 1).contains(a) <==> (oldv.take(m as int).contains(a) || a
                        == oldv[m as int]) by {
                    if oldv.take(m + 1).contains(a) {
                        let q = choose|q: int|
                            0 <= q < m + 1 && #[trigger] oldv.take(m + 1)[q] == a;
                        if q < m {
                            assert(oldv.take(m as int)[q] == a);
                        }
                    }
                    if oldv.take(m as int).contains(a) {
                        let q = choose|q: int|
                            0 <= q < m && #[trigger] oldv.take(m as int)[q] == a;
                        assert(oldv.take(m + 1)[q] == a);
                    }
                    if a == oldv[m as int] {
                        assert(oldv.take(m + 1)[m as int] == a);
                    }
                }
            }
            m = m + 1;
        }
        proof {
            assert(oldv.take(oldv.len() as int) =~= oldv);
        }
        // ready: exactly the ids with an empty dependency list
        let mut ready2 = vec_remove_elem(&self.ready, id);
        if nd2.len() == 0 {
            let ghost rdy0 = ready2@;
            proof {
                assert(!rdy0.contains(id));
            }
            ready2.push(id);
            proof {
                assert forall|a: int, b: int|
                    0 <= a < b < ready2@.len() implies ready2@[a] != ready2@[b] by {
                    if b == rdy0.len() {
                        assert(ready2@[b] == id);
                        assert(rdy0[a] == ready2@[a]);
                        if ready2@[a] == id {
                            assert(rdy0.contains(id));
                        }
                    }
                }
            }
            proof {
                assert forall|x: I| ready2@.contains(x) <==> (rdy0.contains(x) || x == id) by {
                    if ready2@.contains(x) {
                        let q = choose|q: int| 0 <= q < ready2@.len() && ready2@[q] == x;
                        if q < rdy0.len() {
                            assert(rdy0[q] == x);
                        }
                    }
                    if rdy0.contains(x) {
                        let q = choose|q: int| 0 <= q < rdy0.len() && rdy0[q] == x;
                        assert(ready2@[q] == x);
                    }
                    if x == id {
                        assert(ready2@.last() == x);
                    }
                }
            }
        }
        let g = DepGraph { deps: deps2, rdeps: rdeps2, ready: ready2 };
        proof {
            assert forall|x: I, y: I|
                #[trigger] has_edge(g.deps_m(), x, y) <==> #[trigger] has_edge(
                g.rdeps_m(),
                y,
                x,
            ) by {
                if x == id {
                    assert(g.deps_m()[id] == ndv);
                    assert(has_edge(g.rdeps_m(), y, id) <==> (has_edge(rd1, y, id) && !(
                    !ndv.contains(y) && oldv.contains(y))));
                    assert(has_edge(rd1, y, id) <==> (has_edge(rd0, y, id) || ndv.contains(y)));
                    assert(rd0 == self.rdeps_m());
                    assert(has_edge(self.deps_m(), id, y) <==> has_edge(self.rdeps_m(), y, id));
                    assert(has_edge(self.deps_m(), id, y) <==> has_edge(rd0, y, id));
                    assert(has_edge(self.deps_m(), id, y) <==> (self.deps_m().contains_key(id)
                        && oldv.contains(y)));
                } else {
                    assert(has_edge(g.deps_m(), x, y) <==> has_edge(edges_map(self.deps@), x, y));
                    assert(has_edge(self.deps_m(), x, y) <==> has_edge(self.rdeps_m(), y, x));
                    assert(has_edge(g.rdeps_m(), y, x) <==> (has_edge(rd1, y, x) && !(x == id
                        && !ndv.contains(y) && oldv.contains(y))));
                    assert(has_edge(rd1, y, x) <==> (has_edge(rd0, y, x) || (x == id
                        && ndv.contains(y))));
                }
            }
            assert forall|x: I|
                g.ready@.contains(x) <==> (g.deps_m().contains_key(x) && g.deps_m()[x].len()
                    == 0) by {
                if x == id {
                    assert(g.deps_m()[id] == ndv);
                    if ndv.len() > 0 {
                        assert(ndv.contains(ndv[0]));
                    }
                } else {
                    assert(self.ready@.contains(x) <==> (self.deps_m().contains_key(x)
                        && self.deps_m()[x].len() == 0));
                }
            }
            assert forall|d: I, x: I|
                #[trigger] has_edge(g.rdeps_m(), d, x) <==> (if x == id {
                    new_deps@.contains(d)
                } else {
                    has_edge(self.rdeps_m(), d, x)
                }) by {
                assert(has_edge(g.deps_m(), x, d) <==> has_edge(g.rdeps_m(), d, x));
                if x == id {
                    assert(g.deps_m()[id] == ndv);
                } else {
                    assert(has_edge(g.deps_m(), x, d) <==> has_edge(self.deps_m(), x, d));
                    assert(has_edge(self.deps_m(), x, d) <==> has_edge(self.rdeps_m(), d, x));
                }
            }
        }
        g
    }

    /// Removes all outgoing edges of `id` and prunes the reverse entries.
    #[verifier::loop_isolation(false)]
    #[verifier::rlimit(100)]
    pub fn clear_id(&self, id: &I) -> (g: Self)
        requires
            eq_well_behaved::<I>(),
            self.wf(),
        ensures
            g.wf(),
            g.deps_m() == self.deps_m().remove(*id),
    {
        let id = *id;
        let old_list: Vec<I> = match assoc_find(&self.deps, id) {
            Some(i) => {
                proof {
                    lemma_edges_map_found(self.deps@, i as int);
                }
                vec_copy(&self.deps[i].1)
            },
            None => {
                proof {
                    lemma_edges_map_missing(self.deps@, id);
                }
                Vec::new()
            },
        };
        let ghost oldv = old_list@;
        proof {
            assert(self.deps_m().contains_key(id) ==> self.deps_m()[id] == oldv);
            assert(!self.deps_m().contains_key(id) ==> oldv =~= Seq::<I>::empty());
        }
        let deps_copy = entries_copy(&self.deps);
        let ghost dcv = deps_copy@;
        let deps2 = assoc_remove(deps_copy, id);
        proof {
            assert forall|i: int|
                0 <= i < deps2@.len() implies (#[trigger] deps2@[i]).1@.no_duplicates() by {
                let m = choose|m: int|
                    0 <= m < dcv.len() && (#[trigger] dcv[m]).0 == deps2@[i].0 && dcv[m].1@
                        == deps2@[i].1@;
                assert(dcv[m].1@ == self.deps@[m].1@);
            }
        }
        let mut rdeps2 = entries_copy(&self.rdeps);
        let ghost rd0 = edges_map(self.rdeps@);
        let mut m: usize = 0;
        while m < old_list.len()
            invariant
                m <= oldv.len(),
                old_list@ == oldv,
                eq_well_behaved::<I>(),
                keys_nodup(rdeps2@),
                forall|i: int|
                    0 <= i < rdeps2@.len() ==> (#[trigger] rdeps2@[i]).1@.no_duplicates(),
                forall|a: I, b: I|
                    #[trigger] has_edge(edges_map(rdeps2@), a, b) <==> (has_edge(rd0, a, b) && !(b
                        == id && oldv.take(m as int).contains(a))),
            decreases oldv.len() - m,
        {
            let y = old_list[m];
            let r2 = adj_remove(rdeps2, y, id);
            rdeps2 = r2;
            proof {
                assert forall|a: I|
                    oldv.take(m + 1).contains(a) <==> (oldv.take(m as int).contains(a) || a
                        == oldv[m as int]) by {
                    if oldv.take(m + 1).contains(a) {
                        let q = choose|q: int|
                            0 <= q < m + 1 && #[trigger] oldv.take(m + 1)[q] == a;
                        if q < m {
                            assert(oldv.take(m as int)[q] == a);
                        }
                    }
                    if oldv.take(m as int).contains(a) {
                        let q = choose|q: int|
                            0 <= q < m && #[trigger] oldv.take(m as int)[q] == a;
                        assert(oldv.take(m + 1)[q] == a);
                    }
                    if a == oldv[m as int] {
                        assert(oldv.take(m + 1)[m as int] == a);
                    }
                }
            }
            m = m + 1;
        }
        proof {
            assert(oldv.take(oldv.len() as int) =~= oldv);
        }
        let ready2 = vec_remove_elem(&self.ready, id);
        let g = DepGraph { deps: deps2, rdeps: rdeps2, ready: ready2 };
        proof {
            assert forall|x: I, y: I|
                #[trigger] has_edge(g.deps_m(), x, y) <==> #[trigger] has_edge(
                g.rdeps_m(),
                y,
                x,
            ) by {
                if x == id {
                    assert(!g.deps_m().contains_key(id));
                    assert(has_edge(g.rdeps_m(), y, id) <==> (has_edge(rd0, y, id) && !oldv.contains(
                        y,
                    )));
                    assert(rd0 == self.rdeps_m());
                    assert(has_edge(self.deps_m(), id, y) <==> has_edge(self.rdeps_m(), y, id));
                    assert(has_edge(self.deps_m(), id, y) <==> has_edge(rd0, y, id));
                    assert(has_edge(self.deps_m(), id, y) ==> (self.deps_m().contains_key(id)
                        && oldv.contains(y)));
                } else {
                    assert(has_edge(g.deps_m(), x, y) <==> has_edge(edges_map(self.deps@), x, y));
                    assert(has_edge(self.deps_m(), x, y) <==> has_edge(self.rdeps_m(), y, x));
                    assert(has_edge(g.rdeps_m(), y, x) <==> (has_edge(rd0, y, x) && !(x == id
                        && oldv.contains(y))));
                }
            }
            assert forall|x: I|
                g.ready@.contains(x) <==> (g.deps_m().contains_key(x) && g.deps_m()[x].len()
                    == 0) by {
                if x != id {
                    assert(self.ready@.contains(x) <==> (self.deps_m().contains_key(x)
                        && self.deps_m()[x].len() == 0));
                }
            }
        }
        g
    }

    /// The ids that directly depend on `id`, each once, in no particular
    /// order.
    pub fn get_direct_dependents(&self, id: I) -> (r: Vec<I>)
        requires
            eq_well_behaved::<I>(),
            self.wf(),
        ensures
            r@.no_duplicates(),
            forall|x: I| r@.contains(x) <==> has_edge(self.deps_m(), x, id),
    {
        match assoc_find(&self.rdeps, id) {
            Some(i) => {
                proof {
                    lemma_edges_map_found(self.rdeps@, i as int);
                }
                let r = vec_copy(&self.rdeps[i].1);
                proof {
                    assert forall|x: I| r@.contains(x) <==> has_edge(self.deps_m(), x, id) by {
                        assert(r@.contains(x) <==> has_edge(self.rdeps_m(), id, x));
                    }
                }
                r
            },
            None => {
                proof {
                    lemma_edges_map_missing(self.rdeps@, id);
                }
                let r: Vec<I> = Vec::new();
                proof {
                    assert forall|x: I| !r@.contains(x) && !has_edge(self.deps_m(), x, id) by {
                        assert(!has_edge(self.rdeps_m(), id, x));
                    }
                }
                r
            },
        }
    }

    /// Replaces this node's outgoing edges with the ids it advertises: the
    /// node's dependency set becomes exactly its advertised list (first
    /// occurrences kept), everything else stays, and the reverse map and
    /// ready set follow through `wf`.
    pub fn update_node<N: Node<I>>(&self, node: &N) -> (g: Self)
        requires
            eq_well_behaved::<I>(),
            self.wf(),
        ensures
            g.wf(),
            g.deps_m() == self.deps_m().insert(node.id_spec(), dedup_first(node.deps_spec())),
            forall|y: I|
                #[trigger] g.deps_m()[node.id_spec()].contains(y) <==> node.deps_spec().contains(
                    y,
                ),
            forall|d: I, x: I|
                #[trigger] has_edge(g.rdeps_m(), d, x) <==> (if x == node.id_spec() {
                    node.deps_spec().contains(d)
                } else {
                    has_edge(self.rdeps_m(), d, x)
                }),
    {
        let id = node.get_id();
        let deps = node.get_deps();
        self.update_edges(id, deps)
    }

    /// Builds a graph from nodes: starting empty, one edge replacement per
    /// node in order, exactly as `deps_after` folds them.
    pub fn with_nodes<N: Node<I>>(nodes: &Vec<N>) -> (g: Self)
        requires
            eq_well_behaved::<I>(),
        ensures
            g.wf(),
            g.deps_m() == deps_after(Map::empty(), nodes@),
    {
        let mut g = Self::empty();
        proof {
            assert(nodes@.take(0) =~= Seq::<N>::empty());
            assert(deps_after(Map::<I, Seq<I>>::empty(), nodes@.take(0)) == Map::<
                I,
                Seq<I>,
            >::empty());
        }
        let mut i: usize = 0;
        while i < nodes.len()
            invariant
                i <= nodes@.len(),
                g.wf(),
                eq_well_behaved::<I>(),
                g.deps_m() == deps_after(Map::empty(), nodes@.take(i as int)),
            decreases nodes@.len() - i,
        {
            proof {
                assert(nodes@.take(i + 1).drop_last() =~= nodes@.take(i as int));
                assert(nodes@.take(i + 1).last() == nodes@[i as int]);
            }
            g = g.update_node(&nodes[i]);
            i = i + 1;
        }
        proof {
            assert(nodes@.take(nodes@.len() as int) =~= nodes@);
        }
        g
    }

    /// All edges of the graph as pairs, dependents first, in storage order.
    pub fn edges(&self) -> (r: Vec<(I, I)>)
        requires
            eq_well_behaved::<I>(),
            self.wf(),
        ensures
            forall|p: (I, I)| r@.contains(p) <==> has_edge(self.deps_m(), p.0, p.1),
            r@ == edges_list(self.deps@),
    {
        let mut r: Vec<(I, I)> = Vec::new();
        let mut i: usize = 0;
        while i < self.deps.len()
            invariant
                i <= self.deps@.len(),
                eq_well_behaved::<I>(),
                self.wf(),
                forall|p: (I, I)|
                    r@.contains(p) <==> (exists|q: int|
                        0 <= q < i && (#[trigger] self.deps@[q]).0 == p.0
                            && self.deps@[q].1@.contains(p.1)),
                r@ == edges_list(self.deps@.take(i as int)),
            decreases self.deps@.len() - i,
        {
            let key = self.deps[i].0;
            let mut j: usize = 0;
            while j < self.deps[i].1.len()
                invariant
                    i < self.deps@.len(),
                    j <= self.deps@[i as int].1@.len(),
                    key == self.deps@[i as int].0,
                    eq_well_behaved::<I>(),
                    self.wf(),
                    forall|p: (I, I)|
                        r@.contains(p) <==> ((exists|q: int|
                            0 <= q < i && (#[trigger] self.deps@[q]).0 == p.0
                                && self.deps@[q].1@.contains(p.1)) || (p.0 == key
                            && self.deps@[i as int].1@.take(j as int).contains(p.1))),
                    r@ == edges_list(self.deps@.take(i as int)) + pair_list(
                        key,
                        self.deps@[i as int].1@.take(j as int),
                    ),
                decreases self.deps@[i as int].1@.len() - j,
            {
                let ghost r0 = r@;
                let ghost inner = self.deps@[i as int].1@;
                r.push((key, self.deps[i].1[j]));
                proof {
                    assert forall|p: (I, I)| r@.contains(p) <==> (r0.contains(p) || p == (
                    key,
                    inner[j as int],
                )) by {
                        if r@.contains(p) {
                            let q = choose|q: int| 0 <= q < r@.len() && r@[q] == p;
                            if q < r0.len() {
                                assert(r0[q] == p);
                            }
                        }
                        if r0.contains(p) {
                            let q = choose|q: int| 0 <= q < r0.len() && r0[q] == p;
                            assert(r@[q] == p);
                        }
                        if p == (key, inner[j as int]) {
                            assert(r@.last() == p);
                        }
                    }
                    assert(inner.take(j + 1).drop_last() =~= inner.take(j as int));
                    assert(pair_list(key, inner.take(j + 1)) == pair_list(
                        key,
                        inner.take(j as int),
                    ).push((key, inner[j as int])));
                    assert(r@ =~= edges_list(self.deps@.take(i as int)) + pair_list(
                        key,
                        inner.take(j + 1),
                    ));
                    assert forall|b: I|
                        inner.take(j + 1).contains(b) <==> (inner.take(j as int).contains(b) || b
                            == inner[j as int]) by {
                        if inner.take(j + 1).contains(b) {
                            let q = choose|q: int|
                                0 <= q < j + 1 && #[trigger] inner.take(j + 1)[q] == b;
                            if q < j {
                                assert(inner.take(j as int)[q] == b);
                            }
                        }
                        if inner.take(j as int).contains(b) {
                            let q = choose|q: int|
                                0 <= q < j && #[trigger] inner.take(j as int)[q] == b;
                            assert(inner.take(j + 1)[q] == b);
                        }
                        if b == inner[j as int] {
                            assert(inner.take(j + 1)[j as int] == b);
                        }
                    }
                    assert forall|p: (I, I)|
                        r@.contains(p) <==> ((exists|q: int|
                            0 <= q < i && (#[trigger] self.deps@[q]).0 == p.0
                                && self.deps@[q].1@.contains(p.1)) || (p.0 == key && inner.take(
                            j + 1,
                        ).contains(p.1))) by {
                        if r@.contains(p) {
                            if r0.contains(p) {
                                if p.0 == key && inner.take(j as int).contains(p.1) {
                                    assert(inner.take(j + 1).contains(p.1));
                                }
                            } else {
                                assert(p == (key, inner[j as int]));
                                assert(inner.take(j + 1)[j as int] == p.1);
                                assert(inner.take(j + 1).contains(p.1));
                            }
                        }
                        if (exists|q: int|
                            0 <= q < i && (#[trigger] self.deps@[q]).0 == p.0
                                && self.deps@[q].1@.contains(p.1)) {
                            assert(r0.contains(p));
                            let w = choose|w: int| 0 <= w < r0.len() && r0[w] == p;
                            assert(r@[w] == p);
                            assert(r@.contains(p));
                        }
                        if p.0 == key && inner.take(j + 1).contains(p.1) {
                            if inner.take(j as int).contains(p.1) {
                                assert(r0.contains(p));
                                let w = choose|w: int| 0 <= w < r0.len() && r0[w] == p;
                                assert(r@[w] == p);
                            } else {
                                assert(p.1 == inner[j as int]);
                                assert(p == (key, inner[j as int]));
                                assert(r@.last() == p);
                            }
                        }
                    }
                }
                j = j + 1;
            }
            proof {
                let inner = self.deps@[i as int].1@;
                assert(inner.take(inner.len() as int) =~= inner);
                assert(self.deps@.take(i + 1).drop_last() =~= self.deps@.take(i as int));
                assert(self.deps@.take(i + 1).last() == self.deps@[i as int]);
                assert(edges_list(self.deps@.take(i + 1)) == edges_list(self.deps@.take(i as int))
                    + pair_list(self.deps@[i as int].0, self.deps@[i as int].1@));
            }
            i = i + 1;
        }
        proof {
            assert(self.deps@.take(self.deps@.len() as int) =~= self.deps@);
            assert forall|p: (I, I)| r@.contains(p) <==> has_edge(self.deps_m(), p.0, p.1) by {
                if r@.contains(p) {
                    let q = choose|q: int|
                        0 <= q < self.deps@.len() && (#[trigger] self.deps@[q]).0 == p.0
                            && self.deps@[q].1@.contains(p.1);
                    assert forall|m: int|
                        q < m < self.deps@.len() implies (#[trigger] self.deps@[m]).0
                        != self.deps@[q].0 by {}
                    lemma_edges_map_found(self.deps@, q);
                }
                if has_edge(self.deps_m(), p.0, p.1) {
                    lemma_edges_map_dom(self.deps@, p.0);
                    let q = choose|q: int|
                        0 <= q < self.deps@.len() && (#[trigger] self.deps@[q]).0 == p.0;
                    assert forall|m: int|
                        q < m < self.deps@.len() implies (#[trigger] self.deps@[m]).0
                        != self.deps@[q].0 by {}
                    lemma_edges_map_found(self.deps@, q);
                    assert(self.deps@[q].1@.contains(p.1));
                }
            }
        }
        r
    }
}

/// The recorded dependency list of `id`, empty when absent.
fn deps_value_of<I: PartialEq + Copy>(entries: &Vec<(I, Vec<I>)>, id: I) -> (r: Vec<I>)
    requires
        eq_well_behaved::<I>(),
        keys_nodup(entries@),
    ensures
        edges_map(entries@).contains_key(id) ==> r@ == edges_map(entries@)[id],
        !edges_map(entries@).contains_key(id) ==> r@ == Seq::<I>::empty(),
{
    match assoc_find(entries, id) {
        Some(i) => {
            proof {
                lemma_edges_map_found(entries@, i as int);
            }
            vec_copy(&entries[i].1)
        },
        None => {
            proof {
                lemma_edges_map_missing(entries@, id);
            }
            let r: Vec<I> = Vec::new();
            proof {
                assert(r@ =~= Seq::<I>::empty());
            }
            r
        },
    }
}

} // verus!

