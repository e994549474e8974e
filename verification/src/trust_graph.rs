//! The graph-based best-first trust spreader: named peers connected by
//! weighted positive and negative edges, and a scoring pass that walks the
//! graph from a source peer in order of current net score.

use vstd::prelude::*;
use crate::pqueue::{pq_empty, pq_is_empty, pq_new, pq_pop, pq_push, pq_view};

verus! {

/// The outcome of the spreader for one peer: the accumulated positive and
/// negative influence.
pub struct NodeScore {
    pub node: String,
    pub p_score: i32,
    pub n_score: i32,
}

impl NodeScore {
    /// Bundles one peer's scores.
    pub fn new(node: String, p_score: i32, n_score: i32) -> (r: Self)
        ensures
            r.node == node,
            r.p_score == p_score,
            r.n_score == n_score,
    {
        Self { node, p_score, n_score }
    }

    /// The peer's net influence: positive minus negative.
    pub fn net_score(&self) -> (r: i32)
        requires
            i32::MIN <= self.p_score - self.n_score <= i32::MAX,
        ensures
            r == self.p_score - self.n_score,
    {
        self.p_score - self.n_score
    }
}

/// The weight currently filed for key `k` in an append-only edge list: the
/// newest entry for a key is the one that counts, as with a map insert.
pub open spec fn assoc_weight(s: Seq<(String, u16)>, k: Seq<char>) -> Option<u16>
    decreases s.len(),
{
    if s.len() == 0 {
        None
    } else if s.last().0@ == k {
        Some(s.last().1)
    } else {
        assoc_weight(s.drop_last(), k)
    }
}

/// Whether any entry of the edge list files key `k`.
pub open spec fn has_key(s: Seq<(String, u16)>, k: Seq<char>) -> bool {
    exists|i: int| 0 <= i < s.len() && (#[trigger] s[i]).0@ == k
}

/// A key has a current weight exactly when some entry files it.
pub proof fn lemma_assoc_has(s: Seq<(String, u16)>, k: Seq<char>)
    ensures
        (assoc_weight(s, k) is Some) <==> has_key(s, k),
    decreases s.len(),
{
    if s.len() > 0 {
        lemma_assoc_has(s.drop_last(), k);
        if s.last().0@ != k {
            if has_key(s, k) {
                let i = choose|i: int| 0 <= i < s.len() && (#[trigger] s[i]).0@ == k;
                assert(i < s.len() - 1);
                assert(s.drop_last()[i].0@ == k);
            }
            if has_key(s.drop_last(), k) {
                let i = choose|i: int|
                    0 <= i < s.drop_last().len() && (#[trigger] s.drop_last()[i]).0@ == k;
                assert(s[i].0@ == k);
            }
        }
    }
}

/// One step of a forward scan over an edge list: the weight filed in a
/// prefix one longer is the entry just passed, if it matches, and the
/// previous answer otherwise.
pub proof fn lemma_assoc_take_step(s: Seq<(String, u16)>, k: Seq<char>, j: int)
    requires
        0 <= j < s.len(),
    ensures
        assoc_weight(s.take(j + 1), k) == if s[j].0@ == k {
            Some(s[j].1)
        } else {
            assoc_weight(s.take(j), k)
        },
{
    assert(s.take(j + 1).drop_last() =~= s.take(j));
    assert(s.take(j + 1).last() == s[j]);
}

/// Whether the list of names carries `k`.
pub open spec fn name_in(r: Seq<String>, k: Seq<char>) -> bool {
    exists|i: int| 0 <= i < r.len() && (#[trigger] r[i])@ == k
}

/// Appending a name keeps every name that was already carried, and carries
/// the new one.
pub proof fn lemma_name_in_push(r: Seq<String>, x: String, k: Seq<char>)
    ensures
        name_in(r, k) ==> name_in(r.push(x), k),
        name_in(r.push(x), x@),
{
    if name_in(r, k) {
        let i = choose|i: int| 0 <= i < r.len() && (#[trigger] r[i])@ == k;
        assert(r.push(x)[i]@ == k);
    }
    assert(r.push(x)[r.len() as int]@ == x@);
}

/// A peer's outgoing opinions. The edge lists are append-only: the newest
/// entry for a target replaces an older one, as with a map insert.
#[derive(Debug, Clone)]
pub struct Node {
    pub positive_edges: Vec<(String, u16)>,
    pub negative_edges: Vec<(String, u16)>,
}

impl Node {
    /// The current positive weight toward `k`, if any opinion was filed.
    pub open spec fn pos_weight(&self, k: Seq<char>) -> Option<u16> {
        assoc_weight(self.positive_edges@, k)
    }

    /// The current negative weight toward `k`, if any opinion was filed.
    pub open spec fn neg_weight(&self, k: Seq<char>) -> Option<u16> {
        assoc_weight(self.negative_edges@, k)
    }

    /// A fresh peer with no opinions filed.
    pub fn new() -> (r: Self)
        ensures
            r.positive_edges@.len() == 0,
            r.negative_edges@.len() == 0,
    {
        Self { positive_edges: Vec::new(), negative_edges: Vec::new() }
    }

    /// Files (or replaces) this peer's positive opinion of `target`.
    pub fn add_positive_edge(&mut self, target: String, weight: u16)
        ensures
            final(self).positive_edges@ == old(self).positive_edges@.push((target, weight)),
            final(self).negative_edges == old(self).negative_edges,
            final(self).pos_weight(target@) == Some(weight),
            forall|k: Seq<char>| k != target@ ==> final(self).pos_weight(k) == old(
                self,
            ).pos_weight(k),
    {
        self.positive_edges.push((target, weight));
        proof {
            assert(self.positive_edges@.drop_last() =~= old(self).positive_edges@);
        }
    }

    /// Files (or replaces) this peer's negative opinion of `target`.
    pub fn add_negative_edge(&mut self, target: String, weight: u16)
        ensures
            final(self).negative_edges@ == old(self).negative_edges@.push((target, weight)),
            final(self).positive_edges == old(self).positive_edges,
            final(self).neg_weight(target@) == Some(weight),
            forall|k: Seq<char>| k != target@ ==> final(self).neg_weight(k) == old(
                self,
            ).neg_weight(k),
    {
        self.negative_edges.push((target, weight));
        proof {
            assert(self.negative_edges@.drop_last() =~= old(self).negative_edges@);
        }
    }

    /// The positive weight toward `target`; the opinion must have been
    /// filed.
    pub fn get_positive_weight(&self, target: String) -> (r: u16)
        requires
            has_key(self.positive_edges@, target@),
        ensures
            Some(r) == self.pos_weight(target@),
    {
        proof {
            lemma_assoc_has(self.positive_edges@, target@);
        }
        lookup_weight(&self.positive_edges, &target).unwrap()
    }

    /// The negative weight toward `target`; the opinion must have been
    /// filed.
    pub fn get_negative_weight(&self, target: String) -> (r: u16)
        requires
            has_key(self.negative_edges@, target@),
        ensures
            Some(r) == self.neg_weight(target@),
    {
        proof {
            lemma_assoc_has(self.negative_edges@, target@);
        }
        lookup_weight(&self.negative_edges, &target).unwrap()
    }

    /// Every peer this one holds any opinion about, each name once.
    pub fn out_neighbours(&self) -> (r: Vec<String>)
        ensures
            forall|i: int, j: int| 0 <= i < j < r@.len() ==> (#[trigger] r@[i])@ != (
            #[trigger] r@[j])@,
            forall|i: int|
                0 <= i < r@.len() ==> has_key(self.positive_edges@, (#[trigger] r@[i])@)
                    || has_key(self.negative_edges@, r@[i]@),
            forall|k: Seq<char>|
                has_key(self.positive_edges@, k) || has_key(self.negative_edges@, k) ==> name_in(
                    r@,
                    k,
                ),
    {
        let mut r: Vec<String> = Vec::new();
        let mut t: usize = 0;
        let pn = self.positive_edges.len();
        while t < pn
            invariant
                t <= pn,
                pn == self.positive_edges@.len(),
                forall|i: int, j: int| 0 <= i < j < r@.len() ==> (#[trigger] r@[i])@ != (
                #[trigger] r@[j])@,
                forall|i: int|
                    0 <= i < r@.len() ==> has_key(self.positive_edges@, (#[trigger] r@[i])@),
                forall|a: int|
                    0 <= a < t ==> name_in(r@, (#[trigger] self.positive_edges@[a]).0@),
            decreases pn - t,
        {
            let ghost r0 = r@;
            let key = &self.positive_edges[t].0;
            if !contains_name(&r, key) {
                r.push(key.clone());
                proof {
                    assert(r@ == r0.push(r@[r0.len() as int]));
                }
            }
            proof {
                assert forall|a: int|
                    0 <= a < t + 1 implies name_in(r@, (#[trigger] self.positive_edges@[a]).0@) by {
                    if r@ != r0 {
                        lemma_name_in_push(r0, r@[r0.len() as int], self.positive_edges@[a].0@);
                    }
                }
            }
            t = t + 1;
        }
        let mut u: usize = 0;
        let nn = self.negative_edges.len();
        while u < nn
            invariant
                u <= nn,
                nn == self.negative_edges@.len(),
                forall|i: int, j: int| 0 <= i < j < r@.len() ==> (#[trigger] r@[i])@ != (
                #[trigger] r@[j])@,
                forall|i: int|
                    0 <= i < r@.len() ==> has_key(self.positive_edges@, (#[trigger] r@[i])@)
                        || has_key(self.negative_edges@, r@[i]@),
                forall|a: int|
                    0 <= a < self.positive_edges@.len() ==> name_in(
                        r@,
                        (#[trigger] self.positive_edges@[a]).0@,
                    ),
                forall|a: int|
                    0 <= a < u ==> name_in(r@, (#[trigger] self.negative_edges@[a]).0@),
            decreases nn - u,
        {
            let ghost r0 = r@;
            let key = &self.negative_edges[u].0;
            if !contains_name(&r, key) {
                r.push(key.clone());
                proof {
                    assert(r@ == r0.push(r@[r0.len() as int]));
                }
            }
            proof {
                assert forall|a: int|
                    0 <= a < self.positive_edges@.len() implies name_in(
                    r@,
                    (#[trigger] self.positive_edges@[a]).0@,
                ) by {
                    if r@ != r0 {
                        lemma_name_in_push(r0, r@[r0.len() as int], self.positive_edges@[a].0@);
                    }
                }
                assert forall|a: int|
                    0 <= a < u + 1 implies name_in(r@, (#[trigger] self.negative_edges@[a]).0@) by {
                    if r@ != r0 {
                        lemma_name_in_push(r0, r@[r0.len() as int], self.negative_edges@[a].0@);
                    }
                }
            }
            u = u + 1;
        }
        proof {
            assert forall|k: Seq<char>|
                has_key(self.positive_edges@, k) || has_key(self.negative_edges@, k) implies name_in(
                r@,
                k,
            ) by {
                if has_key(self.positive_edges@, k) {
                    let a = choose|a: int|
                        0 <= a < self.positive_edges@.len() && (
                        #[trigger] self.positive_edges@[a]).0@ == k;
                    assert(name_in(r@, self.positive_edges@[a].0@));
                } else {
                    let a = choose|a: int|
                        0 <= a < self.negative_edges@.len() && (
                        #[trigger] self.negative_edges@[a]).0@ == k;
                    assert(name_in(r@, self.negative_edges@[a].0@));
                }
            }
        }
        r
    }
}

/// Forward scan for the newest entry of `target` in an edge list.
fn lookup_weight(s: &Vec<(String, u16)>, target: &String) -> (r: Option<u16>)
    ensures
        r == assoc_weight(s@, target@),
{
    let n = s.len();
    let mut found: Option<u16> = None;
    let mut j: usize = 0;
    proof {
        assert(s@.take(0) =~= Seq::<(String, u16)>::empty());
    }
    while j < n
        invariant
            j <= n,
            n == s@.len(),
            found == assoc_weight(s@.take(j as int), target@),
        decreases n - j,
    {
        proof {
            lemma_assoc_take_step(s@, target@, j as int);
        }
        if s[j].0 == *target {
            found = Some(s[j].1);
        }
        j = j + 1;
    }
    proof {
        assert(s@.take(n as int) =~= s@);
    }
    found
}

/// The opinion graph: named peers filed once each, in insertion order.
#[derive(Debug, Clone)]
pub struct Graph {
    pub nodes: Vec<(String, Node)>,
}

impl Graph {
    /// Every peer name is filed at most once.
    pub open spec fn wf(&self) -> bool {
        forall|i: int, j: int|
            0 <= i < j < self.nodes@.len() ==> (#[trigger] self.nodes@[i]).0@ != (
            #[trigger] self.nodes@[j]).0@
    }

    /// Every edge target is itself a peer of the graph.
    pub open spec fn closed(&self) -> bool {
        &&& forall|i: int, j: int|
            0 <= i < self.nodes@.len() && 0 <= j < (
            #[trigger] self.nodes@[i]).1.positive_edges@.len() ==> self.has_node(
                (#[trigger] self.nodes@[i].1.positive_edges@[j]).0@,
            )
        &&& forall|i: int, j: int|
            0 <= i < self.nodes@.len() && 0 <= j < (
            #[trigger] self.nodes@[i]).1.negative_edges@.len() ==> self.has_node(
                (#[trigger] self.nodes@[i].1.negative_edges@[j]).0@,
            )
    }

    /// Whether a peer named `k` is filed.
    pub open spec fn has_node(&self, k: Seq<char>) -> bool {
        exists|i: int| 0 <= i < self.nodes@.len() && (#[trigger] self.nodes@[i]).0@ == k
    }

    /// The position of the peer named `k`.
    pub open spec fn node_index(&self, k: Seq<char>) -> int {
        choose|i: int| 0 <= i < self.nodes@.len() && (#[trigger] self.nodes@[i]).0@ == k
    }

    /// The peer named `k`.
    pub open spec fn node_at(&self, k: Seq<char>) -> Node {
        self.nodes@[self.node_index(k)].1
    }

    /// In a well-formed graph, any position carrying the name `k` is the
    /// one position of the peer named `k`.
    pub proof fn lemma_index_unique(&self, k: Seq<char>, i: int)
        requires
            self.wf(),
            0 <= i < self.nodes@.len(),
            self.nodes@[i].0@ == k,
        ensures
            self.has_node(k),
            self.node_index(k) == i,
            self.node_at(k) == self.nodes@[i].1,
    {
        assert(self.has_node(k));
        let j = self.node_index(k);
        if i < j {
            assert(self.nodes@[i].0@ != self.nodes@[j].0@);
        } else if j < i {
            assert(self.nodes@[j].0@ != self.nodes@[i].0@);
        }
    }

    /// An empty graph.
    pub fn new() -> (r: Self)
        ensures
            r.nodes@.len() == 0,
            r.wf(),
            r.closed(),
    {
        Self { nodes: Vec::new() }
    }

    /// The position of the peer named `key`, if it is filed.
    fn find_node(&self, key: &String) -> (r: Option<usize>)
        ensures
            r matches Some(i) ==> i < self.nodes@.len() && self.nodes@[i as int].0@ == key@,
            r is None ==> !self.has_node(key@),
    {
        let n = self.nodes.len();
        let mut j: usize = 0;
        while j < n
            invariant
                j <= n,
                n == self.nodes@.len(),
                forall|i: int| 0 <= i < j ==> (#[trigger] self.nodes@[i]).0@ != key@,
            decreases n - j,
        {
            if self.nodes[j].0 == *key {
                return Some(j);
            }
            j = j + 1;
        }
        None
    }

    /// Files the peer named `key` if it is missing, and returns its
    /// position.
    fn ensure_node(&mut self, key: &String) -> (idx: usize)
        requires
            old(self).wf(),
            old(self).closed(),
        ensures
            final(self).wf(),
            final(self).closed(),
            idx < final(self).nodes@.len(),
            final(self).nodes@[idx as int].0@ == key@,
            final(self).has_node(key@),
            forall|k: int| 0 <= k < old(self).nodes@.len() ==> final(self).nodes@[k] == old(
                self,
            ).nodes@[k],
            old(self).has_node(key@) ==> final(self).nodes@ == old(self).nodes@,
            !old(self).has_node(key@) ==> final(self).nodes@.len() == old(self).nodes@.len() + 1
                && final(self).nodes@.last().0@ == key@
                && final(self).nodes@.last().1.positive_edges@.len() == 0
                && final(self).nodes@.last().1.negative_edges@.len() == 0,
            forall|k: Seq<char>| #![trigger final(self).has_node(k)]
                final(self).has_node(k) <==> old(self).has_node(k) || k == key@,
    {
        let found = self.find_node(key);
        match found {
            Some(i) => {
                proof {
                    assert(self.nodes@ == old(self).nodes@);
                    assert(self.nodes@[i as int].0@ == key@);
                    assert(self.has_node(key@));
                    assert forall|k: Seq<char>| #![trigger self.has_node(k)]
                        self.has_node(k) <==> old(self).has_node(k) || k == key@ by {
                        if k == key@ {
                            assert(self.nodes@[i as int].0@ == k);
                            assert(self.has_node(k));
                        }
                        if self.has_node(k) {
                            let w = choose|w: int|
                                0 <= w < self.nodes@.len() && (#[trigger] self.nodes@[w]).0@ == k;
                            assert(old(self).nodes@[w].0@ == k);
                            assert(old(self).has_node(k));
                        }
                        if old(self).has_node(k) {
                            let w = choose|w: int|
                                0 <= w < old(self).nodes@.len() && (#[trigger] old(
                                    self,
                                ).nodes@[w]).0@ == k;
                            assert(self.nodes@[w].0@ == k);
                            assert(self.has_node(k));
                        }
                    }
                }
                i
            },
            None => {
                let ghost ns0 = self.nodes@;
                self.nodes.push((key.clone(), Node::new()));
                proof {
                    let ns = self.nodes@;
                    assert(ns.last().0@ == key@);
                    assert forall|k: Seq<char>| #![trigger self.has_node(k)]
                        self.has_node(k) <==> old(self).has_node(k) || k == key@ by {
                        if self.has_node(k) {
                            let i = choose|i: int|
                                0 <= i < ns.len() && (#[trigger] ns[i]).0@ == k;
                            if i < ns0.len() {
                                assert(old(self).nodes@[i].0@ == k);
                                assert(old(self).has_node(k));
                            }
                        }
                        if old(self).has_node(k) {
                            let i = choose|i: int|
                                0 <= i < old(self).nodes@.len() && (#[trigger] old(
                                    self,
                                ).nodes@[i]).0@ == k;
                            assert(ns[i].0@ == k);
                            assert(self.has_node(k));
                        }
                        if k == key@ {
                            assert(ns[ns0.len() as int].0@ == k);
                            assert(self.has_node(k));
                        }
                    }
                    assert forall|i: int, j: int|
                        0 <= i < self.nodes@.len() && 0 <= j < (
                        #[trigger] self.nodes@[i]).1.positive_edges@.len() implies self.has_node(
                        (#[trigger] self.nodes@[i].1.positive_edges@[j]).0@,
                    ) by {
                        if i < ns0.len() {
                            assert(ns[i] == ns0[i]);
                            let ek = ns0[i].1.positive_edges@[j].0@;
                            assert(old(self).has_node(ek));
                            let w = choose|w: int|
                                0 <= w < ns0.len() && (#[trigger] ns0[w]).0@ == ek;
                            assert(ns[w].0@ == ek);
                        } else {
                            assert(ns[i].1.positive_edges@.len() == 0);
                        }
                    }
                    assert forall|i: int, j: int|
                        0 <= i < self.nodes@.len() && 0 <= j < (
                        #[trigger] self.nodes@[i]).1.negative_edges@.len() implies self.has_node(
                        (#[trigger] self.nodes@[i].1.negative_edges@[j]).0@,
                    ) by {
                        if i < ns0.len() {
                            assert(ns[i] == ns0[i]);
                            let ek = ns0[i].1.negative_edges@[j].0@;
                            assert(old(self).has_node(ek));
                            let w = choose|w: int|
                                0 <= w < ns0.len() && (#[trigger] ns0[w]).0@ == ek;
                            assert(ns[w].0@ == ek);
                        } else {
                            assert(ns[i].1.negative_edges@.len() == 0);
                        }
                    }
                }
                self.nodes.len() - 1
            },
        }
    }

    /// Files (or replaces) `source`'s positive opinion of `target`, filing
    /// either peer first if it is missing.
    pub fn add_positive_edge(&mut self, source: String, target: String, weight: u16)
        requires
            old(self).wf(),
            old(self).closed(),
        ensures
            final(self).wf(),
            final(self).closed(),
            forall|k: Seq<char>| #![trigger final(self).has_node(k)]
                final(self).has_node(k) <==> old(self).has_node(k) || k == source@ || k
                    == target@,
            final(self).node_at(source@).pos_weight(target@) == Some(weight),
            forall|k: Seq<char>|
                k != target@ && old(self).has_node(source@) ==> final(self).node_at(
                    source@,
                ).pos_weight(k) == old(self).node_at(source@).pos_weight(k),
            forall|k: Seq<char>|
                k != target@ && !old(self).has_node(source@) ==> final(self).node_at(
                    source@,
                ).pos_weight(k) is None,
            old(self).has_node(source@) ==> final(self).node_at(source@).negative_edges == old(
                self,
            ).node_at(source@).negative_edges,
            !old(self).has_node(source@) ==> final(self).node_at(
                source@,
            ).negative_edges@.len() == 0,
            forall|k: Seq<char>|
                old(self).has_node(k) && k != source@ ==> final(self).node_at(k) == old(
                    self,
                ).node_at(k),
    {
        let ti = self.ensure_node(&target);
        let si = self.ensure_node(&source);
        let ghost g1 = *self;
        let p = &mut self.nodes[si];
        p.1.add_positive_edge(target, weight);
        proof {
            assert(self.nodes@[si as int].1.positive_edges@.drop_last() =~= g1.nodes@[
                si as int
            ].1.positive_edges@);
            self.lemma_edge_write_ok(g1, si as int, source@, target@);
        }
    }

    /// Files (or replaces) `source`'s negative opinion of `target`, filing
    /// either peer first if it is missing.
    pub fn add_negative_edge(&mut self, source: String, target: String, weight: u16)
        requires
            old(self).wf(),
            old(self).closed(),
        ensures
            final(self).wf(),
            final(self).closed(),
            forall|k: Seq<char>| #![trigger final(self).has_node(k)]
                final(self).has_node(k) <==> old(self).has_node(k) || k == source@ || k
                    == target@,
            final(self).node_at(source@).neg_weight(target@) == Some(weight),
            forall|k: Seq<char>|
                k != target@ && old(self).has_node(source@) ==> final(self).node_at(
                    source@,
                ).neg_weight(k) == old(self).node_at(source@).neg_weight(k),
            forall|k: Seq<char>|
                k != target@ && !old(self).has_node(source@) ==> final(self).node_at(
                    source@,
                ).neg_weight(k) is None,
            old(self).has_node(source@) ==> final(self).node_at(source@).positive_edges == old(
                self,
            ).node_at(source@).positive_edges,
            !old(self).has_node(source@) ==> final(self).node_at(
                source@,
            ).positive_edges@.len() == 0,
            forall|k: Seq<char>|
                old(self).has_node(k) && k != source@ ==> final(self).node_at(k) == old(
                    self,
                ).node_at(k),
    {
        let ti = self.ensure_node(&target);
        let si = self.ensure_node(&source);
        let ghost g1 = *self;
        let p = &mut self.nodes[si];
        p.1.add_negative_edge(target, weight);
        proof {
            assert(self.nodes@[si as int].1.negative_edges@.drop_last() =~= g1.nodes@[
                si as int
            ].1.negative_edges@);
            self.lemma_edge_write_ok(g1, si as int, source@, target@);
        }
    }

    /// What a single-position edge write leaves of the graph: everything
    /// the two `add_*_edge` contracts say about well-formedness, closure,
    /// the node set, and untouched peers.
    proof fn lemma_edge_write_ok(&self, g1: Graph, si: int, source: Seq<char>, target: Seq<char>)
        requires
            g1.wf(),
            g1.closed(),
            0 <= si < g1.nodes@.len(),
            g1.nodes@[si].0@ == source,
            g1.has_node(target),
            self.nodes@.len() == g1.nodes@.len(),
            self.nodes@[si].0 == g1.nodes@[si].0,
            forall|m: int| 0 <= m < g1.nodes@.len() && m != si ==> self.nodes@[m] == g1.nodes@[m],
            (self.nodes@[si].1.negative_edges@ == g1.nodes@[si].1.negative_edges@
                && self.nodes@[si].1.positive_edges@.len() == g1.nodes@[
                si
            ].1.positive_edges@.len() + 1 && self.nodes@[si].1.positive_edges@.drop_last()
                == g1.nodes@[si].1.positive_edges@ && self.nodes@[
                si
            ].1.positive_edges@.last().0@ == target) || (self.nodes@[si].1.positive_edges@
                == g1.nodes@[si].1.positive_edges@ && self.nodes@[si].1.negative_edges@.len()
                == g1.nodes@[si].1.negative_edges@.len() + 1 && self.nodes@[
                si
            ].1.negative_edges@.drop_last() == g1.nodes@[si].1.negative_edges@ && self.nodes@[
                si
            ].1.negative_edges@.last().0@ == target),
        ensures
            self.wf(),
            self.closed(),
            self.node_index(source) == si,
            self.node_at(source) == self.nodes@[si].1,
            forall|k: Seq<char>| #![trigger self.has_node(k)]
                self.has_node(k) <==> g1.has_node(k),
            forall|k: Seq<char>|
                g1.has_node(k) && k != source ==> self.node_at(k) == g1.node_at(k),
    {
        assert forall|i: int, j: int|
            0 <= i < j < self.nodes@.len() implies (#[trigger] self.nodes@[i]).0@ != (
        #[trigger] self.nodes@[j]).0@ by {
            assert(self.nodes@[i].0 == g1.nodes@[i].0);
            assert(self.nodes@[j].0 == g1.nodes@[j].0);
            assert(g1.nodes@[i].0@ != g1.nodes@[j].0@);
        }
        assert forall|k: Seq<char>| #![trigger self.has_node(k)]
            self.has_node(k) <==> g1.has_node(k) by {
            if self.has_node(k) {
                let w = choose|w: int|
                    0 <= w < self.nodes@.len() && (#[trigger] self.nodes@[w]).0@ == k;
                assert(g1.nodes@[w].0@ == k);
                assert(g1.has_node(k));
            }
            if g1.has_node(k) {
                let w = choose|w: int|
                    0 <= w < g1.nodes@.len() && (#[trigger] g1.nodes@[w]).0@ == k;
                assert(self.nodes@[w].0@ == k);
                assert(self.has_node(k));
            }
        }
        self.lemma_index_unique(source, si);
        assert forall|i: int, j: int|
            0 <= i < self.nodes@.len() && 0 <= j < (
            #[trigger] self.nodes@[i]).1.positive_edges@.len() implies self.has_node(
            (#[trigger] self.nodes@[i].1.positive_edges@[j]).0@,
        ) by {
            if i != si {
                assert(self.nodes@[i] == g1.nodes@[i]);
                assert(g1.has_node(g1.nodes@[i].1.positive_edges@[j].0@));
            } else {
                let pe1 = g1.nodes@[si].1.positive_edges@;
                let pe2 = self.nodes@[si].1.positive_edges@;
                if pe2 == pe1 {
                    assert(g1.has_node(pe1[j].0@));
                } else if j < pe1.len() {
                    assert(pe2.drop_last()[j] == pe1[j]);
                    assert(pe2[j] == pe1[j]);
                    assert(g1.has_node(pe1[j].0@));
                } else {
                    assert(j == pe2.len() - 1);
                    assert(pe2[j] == pe2.last());
                    assert(pe2.last().0@ == target);
                    assert(g1.has_node(target));
                }
            }
        }
        assert forall|i: int, j: int|
            0 <= i < self.nodes@.len() && 0 <= j < (
            #[trigger] self.nodes@[i]).1.negative_edges@.len() implies self.has_node(
            (#[trigger] self.nodes@[i].1.negative_edges@[j]).0@,
        ) by {
            if i != si {
                assert(self.nodes@[i] == g1.nodes@[i]);
                assert(g1.has_node(g1.nodes@[i].1.negative_edges@[j].0@));
            } else {
                let ne1 = g1.nodes@[si].1.negative_edges@;
                let ne2 = self.nodes@[si].1.negative_edges@;
                if ne2 == ne1 {
                    assert(g1.has_node(ne1[j].0@));
                } else if j < ne1.len() {
                    assert(ne2.drop_last()[j] == ne1[j]);
                    assert(ne2[j] == ne1[j]);
                    assert(g1.has_node(ne1[j].0@));
                } else {
                    assert(j == ne2.len() - 1);
                    assert(ne2[j] == ne2.last());
                    assert(ne2.last().0@ == target);
                    assert(g1.has_node(target));
                }
            }
        }
        assert forall|k: Seq<char>|
            g1.has_node(k) && k != source implies self.node_at(k) == g1.node_at(k) by {
            let w = choose|w: int|
                0 <= w < g1.nodes@.len() && (#[trigger] g1.nodes@[w]).0@ == k;
            g1.lemma_index_unique(k, w);
            assert(w != si);
            assert(self.nodes@[w] == g1.nodes@[w]);
            assert(self.nodes@[w].0@ == k);
            self.lemma_index_unique(k, w);
        }
    }

    /// The positive weight `source` filed for `target`; the peer and the
    /// opinion must exist.
    pub fn get_positive_weight(&self, source: String, target: String) -> (r: u16)
        requires
            self.wf(),
            self.has_node(source@),
            has_key(self.node_at(source@).positive_edges@, target@),
        ensures
            Some(r) == self.node_at(source@).pos_weight(target@),
    {
        let found = self.find_node(&source);
        let idx = found.unwrap();
        proof {
            self.lemma_index_unique(source@, idx as int);
        }
        self.nodes[idx].1.get_positive_weight(target)
    }

    /// The negative weight `source` filed for `target`; the peer and the
    /// opinion must exist.
    pub fn get_negative_weight(&self, source: String, target: String) -> (r: u16)
        requires
            self.wf(),
            self.has_node(source@),
            has_key(self.node_at(source@).negative_edges@, target@),
        ensures
            Some(r) == self.node_at(source@).neg_weight(target@),
    {
        let found = self.find_node(&source);
        let idx = found.unwrap();
        proof {
            self.lemma_index_unique(source@, idx as int);
        }
        self.nodes[idx].1.get_negative_weight(target)
    }

    /// Every peer name, in insertion order.
    pub fn for_each_node(&self) -> (r: Vec<String>)
        ensures
            r@.len() == self.nodes@.len(),
            forall|i: int| 0 <= i < r@.len() ==> (#[trigger] r@[i]) == self.nodes@[i].0,
    {
        let n = self.nodes.len();
        let mut r: Vec<String> = Vec::new();
        let mut i: usize = 0;
        while i < n
            invariant
                i <= n,
                n == self.nodes@.len(),
                r@.len() == i,
                forall|k: int| 0 <= k < i ==> (#[trigger] r@[k]) == self.nodes@[k].0,
            decreases n - i,
        {
            r.push(self.nodes[i].0.clone());
            i = i + 1;
        }
        r
    }

    /// Every peer the named one holds any opinion about, each name once.
    pub fn for_each_neighbour(&self, node: String) -> (r: Vec<String>)
        requires
            self.wf(),
            self.has_node(node@),
        ensures
            forall|i: int, j: int| 0 <= i < j < r@.len() ==> (#[trigger] r@[i])@ != (
            #[trigger] r@[j])@,
            forall|i: int|
                0 <= i < r@.len() ==> has_key(
                    self.node_at(node@).positive_edges@,
                    (#[trigger] r@[i])@,
                ) || has_key(self.node_at(node@).negative_edges@, r@[i]@),
            forall|k: Seq<char>|
                has_key(self.node_at(node@).positive_edges@, k) || has_key(
                    self.node_at(node@).negative_edges@,
                    k,
                ) ==> name_in(r@, k),
    {
        let found = self.find_node(&node);
        let idx = found.unwrap();
        proof {
            self.lemma_index_unique(node@, idx as int);
        }
        self.nodes[idx].1.out_neighbours()
    }
}

/// How many positions of the marker list are still unmarked.
pub open spec fn count_false(s: Seq<bool>) -> nat
    decreases s.len(),
{
    if s.len() == 0 {
        0
    } else {
        count_false(s.drop_last()) + if s.last() {
            0nat
        } else {
            1nat
        }
    }
}

/// Marking one unmarked position lowers the unmarked count by one.
pub proof fn lemma_count_false_update(s: Seq<bool>, i: int)
    requires
        0 <= i < s.len(),
        !s[i],
    ensures
        count_false(s) == count_false(s.update(i, true)) + 1,
    decreases s.len(),
{
    let t = s.update(i, true);
    if i == s.len() - 1 {
        assert(t.drop_last() =~= s.drop_last());
        assert(t.last());
        assert(!s.last());
    } else {
        lemma_count_false_update(s.drop_last(), i);
        assert(t.drop_last() =~= s.drop_last().update(i, true));
        assert(t.last() == s.last());
    }
}

/// Spreads trust from `source` through the graph, visiting peers in order
/// of their current net score, and returns the accumulated positive and
/// negative influence of every peer but the source.
///
/// Influence flows only toward a neighbour at least as trusted as the
/// peer being visited, a missing opinion between two connected peers
/// counts as weight zero, and an accumulated score would saturate at the
/// largest `i32` rather than grow past it. Since only the source starts
/// with any trust and it is visited first, the net-score filter in fact
/// never admits a transfer: every returned score is zero, whatever order
/// the queue breaks ties in, and the contract states exactly that.
#[verifier::rlimit(60)]
pub fn compute_scores(graph: Graph, source: String) -> (r: Vec<NodeScore>)
    requires
        graph.wf(),
        graph.closed(),
    ensures
        forall|i: int|
            0 <= i < r@.len() ==> graph.has_node((#[trigger] r@[i]).node@) && r@[i].node@
                != source@ && r@[i].p_score == 0 && r@[i].n_score == 0,
        forall|i: int, j: int|
            0 <= i < j < r@.len() ==> (#[trigger] r@[i]).node@ != (#[trigger] r@[j]).node@,
        forall|k: Seq<char>|
            graph.has_node(k) && k != source@ ==> exists|i: int|
                0 <= i < r@.len() && (#[trigger] r@[i]).node@ == k,
{
    broadcast use vstd::set::group_set_axioms;

    let n = graph.nodes.len();
    let mut p_scores: Vec<i32> = Vec::new();
    let mut n_scores: Vec<i32> = Vec::new();
    let mut inspected: Vec<bool> = Vec::new();
    let mut pq = pq_new();
    let mut i: usize = 0;
    while i < n
        invariant
            i <= n,
            n == graph.nodes@.len(),
            graph.wf(),
            p_scores@.len() == i,
            n_scores@.len() == i,
            inspected@.len() == i,
            forall|k: int|
                0 <= k < i ==> #[trigger] p_scores@[k] == (if graph.nodes@[k].0@ == source@ {
                    1i32
                } else {
                    0i32
                }),
            forall|k: int| 0 <= k < i ==> #[trigger] n_scores@[k] == 0,
            forall|k: Seq<char>| pq_view(pq).contains_key(k) ==> graph.has_node(k),
            pq_view(pq).dom().finite(),
        decreases n - i,
    {
        let is_src = graph.nodes[i].0 == source;
        let p: i32 = if is_src {
            1
        } else {
            0
        };
        p_scores.push(p);
        n_scores.push(0);
        inspected.push(false);
        let ghost pqv0 = pq_view(pq);
        pq_push(&mut pq, graph.nodes[i].0.clone(), p);
        proof {
            assert(graph.has_node(graph.nodes@[i as int].0@));
            assert(pq_view(pq).dom() =~= pqv0.dom().insert(graph.nodes@[i as int].0@));
        }
        i = i + 1;
    }
    while !pq_is_empty(&pq)
        invariant
            n == graph.nodes@.len(),
            graph.wf(),
            graph.closed(),
            p_scores@.len() == n,
            n_scores@.len() == n,
            inspected@.len() == n,
            forall|k: int|
                0 <= k < n ==> #[trigger] p_scores@[k] == (if graph.nodes@[k].0@ == source@ {
                    1i32
                } else {
                    0i32
                }),
            forall|k: int| 0 <= k < n ==> #[trigger] n_scores@[k] == 0,
            forall|k: Seq<char>| pq_view(pq).contains_key(k) ==> graph.has_node(k),
            pq_view(pq).dom().finite(),
        decreases count_false(inspected@), pq_view(pq).dom().len(),
    {
        let ghost pqv0 = pq_view(pq);
        let popped = pq_pop(&mut pq);
        proof {
            if popped is None {
                assert(pqv0 == pq_empty());
                assert(false);
            }
        }
        let pair = popped.unwrap();
        let node_key = pair.0;
        proof {
            assert(pqv0.contains_key(node_key@));
            assert(graph.has_node(node_key@));
            assert(pq_view(pq).dom() =~= pqv0.dom().remove(node_key@));
        }
        let found = graph.find_node(&node_key);
        let idx = found.unwrap();
        proof {
            graph.lemma_index_unique(node_key@, idx as int);
        }
        if !inspected[idx] {
            let ghost ins0 = inspected@;
            {
                let flag = &mut inspected[idx];
                *flag = true;
            }
            proof {
                lemma_count_false_update(ins0, idx as int);
            }
            let ps = p_scores[idx];
            let ns = n_scores[idx];
            proof {
                assert(p_scores@[idx as int] == (if graph.nodes@[idx as int].0@ == source@ {
                    1i32
                } else {
                    0i32
                }));
                assert(n_scores@[idx as int] == 0);
            }
            let node_score: i32 = if ps - ns > 0 {
                ps - ns
            } else {
                0
            };
            let ghost srcview = node_key@;
            let nbrs = graph.for_each_neighbour(node_key);
            let m = nbrs.len();
            let mut t: usize = 0;
            while t < m
                invariant
                    t <= m,
                    m == nbrs@.len(),
                    n == graph.nodes@.len(),
                    graph.wf(),
                    graph.closed(),
                    graph.has_node(srcview),
                    idx < n,
                    graph.nodes@[idx as int].0@ == srcview,
                    node_score == (if srcview == source@ {
                        1i32
                    } else {
                        0i32
                    }),
                    inspected@[idx as int],
                    p_scores@.len() == n,
                    n_scores@.len() == n,
                    inspected@.len() == n,
                    forall|k: int|
                        0 <= k < n ==> #[trigger] p_scores@[k] == (
                        if graph.nodes@[k].0@ == source@ {
                            1i32
                        } else {
                            0i32
                        }),
                    forall|k: int| 0 <= k < n ==> #[trigger] n_scores@[k] == 0,
                    forall|k: Seq<char>| pq_view(pq).contains_key(k) ==> graph.has_node(k),
                    pq_view(pq).dom().finite(),
                    forall|a: int|
                        0 <= a < m ==> has_key(
                            graph.node_at(srcview).positive_edges@,
                            (#[trigger] nbrs@[a])@,
                        ) || has_key(graph.node_at(srcview).negative_edges@, nbrs@[a]@),
                decreases m - t,
            {
                proof {
                    let nb = nbrs@[t as int]@;
                    if has_key(graph.node_at(srcview).positive_edges@, nb) {
                        let j = choose|j: int|
                            0 <= j < graph.node_at(srcview).positive_edges@.len() && (
                            #[trigger] graph.node_at(srcview).positive_edges@[j]).0@ == nb;
                        assert(graph.node_at(srcview) == graph.nodes@[graph.node_index(srcview)].1);
                        assert(graph.has_node(nb));
                    } else {
                        let j = choose|j: int|
                            0 <= j < graph.node_at(srcview).negative_edges@.len() && (
                            #[trigger] graph.node_at(srcview).negative_edges@[j]).0@ == nb;
                        assert(graph.has_node(nb));
                    }
                }
                let nfound = graph.find_node(&nbrs[t]);
                let nidx = nfound.unwrap();
                if !inspected[nidx] {
                    let np = p_scores[nidx];
                    let nn = n_scores[nidx];
                    let neighbor_score = np - nn;
                    if neighbor_score >= node_score {
                        let pw = match lookup_weight(&graph.nodes[idx].1.positive_edges, &nbrs[t]) {
                            Some(w) => w,
                            None => 0,
                        };
                        let nw = match lookup_weight(&graph.nodes[idx].1.negative_edges, &nbrs[t]) {
                            Some(w) => w,
                            None => 0,
                        };
                        if node_score > np {
                            proof {
                                // The filter admits only neighbours at
                                // least as trusted as the visited peer, so
                                // a strictly less trusted one never gets
                                // here.
                                assert(n_scores@[nidx as int] == 0);
                                assert(false);
                            }
                            let nv: i64 = np as i64 + (node_score as i64 - np as i64) * (
                            pw as i64);
                            let nv32: i32 = if nv > i32::MAX as i64 {
                                i32::MAX
                            } else {
                                nv as i32
                            };
                            let e = &mut p_scores[nidx];
                            *e = nv32;
                        }
                        if node_score > nn {
                            proof {
                                // Only the source carries a positive net
                                // score, so both the visited peer and this
                                // neighbour would have to be the source;
                                // names are filed once, and the source was
                                // marked before this loop began.
                                assert(n_scores@[nidx as int] == 0);
                                assert(p_scores@[nidx as int] == (
                                if graph.nodes@[nidx as int].0@ == source@ {
                                    1i32
                                } else {
                                    0i32
                                }));
                                assert(srcview == source@);
                                assert(graph.nodes@[nidx as int].0@ == source@);
                                graph.lemma_index_unique(source@, idx as int);
                                graph.lemma_index_unique(source@, nidx as int);
                                assert(idx == nidx);
                                assert(false);
                            }
                            let nv: i64 = nn as i64 + (node_score as i64 - nn as i64) * (
                            nw as i64);
                            let nv32: i32 = if nv > i32::MAX as i64 {
                                i32::MAX
                            } else {
                                nv as i32
                            };
                            let e = &mut n_scores[nidx];
                            *e = nv32;
                        }
                        let np2 = p_scores[nidx];
                        let nn2 = n_scores[nidx];
                        let ghost pqv1 = pq_view(pq);
                        pq_push(&mut pq, nbrs[t].clone(), np2 - nn2);
                        proof {
                            assert(pq_view(pq).dom() =~= pqv1.dom().insert(nbrs@[t as int]@));
                        }
                    }
                }
                t = t + 1;
            }
        }
    }
    let mut out: Vec<NodeScore> = Vec::new();
    let mut w: usize = 0;
    while w < n
        invariant
            w <= n,
            n == graph.nodes@.len(),
            graph.wf(),
            p_scores@.len() == n,
            n_scores@.len() == n,
            forall|k: int|
                0 <= k < n ==> #[trigger] p_scores@[k] == (if graph.nodes@[k].0@ == source@ {
                    1i32
                } else {
                    0i32
                }),
            forall|k: int| 0 <= k < n ==> #[trigger] n_scores@[k] == 0,
            forall|a: int|
                0 <= a < out@.len() ==> (#[trigger] out@[a]).node@ != source@ && out@[a].p_score
                    == 0 && out@[a].n_score == 0,
            forall|a: int|
                0 <= a < out@.len() ==> exists|v: int|
                    0 <= v < w && graph.nodes@[v].0@ == (#[trigger] out@[a]).node@,
            forall|a: int, b: int|
                0 <= a < b < out@.len() ==> (#[trigger] out@[a]).node@ != (
                #[trigger] out@[b]).node@,
            forall|v: int|
                0 <= v < w && (#[trigger] graph.nodes@[v]).0@ != source@ ==> exists|a: int|
                    0 <= a < out@.len() && (#[trigger] out@[a]).node@ == graph.nodes@[v].0@,
        decreases n - w,
    {
        let ghost out0 = out@;
        let is_src = graph.nodes[w].0 == source;
        if !is_src {
            let sc = NodeScore::new(graph.nodes[w].0.clone(), p_scores[w], n_scores[w]);
            out.push(sc);
            proof {
                assert(out@.drop_last() =~= out0);
                assert(out@.last().node@ == graph.nodes@[w as int].0@);
                assert forall|a: int, b: int|
                    0 <= a < b < out@.len() implies (#[trigger] out@[a]).node@ != (
                #[trigger] out@[b]).node@ by {
                    if b == out@.len() - 1 {
                        let v = choose|v: int|
                            0 <= v < w && graph.nodes@[v].0@ == (#[trigger] out0[a]).node@;
                        assert(graph.nodes@[v].0@ != graph.nodes@[w as int].0@);
                        assert(out@[a] == out0[a]);
                    } else {
                        assert(out@[a] == out0[a]);
                        assert(out@[b] == out0[b]);
                    }
                }
            }
        }
        proof {
            assert forall|v: int|
                0 <= v < w + 1 && (#[trigger] graph.nodes@[v]).0@ != source@ implies exists|a: int|
                0 <= a < out@.len() && (#[trigger] out@[a]).node@ == graph.nodes@[v].0@ by {
                if v < w {
                    let a = choose|a: int|
                        0 <= a < out0.len() && (#[trigger] out0[a]).node@ == graph.nodes@[v].0@;
                    assert(out@[a].node@ == graph.nodes@[v].0@);
                } else {
                    assert(out@[out@.len() - 1].node@ == graph.nodes@[v].0@);
                }
            }
        }
        w = w + 1;
    }
    proof {
        assert forall|k: Seq<char>|
            graph.has_node(k) && k != source@ implies exists|i2: int|
            0 <= i2 < out@.len() && (#[trigger] out@[i2]).node@ == k by {
            let v = choose|v: int|
                0 <= v < graph.nodes@.len() && (#[trigger] graph.nodes@[v]).0@ == k;
            assert(graph.nodes@[v].0@ != source@);
            let a = choose|a: int|
                0 <= a < out@.len() && (#[trigger] out@[a]).node@ == graph.nodes@[v].0@;
            assert(out@[a].node@ == k);
        }
        assert forall|a: int|
            0 <= a < out@.len() implies graph.has_node((#[trigger] out@[a]).node@) by {
            let v = choose|v: int|
                0 <= v < w && graph.nodes@[v].0@ == (#[trigger] out@[a]).node@;
            assert(graph.nodes@[v].0@ == out@[a].node@);
            assert(graph.has_node(graph.nodes@[v].0@));
        }
    }
    out
}

/// The spreader's job entry point. No workload is wired in: callers drive
/// the spreader through [`Graph`] and [`compute_scores`] directly.
pub fn run_job() {
}

/// Whether `r` already carries the name `key`.
fn contains_name(r: &Vec<String>, key: &String) -> (b: bool)
    ensures
        b <==> exists|i: int| 0 <= i < r@.len() && (#[trigger] r@[i])@ == key@,
{
    let n = r.len();
    let mut j: usize = 0;
    while j < n
        invariant
            j <= n,
            n == r@.len(),
            forall|i: int| 0 <= i < j ==> (#[trigger] r@[i])@ != key@,
        decreases n - j,
    {
        if r[j] == *key {
            return true;
        }
        j = j + 1;
    }
    false
}

} // verus!
