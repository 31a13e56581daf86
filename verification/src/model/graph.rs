//! Forward and backward reference indices over a parsed file.
use vstd::prelude::*;
use crate::error::{Error, Result};
use crate::p21::exchange::{external_ids, ids_in, Exchange, Instance};

verus! {

/// The `#id`s instance `n` of `ex` refers to, in order, repeats included.
pub open spec fn refs_of(ex: Exchange, n: int) -> Seq<u64> {
    ids_in(ex.instance_tokens_view(ex.instances_view()[n]))
}

/// The positions, by `ix`, of the `#id`s among `ids` that `ix` defines.
pub open spec fn resolved(ids: Seq<u64>, ix: Map<u64, usize>) -> Set<usize> {
    Set::new(
        |t: usize|
            exists|k: int| 0 <= k < ids.len() && #[trigger] ix.contains_key(ids[k]) && ix[ids[k]] == t,
    )
}

/// The nodes that instance `n` refers to: the positions of the `#id`s it
/// names that the file defines.
pub open spec fn targets_of(ex: Exchange, n: int) -> Set<usize> {
    resolved(refs_of(ex, n), ex.index_view())
}

/// The nodes whose instances refer to node `m`.
pub open spec fn sources_of(ex: Exchange, m: usize) -> Set<usize> {
    Set::new(|n: usize| n < ex.instances_view().len() && targets_of(ex, n as int).contains(m))
}

/// True if `s` is strictly ascending.
pub open spec fn ascending(s: Seq<usize>) -> bool {
    forall|i: int, j: int| 0 <= i < j < s.len() ==> #[trigger] s[i] < #[trigger] s[j]
}

/// True if `s` lists the members of `set` once each, in ascending order.
pub open spec fn lists(s: Seq<usize>, set: Set<usize>) -> bool {
    &&& ascending(s)
    &&& forall|x: usize| #[trigger] s.contains(x) <==> set.contains(x)
}

/// The `#id`s among `ids` that neither `ix` nor `ext` defines, as
/// `(n, #id)`, in order.
pub open spec fn dangling_in(ids: Seq<u64>, ix: Map<u64, usize>, ext: Set<u64>, n: usize) -> Seq<(usize, u64)>
    decreases ids.len(),
{
    if ids.len() == 0 {
        Seq::empty()
    } else {
        let rest = dangling_in(ids.drop_last(), ix, ext, n);
        if ix.contains_key(ids.last()) || ext.contains(ids.last()) {
            rest
        } else {
            rest.push((n, ids.last()))
        }
    }
}

/// The instance names that another file defines (edition 3).
pub open spec fn external_of(ex: Exchange) -> Set<u64> {
    external_ids(ex.extra_view(), ex.tokens_view())
}

/// The references of node `n` to instances that neither this file nor
/// another defines, as `(n, #id)`.
pub open spec fn dangling_of(ex: Exchange, n: int) -> Seq<(usize, u64)> {
    dangling_in(refs_of(ex, n), ex.index_view(), external_of(ex), n as usize)
}

/// The references to undefined instances from the first `k` nodes, in
/// file order.
pub open spec fn dangling_upto(ex: Exchange, k: int) -> Seq<(usize, u64)>
    decreases k,
{
    if k <= 0 {
        Seq::empty()
    } else {
        dangling_upto(ex, k - 1) + dangling_of(ex, k - 1)
    }
}

/// All references to undefined instances, in file order.
pub open spec fn dangling(ex: Exchange) -> Seq<(usize, u64)> {
    dangling_upto(ex, ex.instances_view().len() as int)
}

/// The entity graph of a parsed file, with forward and back references.
///
/// Nodes are positions in [`Exchange::instances`]: node `n` is
/// `exchange.instances()[n]`. Each index lists a neighbour once, in
/// ascending node order, however many times the reference is repeated.
///
/// The back index is load-bearing, not an optimisation: a product's
/// shape, colours and placement all point *at* the product, so most
/// questions about a product are answered by
/// [`referenced_by`](Self::referenced_by).
pub struct Graph<'a> {
    exchange: Exchange<'a>,
    forward: Adjacency,
    backward: Adjacency,
    unresolved: Vec<(usize, u64)>,
}

/// Adjacency lists: node `n`'s neighbours are `lists[n]`.
struct Adjacency {
    lists: Vec<Vec<usize>>,
}

impl Adjacency {
    spec fn view(&self) -> Seq<Seq<usize>> {
        Seq::new(self.lists@.len(), |n: int| self.lists@[n]@)
    }

    fn neighbours(&self, node: usize) -> (r: &[usize])
        requires
            node < self.view().len(),
        ensures
            r@ == self.view()[node as int],
    {
        self.lists[node].as_slice()
    }

    /// The same edges pointing the other way. Sources are visited in
    /// ascending order, so every reversed list comes out sorted.
    fn reversed(&self) -> (r: Adjacency)
        requires
            forall|n: int| 0 <= n < self.view().len() ==> ascending(#[trigger] self.view()[n]),
            forall|n: int, k: int|
                0 <= n < self.view().len() && 0 <= k < self.view()[n].len() ==> #[trigger] self.view()[n][k]
                    < self.view().len(),
        ensures
            r.view().len() == self.view().len(),
            forall|m: int|
                0 <= m < r.view().len() ==> lists(
                    #[trigger] r.view()[m],
                    Set::new(|n: usize| n < self.view().len() && self.view()[n as int].contains(m as usize)),
                ),
    {
        let nodes = self.lists.len();
        let ghost fwd = self.view();
        let mut back: Vec<Vec<usize>> = Vec::new();
        while back.len() < nodes
            invariant
                back@.len() <= nodes,
                forall|m: int| 0 <= m < back@.len() ==> (#[trigger] back@[m])@.len() == 0,
            decreases nodes - back@.len(),
        {
            back.push(Vec::new());
        }
        let mut source: usize = 0;
        while source < nodes
            invariant
                nodes == fwd.len(),
                fwd == self.view(),
                back@.len() == nodes,
                source <= nodes,
                forall|n: int| 0 <= n < fwd.len() ==> ascending(#[trigger] fwd[n]),
                forall|n: int, k: int|
                    0 <= n < fwd.len() && 0 <= k < fwd[n].len() ==> #[trigger] fwd[n][k] < fwd.len(),
                forall|m: int|
                    0 <= m < nodes ==> lists(
                        #[trigger] back@[m]@,
                        Set::new(|n: usize| n < source && fwd[n as int].contains(m as usize)),
                    ),
            decreases nodes - source,
        {
            let ghost before = Seq::new(back@.len(), |m: int| back@[m]@);
            let ns = self.lists[source].as_slice();
            proof {
                assert(ns@ == fwd[source as int]);
                assert(ascending(fwd[source as int]));
                assert forall|k: int| 0 <= k < ns@.len() implies #[trigger] ns@[k] < nodes by {
                    assert(fwd[source as int][k] < fwd.len());
                }
            }
            let mut j: usize = 0;
            while j < ns.len()
                invariant
                    nodes == fwd.len(),
                    source < nodes,
                    ns@ == fwd[source as int],
                    ascending(ns@),
                    forall|k: int| 0 <= k < ns@.len() ==> #[trigger] ns@[k] < nodes,
                    back@.len() == nodes,
                    before.len() == nodes,
                    j <= ns@.len(),
                    forall|m: int|
                        0 <= m < nodes ==> lists(
                            #[trigger] before[m],
                            Set::new(|n: usize| n < source && fwd[n as int].contains(m as usize)),
                        ),
                    forall|m: int|
                        0 <= m < nodes ==> (#[trigger] back@[m])@ == if ns@.take(j as int).contains(
                            m as usize,
                        ) {
                            before[m].push(source)
                        } else {
                            before[m]
                        },
                decreases ns@.len() - j,
            {
                let target = ns[j];
                proof {
                    let t0 = ns@.take(j as int);
                    assert(!t0.contains(target)) by {
                        if t0.contains(target) {
                            let k = choose|k: int| 0 <= k < t0.len() && t0[k] == target;
                            assert(ns@[k] < ns@[j as int]);
                        }
                    }
                    let t1 = ns@.take(j + 1);
                    assert forall|m: int| 0 <= m < nodes implies #[trigger] t1.contains(m as usize) == (
                    t0.contains(m as usize) || m == target) by {
                        if t1.contains(m as usize) {
                            let k = choose|k: int| 0 <= k < t1.len() && t1[k] == m as usize;
                            if k < j {
                                assert(t0[k] == m as usize);
                            }
                        }
                        if t0.contains(m as usize) {
                            let k = choose|k: int| 0 <= k < t0.len() && t0[k] == m as usize;
                            assert(t1[k] == m as usize);
                        }
                        if m == target {
                            assert(t1[j as int] == target);
                        }
                    }
                }
                back[target].push(source);
                j = j + 1;
            }
            proof {
                assert(ns@.take(j as int) =~= ns@);
                assert forall|m: int| 0 <= m < nodes implies lists(
                    #[trigger] back@[m]@,
                    Set::new(|n: usize| n < source + 1 && fwd[n as int].contains(m as usize)),
                ) by {
                    let old_set = Set::new(|n: usize| n < source && fwd[n as int].contains(m as usize));
                    let new_set = Set::new(|n: usize| n < source + 1 && fwd[n as int].contains(m as usize));
                    assert(lists(before[m], old_set));
                    if fwd[source as int].contains(m as usize) {
                        let l = before[m].push(source);
                        assert(back@[m]@ == l);
                        assert forall|a: int, b: int| 0 <= a < b < l.len() implies #[trigger] l[a] < #[trigger] l[b] by {
                            if b == l.len() - 1 {
                                assert(before[m].contains(l[a]));
                                assert(old_set.contains(l[a]));
                            }
                        }
                        assert forall|x: usize| #[trigger] l.contains(x) <==> new_set.contains(x) by {
                            if l.contains(x) {
                                let k = choose|k: int| 0 <= k < l.len() && l[k] == x;
                                if k < before[m].len() {
                                    assert(l[k] == before[m][k]);
                                    assert(before[m].contains(x));
                                }
                            }
                            if new_set.contains(x) {
                                if x < source {
                                    assert(old_set.contains(x));
                                    assert(before[m].contains(x));
                                    let k = choose|k: int| 0 <= k < before[m].len() && before[m][k] == x;
                                    assert(l[k] == x);
                                } else {
                                    assert(l[l.len() - 1] == x);
                                }
                            }
                        }
                    } else {
                        assert(back@[m]@ == before[m]);
                        assert forall|x: usize| #[trigger] before[m].contains(x) <==> new_set.contains(x) by {
                            if new_set.contains(x) && x == source {
                                assert(false);
                            }
                            if new_set.contains(x) && x < source {
                                assert(old_set.contains(x));
                            }
                        }
                    }
                }
            }
            source = source + 1;
        }
        let r = Adjacency { lists: back };
        proof {
            assert forall|m: int| 0 <= m < r.view().len() implies lists(
                #[trigger] r.view()[m],
                Set::new(|n: usize| n < self.view().len() && self.view()[n as int].contains(m as usize)),
            ) by {
                assert(r.view()[m] == back@[m]@);
                assert(Set::new(|n: usize| n < source && fwd[n as int].contains(m as usize)) =~= Set::new(
                    |n: usize| n < self.view().len() && self.view()[n as int].contains(m as usize),
                ));
            }
        }
        r
    }
}

/// Puts `x` into the strictly ascending `v`, unless it is there already.
fn insert_sorted(v: &mut Vec<usize>, x: usize)
    requires
        ascending(old(v)@),
    ensures
        ascending(final(v)@),
        forall|y: usize| #[trigger] final(v)@.contains(y) <==> (old(v)@.contains(y) || y == x),
{
    let mut i: usize = 0;
    while i < v.len() && v[i] < x
        invariant
            i <= v@.len(),
            v@ == old(v)@,
            ascending(v@),
            forall|k: int| 0 <= k < i ==> v@[k] < x,
        decreases v@.len() - i,
    {
        i = i + 1;
    }
    if i < v.len() && v[i] == x {
        return;
    }
    let ghost before = v@;
    v.insert(i, x);
    proof {
        assert(v@ =~= before.take(i as int).push(x) + before.skip(i as int));
        assert forall|a: int, b: int| 0 <= a < b < v@.len() implies #[trigger] v@[a] < #[trigger] v@[b] by {
            if a < i && b > i {
                assert(v@[b] == before[b - 1]);
                assert(before[a] < x);
                assert(x <= before[i as int]);
                assert(i == b - 1 || before[i as int] < before[b - 1]);
            } else if a < i && b == i {
            } else if a == i {
                assert(v@[b] == before[b - 1]);
                assert(x <= before[i as int]);
                assert(x != before[i as int]);
                assert(i == b - 1 || before[i as int] < before[b - 1]);
            } else if a > i {
                assert(v@[a] == before[a - 1]);
                assert(v@[b] == before[b - 1]);
            }
        }
        assert forall|y: usize| #[trigger] v@.contains(y) <==> (before.contains(y) || y == x) by {
            if v@.contains(y) {
                let k = choose|k: int| 0 <= k < v@.len() && v@[k] == y;
                if k < i {
                    assert(before[k] == y);
                } else if k > i {
                    assert(before[k - 1] == y);
                }
            }
            if before.contains(y) {
                let k = choose|k: int| 0 <= k < before.len() && before[k] == y;
                if k < i {
                    assert(v@[k] == y);
                } else {
                    assert(v@[k + 1] == y);
                }
            }
            if y == x {
                assert(v@[i as int] == x);
            }
        }
    }
}

impl<'a> Graph<'a> {
    /// The parsed file.
    pub closed spec fn exchange_view(&self) -> Exchange<'a> {
        self.exchange
    }

    /// Each node's neighbours by forward reference.
    pub closed spec fn forward_view(&self) -> Seq<Seq<usize>> {
        self.forward.view()
    }

    /// Each node's neighbours by back reference.
    pub closed spec fn backward_view(&self) -> Seq<Seq<usize>> {
        self.backward.view()
    }

    /// The references to undefined instances.
    pub closed spec fn unresolved_view(&self) -> Seq<(usize, u64)> {
        self.unresolved@
    }

    /// The graph's invariant: both indices list exactly the resolved
    /// references, and the dangling ones are kept in file order.
    pub open spec fn wf(&self) -> bool {
        let ex = self.exchange_view();
        let n = ex.instances_view().len();
        &&& ex.wf()
        &&& self.forward_view().len() == n
        &&& self.backward_view().len() == n
        &&& forall|k: int| 0 <= k < n ==> lists(#[trigger] self.forward_view()[k], targets_of(ex, k))
        &&& forall|m: int|
            0 <= m < n ==> lists(#[trigger] self.backward_view()[m], sources_of(ex, m as usize))
        &&& self.unresolved_view() == dangling(ex)
    }

    /// Builds both reference indices, failing on a dangling reference.
    ///
    /// Use this for anything that transforms or extracts: a dangling
    /// reference means the file is already missing data, and every graph
    /// operation on it would silently produce a wrong answer.
    ///
    /// # Errors
    ///
    /// Returns [`Error::UnresolvedReference`] for the first reference, in
    /// file order, to an instance that is not defined.
    pub fn new(exchange: Exchange<'a>) -> (r: Result<Graph<'a>>)
        requires
            exchange.wf(),
        ensures
            r is Ok <==> dangling(exchange).len() == 0,
            r matches Ok(g) ==> g.wf() && g.exchange_view() == exchange,
            r matches Err(e) ==> e == (Error::UnresolvedReference {
                from: exchange.instances_view()[dangling(exchange)[0].0 as int].id,
                to: dangling(exchange)[0].1,
            }),
    {
        let graph = Self::build(exchange);
        if graph.unresolved.len() > 0 {
            let (node, to) = graph.unresolved[0];
            proof {
                lemma_dangling_nodes(graph.exchange, graph.exchange.instances_view().len() as int);
                assert(dangling(graph.exchange)[0] == graph.unresolved@[0]);
            }
            Err(Error::UnresolvedReference { from: graph.instance(node).id, to })
        } else {
            Ok(graph)
        }
    }

    /// Builds both reference indices, recording dangling references
    /// instead of failing.
    ///
    /// Use this where a partial answer is still useful, such as reporting
    /// every problem in a file. Dangling references are left out of both
    /// indices and listed by [`unresolved`](Self::unresolved).
    pub fn build(exchange: Exchange<'a>) -> (g: Graph<'a>)
        requires
            exchange.wf(),
        ensures
            g.wf(),
            g.exchange_view() == exchange,
    {
        let instances = exchange.instances();
        let count = instances.len();
        let ghost ex = exchange;
        let mut forward: Vec<Vec<usize>> = Vec::new();
        let mut unresolved: Vec<(usize, u64)> = Vec::new();
        let mut node: usize = 0;
        while node < count
            invariant
                ex == exchange,
                ex.wf(),
                instances@ == ex.instances_view(),
                count == instances@.len(),
                node <= count,
                forward@.len() == node,
                forall|k: int| 0 <= k < node ==> lists(#[trigger] forward@[k]@, targets_of(ex, k)),
                forall|k: int, j: int|
                    0 <= k < node && 0 <= j < forward@[k]@.len() ==> #[trigger] forward@[k]@[j] < count,
                unresolved@ == dangling_upto(ex, node as int),
            decreases count - node,
        {
            let mut refs = exchange.references(&instances[node]);
            let ghost all = refs.remaining();
            let mut neighbours: Vec<usize> = Vec::new();
            let ghost mut seen: int = 0;
            let ghost base = unresolved@;
            loop
                invariant
                    ex == exchange,
                    ex.wf(),
                    instances@ == ex.instances_view(),
                    count == instances@.len(),
                    node < count,
                    all == refs_of(ex, node as int),
                    0 <= seen <= all.len(),
                    refs.remaining() == all.skip(seen),
                    ascending(neighbours@),
                    forall|y: usize| #[trigger] neighbours@.contains(y) <==> resolved(
                        all.take(seen),
                        ex.index_view(),
                    ).contains(y),
                    forall|j: int| 0 <= j < neighbours@.len() ==> #[trigger] neighbours@[j] < count,
                    base == dangling_upto(ex, node as int),
                    unresolved@ == base + dangling_in(all.take(seen), ex.index_view(), external_of(ex), node),
                ensures
                    seen == all.len(),
                decreases all.len() - seen,
            {
                let ghost before = neighbours@;
                match refs.next() {
                    None => {
                        proof {
                            assert(all.skip(seen).len() == 0);
                        }
                        break ;
                    },
                    Some(id) => {
                        proof {
                            assert(all.skip(seen)[0] == all[seen]);
                            assert(all.take(seen + 1).drop_last() =~= all.take(seen));
                            assert(all.take(seen + 1).last() == id);
                            assert(all.skip(seen).drop_first() =~= all.skip(seen + 1));
                        }
                        match exchange.position(id) {
                            Some(target) => {
                                insert_sorted(&mut neighbours, target);
                                proof {
                                    lemma_resolved_step(all, seen, ex.index_view());
                                    assert forall|j: int| 0 <= j < neighbours@.len() implies #[trigger] neighbours@[j]
                                        < count by {
                                        let y = neighbours@[j];
                                        assert(neighbours@.contains(y));
                                        if before.contains(y) {
                                            let k = choose|k: int| 0 <= k < before.len() && before[k] == y;
                                        }
                                    }
                                }
                            },
                            None => {
                                proof {
                                    lemma_resolved_step(all, seen, ex.index_view());
                                }
                                if !exchange.is_external(id) {
                                    unresolved.push((node, id));
                                }
                            },
                        }
                        proof {
                            seen = seen + 1;
                        }
                    },
                }
            }
            proof {
                assert(all.take(seen) =~= all);
                assert(neighbours@.len() >= 0);
                assert(dangling_upto(ex, node + 1) == dangling_upto(ex, node as int) + dangling_of(
                    ex,
                    node as int,
                ));
            }
            forward.push(neighbours);
            node = node + 1;
        }
        let fwd = Adjacency { lists: forward };
        proof {
            assert forall|k: int| 0 <= k < fwd.view().len() implies ascending(
                #[trigger] fwd.view()[k],
            ) by {
                assert(fwd.view()[k] == forward@[k]@);
                assert(lists(forward@[k]@, targets_of(ex, k)));
            }
        }
        let backward = fwd.reversed();
        let g = Graph { exchange, forward: fwd, backward, unresolved };
        proof {
            assert forall|m: int| 0 <= m < count implies lists(
                #[trigger] g.backward_view()[m],
                sources_of(ex, m as usize),
            ) by {
                let set = Set::new(
                    |n: usize| n < fwd.view().len() && fwd.view()[n as int].contains(m as usize),
                );
                assert forall|n: usize| #[trigger] set.contains(n) <==> sources_of(ex, m as usize).contains(n) by {
                    if n < count {
                        assert(lists(fwd.view()[n as int], targets_of(ex, n as int)));
                    }
                }
                assert(set =~= sources_of(ex, m as usize));
            }
        }
        g
    }

    /// The parsed file this graph indexes.
    pub fn exchange(&self) -> (r: &Exchange<'a>)
        ensures
            *r == self.exchange_view(),
    {
        &self.exchange
    }

    /// The number of nodes, which is the number of instances.
    pub fn len(&self) -> (n: usize)
        ensures
            n == self.exchange_view().instances_view().len(),
    {
        self.exchange.instances().len()
    }

    /// True if the file has no instances.
    pub fn is_empty(&self) -> (b: bool)
        ensures
            b == (self.exchange_view().instances_view().len() == 0),
    {
        self.len() == 0
    }

    /// The node for instance `#id`.
    pub fn node(&self, id: u64) -> (r: Option<usize>)
        requires
            self.wf(),
        ensures
            r is None <==> !self.exchange_view().index_view().contains_key(id),
            r matches Some(n) ==> n == self.exchange_view().index_view()[id]
                && n < self.exchange_view().instances_view().len()
                && self.exchange_view().instances_view()[n as int].id == id,
    {
        self.exchange.position(id)
    }

    /// The instance at `node`.
    pub fn instance(&self, node: usize) -> (r: &Instance)
        requires
            node < self.exchange_view().instances_view().len(),
        ensures
            *r == self.exchange_view().instances_view()[node as int],
    {
        &self.exchange.instances()[node]
    }

    /// The nodes `node` refers to, once each and in ascending order.
    pub fn references(&self, node: usize) -> (r: &[usize])
        requires
            self.wf(),
            node < self.exchange_view().instances_view().len(),
        ensures
            r@ == self.forward_view()[node as int],
            lists(r@, targets_of(self.exchange_view(), node as int)),
    {
        self.forward.neighbours(node)
    }

    /// The nodes that refer to `node`, once each and in ascending order.
    pub fn referenced_by(&self, node: usize) -> (r: &[usize])
        requires
            self.wf(),
            node < self.exchange_view().instances_view().len(),
        ensures
            r@ == self.backward_view()[node as int],
            lists(r@, sources_of(self.exchange_view(), node)),
    {
        self.backward.neighbours(node)
    }

    /// References to undefined instances, as `(node, missing #id)` in file
    /// order. Always empty for a graph from [`new`](Self::new).
    pub fn unresolved(&self) -> (r: &[(usize, u64)])
        requires
            self.wf(),
        ensures
            r@ == dangling(self.exchange_view()),
    {
        self.unresolved.as_slice()
    }
}

/// Seen one more `#id`: the resolved set and the dangling list grow by it.
proof fn lemma_resolved_step(ids: Seq<u64>, seen: int, ix: Map<u64, usize>)
    requires
        0 <= seen < ids.len(),
    ensures
        forall|y: usize| #[trigger] resolved(ids.take(seen + 1), ix).contains(y) <==> (resolved(
            ids.take(seen),
            ix,
        ).contains(y) || (ix.contains_key(ids[seen]) && ix[ids[seen]] == y)),
{
    let a = ids.take(seen);
    let b = ids.take(seen + 1);
    assert forall|y: usize| #[trigger] resolved(b, ix).contains(y) <==> (resolved(a, ix).contains(y) || (
    ix.contains_key(ids[seen]) && ix[ids[seen]] == y)) by {
        if resolved(b, ix).contains(y) {
            let k = choose|k: int| 0 <= k < b.len() && #[trigger] ix.contains_key(b[k]) && ix[b[k]] == y;
            if k < seen {
                assert(a[k] == b[k]);
                assert(ix.contains_key(a[k]));
            }
        }
        if resolved(a, ix).contains(y) {
            let k = choose|k: int| 0 <= k < a.len() && #[trigger] ix.contains_key(a[k]) && ix[a[k]] == y;
            assert(a[k] == b[k]);
            assert(ix.contains_key(b[k]));
        }
        if ix.contains_key(ids[seen]) && ix[ids[seen]] == y {
            assert(b[seen] == ids[seen]);
            assert(ix.contains_key(b[seen]));
        }
    }
}

/// Every dangling reference is from a node below `k`.
pub proof fn lemma_dangling_nodes(ex: Exchange, k: int)
    ensures
        forall|i: int| 0 <= i < dangling_upto(ex, k).len() ==> (#[trigger] dangling_upto(ex, k)[i]).0 < k,
    decreases k,
{
    if k > 0 {
        lemma_dangling_nodes(ex, k - 1);
        lemma_dangling_in_node(refs_of(ex, k - 1), ex.index_view(), external_of(ex), (k - 1) as usize);
        let a = dangling_upto(ex, k - 1);
        let b = dangling_of(ex, k - 1);
        assert forall|i: int| 0 <= i < dangling_upto(ex, k).len() implies (#[trigger] dangling_upto(
            ex,
            k,
        )[i]).0 < k by {
            if i < a.len() {
                assert(dangling_upto(ex, k)[i] == a[i]);
            } else {
                assert(dangling_upto(ex, k)[i] == b[i - a.len()]);
            }
        }
    }
}

/// Every entry of `dangling_in(ids, ix, ext, n)` is from node `n`.
proof fn lemma_dangling_in_node(ids: Seq<u64>, ix: Map<u64, usize>, ext: Set<u64>, n: usize)
    ensures
        forall|i: int|
            0 <= i < dangling_in(ids, ix, ext, n).len() ==> (#[trigger] dangling_in(ids, ix, ext, n)[i]).0
                == n,
    decreases ids.len(),
{
    if ids.len() > 0 {
        lemma_dangling_in_node(ids.drop_last(), ix, ext, n);
        let rest = dangling_in(ids.drop_last(), ix, ext, n);
        if !(ix.contains_key(ids.last()) || ext.contains(ids.last())) {
            let all = rest.push((n, ids.last()));
            assert forall|i: int| 0 <= i < all.len() implies (#[trigger] all[i]).0 == n by {
                if i < rest.len() {
                    assert(all[i] == rest[i]);
                }
            }
        }
    }
}

/// Back references mirror forward ones: node `n` refers to node `m`
/// exactly when `m` is referred to by `n`.
pub proof fn lemma_back_mirrors_forward(g: Graph, n: usize, m: usize)
    requires
        g.wf(),
        n < g.exchange_view().instances_view().len(),
        m < g.exchange_view().instances_view().len(),
    ensures
        g.forward_view()[n as int].contains(m) <==> g.backward_view()[m as int].contains(n),
{
    assert(lists(g.forward_view()[n as int], targets_of(g.exchange_view(), n as int)));
    assert(lists(g.backward_view()[m as int], sources_of(g.exchange_view(), m)));
}

} // verus!
