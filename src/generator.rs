use vstd::prelude::*;

use crate::graph::{node_ids, Graph};

verus! {

/// The edges from `node` to each of `targets`, in the order of `targets`.
pub open spec fn fan_out(node: usize, targets: Seq<usize>) -> Seq<(usize, usize)> {
    targets.map_values(|t: usize| (node, t))
}

/// The endpoint occurrences that `fan_out(node, targets)` adds to the
/// attachment pool: each target, followed by `node`.
pub open spec fn endpoints(node: usize, targets: Seq<usize>) -> Seq<usize>
    decreases targets.len(),
{
    if targets.len() == 0 {
        Seq::empty()
    } else {
        endpoints(node, targets.drop_last()).push(targets.last()).push(node)
    }
}

/// The node that the `k`-th round adds, counting rounds from zero.
pub open spec fn round_node(m: nat, k: nat) -> usize {
    (m + k) as usize
}

/// The edges after the given rounds, where round `k` joins node `m + k`
/// to each of `rounds[k]`.
pub open spec fn edges_after(m: nat, rounds: Seq<Seq<usize>>) -> Seq<(usize, usize)>
    decreases rounds.len(),
{
    if rounds.len() == 0 {
        Seq::empty()
    } else {
        edges_after(m, rounds.drop_last()) + fan_out(
            round_node(m, (rounds.len() - 1) as nat),
            rounds.last(),
        )
    }
}

/// The attachment pool after the given rounds: every edge endpoint so far,
/// so that a node occurs in it once per unit of degree.
pub open spec fn pool_after(m: nat, rounds: Seq<Seq<usize>>) -> Seq<usize>
    decreases rounds.len(),
{
    if rounds.len() == 0 {
        Seq::empty()
    } else {
        pool_after(m, rounds.drop_last()) + endpoints(
            round_node(m, (rounds.len() - 1) as nat),
            rounds.last(),
        )
    }
}

/// `picks` are entries of `pool` taken at pairwise distinct positions.
pub open spec fn drawn_from(pool: Seq<usize>, picks: Seq<usize>) -> bool {
    exists|pos: Seq<int>|
        {
            &&& pos.len() == picks.len()
            &&& forall|j: int|
                0 <= j < pos.len() ==> 0 <= #[trigger] pos[j] < pool.len() && picks[j] == pool[pos[j]]
            &&& forall|i: int, j: int| 0 <= i < j < pos.len() ==> pos[i] != pos[j]
        }
}

/// A possible run of the model with `m` links per new node: the first round
/// targets the `m` initial nodes, and each later round targets `m` entries
/// drawn from the pool that the rounds before it left.
pub open spec fn is_trace(m: nat, rounds: Seq<Seq<usize>>) -> bool {
    &&& rounds.len() >= 1 ==> rounds[0] == node_ids(m)
    &&& forall|k: int|
        1 <= k < rounds.len() ==> (#[trigger] rounds[k]).len() == m && drawn_from(
            pool_after(m, rounds.take(k)),
            rounds[k],
        )
}

/// Relies on rand's `IteratorRandom::choose_multiple`, a reservoir sample:
/// from a pool of at least `amount` entries it returns `amount` of them,
/// taken at distinct positions. Which positions is left to chance.
#[verifier::external_body]
fn sample_entries<R: rand::Rng>(rng: &mut R, pool: &Vec<usize>, amount: usize) -> (r: Vec<usize>)
    requires
        amount <= pool@.len(),
    ensures
        r@.len() == amount,
        drawn_from(pool@, r@),
{
    rand::seq::IteratorRandom::choose_multiple(pool.iter().cloned(), rng, amount)
}

proof fn lemma_endpoints(node: usize, targets: Seq<usize>, bound: int)
    requires
        node < bound,
        forall|j: int| 0 <= j < targets.len() ==> targets[j] < bound,
    ensures
        endpoints(node, targets).len() == 2 * targets.len(),
        forall|i: int|
            0 <= i < endpoints(node, targets).len() ==> #[trigger] endpoints(node, targets)[i]
                < bound,
    decreases targets.len(),
{
    if targets.len() > 0 {
        lemma_endpoints(node, targets.drop_last(), bound);
    }
}

proof fn lemma_drawn_below(pool: Seq<usize>, picks: Seq<usize>, bound: int)
    requires
        drawn_from(pool, picks),
        forall|i: int| 0 <= i < pool.len() ==> pool[i] < bound,
    ensures
        forall|j: int| 0 <= j < picks.len() ==> picks[j] < bound,
{
    let pos = choose|pos: Seq<int>|
        {
            &&& pos.len() == picks.len()
            &&& forall|j: int|
                0 <= j < pos.len() ==> 0 <= #[trigger] pos[j] < pool.len() && picks[j] == pool[pos[j]]
            &&& forall|i: int, j: int| 0 <= i < j < pos.len() ==> pos[i] != pos[j]
        };
    assert forall|j: int| 0 <= j < picks.len() implies picks[j] < bound by {
        assert(0 <= pos[j] < pool.len());
    }
}

proof fn lemma_trace_extend(m: nat, rounds: Seq<Seq<usize>>, next: Seq<usize>)
    requires
        is_trace(m, rounds),
        rounds.len() >= 1,
        next.len() == m,
        drawn_from(pool_after(m, rounds), next),
    ensures
        is_trace(m, rounds.push(next)),
{
    let longer = rounds.push(next);
    assert forall|k: int| 1 <= k < longer.len() implies (#[trigger] longer[k]).len() == m
        && drawn_from(pool_after(m, longer.take(k)), longer[k]) by {
        if k < rounds.len() {
            assert(longer.take(k) =~= rounds.take(k));
        } else {
            assert(longer.take(k) =~= rounds);
        }
    }
}

proof fn lemma_trace_prefix(m: nat, rounds: Seq<Seq<usize>>, len: int)
    requires
        is_trace(m, rounds),
        0 <= len <= rounds.len(),
    ensures
        is_trace(m, rounds.take(len)),
{
    let shorter = rounds.take(len);
    assert forall|k: int| 1 <= k < shorter.len() implies (#[trigger] shorter[k]).len() == m
        && drawn_from(pool_after(m, shorter.take(k)), shorter[k]) by {
        assert(shorter.take(k) =~= rounds.take(k));
        assert(rounds[k] == shorter[k]);
    }
}

/// Adds one node and joins it to each of `targets`, in order, recording both
/// endpoints of every new edge in `repeated_nodes`. Returns the new node.
pub fn attach_new_node(g: &mut Graph, repeated_nodes: &mut Vec<usize>, targets: &Vec<usize>) -> (node: usize)
    requires
        old(g).wf(),
        forall|j: int| 0 <= j < targets@.len() ==> targets@[j] < old(g).nodes@.len(),
    ensures
        node == old(g).nodes@.len(),
        final(g).wf(),
        final(g).nodes@ == old(g).nodes@.push(node),
        final(g).edges@ == old(g).edges@ + fan_out(node, targets@),
        final(repeated_nodes)@ == old(repeated_nodes)@ + endpoints(node, targets@),
{
    let ghost edges0 = g.edges@;
    let ghost pool0 = repeated_nodes@;
    let node = g.add_node();
    let mut j: usize = 0;
    while j < targets.len()
        invariant
            g.wf(),
            node < g.nodes@.len(),
            g.nodes@ == old(g).nodes@.push(node),
            forall|i: int| 0 <= i < targets@.len() ==> targets@[i] < g.nodes@.len(),
            j <= targets@.len(),
            g.edges@ == edges0 + fan_out(node, targets@.take(j as int)),
            repeated_nodes@ == pool0 + endpoints(node, targets@.take(j as int)),
        decreases targets@.len() - j,
    {
        let target = targets[j];
        g.add_edge((node, target));
        repeated_nodes.push(target);
        repeated_nodes.push(node);
        proof {
            let t = targets@.take(j as int + 1);
            assert(t.drop_last() =~= targets@.take(j as int));
            assert(fan_out(node, t) =~= fan_out(node, t.drop_last()).push((node, target)));
            assert(g.edges@ =~= edges0 + fan_out(node, t));
            assert(repeated_nodes@ =~= pool0 + endpoints(node, t));
        }
        j = j + 1;
    }
    assert(targets@.take(targets@.len() as int) =~= targets@);
    node
}

/// Generates a scale-free graph of `n` nodes after the Barabási–Albert
/// model: `m` initial nodes, then each new node links to `m` targets drawn
/// from the pool of edge endpoints, so that a node is picked in proportion
/// to its degree.
pub fn barabasi_albert_graph<R: rand::Rng>(rng: &mut R, n: usize, m: usize) -> (g: Graph)
    requires
        n > m,
        m >= 1,
    ensures
        g.wf(),
        g.nodes@ == node_ids(n as nat),
        g.edges@.len() == (n - m) * m,
        forall|i: int|
            0 <= i < g.edges@.len() ==> m <= (#[trigger] g.edges@[i]).0 < n && g.edges@[i].1
                < g.edges@[i].0,
        forall|j: int| 0 <= j < m ==> #[trigger] g.edges@[j] == (m, j as usize),
        exists|rounds: Seq<Seq<usize>>|
            {
                &&& rounds.len() == n - m
                &&& is_trace(m as nat, rounds)
                &&& g.edges@ == edges_after(m as nat, rounds)
            },
{
    let mut g = Graph::new();
    let mut repeated_nodes: Vec<usize> = Vec::new();
    let mut targets: Vec<usize> = Vec::new();
    let mut created: usize = 0;
    while created < m
        invariant
            created <= m,
            g.wf(),
            g.nodes@ == node_ids(created as nat),
            g.edges@ == Seq::<(usize, usize)>::empty(),
            targets@ == node_ids(created as nat),
        decreases m - created,
    {
        targets.push(g.add_node());
        created = created + 1;
        assert(targets@ =~= node_ids(created as nat));
    }
    assert(g.edges@ =~= edges_after(m as nat, Seq::empty()));
    assert(repeated_nodes@ =~= pool_after(m as nat, Seq::empty()));
    let ghost mut rounds: Seq<Seq<usize>> = Seq::empty();
    assert(is_trace(m as nat, rounds.push(targets@)));
    let mut k: usize = m;
    while k < n
        invariant
            m <= k <= n,
            g.wf(),
            g.nodes@ == node_ids(k as nat),
            rounds.len() == k - m,
            g.edges@ == edges_after(m as nat, rounds),
            g.edges@.len() == (k - m) * m,
            forall|i: int|
                0 <= i < g.edges@.len() ==> m <= (#[trigger] g.edges@[i]).0 < k && g.edges@[i].1
                    < g.edges@[i].0,
            k > m ==> forall|j: int| 0 <= j < m ==> #[trigger] g.edges@[j] == (m, j as usize),
            repeated_nodes@ == pool_after(m as nat, rounds),
            forall|i: int| 0 <= i < repeated_nodes@.len() ==> repeated_nodes@[i] < k,
            is_trace(m as nat, rounds.push(targets@)),
            targets@.len() == m,
            forall|j: int| 0 <= j < targets@.len() ==> targets@[j] < k,
        decreases n - k,
    {
        let ghost edges0 = g.edges@;
        let node = attach_new_node(&mut g, &mut repeated_nodes, &targets);
        proof {
            assert((k + 1 - m) * m == (k - m) * m + m) by (nonlinear_arith);
            assert forall|i: int| 0 <= i < g.edges@.len() implies m <= (#[trigger] g.edges@[i]).0
                < k + 1 && g.edges@[i].1 < g.edges@[i].0 by {
                if i >= edges0.len() {
                    assert(targets@[i - edges0.len()] < k);
                }
            }
            if k == m {
                assert(rounds.push(targets@)[0] == targets@);
                assert forall|j: int| 0 <= j < m implies #[trigger] g.edges@[j] == (m, j as usize) by {
                    assert(targets@[j] == j as usize);
                }
            }
            lemma_endpoints(node, targets@, k + 1);
            let next = rounds.push(targets@);
            assert(next.drop_last() =~= rounds);
            rounds = next;
            assert(g.nodes@ =~= node_ids(k as nat + 1));
        }
        targets = sample_entries(rng, &repeated_nodes, m);
        proof {
            lemma_drawn_below(repeated_nodes@, targets@, k + 1);
            lemma_trace_extend(m as nat, rounds, targets@);
        }
        k = k + 1;
    }
    proof {
        assert(rounds.push(targets@).take(rounds.len() as int) =~= rounds);
        lemma_trace_prefix(m as nat, rounds.push(targets@), rounds.len() as int);
    }
    g
}

/// How many of `edges` leave `v`.
pub open spec fn out_degree(edges: Seq<(usize, usize)>, v: usize) -> nat {
    edges.filter(|e: (usize, usize)| e.0 == v).len()
}

/// How many of `edges` enter `v`.
pub open spec fn in_degree(edges: Seq<(usize, usize)>, v: usize) -> nat {
    edges.filter(|e: (usize, usize)| e.1 == v).len()
}

/// The same draws give the same graph: two runs whose later rounds drew the
/// same targets have the same edges, in the same order, and the same pool.
pub proof fn lemma_same_draws_same_graph(m: nat, a: Seq<Seq<usize>>, b: Seq<Seq<usize>>)
    requires
        is_trace(m, a),
        is_trace(m, b),
        a.len() == b.len(),
        a.len() >= 1,
        a.drop_first() == b.drop_first(),
    ensures
        edges_after(m, a) == edges_after(m, b),
        pool_after(m, a) == pool_after(m, b),
{
    assert forall|k: int| 0 <= k < a.len() implies a[k] == b[k] by {
        if k > 0 {
            assert(a[k] == a.drop_first()[k - 1]);
            assert(b[k] == b.drop_first()[k - 1]);
        }
    }
    assert(a =~= b);
}

/// Generation only appends edges: the edges after the first `k` rounds are a
/// prefix of the edges after all of them.
pub proof fn lemma_edges_grow(m: nat, rounds: Seq<Seq<usize>>, k: int)
    requires
        0 <= k <= rounds.len(),
    ensures
        edges_after(m, rounds.take(k)).len() <= edges_after(m, rounds).len(),
        edges_after(m, rounds).take(edges_after(m, rounds.take(k)).len() as int) == edges_after(
            m,
            rounds.take(k),
        ),
    decreases rounds.len(),
{
    if k == rounds.len() {
        assert(rounds.take(k) =~= rounds);
        assert(edges_after(m, rounds).take(edges_after(m, rounds).len() as int) =~= edges_after(
            m,
            rounds,
        ));
    } else {
        let shorter = rounds.drop_last();
        lemma_edges_grow(m, shorter, k);
        assert(shorter.take(k) =~= rounds.take(k));
        let whole = edges_after(m, rounds);
        let part = edges_after(m, rounds.take(k));
        assert(whole.take(part.len() as int) =~= edges_after(m, shorter).take(part.len() as int));
    }
}

/// No node loses degree as generation goes on: a node's out- and in-degree
/// after the first `k` rounds are at most its degrees after all of them.
pub proof fn lemma_degrees_grow(m: nat, rounds: Seq<Seq<usize>>, k: int, v: usize)
    requires
        0 <= k <= rounds.len(),
    ensures
        out_degree(edges_after(m, rounds.take(k)), v) <= out_degree(edges_after(m, rounds), v),
        in_degree(edges_after(m, rounds.take(k)), v) <= in_degree(edges_after(m, rounds), v),
{
    lemma_edges_grow(m, rounds, k);
    let whole = edges_after(m, rounds);
    let part = edges_after(m, rounds.take(k));
    let rest = whole.skip(part.len() as int);
    assert(whole =~= part + rest);
    let leaves = |e: (usize, usize)| e.0 == v;
    let enters = |e: (usize, usize)| e.1 == v;
    Seq::filter_distributes_over_add(part, rest, leaves);
    Seq::filter_distributes_over_add(part, rest, enters);
}

/// With a single round, the one new node `m` links to every initial node,
/// in order, and nothing else is linked.
pub proof fn lemma_minimum_case(m: usize, rounds: Seq<Seq<usize>>)
    requires
        m >= 1,
        is_trace(m as nat, rounds),
        rounds.len() == 1,
    ensures
        edges_after(m as nat, rounds) == fan_out(m, node_ids(m as nat)),
        edges_after(m as nat, rounds).len() == m,
        forall|j: int|
            0 <= j < m ==> #[trigger] edges_after(m as nat, rounds)[j] == (m, j as usize),
{
    assert(rounds.drop_last() =~= Seq::<Seq<usize>>::empty());
    assert(rounds.last() == node_ids(m as nat));
    assert(round_node(m as nat, 0) == m);
    assert(edges_after(m as nat, rounds.drop_last()) =~= Seq::<(usize, usize)>::empty());
    assert(edges_after(m as nat, rounds) == edges_after(m as nat, rounds.drop_last()) + fan_out(
        m,
        node_ids(m as nat),
    ));
    assert(edges_after(m as nat, rounds) =~= fan_out(m, node_ids(m as nat)));
}

} // verus!
