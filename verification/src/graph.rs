//! The blocking subgraph: reachability along Blocks and ParentChild edges,
//! acyclicity, and the traversal that guards edge insertion.

use vstd::prelude::*;

use crate::text::str_eq;
use crate::types::{Edge, EdgeView};

verus! {

/// A live blocking edge from `a` to `b`.
pub open spec fn blocking_edge(edges: Seq<EdgeView>, a: Seq<char>, b: Seq<char>) -> bool {
    exists|k: int|
        0 <= k < edges.len() && (#[trigger] edges[k]).kind.spec_is_blocking() && edges[k].from_id
            == a && edges[k].to_id == b
}

/// A walk along blocking edges.
pub open spec fn is_path(edges: Seq<EdgeView>, p: Seq<Seq<char>>) -> bool {
    p.len() >= 1 && forall|i: int|
        0 <= i < p.len() - 1 ==> blocking_edge(edges, #[trigger] p[i], p[i + 1])
}

/// `b` can be reached from `a` along blocking edges; every node reaches
/// itself.
pub open spec fn reaches(edges: Seq<EdgeView>, a: Seq<char>, b: Seq<char>) -> bool {
    exists|p: Seq<Seq<char>>| #[trigger] is_path(edges, p) && p.first() == a && p.last() == b
}

/// No closed walk of positive length: the blocking subgraph is a DAG.
pub open spec fn acyclic(edges: Seq<EdgeView>) -> bool {
    forall|p: Seq<Seq<char>>| #[trigger] is_path(edges, p) && p.len() >= 2 ==> p.first() != p.last()
}

/// Every path of a graph whose blocking edges all stand in another graph
/// is a path of the other graph.
pub proof fn lemma_path_transfer(e1: Seq<EdgeView>, e2: Seq<EdgeView>, p: Seq<Seq<char>>)
    requires
        is_path(e1, p),
        forall|a: Seq<char>, b: Seq<char>| #[trigger] blocking_edge(e1, a, b) ==> blocking_edge(
            e2,
            a,
            b,
        ),
    ensures
        is_path(e2, p),
{
}

/// The blocking relation is unchanged when an edge is replaced by one with
/// the same triple, and only shrinks when an edge is removed.
pub proof fn lemma_blocking_subrelation(e1: Seq<EdgeView>, e2: Seq<EdgeView>)
    requires
        forall|k: int| 0 <= k < e1.len() ==> exists|j: int|
            0 <= j < e2.len() && e2[j].from_id == (#[trigger] e1[k]).from_id && e2[j].to_id
                == e1[k].to_id && e2[j].kind == e1[k].kind,
    ensures
        forall|a: Seq<char>, b: Seq<char>| #[trigger] blocking_edge(e1, a, b) ==> blocking_edge(
            e2,
            a,
            b,
        ),
{
    assert forall|a: Seq<char>, b: Seq<char>| #[trigger] blocking_edge(e1, a, b) implies
        blocking_edge(e2, a, b) by {
        let k = choose|k: int|
            0 <= k < e1.len() && (#[trigger] e1[k]).kind.spec_is_blocking() && e1[k].from_id == a
                && e1[k].to_id == b;
        let j = choose|j: int|
            0 <= j < e2.len() && e2[j].from_id == e1[k].from_id && e2[j].to_id == e1[k].to_id
                && e2[j].kind == e1[k].kind;
        assert(0 <= j < e2.len() && e2[j].kind.spec_is_blocking() && e2[j].from_id == a
            && e2[j].to_id == b);
    }
}

/// Acyclicity survives any change that does not add blocking pairs.
pub proof fn lemma_acyclic_transfer(e1: Seq<EdgeView>, e2: Seq<EdgeView>)
    requires
        acyclic(e2),
        forall|a: Seq<char>, b: Seq<char>| #[trigger] blocking_edge(e1, a, b) ==> blocking_edge(
            e2,
            a,
            b,
        ),
    ensures
        acyclic(e1),
{
    assert forall|p: Seq<Seq<char>>| #[trigger] is_path(e1, p) && p.len() >= 2 implies p.first()
        != p.last() by {
        lemma_path_transfer(e1, e2, p);
    }
}

/// A walk that begins in a set closed under blocking edges ends in it.
pub proof fn lemma_path_stays(edges: Seq<EdgeView>, s: Set<Seq<char>>, p: Seq<Seq<char>>)
    requires
        is_path(edges, p),
        s.contains(p.first()),
        forall|a: Seq<char>, b: Seq<char>| s.contains(a) && #[trigger] blocking_edge(edges, a, b)
            ==> s.contains(b),
    ensures
        s.contains(p.last()),
    decreases p.len(),
{
    if p.len() > 1 {
        let q = p.drop_last();
        assert(is_path(edges, q)) by {
            assert(forall|i: int| 0 <= i < q.len() - 1 ==> #[trigger] q[i] == p[i] && q[i + 1]
                == p[i + 1]);
        }
        lemma_path_stays(edges, s, q);
        assert(blocking_edge(edges, p[p.len() - 2], p[p.len() - 1]));
        assert(q.last() == p[p.len() - 2]);
    }
}

/// From a node of a closed set no node outside the set can be reached.
pub proof fn lemma_closed_no_reach(
    edges: Seq<EdgeView>,
    s: Set<Seq<char>>,
    a: Seq<char>,
    b: Seq<char>,
)
    requires
        s.contains(a),
        !s.contains(b),
        forall|x: Seq<char>, y: Seq<char>| s.contains(x) && #[trigger] blocking_edge(edges, x, y)
            ==> s.contains(y),
    ensures
        !reaches(edges, a, b),
{
    if reaches(edges, a, b) {
        let p = choose|p: Seq<Seq<char>>|
            #[trigger] is_path(edges, p) && p.first() == a && p.last() == b;
        lemma_path_stays(edges, s, p);
    }
}

/// Walks concatenate.
pub proof fn lemma_reaches_concat(edges: Seq<EdgeView>, a: Seq<char>, b: Seq<char>, c: Seq<char>)
    requires
        reaches(edges, a, b),
        reaches(edges, b, c),
    ensures
        reaches(edges, a, c),
{
    let p1 = choose|p: Seq<Seq<char>>|
        #[trigger] is_path(edges, p) && p.first() == a && p.last() == b;
    let p2 = choose|p: Seq<Seq<char>>|
        #[trigger] is_path(edges, p) && p.first() == b && p.last() == c;
    let p = p1 + p2.drop_first();
    assert(p.len() == p1.len() + p2.len() - 1);
    assert(p.first() == a);
    assert(p.last() == c) by {
        if p2.len() == 1 {
            assert(p =~= p1);
        } else {
            assert(p.last() == p2.drop_first().last());
            assert(p2.drop_first().last() == p2.last());
        }
    }
    assert forall|i: int| 0 <= i < p.len() - 1 implies blocking_edge(edges, #[trigger] p[i], p[i
        + 1]) by {
        if i < p1.len() - 1 {
            assert(p[i] == p1[i] && p[i + 1] == p1[i + 1]);
        } else if i == p1.len() - 1 {
            assert(p[i] == p1.last());
            assert(p[i + 1] == p2.drop_first()[0]);
            assert(p2.drop_first()[0] == p2[1]);
            assert(blocking_edge(edges, p2[0], p2[1]));
        } else {
            let j = i - p1.len();
            assert(p[i] == p2.drop_first()[j]);
            assert(p[i + 1] == p2.drop_first()[j + 1]);
            assert(p2.drop_first()[j] == p2[j + 1]);
            assert(p2.drop_first()[j + 1] == p2[j + 2]);
            assert(blocking_edge(edges, p2[j + 1], p2[j + 2]));
        }
    }
    assert(is_path(edges, p));
}

/// One more blocking step extends a walk.
pub proof fn lemma_reaches_step(edges: Seq<EdgeView>, a: Seq<char>, b: Seq<char>, c: Seq<char>)
    requires
        reaches(edges, a, b),
        blocking_edge(edges, b, c),
    ensures
        reaches(edges, a, c),
{
    let p2 = seq![b, c];
    assert(is_path(edges, p2)) by {
        assert(p2[0] == b && p2[1] == c);
    }
    assert(p2.first() == b && p2.last() == c);
    assert(reaches(edges, b, c));
    lemma_reaches_concat(edges, a, b, c);
}

/// Every node reaches itself.
pub proof fn lemma_reaches_self(edges: Seq<EdgeView>, a: Seq<char>)
    ensures
        reaches(edges, a, a),
{
    let p = seq![a];
    assert(is_path(edges, p));
    assert(p.first() == a && p.last() == a);
}

/// A path of a graph with one more edge either avoids the new edge, or
/// passes through it: then the old graph reaches the new edge's source
/// from the path's start and the path's end from the new edge's target.
pub proof fn lemma_path_decompose(edges: Seq<EdgeView>, e: EdgeView, p: Seq<Seq<char>>)
    requires
        is_path(edges.push(e), p),
    ensures
        is_path(edges, p) || (reaches(edges, p.first(), e.from_id) && reaches(
            edges,
            e.to_id,
            p.last(),
        )),
    decreases p.len(),
{
    let xp = edges.push(e);
    if p.len() == 1 {
        assert(is_path(edges, p));
    } else {
        let q = p.drop_last();
        assert(is_path(xp, q)) by {
            assert(forall|i: int| 0 <= i < q.len() - 1 ==> #[trigger] q[i] == p[i] && q[i + 1]
                == p[i + 1]);
        }
        lemma_path_decompose(edges, e, q);
        let x = p[p.len() - 2];
        let y = p[p.len() - 1];
        assert(blocking_edge(xp, x, y));
        assert(q.last() == x && q.first() == p.first());
        let k = choose|k: int|
            0 <= k < xp.len() && (#[trigger] xp[k]).kind.spec_is_blocking() && xp[k].from_id == x
                && xp[k].to_id == y;
        if k < edges.len() {
            assert(blocking_edge(edges, x, y)) by {
                assert(xp[k] == edges[k]);
            }
            if is_path(edges, q) {
                assert(is_path(edges, p)) by {
                    assert forall|i: int| 0 <= i < p.len() - 1 implies blocking_edge(
                        edges,
                        #[trigger] p[i],
                        p[i + 1],
                    ) by {
                        if i < q.len() - 1 {
                            assert(q[i] == p[i] && q[i + 1] == p[i + 1]);
                            assert(blocking_edge(edges, q[i], q[i + 1]));
                        }
                    }
                }
            } else {
                lemma_reaches_step(edges, e.to_id, x, y);
            }
        } else {
            assert(xp[k] == e);
            assert(x == e.from_id && y == e.to_id);
            if is_path(edges, q) {
                assert(reaches(edges, p.first(), e.from_id));
            }
            lemma_reaches_self(edges, e.to_id);
            assert(y == p.last());
        }
    }
}

/// Adding an edge whose target does not reach back to its source keeps the
/// blocking subgraph acyclic.
pub proof fn lemma_acyclic_push(edges: Seq<EdgeView>, e: EdgeView)
    requires
        acyclic(edges),
        e.kind.spec_is_blocking() ==> !reaches(edges, e.to_id, e.from_id) && e.from_id != e.to_id,
    ensures
        acyclic(edges.push(e)),
{
    let xp = edges.push(e);
    if !e.kind.spec_is_blocking() {
        assert forall|a: Seq<char>, b: Seq<char>| #[trigger] blocking_edge(xp, a, b) implies
            blocking_edge(edges, a, b) by {
            let k = choose|k: int|
                0 <= k < xp.len() && (#[trigger] xp[k]).kind.spec_is_blocking() && xp[k].from_id
                    == a && xp[k].to_id == b;
            assert(k < edges.len());
            assert(edges[k] == xp[k]);
        }
        lemma_acyclic_transfer(xp, edges);
    } else {
        assert forall|p: Seq<Seq<char>>| #[trigger] is_path(xp, p) && p.len() >= 2 implies
            p.first() != p.last() by {
            if p.first() == p.last() {
                lemma_path_decompose(edges, e, p);
                if is_path(edges, p) {
                    assert(false);
                } else {
                    assert(reaches(edges, p.first(), e.from_id));
                    assert(reaches(edges, e.to_id, p.last()));
                    lemma_reaches_concat(edges, e.to_id, p.last(), e.from_id);
                    assert(false);
                }
            }
        }
    }
}


/// The endpoints named by a sequence of edges.
pub open spec fn node_seq(es: Seq<EdgeView>) -> Seq<Seq<char>>
    decreases es.len(),
{
    if es.len() == 0 {
        Seq::empty()
    } else {
        node_seq(es.drop_last()) + seq![es.last().from_id, es.last().to_id]
    }
}

pub proof fn lemma_node_seq(es: Seq<EdgeView>)
    ensures
        node_seq(es).len() == 2 * es.len(),
        forall|k: int| 0 <= k < es.len() ==> node_seq(es).contains((#[trigger] es[k]).from_id)
            && node_seq(es).contains(es[k].to_id),
    decreases es.len(),
{
    if es.len() > 0 {
        lemma_node_seq(es.drop_last());
        let pre = node_seq(es.drop_last());
        let whole = node_seq(es);
        assert(whole == pre + seq![es.last().from_id, es.last().to_id]);
        assert forall|k: int| 0 <= k < es.len() implies whole.contains(
            (#[trigger] es[k]).from_id,
        ) && whole.contains(es[k].to_id) by {
            if k < es.len() - 1 {
                assert(es.drop_last()[k] == es[k]);
                let i = choose|i: int| 0 <= i < pre.len() && pre[i] == es[k].from_id;
                assert(whole[i] == es[k].from_id);
                let j = choose|i: int| 0 <= i < pre.len() && pre[i] == es[k].to_id;
                assert(whole[j] == es[k].to_id);
            } else {
                assert(whole[pre.len() as int] == es[k].from_id);
                assert(whole[pre.len() as int + 1] == es[k].to_id);
            }
        }
    }
}

fn contains_str(v: &Vec<String>, x: &str) -> (r: bool)
    ensures
        r == v.deep_view().contains(x@),
{
    let mut i: usize = 0;
    while i < v.len()
        invariant
            i <= v@.len(),
            forall|j: int| 0 <= j < i ==> v.deep_view()[j] != x@,
        decreases v@.len() - i,
    {
        if str_eq(v[i].as_str(), x) {
            proof {
                assert(v.deep_view()[i as int] == x@);
            }
            return true;
        }
        i = i + 1;
    }
    proof {
        if v.deep_view().contains(x@) {
            let j = choose|j: int| 0 <= j < v.deep_view().len() && v.deep_view()[j] == x@;
            assert(v.deep_view()[j] != x@);
        }
    }
    false
}

proof fn lemma_push_contains(s: Seq<Seq<char>>, x: Seq<char>, y: Seq<char>)
    requires
        s.contains(y),
    ensures
        s.push(x).contains(y),
{
    let i = choose|i: int| 0 <= i < s.len() && s[i] == y;
    assert(s.push(x)[i] == y);
}

proof fn lemma_drop_last_contains(s: Seq<Seq<char>>, y: Seq<char>)
    requires
        s.contains(y),
        s.len() >= 1,
        s.last() != y,
    ensures
        s.drop_last().contains(y),
{
    let i = choose|i: int| 0 <= i < s.len() && s[i] == y;
    assert(i < s.len() - 1);
    assert(s.drop_last()[i] == y);
}

/// Whether `target` can be reached from `start` along the live blocking
/// edges: a depth-first traversal of the blocking subgraph.
#[verifier::rlimit(100)]
pub fn reaches_exec(edges: &Vec<Edge>, start: &str, target: &str) -> (r: bool)
    ensures
        r == reaches(edges.deep_view(), start@, target@),
{
    let ghost es = edges.deep_view();
    let ghost universe = node_seq(es).to_set().insert(start@);
    proof {
        lemma_node_seq(es);
        node_seq(es).lemma_cardinality_of_set();
        assert(universe.len() <= 2 * es.len() + 1);
        assert(universe.finite());
    }
    let mut visited: Vec<String> = Vec::new();
    let mut stack: Vec<String> = Vec::new();
    stack.push(start.to_owned());
    proof {
        lemma_reaches_self(es, start@);
        assert(stack.deep_view() =~= seq![start@]);
        assert(stack.deep_view()[0] == start@);
    }
    loop
        invariant_except_break
            es == edges.deep_view(),
            universe == node_seq(es).to_set().insert(start@),
            universe.finite(),
            universe.len() <= 2 * es.len() + 1,
            visited.deep_view().no_duplicates(),
            forall|j: int| 0 <= j < visited.deep_view().len() ==> universe.contains(
                #[trigger] visited.deep_view()[j],
            ),
            visited@.len() == visited.deep_view().len(),
            visited@.len() <= universe.len(),
            forall|j: int| 0 <= j < stack.deep_view().len() ==> reaches(
                es,
                start@,
                #[trigger] stack.deep_view()[j],
            ),
            forall|j: int| 0 <= j < stack.deep_view().len() ==> universe.contains(
                #[trigger] stack.deep_view()[j],
            ),
            forall|j: int| 0 <= j < visited.deep_view().len() ==> reaches(
                es,
                start@,
                #[trigger] visited.deep_view()[j],
            ),
            forall|x: Seq<char>, y: Seq<char>| visited.deep_view().contains(x)
                && #[trigger] blocking_edge(es, x, y) ==> visited.deep_view().contains(y)
                || stack.deep_view().contains(y),
            visited.deep_view().contains(start@) || stack.deep_view().contains(start@),
            !visited.deep_view().contains(target@),
        ensures
            !reaches(es, start@, target@),
        decreases 2 * es.len() + 1 - visited@.len(), stack@.len(),
    {
        let ghost pre_pop = stack.deep_view();
        let node = match stack.pop() {
            Some(n) => n,
            None => {
                proof {
                    let vs = visited.deep_view().to_set();
                    assert(vs.contains(start@)) by {
                        assert(visited.deep_view().contains(start@));
                    }
                    assert forall|x: Seq<char>, y: Seq<char>|
                        vs.contains(x) && #[trigger] blocking_edge(es, x, y) implies vs.contains(
                        y,
                    ) by {
                        assert(visited.deep_view().contains(x));
                        assert(visited.deep_view().contains(y) || stack.deep_view().contains(y));
                        assert(stack.deep_view().len() == 0);
                    }
                    assert(!vs.contains(target@));
                    lemma_closed_no_reach(es, vs, start@, target@);
                }
                break ;
            },
        };
        proof {
            assert(stack.deep_view() =~= pre_pop.drop_last());
            assert(node@ == pre_pop.last());
            assert(reaches(es, start@, node@)) by {
                assert(pre_pop[pre_pop.len() - 1] == node@);
            }
        }
        if str_eq(node.as_str(), target) {
            return true;
        }
        if !contains_str(&visited, node.as_str()) {
            let ghost pre_visited = visited.deep_view();
            visited.push(node.clone());
            proof {
                assert(visited.deep_view() =~= pre_visited.push(node@));
                assert(visited.deep_view().no_duplicates()) by {
                    assert(!pre_visited.contains(node@));
                }
                assert(universe.contains(node@)) by {
                    assert(pre_pop[pre_pop.len() - 1] == node@);
                }
                assert(visited@.len() <= universe.len()) by {
                    visited.deep_view().unique_seq_to_set();
                    assert forall|x: Seq<char>| visited.deep_view().to_set().contains(x) implies
                        universe.contains(x) by {
                        assert(visited.deep_view().contains(x));
                    }
                    vstd::set_lib::lemma_len_subset(visited.deep_view().to_set(), universe);
                }
            }
            let ghost base_stack = stack.deep_view();
            let mut k: usize = 0;
            while k < edges.len()
                invariant
                    es == edges.deep_view(),
                    universe == node_seq(es).to_set().insert(start@),
                    k <= es.len(),
                    reaches(es, start@, node@),
                    forall|j: int| 0 <= j < stack.deep_view().len() ==> reaches(
                        es,
                        start@,
                        #[trigger] stack.deep_view()[j],
                    ),
                    forall|j: int| 0 <= j < stack.deep_view().len() ==> universe.contains(
                        #[trigger] stack.deep_view()[j],
                    ),
                    forall|y: Seq<char>| base_stack.contains(y)
                        ==> stack.deep_view().contains(y),
                    forall|j: int|
                        0 <= j < k && (#[trigger] es[j]).kind.spec_is_blocking() && es[j].from_id
                            == node@ ==> stack.deep_view().contains(es[j].to_id),
                decreases es.len() - k,
            {
                let e = &edges[k];
                proof {
                    assert(es[k as int] == edges@[k as int]@);
                }
                if e.kind.is_blocking() && str_eq(e.from_id.as_str(), node.as_str()) {
                    let ghost pre_stack = stack.deep_view();
                    stack.push(e.to_id.clone());
                    proof {
                        assert(stack.deep_view() =~= pre_stack.push(es[k as int].to_id));
                        assert(blocking_edge(es, node@, es[k as int].to_id));
                        lemma_reaches_step(es, start@, node@, es[k as int].to_id);
                        assert(universe.contains(es[k as int].to_id)) by {
                            broadcast use vstd::set::group_set_axioms;

                            lemma_node_seq(es);
                            assert(node_seq(es).contains(es[k as int].to_id));
                            assert(node_seq(es).to_set().contains(es[k as int].to_id));
                        }
                        assert forall|y: Seq<char>| base_stack.contains(y) implies
                            stack.deep_view().contains(y) by {
                            lemma_push_contains(pre_stack, es[k as int].to_id, y);
                        }
                        assert forall|j: int|
                            0 <= j < k + 1 && (#[trigger] es[j]).kind.spec_is_blocking()
                                && es[j].from_id == node@ implies stack.deep_view().contains(
                            es[j].to_id,
                        ) by {
                            if j < k {
                                lemma_push_contains(pre_stack, es[k as int].to_id, es[j].to_id);
                            } else {
                                assert(stack.deep_view()[pre_stack.len() as int] == es[
                                    k as int].to_id);
                            }
                        }
                    }
                }
                k = k + 1;
            }
            proof {
                assert forall|x: Seq<char>, y: Seq<char>|
                    visited.deep_view().contains(x) && #[trigger] blocking_edge(
                    es,
                    x,
                    y,
                ) implies visited.deep_view().contains(y) || stack.deep_view().contains(y) by {
                    if x == node@ {
                        let kk = choose|kk: int|
                            0 <= kk < es.len() && (#[trigger] es[kk]).kind.spec_is_blocking()
                                && es[kk].from_id == x && es[kk].to_id == y;
                        assert(stack.deep_view().contains(es[kk].to_id));
                    } else {
                        assert(pre_visited.contains(x)) by {
                            let i = choose|i: int|
                                0 <= i < visited.deep_view().len() && visited.deep_view()[i] == x;
                            assert(i < pre_visited.len());
                            assert(pre_visited[i] == x);
                        }
                        assert(pre_visited.contains(y) || pre_pop.contains(y));
                        if pre_visited.contains(y) {
                            lemma_push_contains(pre_visited, node@, y);
                        } else {
                            if y == node@ {
                                assert(visited.deep_view().last() == node@);
                            } else {
                                lemma_drop_last_contains(pre_pop, y);
                                assert(base_stack.contains(y));
                            }
                        }
                    }
                }
                assert(visited.deep_view().contains(start@) || stack.deep_view().contains(start@))
                    by {
                    if pre_visited.contains(start@) {
                        lemma_push_contains(pre_visited, node@, start@);
                    } else {
                        assert(pre_pop.contains(start@));
                        if start@ == node@ {
                            assert(visited.deep_view().last() == node@);
                        } else {
                            lemma_drop_last_contains(pre_pop, start@);
                            assert(base_stack.contains(start@));
                        }
                    }
                }
                assert(!visited.deep_view().contains(target@)) by {
                    if visited.deep_view().contains(target@) {
                        let i = choose|i: int|
                            0 <= i < visited.deep_view().len() && visited.deep_view()[i] == target@;
                        if i < pre_visited.len() {
                            assert(pre_visited[i] == target@);
                        } else {
                            assert(node@ == target@);
                        }
                    }
                }
            }
        } else {
            proof {
                assert forall|x: Seq<char>, y: Seq<char>|
                    visited.deep_view().contains(x) && #[trigger] blocking_edge(
                    es,
                    x,
                    y,
                ) implies visited.deep_view().contains(y) || stack.deep_view().contains(y) by {
                    assert(visited.deep_view().contains(y) || pre_pop.contains(y));
                    if !visited.deep_view().contains(y) {
                        if y == node@ {
                            assert(visited.deep_view().contains(node@));
                        } else {
                            lemma_drop_last_contains(pre_pop, y);
                        }
                    }
                }
                assert(visited.deep_view().contains(start@) || stack.deep_view().contains(start@))
                    by {
                    if !visited.deep_view().contains(start@) {
                        assert(pre_pop.contains(start@));
                        if start@ == node@ {
                            assert(visited.deep_view().contains(node@));
                        } else {
                            lemma_drop_last_contains(pre_pop, start@);
                        }
                    }
                }
            }
        }
    }
    false
}

} // verus!
