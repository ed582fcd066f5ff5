//! Update of several leaves at once: the union of their paths to the root is
//! proved anew, level by level, and a shared ancestor only once.

use crate::hash::{digest_views, sha256_native, sha256_of};
use crate::hypernova_pcd::lcg::{ascending, lemma_ascending_unique};
use crate::hypernova_pcd::tree::{join, join_digests, lemma_bucket_splits, lemma_tree_size_pos,
    lemma_tree_size_splits, resize_bytes, resized, tree_size};
use vstd::arithmetic::div_mod::{lemma_div_denominator, lemma_fundamental_div_mod,
    lemma_fundamental_div_mod_converse, lemma_small_mod};
use vstd::prelude::*;
use vstd::set_lib::{lemma_int_range, set_int_range};

verus! {

/// A node whose digest is new.
#[derive(Clone, Copy, Debug)]
pub struct UpdatedNode {
    pub pos: usize,
    pub digest: [u8; 32],
}

/// Strictly ascending by position.
pub open spec fn in_order(s: Seq<UpdatedNode>) -> bool {
    forall|i: int, j: int| 0 <= i < j < s.len() ==> (#[trigger] s[i]).pos < (#[trigger] s[j]).pos
}

/// The row has a node at position `q`.
pub open spec fn has_pos(s: Seq<UpdatedNode>, q: int) -> bool {
    exists|i: int| 0 <= i < s.len() && (#[trigger] s[i]).pos == q
}

/// Digest of the node at position `q`: the new one if there is one.
pub open spec fn node_at(s: Seq<UpdatedNode>, unchanged: Seq<u8>, q: int) -> Seq<u8> {
    if has_pos(s, q) {
        s[choose|i: int| 0 <= i < s.len() && (#[trigger] s[i]).pos == q].digest@
    } else {
        unchanged
    }
}

/// In a row in order, a position has one digest.
pub proof fn lemma_node_at(s: Seq<UpdatedNode>, unchanged: Seq<u8>, i: int)
    requires
        in_order(s),
        0 <= i < s.len(),
    ensures
        has_pos(s, s[i].pos as int),
        node_at(s, unchanged, s[i].pos as int) == s[i].digest@,
{
    let q = s[i].pos as int;
    assert(has_pos(s, q));
    let j = choose|j: int| 0 <= j < s.len() && (#[trigger] s[j]).pos == q;
    if j < i {
        assert(s[j].pos < s[i].pos);
    } else if i < j {
        assert(s[i].pos < s[j].pos);
    }
}

/// The children of the node at position `p`, with the new digests where there
/// are any.
pub open spec fn children_at(
    s: Seq<UpdatedNode>,
    unchanged: Seq<u8>,
    mu: nat,
    p: int,
) -> Seq<Seq<u8>> {
    Seq::new(mu, |c: int| node_at(s, unchanged, p * mu + c))
}

/// The bytes that the node at position `p` hashes.
pub open spec fn bucket_at(
    s: Seq<UpdatedNode>,
    unchanged: Seq<u8>,
    w: nat,
    mu: nat,
    p: int,
) -> Seq<u8> {
    resized(join(children_at(s, unchanged, mu, p)), 32 * w)
}

/// Some child of the node at position `p` has a new digest.
pub open spec fn is_parent(s: Seq<UpdatedNode>, mu: nat, p: int) -> bool {
    exists|i: int| 0 <= i < s.len() && (#[trigger] s[i]).pos as int / mu as int == p
}

/// A node to merge anew.
pub struct MergeTask {
    pub pos: usize,
    /// Which children are new; the others are unchanged.
    pub fresh: Vec<bool>,
    /// Digest of the leftmost child.
    pub z: Vec<u8>,
    /// Padded digests of the other children.
    pub ext: Vec<u8>,
    /// Digest that the node is to have.
    pub native: [u8; 32],
}

/// What a task says of the node at its position.
pub open spec fn task_fits(
    t: MergeTask,
    s: Seq<UpdatedNode>,
    unchanged: Seq<u8>,
    w: nat,
    mu: nat,
) -> bool {
    &&& t.fresh@.len() == mu
    &&& forall|c: int| 0 <= c < mu ==> #[trigger] t.fresh@[c] == has_pos(s, t.pos * mu + c)
    &&& t.z@.len() == 32
    &&& t.z@ + t.ext@ == bucket_at(s, unchanged, w, mu, t.pos as int)
    &&& t.native@ == sha256_of(bucket_at(s, unchanged, w, mu, t.pos as int))
}

/// The task for the node at position `p`, whose first new child, if any, is the
/// one at `from` in the row.
fn merge_task(
    s: &Vec<UpdatedNode>,
    unchanged: &[u8; 32],
    w: usize,
    mu: usize,
    p: usize,
    from: usize,
) -> (out: (MergeTask, usize))
    requires
        in_order(s@),
        1 <= mu <= w,
        32 * w <= usize::MAX,
        p * mu + mu <= usize::MAX,
        from <= s@.len(),
        forall|i: int| 0 <= i < from ==> (#[trigger] s@[i]).pos < p * mu,
        forall|i: int| from <= i < s@.len() ==> p * mu <= (#[trigger] s@[i]).pos,
    ensures
        out.0.pos == p,
        task_fits(out.0, s@, unchanged@, w as nat, mu as nat),
        from <= out.1 <= s@.len(),
        forall|i: int| 0 <= i < out.1 ==> (#[trigger] s@[i]).pos < p * mu + mu,
        forall|i: int| out.1 <= i < s@.len() ==> p * mu + mu <= (#[trigger] s@[i]).pos,
{
    let first = p * mu;
    let mut at = from;
    let mut fresh: Vec<bool> = Vec::with_capacity(mu);
    let mut digests: Vec<[u8; 32]> = Vec::with_capacity(mu);
    for c in 0..mu
        invariant
            in_order(s@),
            first == p * mu,
            first + mu <= usize::MAX,
            from <= at <= s@.len(),
            forall|i: int| 0 <= i < at ==> (#[trigger] s@[i]).pos < first + c,
            forall|i: int| at <= i < s@.len() ==> first + c <= (#[trigger] s@[i]).pos,
            fresh@.len() == c,
            digests@.len() == c,
            forall|d: int| 0 <= d < c ==> #[trigger] fresh@[d] == has_pos(s@, first + d),
            forall|d: int|
                0 <= d < c ==> (#[trigger] digests@[d])@ == node_at(s@, unchanged@, first + d),
    {
        if at < s.len() && s[at].pos == first + c {
            proof {
                lemma_node_at(s@, unchanged@, at as int);
                assert forall|i: int| at < i < s@.len() implies first + c + 1 <= (
                #[trigger] s@[i]).pos by {
                    assert(s@[at as int].pos < s@[i].pos);
                }
            }
            fresh.push(true);
            digests.push(s[at].digest);
            at = at + 1;
        } else {
            proof {
                assert(!has_pos(s@, first + c)) by {
                    if has_pos(s@, first + c) {
                        let i = choose|i: int|
                            0 <= i < s@.len() && (#[trigger] s@[i]).pos == first + c;
                        if i > at {
                            assert(s@[at as int].pos < s@[i].pos);
                        }
                    }
                }
                assert forall|i: int| at <= i < s@.len() implies first + c + 1 <= (
                #[trigger] s@[i]).pos by {
                    assert(has_pos(s@, s@[i].pos as int));
                }
            }
            fresh.push(false);
            digests.push(*unchanged);
        }
    }
    let ghost parts = children_at(s@, unchanged@, mu as nat, p as int);
    assert(digest_views(digests@) =~= parts);
    let left = digests[0];
    let mut z: Vec<u8> = Vec::with_capacity(32);
    z.extend_from_slice(left.as_slice());
    let mut ext = join_digests(&digests, 1, mu);
    resize_bytes(&mut ext, 32 * (w - 1));
    proof {
        assert(parts[0] == left@);
        assert(z@ =~= left@);
        assert(parts.skip(1) =~= digest_views(digests@).subrange(1, mu as int));
        lemma_bucket_splits(parts, w as nat);
    }
    let mut bucket: Vec<u8> = Vec::with_capacity(32 * w);
    bucket.extend_from_slice(z.as_slice());
    bucket.extend_from_slice(ext.as_slice());
    assert(bucket@ =~= z@ + ext@);
    let native = sha256_native(bucket.as_slice());
    (MergeTask { pos: p, fresh, z, ext, native }, at)
}

/// The positions of a row of tasks.
pub open spec fn task_positions(tasks: Seq<MergeTask>) -> Seq<usize> {
    tasks.map_values(|t: MergeTask| t.pos)
}

/// The positions are those of the parents of new nodes, in ascending order.
pub open spec fn are_parents(ps: Seq<usize>, s: Seq<UpdatedNode>, mu: nat) -> bool {
    &&& ascending(ps)
    &&& forall|i: int| 0 <= i < ps.len() ==> is_parent(s, mu, #[trigger] ps[i] as int)
    &&& forall|i: int|
        0 <= i < s.len() ==> ps.contains(((#[trigger] s[i]).pos as int / mu as int) as usize)
}

/// The nodes of the level above that have to be merged anew.
pub fn merge_tasks(
    s: &Vec<UpdatedNode>,
    unchanged: &[u8; 32],
    w: usize,
    mu: usize,
    above: usize,
) -> (tasks: Vec<MergeTask>)
    requires
        in_order(s@),
        1 <= mu <= w,
        32 * w <= usize::MAX,
        above * mu <= usize::MAX,
        forall|i: int| 0 <= i < s@.len() ==> (#[trigger] s@[i]).pos < above * mu,
    ensures
        are_parents(task_positions(tasks@), s@, mu as nat),
        forall|i: int|
            0 <= i < tasks@.len() ==> task_fits(
                #[trigger] tasks@[i],
                s@,
                unchanged@,
                w as nat,
                mu as nat,
            ) && tasks@[i].pos < above,
{
    let mut tasks: Vec<MergeTask> = Vec::new();
    let mut at: usize = 0;
    // No new node before `at` lies at or past position `done`.
    let ghost mut done: int = 0;
    while at < s.len()
        invariant
            in_order(s@),
            1 <= mu <= w,
            32 * w <= usize::MAX,
            above * mu <= usize::MAX,
            forall|i: int| 0 <= i < s@.len() ==> (#[trigger] s@[i]).pos < above * mu,
            at <= s@.len(),
            done % (mu as int) == 0,
            0 <= done,
            forall|i: int| 0 <= i < at ==> (#[trigger] s@[i]).pos < done,
            forall|i: int| at <= i < s@.len() ==> done <= (#[trigger] s@[i]).pos,
            ascending(task_positions(tasks@)),
            forall|i: int|
                0 <= i < tasks@.len() ==> {
                    let t = #[trigger] tasks@[i];
                    task_fits(t, s@, unchanged@, w as nat, mu as nat) && t.pos < above && is_parent(
                        s@,
                        mu as nat,
                        t.pos as int,
                    ) && t.pos * mu + mu <= done
                },
            forall|i: int|
                0 <= i < at ==> task_positions(tasks@).contains(
                    ((#[trigger] s@[i]).pos as int / mu as int) as usize,
                ),
        decreases s@.len() - at,
    {
        let ghost before = tasks@;
        let ghost was = at;
        let p = s[at].pos / mu;
        proof {
            let q = s@[at as int].pos as int;
            lemma_fundamental_div_mod(q, mu as int);
            let r = q % (mu as int);
            assert(p * mu <= q < p * mu + mu) by (nonlinear_arith)
                requires
                    q == mu * p + r,
                    0 <= r < mu,
            ;
            assert(p < above) by (nonlinear_arith)
                requires
                    p * mu <= q,
                    q < above * mu,
                    mu >= 1,
            ;
            assert(p * mu + mu <= above * mu) by (nonlinear_arith)
                requires
                    p + 1 <= above,
                    mu >= 1,
            ;
            lemma_multiple_below(done, p as int, mu as int, q);
            assert forall|i: int| at <= i < s@.len() implies p * mu <= (#[trigger] s@[i]).pos by {
                if i > at {
                    assert(s@[at as int].pos < s@[i].pos);
                }
            }
        }
        let (task, next) = merge_task(s, unchanged, w, mu, p, at);
        proof {
            assert(next > at);
            done = p * mu + mu;
            assert(done == mu * (p + 1)) by (nonlinear_arith)
                requires
                    done == p * mu + mu,
            ;
            vstd::arithmetic::div_mod::lemma_mod_multiples_basic((p + 1) as int, mu as int);
            assert(mu * (p + 1) == (p + 1) * mu) by (nonlinear_arith);
        }
        tasks.push(task);
        at = next;
        proof {
            let ps = task_positions(tasks@);
            assert(ps =~= task_positions(before).push(p));
            assert(is_parent(s@, mu as nat, p as int)) by {
                assert(s@[was as int].pos as int / mu as int == p);
            }
            assert forall|i: int, j: int| 0 <= i < j < ps.len() implies ps[i] < ps[j] by {
                if j == before.len() {
                    let t = before[i];
                    assert(t.pos * mu + mu <= p * mu);
                    assert(t.pos < p) by (nonlinear_arith)
                        requires
                            t.pos * mu + mu <= p * mu,
                            mu >= 1,
                    ;
                } else {
                    assert(task_positions(before)[i] < task_positions(before)[j]);
                }
            }
            assert forall|i: int| 0 <= i < tasks@.len() implies {
                let t = #[trigger] tasks@[i];
                task_fits(t, s@, unchanged@, w as nat, mu as nat) && t.pos < above && is_parent(
                    s@,
                    mu as nat,
                    t.pos as int,
                ) && t.pos * mu + mu <= done
            } by {
                if i < before.len() {
                    let t = before[i];
                    assert(t.pos * mu + mu <= p * mu);
                }
            }
            assert forall|i: int| 0 <= i < at implies ps.contains(
                ((#[trigger] s@[i]).pos as int / mu as int) as usize,
            ) by {
                if i < was {
                    let v = (s@[i].pos as int / mu as int) as usize;
                    assert(task_positions(before).contains(v));
                    let j = choose|j: int|
                        0 <= j < task_positions(before).len() && task_positions(before)[j] == v;
                    assert(ps[j] == v);
                } else {
                    let q = s@[i].pos as int;
                    assert(p * mu <= q < p * mu + mu) by {
                        if i > was {
                            assert(s@[was as int].pos < s@[i].pos);
                        }
                    }
                    assert(mu * p == p * mu) by (nonlinear_arith);
                    lemma_fundamental_div_mod_converse(q, mu as int, p as int, q - p * mu);
                    assert(ps[ps.len() - 1] == p);
                }
            }
        }
    }
    assert forall|i: int| 0 <= i < task_positions(tasks@).len() implies is_parent(
        s@,
        mu as nat,
        #[trigger] task_positions(tasks@)[i] as int,
    ) by {
        assert(task_positions(tasks@)[i] == tasks@[i].pos);
    }
    tasks
}

/// A multiple of `mu` not past `q` is not past the multiple that `q` follows.
proof fn lemma_multiple_below(done: int, p: int, mu: int, q: int)
    requires
        mu >= 1,
        done % mu == 0,
        done <= q,
        q < p * mu + mu,
    ensures
        done <= p * mu,
{
    lemma_fundamental_div_mod(done, mu);
    let k = done / mu;
    assert(k <= p) by (nonlinear_arith)
        requires
            done == mu * k,
            done < p * mu + mu,
            mu >= 1,
    ;
    assert(mu * k <= p * mu) by (nonlinear_arith)
        requires
            k <= p,
            mu >= 1,
    ;
}

/// The parents of new nodes are determined.
pub proof fn lemma_parents_unique(a: Seq<usize>, b: Seq<usize>, s: Seq<UpdatedNode>, mu: nat)
    requires
        mu >= 1,
        are_parents(a, s, mu),
        are_parents(b, s, mu),
    ensures
        a == b,
{
    assert forall|v: usize| #[trigger] a.contains(v) <==> b.contains(v) by {
        if a.contains(v) {
            let x = choose|x: int| 0 <= x < a.len() && a[x] == v;
            assert(is_parent(s, mu, a[x] as int));
            let i = choose|i: int|
                0 <= i < s.len() && (#[trigger] s[i]).pos as int / mu as int == v as int;
            assert(b.contains((s[i].pos as int / mu as int) as usize));
        }
        if b.contains(v) {
            let x = choose|x: int| 0 <= x < b.len() && b[x] == v;
            assert(is_parent(s, mu, b[x] as int));
            let i = choose|i: int|
                0 <= i < s.len() && (#[trigger] s[i]).pos as int / mu as int == v as int;
            assert(a.contains((s[i].pos as int / mu as int) as usize));
        }
    }
    lemma_ascending_unique(a, b);
}

/// The `x`-th parent has a new child that is at least the `x`-th new node.
proof fn lemma_parent_child(ps: Seq<usize>, s: Seq<UpdatedNode>, mu: nat, x: int) -> (i: int)
    requires
        mu >= 1,
        in_order(s),
        are_parents(ps, s, mu),
        0 <= x < ps.len(),
    ensures
        x <= i < s.len(),
        s[i].pos as int / mu as int == ps[x],
    decreases x,
{
    assert(is_parent(s, mu, ps[x] as int));
    let i = choose|i: int|
        0 <= i < s.len() && (#[trigger] s[i]).pos as int / mu as int == ps[x] as int;
    if x > 0 {
        let h = lemma_parent_child(ps, s, mu, x - 1);
        assert(ps[x - 1] < ps[x]);
        if i <= h {
            if i < h {
                assert(s[i].pos < s[h].pos);
                vstd::arithmetic::div_mod::lemma_div_is_ordered(
                    s[i].pos as int,
                    s[h].pos as int,
                    mu as int,
                );
            }
        }
    }
    i
}

/// New nodes have at most as many parents.
pub proof fn lemma_parent_count(ps: Seq<usize>, s: Seq<UpdatedNode>, mu: nat)
    requires
        mu >= 1,
        in_order(s),
        s.len() > 0,
        are_parents(ps, s, mu),
    ensures
        1 <= ps.len() <= s.len(),
{
    assert(ps.contains((s[0].pos as int / mu as int) as usize));
    let i = lemma_parent_child(ps, s, mu, ps.len() - 1);
}

/// Positions on `level` of the nodes on the paths from the leaves to the root.
pub open spec fn on_paths(leaves: Seq<usize>, mu: nat, level: nat) -> Set<int> {
    leaves.map_values(|leaf: usize| leaf as int / tree_size(mu, level) as int).to_set()
}

/// The new nodes are those of `level` on the leaves' paths.
pub open spec fn covers_paths(
    s: Seq<UpdatedNode>,
    leaves: Seq<usize>,
    mu: nat,
    level: nat,
) -> bool {
    forall|p: int| #[trigger] has_pos(s, p) <==> on_paths(leaves, mu, level).contains(p)
}

proof fn lemma_on_paths(leaves: Seq<usize>, mu: nat, level: nat, x: int)
    requires
        0 <= x < leaves.len(),
    ensures
        on_paths(leaves, mu, level).contains(leaves[x] as int / tree_size(mu, level) as int),
{
    let ps = leaves.map_values(|leaf: usize| leaf as int / tree_size(mu, level) as int);
    assert(ps.contains(ps[x]));
}

proof fn lemma_path_leaf(leaves: Seq<usize>, mu: nat, level: nat, p: int) -> (x: int)
    requires
        on_paths(leaves, mu, level).contains(p),
    ensures
        0 <= x < leaves.len(),
        leaves[x] as int / tree_size(mu, level) as int == p,
{
    let ps = leaves.map_values(|leaf: usize| leaf as int / tree_size(mu, level) as int);
    assert(ps.contains(p));
    choose|x: int| 0 <= x < ps.len() && ps[x] == p
}

/// New leaves lie on their own paths.
pub proof fn lemma_leaves_cover_paths(s: Seq<UpdatedNode>, leaves: Seq<usize>, mu: nat)
    requires
        s.len() == leaves.len(),
        forall|i: int| 0 <= i < s.len() ==> (#[trigger] s[i]).pos == leaves[i],
    ensures
        covers_paths(s, leaves, mu, 0),
{
    assert(tree_size(mu, 0) == 1);
    assert forall|p: int| #[trigger] has_pos(s, p) <==> on_paths(leaves, mu, 0).contains(p) by {
        if has_pos(s, p) {
            let i = choose|i: int| 0 <= i < s.len() && (#[trigger] s[i]).pos == p;
            lemma_on_paths(leaves, mu, 0, i);
        }
        if on_paths(leaves, mu, 0).contains(p) {
            let x = lemma_path_leaf(leaves, mu, 0, p);
            assert(s[x].pos == p);
        }
    }
}

/// The parents of the nodes on the leaves' paths are those of the level above.
pub proof fn lemma_parents_cover_paths(
    s: Seq<UpdatedNode>,
    t: Seq<UpdatedNode>,
    leaves: Seq<usize>,
    mu: nat,
    level: nat,
)
    requires
        mu >= 1,
        covers_paths(s, leaves, mu, level),
        are_parents(t.map_values(|n: UpdatedNode| n.pos), s, mu),
    ensures
        covers_paths(t, leaves, mu, level + 1),
{
    let ps = t.map_values(|n: UpdatedNode| n.pos);
    let size = tree_size(mu, level) as int;
    lemma_tree_size_pos(mu, level);
    assert(tree_size(mu, level + 1) == size * mu) by (nonlinear_arith)
        requires
            tree_size(mu, level + 1) == mu * size,
    ;
    assert forall|p: int|
        #[trigger] has_pos(t, p) <==> on_paths(leaves, mu, level + 1).contains(p) by {
        if has_pos(t, p) {
            let i = choose|i: int| 0 <= i < t.len() && (#[trigger] t[i]).pos == p;
            assert(is_parent(s, mu, ps[i] as int));
            let j = choose|j: int|
                0 <= j < s.len() && (#[trigger] s[j]).pos as int / mu as int == p;
            assert(has_pos(s, s[j].pos as int));
            let x = lemma_path_leaf(leaves, mu, level, s[j].pos as int);
            lemma_div_denominator(leaves[x] as int, size, mu as int);
            lemma_on_paths(leaves, mu, level + 1, x);
        }
        if on_paths(leaves, mu, level + 1).contains(p) {
            let x = lemma_path_leaf(leaves, mu, level + 1, p);
            lemma_div_denominator(leaves[x] as int, size, mu as int);
            lemma_on_paths(leaves, mu, level, x);
            let q = leaves[x] as int / size;
            assert(has_pos(s, q));
            let j = choose|j: int| 0 <= j < s.len() && (#[trigger] s[j]).pos == q;
            assert(ps.contains((s[j].pos as int / mu as int) as usize));
            let i = choose|i: int| 0 <= i < ps.len() && ps[i] == p as usize;
            assert(q / (mu as int) <= q) by (nonlinear_arith)
                requires
                    0 <= q,
                    mu >= 1,
            ;
            assert(0 <= q / (mu as int)) by (nonlinear_arith)
                requires
                    0 <= q,
                    mu >= 1,
            ;
            assert(t[i].pos == p);
        }
    }
}

/// A level has as many new nodes as lie on the leaves' paths.
pub proof fn lemma_path_count(s: Seq<UpdatedNode>, leaves: Seq<usize>, mu: nat, level: nat)
    requires
        in_order(s),
        covers_paths(s, leaves, mu, level),
    ensures
        s.len() == on_paths(leaves, mu, level).len(),
{
    let ps = s.map_values(|n: UpdatedNode| n.pos as int);
    assert forall|i: int, j: int| 0 <= i < ps.len() && 0 <= j < ps.len() && i != j implies ps[i]
        != ps[j] by {
        if i < j {
            assert(s[i].pos < s[j].pos);
        } else {
            assert(s[j].pos < s[i].pos);
        }
    }
    ps.unique_seq_to_set();
    assert forall|p: int| ps.to_set().contains(p) <==> on_paths(leaves, mu, level).contains(p) by {
        if ps.contains(p) {
            let i = choose|i: int| 0 <= i < ps.len() && ps[i] == p;
            assert(s[i].pos == p);
            assert(has_pos(s, p));
        }
        if has_pos(s, p) {
            let i = choose|i: int| 0 <= i < s.len() && (#[trigger] s[i]).pos == p;
            assert(ps[i] == p);
        }
        assert(has_pos(s, p) <==> on_paths(leaves, mu, level).contains(p));
    }
    assert(ps.to_set() =~= on_paths(leaves, mu, level));
}

/// An ascending row of all positions holds each at its own place.
proof fn lemma_all_leaves(leaves: Seq<usize>, i: int)
    requires
        ascending(leaves),
        forall|x: int| 0 <= x < leaves.len() ==> #[trigger] leaves[x] < leaves.len(),
        0 <= i < leaves.len(),
    ensures
        leaves[i] == i,
{
    lemma_at_least(leaves, i);
    lemma_at_most_place(leaves, i);
}

proof fn lemma_at_least(leaves: Seq<usize>, i: int)
    requires
        ascending(leaves),
        0 <= i < leaves.len(),
    ensures
        leaves[i] >= i,
    decreases i,
{
    if i > 0 {
        lemma_at_least(leaves, i - 1);
        assert(leaves[i - 1] < leaves[i]);
    }
}

proof fn lemma_at_most_place(leaves: Seq<usize>, i: int)
    requires
        ascending(leaves),
        forall|x: int| 0 <= x < leaves.len() ==> #[trigger] leaves[x] < leaves.len(),
        0 <= i < leaves.len(),
    ensures
        leaves[i] <= i,
    decreases leaves.len() - i,
{
    if i + 1 < leaves.len() {
        lemma_at_most_place(leaves, i + 1);
        assert(leaves[i] < leaves[i + 1]);
    }
}

/// The paths of all leaves take in every node of every level.
pub proof fn lemma_all_paths(leaves: Seq<usize>, mu: nat, level: nat, depth: nat)
    requires
        mu >= 1,
        level <= depth,
        ascending(leaves),
        leaves.len() == tree_size(mu, depth),
        forall|x: int| 0 <= x < leaves.len() ==> #[trigger] leaves[x] < leaves.len(),
    ensures
        on_paths(leaves, mu, level).len() == tree_size(mu, (depth - level) as nat),
{
    let size = tree_size(mu, level) as int;
    let count = tree_size(mu, (depth - level) as nat) as int;
    lemma_tree_size_pos(mu, level);
    lemma_tree_size_splits(mu, level, depth);
    let all = set_int_range(0, count);
    assert forall|p: int| on_paths(leaves, mu, level).contains(p) <==> all.contains(p) by {
        if on_paths(leaves, mu, level).contains(p) {
            let x = lemma_path_leaf(leaves, mu, level, p);
            let q = leaves[x] as int;
            assert(0 <= q / size < count) by (nonlinear_arith)
                requires
                    0 <= q < size * count,
                    size >= 1,
            ;
        }
        if all.contains(p) {
            let x = size * p;
            assert(0 <= x < size * count) by (nonlinear_arith)
                requires
                    0 <= p < count,
                    size >= 1,
                    x == size * p,
            ;
            lemma_all_leaves(leaves, x);
            lemma_fundamental_div_mod_converse(x, size, p, 0);
            lemma_on_paths(leaves, mu, level, x);
        }
    }
    assert(on_paths(leaves, mu, level) =~= all);
    lemma_int_range(0, count);
}

/// Byte `j` of the block that leaf `leaf` receives.
pub open spec fn batch_byte(leaf: int, j: int) -> u8 {
    ((((leaf * 131) % 0x1_0000_0000_0000_0000 + j * 7 + 13) % 0x1_0000_0000_0000_0000) % 251
        + 1) as u8
}

/// The block that leaf `leaf` receives.
pub open spec fn batch_block_of(w: nat, leaf: int) -> Seq<u8> {
    Seq::new(32 * w, |j: int| batch_byte(leaf, j))
}

/// The block that leaf `leaf` receives in a batch update.
pub fn batch_new_block(w: usize, leaf: usize) -> (block: Vec<u8>)
    requires
        32 * w <= usize::MAX,
    ensures
        block@ == batch_block_of(w as nat, leaf as int),
{
    let mut block: Vec<u8> = Vec::with_capacity(32 * w);
    for j in 0..32 * w
        invariant
            32 * w <= usize::MAX,
            block@.len() == j,
            forall|i: int| 0 <= i < j ==> #[trigger] block@[i] == batch_byte(leaf as int, i),
    {
        let base = ((leaf as u128 * 131) % 0x1_0000_0000_0000_0000) as u128;
        let sum = (base + j as u128 * 7 + 13) % 0x1_0000_0000_0000_0000;
        block.push((sum % 251 + 1) as u8);
    }
    assert(block@ =~= batch_block_of(w as nat, leaf as int));
    block
}

/// The bytes of a leaf's new block: less one, byte `j` leaves the same remainder
/// modulo 251 as `131 * leaf + 7 * j + 13`, where the product keeps its low 64
/// bits, of which `wraps` counts the overflows.
pub proof fn lemma_batch_block(w: nat, leaf: int, wraps: int, j: int)
    requires
        0 <= leaf,
        0 <= j < 32 * w,
        0 <= 131 * leaf - wraps * 0x1_0000_0000_0000_0000,
        131 * leaf - wraps * 0x1_0000_0000_0000_0000 + 7 * j + 13 < 0x1_0000_0000_0000_0000,
    ensures
        batch_block_of(w, leaf).len() == 32 * w,
        1 <= batch_block_of(w, leaf)[j] <= 251,
        (131 * leaf - wraps * 0x1_0000_0000_0000_0000 + 7 * j + 13 - (batch_block_of(w, leaf)[j]
            - 1)) % 251 == 0,
{
    let low = 131 * leaf - wraps * 0x1_0000_0000_0000_0000;
    lemma_fundamental_div_mod_converse(131 * leaf, 0x1_0000_0000_0000_0000, wraps, low);
    let x = low + 7 * j + 13;
    lemma_small_mod(x as nat, 0x1_0000_0000_0000_0000);
    assert(leaf * 131 == 131 * leaf && j * 7 == 7 * j);
    assert(batch_block_of(w, leaf)[j] == batch_byte(leaf, j));
    assert(batch_byte(leaf, j) as int == x % 251 + 1);
    lemma_remainder_taken_off(x);
}

proof fn lemma_remainder_taken_off(x: int)
    ensures
        0 <= x % 251 < 251,
        (x - x % 251) % 251 == 0,
{
}

/// Leaves that differ modulo 251 receive blocks that differ in every byte.
pub proof fn lemma_batch_blocks_differ(w: nat, a: int, b: int, j: int)
    requires
        0 <= a,
        0 <= b,
        0 <= j < 32 * w,
        131 * a + 7 * j + 13 < 0x1_0000_0000_0000_0000,
        131 * b + 7 * j + 13 < 0x1_0000_0000_0000_0000,
        (a - b) % 251 != 0,
    ensures
        batch_block_of(w, a)[j] != batch_block_of(w, b)[j],
{
    lemma_batch_block(w, a, 0, j);
    lemma_batch_block(w, b, 0, j);
    if batch_block_of(w, a)[j] == batch_block_of(w, b)[j] {
        lemma_leaves_apart(a, b, 7 * j + 13, batch_block_of(w, a)[j] - 1);
    }
}

/// Along a block the bytes go up by seven, modulo 251.
pub proof fn lemma_batch_block_steps(w: nat, leaf: int, wraps: int, j: int)
    requires
        0 <= leaf,
        0 <= j,
        j + 1 < 32 * w,
        0 <= 131 * leaf - wraps * 0x1_0000_0000_0000_0000,
        131 * leaf - wraps * 0x1_0000_0000_0000_0000 + 7 * (j + 1) + 13 < 0x1_0000_0000_0000_0000,
    ensures
        (batch_block_of(w, leaf)[j + 1] - batch_block_of(w, leaf)[j]) % 251 == 7,
{
    lemma_batch_block(w, leaf, wraps, j);
    lemma_batch_block(w, leaf, wraps, j + 1);
    let low = 131 * leaf - wraps * 0x1_0000_0000_0000_0000 + 7 * j + 13;
    lemma_seven_apart(
        low,
        batch_block_of(w, leaf)[j] as int,
        batch_block_of(w, leaf)[j + 1] as int,
    );
}

proof fn lemma_seven_apart(x: int, a: int, b: int)
    requires
        (x - (a - 1)) % 251 == 0,
        (x + 7 - (b - 1)) % 251 == 0,
    ensures
        (b - a) % 251 == 7,
{
}

/// 131 has the inverse 23 modulo 251, so a product with it is a multiple of 251
/// only if the other factor is.
proof fn lemma_leaves_apart(a: int, b: int, x: int, y: int)
    requires
        (131 * a + x - y) % 251 == 0,
        (131 * b + x - y) % 251 == 0,
    ensures
        (a - b) % 251 == 0,
{
    assert((131 * (a - b)) % 251 == 0);
    let q = (131 * (a - b)) / 251;
    assert(a - b == 251 * (23 * q - 12 * (a - b)));
}

/// The cores' share for each of `n` users, of whom there is at least one; a share
/// is never less than four.
pub open spec fn share_of(cores: int, n: int) -> int {
    let share = cores / (if n == 0 {
        1
    } else {
        n
    });
    if share < 4 {
        4
    } else {
        share
    }
}

/// Above four, the shares of all users come to no more than the cores, and one
/// more for each would come to more; a share below four is brought up to four.
pub proof fn lemma_share(cores: int, n: int)
    requires
        0 <= cores,
        0 <= n,
    ensures
        share_of(cores, n) >= 4,
        share_of(cores, n) > 4 ==> share_of(cores, n) * n <= cores,
        n > 0 ==> cores < (share_of(cores, n) + 1) * n,
        n == 0 ==> share_of(cores, n) == share_of(cores, 1),
        cores >= 4 ==> share_of(cores, 1) == cores,
        cores >= 4 ==> share_of(cores, n) <= cores,
{
    lemma_fundamental_div_mod(cores, 1);
    if n > 0 {
        let q = cores / n;
        lemma_fundamental_div_mod(cores, n);
        let r = cores % n;
        let s = share_of(cores, n);
        assert(q * n <= cores && cores < (q + 1) * n && q <= cores && (s >= q ==> (q + 1) * n <= (s
            + 1) * n)) by (nonlinear_arith)
            requires
                cores == n * q + r,
                0 <= r < n,
                0 <= cores,
                n >= 1,
        ;
    }
}

/// Threads for each of `n_tasks` concurrent tasks: a fair share of the cores,
/// but at least four.
pub fn pool_threads(cores: usize, n_tasks: usize) -> (threads: usize)
    requires
        cores >= 4,
    ensures
        threads == share_of(cores as int, n_tasks as int),
{
    let n: usize = if n_tasks == 0 {
        1
    } else {
        n_tasks
    };
    let share = cores / n;
    if share < 4 {
        4
    } else {
        share
    }
}

/// Tasks that run at the same time: as many as the cores serve, but at least
/// four.
pub fn wave_size(cores: usize, task_threads: usize) -> (n: usize)
    ensures
        n == share_of(cores as int, task_threads as int),
{
    let t: usize = if task_threads == 0 {
        1
    } else {
        task_threads
    };
    let share = cores / t;
    if share < 4 {
        4
    } else {
        share
    }
}

} // verus!
