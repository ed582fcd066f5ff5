//! The n-ary SHA-256 tree: every leaf hashes its data block, every internal
//! node the digests of its children, zero-padded to the bucket where the tree
//! is bucketed.

use crate::hash::{digest_views, lemma_digest_len, sha256_native, sha256_of};
use vstd::arithmetic::div_mod::{lemma_basic_div, lemma_fundamental_div_mod,
    lemma_fundamental_div_mod_converse};
use vstd::arithmetic::power2::{lemma2_to64, lemma2_to64_rest, lemma_pow2_unfold, pow2};
use vstd::prelude::*;

verus! {

/// Number of leaves of the full tree of the given arity and depth.
pub open spec fn tree_size(arity: nat, depth: nat) -> nat
    decreases depth,
{
    if depth == 0 {
        1
    } else {
        arity * tree_size(arity, (depth - 1) as nat)
    }
}

/// Byte strings, one after the other.
pub open spec fn join(parts: Seq<Seq<u8>>) -> Seq<u8>
    decreases parts.len(),
{
    if parts.len() == 0 {
        Seq::empty()
    } else {
        join(parts.drop_last()) + parts.last()
    }
}

/// A byte string cut or zero-padded to `n` bytes.
pub open spec fn resized(bytes: Seq<u8>, n: nat) -> Seq<u8> {
    Seq::new(
        n,
        |i: int|
            if i < bytes.len() {
                bytes[i]
            } else {
                0u8
            },
    )
}

/// What a node over the given children hashes: their digests, brought to a
/// bucket of `32 * w` bytes where a width `w` is given.
pub open spec fn node_input(width: Option<nat>, children: Seq<Seq<u8>>) -> Seq<u8> {
    match width {
        Some(w) => resized(join(children), 32 * w),
        None => join(children),
    }
}

/// The `p`-th group of `arity` neighbours; the last one may be shorter.
pub open spec fn group(layer: Seq<Seq<u8>>, arity: nat, p: int) -> Seq<Seq<u8>> {
    layer.subrange(
        p * arity,
        if (p + 1) * arity <= layer.len() {
            (p + 1) * arity
        } else {
            layer.len() as int
        },
    )
}

/// Number of groups of `arity` neighbours in a layer of `n` nodes.
pub open spec fn group_count(n: nat, arity: nat) -> nat {
    ((n + arity - 1) / arity as int) as nat
}

/// The layer above: one node per group.
pub open spec fn layer_above(width: Option<nat>, arity: nat, layer: Seq<Seq<u8>>) -> Seq<Seq<u8>> {
    Seq::new(
        group_count(layer.len(), arity),
        |p: int| sha256_of(node_input(width, group(layer, arity, p))),
    )
}

/// A layer of at least two nodes has a shorter one above it.
pub proof fn lemma_fewer_groups(n: nat, arity: nat)
    requires
        n >= 2,
        arity >= 2,
    ensures
        1 <= group_count(n, arity) < n,
{
    let q = (n + arity - 1) / arity as int;
    lemma_fundamental_div_mod(n + arity - 1, arity as int);
    let r = (n + arity - 1) % arity as int;
    assert(q >= 1) by (nonlinear_arith)
        requires
            n + arity - 1 == arity * q + r,
            0 <= r < arity,
            n >= 2,
    ;
    assert(q < n) by (nonlinear_arith)
        requires
            n + arity - 1 == arity * q + r,
            0 <= r < arity,
            n >= 2,
            arity >= 2,
    ;
}

/// Root of the tree over a layer of digests.
pub open spec fn root_over(width: Option<nat>, arity: nat, layer: Seq<Seq<u8>>) -> Seq<u8>
    decreases layer.len(),
    when arity >= 2
{
    if layer.len() <= 1 {
        layer[0]
    } else {
        proof {
            lemma_fewer_groups(layer.len(), arity);
        }
        root_over(width, arity, layer_above(width, arity, layer))
    }
}

/// Digests of the leaf nodes over the given data blocks.
pub open spec fn leaf_layer(blocks: Seq<Seq<u8>>) -> Seq<Seq<u8>> {
    blocks.map_values(|b: Seq<u8>| sha256_of(b))
}

/// The data blocks as byte strings.
pub open spec fn block_views(blocks: Seq<Vec<u8>>) -> Seq<Seq<u8>> {
    blocks.map_values(|b: Vec<u8>| b@)
}

/// Root of the tree over data blocks; a single block is its own root.
pub open spec fn merkle_root(width: Option<nat>, arity: nat, blocks: Seq<Seq<u8>>) -> Seq<u8> {
    if blocks.len() <= 1 {
        leaf_layer(blocks)[0]
    } else {
        root_over(width, arity, leaf_layer(blocks))
    }
}

/// A bucket width as a number.
pub open spec fn width_of(width: Option<usize>) -> Option<nat> {
    match width {
        Some(w) => Some(w as nat),
        None => None,
    }
}

/// The digests from position `from` up to `to`, one after the other.
pub fn join_digests(layer: &Vec<[u8; 32]>, from: usize, to: usize) -> (bytes: Vec<u8>)
    requires
        from <= to <= layer@.len(),
    ensures
        bytes@ == join(digest_views(layer@).subrange(from as int, to as int)),
{
    let ghost views = digest_views(layer@);
    let mut bytes: Vec<u8> = Vec::new();
    assert(views.subrange(from as int, from as int) =~= Seq::empty());
    for i in from..to
        invariant
            from <= to <= layer@.len(),
            views == digest_views(layer@),
            bytes@ == join(views.subrange(from as int, i as int)),
    {
        let digest = layer[i];
        bytes.extend_from_slice(digest.as_slice());
        proof {
            let longer = views.subrange(from as int, i + 1);
            assert(longer.drop_last() =~= views.subrange(from as int, i as int));
            assert(longer.last() == digest@);
            assert(bytes@ =~= join(longer));
        }
    }
    bytes
}

/// Cuts or zero-pads a byte string.
pub fn resize_bytes(bytes: &mut Vec<u8>, n: usize)
    ensures
        final(bytes)@ == resized(old(bytes)@, n as nat),
{
    let ghost before = bytes@;
    bytes.resize(n, 0u8);
    assert(bytes@ =~= resized(before, n as nat));
}

/// The layer above a layer of digests.
fn parents(width: Option<usize>, arity: usize, layer: &Vec<[u8; 32]>) -> (above: Vec<[u8; 32]>)
    requires
        arity >= 1,
        width matches Some(w) ==> 32 * w <= usize::MAX,
    ensures
        digest_views(above@) == layer_above(
            width_of(width),
            arity as nat,
            digest_views(layer@),
        ),
{
    let ghost views = digest_views(layer@);
    let n = layer.len();
    let mut above: Vec<[u8; 32]> = Vec::new();
    let mut at: usize = 0;
    assert(group_count(0, arity as nat) == 0) by {
        lemma_basic_div((arity - 1) as int, arity as int);
    }
    while at < n
        invariant
            arity >= 1,
            width matches Some(w) ==> 32 * w <= usize::MAX,
            n == layer@.len(),
            at <= n,
            views == digest_views(layer@),
            at < n ==> at == above@.len() * arity,
            at == n ==> above@.len() == group_count(n as nat, arity as nat),
            forall|p: int|
                0 <= p < above@.len() ==> (#[trigger] above@[p])@ == sha256_of(
                    node_input(width_of(width), group(views, arity as nat, p)),
                ),
        decreases n - at,
    {
        let ghost p = above@.len() as int;
        let end: usize = if n - at < arity {
            n
        } else {
            at + arity
        };
        proof {
            assert((p + 1) * arity == p * arity + arity) by (nonlinear_arith);
            assert(group(views, arity as nat, p) =~= views.subrange(at as int, end as int));
        }
        let mut input = join_digests(layer, at, end);
        if let Some(w) = width {
            resize_bytes(&mut input, 32 * w);
        }
        above.push(sha256_native(input.as_slice()));
        proof {
            if end == n {
                let a = arity as int;
                assert(group_count(n as nat, arity as nat) == p + 1) by {
                    let r = n + a - 1 - a * (p + 1);
                    assert(a * (p + 1) == p * a + a) by (nonlinear_arith);
                    lemma_fundamental_div_mod_converse(n + a - 1, a, p + 1, r);
                }
            }
        }
        at = end;
    }
    proof {
        assert(digest_views(above@) =~= layer_above(width_of(width), arity as nat, views));
    }
    above
}

/// The digests of the leaf nodes.
fn hash_blocks(blocks: &[Vec<u8>]) -> (layer: Vec<[u8; 32]>)
    ensures
        digest_views(layer@) == leaf_layer(block_views(blocks@)),
{
    let mut layer: Vec<[u8; 32]> = Vec::with_capacity(blocks.len());
    for i in 0..blocks.len()
        invariant
            layer@.len() == i,
            forall|k: int| 0 <= k < i ==> (#[trigger] layer@[k])@ == sha256_of(blocks@[k]@),
    {
        layer.push(sha256_native(blocks[i].as_slice()));
    }
    assert(digest_views(layer@) =~= leaf_layer(block_views(blocks@)));
    layer
}

/// Root of the tree over a layer of digests.
fn fold_layers(width: Option<usize>, arity: usize, blocks: &[Vec<u8>]) -> (root: [u8; 32])
    requires
        blocks@.len() >= 1,
        blocks@.len() >= 2 ==> arity >= 2,
        blocks@.len() >= 2 ==> (width matches Some(w) ==> 32 * w <= usize::MAX),
    ensures
        root@ == merkle_root(width_of(width), arity as nat, block_views(blocks@)),
{
    let ghost leaves = leaf_layer(block_views(blocks@));
    let mut layer = hash_blocks(blocks);
    assert(digest_views(layer@).len() == blocks@.len());
    while layer.len() > 1
        invariant
            layer@.len() >= 1,
            leaves.len() == blocks@.len(),
            layer@.len() >= 2 ==> leaves.len() >= 2,
            leaves.len() >= 2 ==> arity >= 2,
            leaves.len() >= 2 ==> (width matches Some(w) ==> 32 * w <= usize::MAX),
            leaves.len() >= 2 ==> root_over(width_of(width), arity as nat, digest_views(layer@))
                == root_over(width_of(width), arity as nat, leaves),
            leaves.len() == 1 ==> digest_views(layer@) == leaves,
        decreases layer@.len(),
    {
        proof {
            lemma_fewer_groups(layer@.len(), arity as nat);
            assert(digest_views(layer@).len() == layer@.len());
        }
        let above = parents(width, arity, &layer);
        assert(digest_views(above@).len() == above@.len());
        layer = above;
    }
    assert(digest_views(layer@)[0] == layer@[0]@);
    layer[0]
}

/// Root of the tree over the given data blocks with fan-in `mu`, where every
/// internal node hashes a zero-padded bucket of `32 * w_words` bytes.
pub fn merkle_root_native_bucketed(w_words: usize, mu: usize, blocks: &[Vec<u8>]) -> (root: [u8;
    32])
    requires
        blocks@.len() >= 1,
        blocks@.len() >= 2 ==> mu >= 2 && 32 * w_words <= usize::MAX,
    ensures
        root@ == merkle_root(Some(w_words as nat), mu as nat, block_views(blocks@)),
{
    fold_layers(Some(w_words), mu, blocks)
}

/// Root of the tree of the given arity over data blocks.
pub fn merkle_root_native(arity: usize, blocks: &[Vec<u8>]) -> (root: [u8; 32])
    requires
        blocks@.len() >= 1,
        blocks@.len() >= 2 ==> arity >= 2,
    ensures
        root@ == merkle_root(None, arity as nat, block_views(blocks@)),
{
    fold_layers(None, arity, blocks)
}

/// Byte `j` of the `i`-th benchmark block.
pub open spec fn block_byte(i: int, j: int) -> u8 {
    ((31 * i + j + 1) % 256) as u8
}

/// The benchmark blocks of `32 * arity` bytes.
pub open spec fn bench_blocks(arity: nat, n_leaves: nat) -> Seq<Seq<u8>> {
    Seq::new(n_leaves, |i: int| Seq::new(32 * arity, |j: int| block_byte(i, j)))
}

fn make_byte(i: usize, j: usize) -> (b: u8)
    ensures
        b == block_byte(i as int, j as int),
{
    let (r, t) = ((i % 256) as u32, (j % 256) as u32);
    let sum: u32 = 31 * r + t + 1;
    proof {
        let (q, u) = (i as int / 256, j as int / 256);
        assert(31 * i + j + 1 == 256 * (31 * q + u) + sum);
        lemma_fundamental_div_mod_converse(
            31 * i + j + 1,
            256,
            31 * q + u + sum as int / 256,
            sum as int % 256,
        );
    }
    (sum % 256) as u8
}

/// Deterministic data blocks of `32 * arity` bytes for the benchmark.
pub fn make_blocks(arity: usize, n_leaves: usize) -> (blocks: Vec<Vec<u8>>)
    requires
        n_leaves > 0 ==> 32 * arity <= usize::MAX,
    ensures
        block_views(blocks@) == bench_blocks(arity as nat, n_leaves as nat),
{
    let mut blocks: Vec<Vec<u8>> = Vec::with_capacity(n_leaves);
    for i in 0..n_leaves
        invariant
            n_leaves > 0 ==> 32 * arity <= usize::MAX,
            blocks@.len() == i,
            forall|k: int|
                0 <= k < i ==> (#[trigger] blocks@[k])@ == bench_blocks(
                    arity as nat,
                    n_leaves as nat,
                )[k],
    {
        let mut block: Vec<u8> = Vec::with_capacity(32 * arity);
        for j in 0..32 * arity
            invariant
                32 * arity <= usize::MAX,
                block@.len() == j,
                forall|k: int| 0 <= k < j ==> #[trigger] block@[k] == block_byte(i as int, k),
        {
            block.push(make_byte(i, j));
        }
        assert(block@ =~= bench_blocks(arity as nat, n_leaves as nat)[i as int]);
        blocks.push(block);
    }
    assert(block_views(blocks@) =~= bench_blocks(arity as nat, n_leaves as nat));
    blocks
}

/// The benchmark blocks: the first byte of the first block is 1, every byte is
/// one more than the byte before it in its block and 31 more than the byte in its
/// place in the block before, modulo 256.
pub proof fn lemma_bench_blocks(arity: nat, n_leaves: nat, i: int, j: int)
    requires
        0 <= i < n_leaves,
        0 <= j < 32 * arity,
    ensures
        bench_blocks(arity, n_leaves).len() == n_leaves,
        bench_blocks(arity, n_leaves)[i].len() == 32 * arity,
        bench_blocks(arity, n_leaves)[0][0] == 1,
        j + 1 < 32 * arity ==> (bench_blocks(arity, n_leaves)[i][j + 1] - bench_blocks(
            arity,
            n_leaves,
        )[i][j]) % 256 == 1,
        i + 1 < n_leaves ==> (bench_blocks(arity, n_leaves)[i + 1][j] - bench_blocks(
            arity,
            n_leaves,
        )[i][j]) % 256 == 31,
{
    let blocks = bench_blocks(arity, n_leaves);
    let x = 31 * i + j + 1;
    lemma_remainder_moves(x, 1);
    lemma_remainder_moves(x, 31);
    assert(blocks[0][0] == block_byte(0, 0));
    assert(blocks[i][j] == block_byte(i, j) && block_byte(i, j) as int == x % 256);
    if j + 1 < 32 * arity {
        assert(blocks[i][j + 1] == block_byte(i, j + 1));
        assert(block_byte(i, j + 1) as int == (x + 1) % 256);
    }
    if i + 1 < n_leaves {
        assert(blocks[i + 1][j] == block_byte(i + 1, j));
        assert(block_byte(i + 1, j) as int == (x + 31) % 256);
    }
}

/// Adding less than 256 moves a remainder modulo 256 by as much.
pub proof fn lemma_remainder_moves(x: int, d: int)
    requires
        0 <= d < 256,
    ensures
        ((x + d) % 256 - x % 256) % 256 == d,
{
}

/// 31 has the inverse 223 modulo 256, so a product with it is a multiple of 256 only
/// if the other factor is.
proof fn lemma_numbers_apart(a: int, b: int, x: int)
    requires
        (31 * a + x) % 256 == (31 * b + x) % 256,
    ensures
        (a - b) % 256 == 0,
{
    assert((31 * (a - b)) % 256 == 0);
    let q = (31 * (a - b)) / 256;
    assert(a - b == 256 * (223 * q - 27 * (a - b)));
}

/// Benchmark blocks whose numbers differ modulo 256 differ in every byte.
pub proof fn lemma_bench_blocks_differ(arity: nat, n_leaves: nat, a: int, b: int, j: int)
    requires
        0 <= a < n_leaves,
        0 <= b < n_leaves,
        0 <= j < 32 * arity,
        (a - b) % 256 != 0,
    ensures
        bench_blocks(arity, n_leaves)[a][j] != bench_blocks(arity, n_leaves)[b][j],
{
    let blocks = bench_blocks(arity, n_leaves);
    if blocks[a][j] == blocks[b][j] {
        assert(blocks[a][j] as int == (31 * a + (j + 1)) % 256);
        assert(blocks[b][j] as int == (31 * b + (j + 1)) % 256);
        lemma_numbers_apart(a, b, j + 1);
    }
}

/// A benchmark block does not depend on how many follow it.
pub proof fn lemma_bench_blocks_extend(arity: nat, n: nat, more: nat)
    requires
        n <= more,
    ensures
        bench_blocks(arity, more).take(n as int) == bench_blocks(arity, n),
{
    assert(bench_blocks(arity, more).take(n as int) =~= bench_blocks(arity, n));
}

/// Digest of the `pos`-th node of the given level of a full tree.
pub open spec fn subtree(
    width: Option<nat>,
    arity: nat,
    leaves: Seq<Seq<u8>>,
    level: nat,
    pos: nat,
) -> Seq<u8>
    decreases 2 * level, 0nat,
{
    if level == 0 {
        leaves[pos as int]
    } else {
        sha256_of(node_input(width, first_children(width, arity, leaves, level, pos, arity)))
    }
}

/// The first `count` children of the `pos`-th node of the given level.
pub open spec fn first_children(
    width: Option<nat>,
    arity: nat,
    leaves: Seq<Seq<u8>>,
    level: nat,
    pos: nat,
    count: nat,
) -> Seq<Seq<u8>>
    decreases 2 * level - 1, count,
{
    if count == 0 || level == 0 {
        Seq::empty()
    } else {
        first_children(width, arity, leaves, level, pos, (count - 1) as nat).push(
            subtree(width, arity, leaves, (level - 1) as nat, (pos * arity + count - 1) as nat),
        )
    }
}

/// The children of the `pos`-th node of the given level of a full tree.
pub open spec fn children(
    width: Option<nat>,
    arity: nat,
    leaves: Seq<Seq<u8>>,
    level: nat,
    pos: nat,
) -> Seq<Seq<u8>> {
    Seq::new(
        arity,
        |c: int| subtree(width, arity, leaves, (level - 1) as nat, (pos * arity + c) as nat),
    )
}

proof fn lemma_first_children(
    width: Option<nat>,
    arity: nat,
    leaves: Seq<Seq<u8>>,
    level: nat,
    pos: nat,
    count: nat,
)
    requires
        level > 0,
        count <= arity,
    ensures
        first_children(width, arity, leaves, level, pos, count) == children(
            width,
            arity,
            leaves,
            level,
            pos,
        ).take(count as int),
    decreases count,
{
    let all = children(width, arity, leaves, level, pos);
    if count == 0 {
        assert(all.take(0) =~= Seq::empty());
    } else {
        lemma_first_children(width, arity, leaves, level, pos, (count - 1) as nat);
        assert(all.take(count as int) =~= all.take(count - 1).push(all[count - 1]));
    }
}

/// An internal node hashes its children.
pub proof fn lemma_subtree_children(
    width: Option<nat>,
    arity: nat,
    leaves: Seq<Seq<u8>>,
    level: nat,
    pos: nat,
)
    requires
        level > 0,
    ensures
        subtree(width, arity, leaves, level, pos) == sha256_of(
            node_input(width, children(width, arity, leaves, level, pos)),
        ),
{
    let all = children(width, arity, leaves, level, pos);
    lemma_first_children(width, arity, leaves, level, pos, arity);
    assert(all.take(arity as int) =~= all);
}

/// The first `count` nodes of the given level of a full tree.
pub open spec fn tree_layer(
    width: Option<nat>,
    arity: nat,
    leaves: Seq<Seq<u8>>,
    level: nat,
    count: nat,
) -> Seq<Seq<u8>> {
    Seq::new(count, |p: int| subtree(width, arity, leaves, level, p as nat))
}

pub proof fn lemma_tree_size_pos(arity: nat, depth: nat)
    requires
        arity >= 1,
    ensures
        tree_size(arity, depth) >= 1,
    decreases depth,
{
    if depth > 0 {
        lemma_tree_size_pos(arity, (depth - 1) as nat);
        assert(arity * tree_size(arity, (depth - 1) as nat) >= 1) by (nonlinear_arith)
            requires
                arity >= 1,
                tree_size(arity, (depth - 1) as nat) >= 1,
        ;
    }
}

/// A row of `m` full groups has `m` groups, and the `p`-th is the `p`-th.
proof fn lemma_full_groups(layer: Seq<Seq<u8>>, arity: nat, m: nat)
    requires
        arity >= 1,
        layer.len() == arity * m,
    ensures
        group_count(layer.len(), arity) == m,
        forall|p: int|
            0 <= p < m ==> #[trigger] group(layer, arity, p) == layer.subrange(
                p * arity,
                p * arity + arity,
            ),
{
    assert(m * arity == arity * m) by (nonlinear_arith);
    lemma_fundamental_div_mod_converse(
        layer.len() + arity - 1,
        arity as int,
        m as int,
        arity - 1,
    );
    assert forall|p: int| 0 <= p < m implies #[trigger] group(layer, arity, p) == layer.subrange(
        p * arity,
        p * arity + arity,
    ) by {
        assert((p + 1) * arity == p * arity + arity) by (nonlinear_arith);
        assert((p + 1) * arity <= arity * m) by (nonlinear_arith)
            requires
                p + 1 <= m,
        ;
    }
}

/// Above a full layer of a full tree lies the next one.
pub proof fn lemma_layer_above(
    width: Option<nat>,
    arity: nat,
    leaves: Seq<Seq<u8>>,
    level: nat,
    m: nat,
)
    requires
        arity >= 1,
    ensures
        layer_above(width, arity, tree_layer(width, arity, leaves, level, arity * m)) == tree_layer(
            width,
            arity,
            leaves,
            level + 1,
            m,
        ),
{
    let layer = tree_layer(width, arity, leaves, level, arity * m);
    let above = tree_layer(width, arity, leaves, level + 1, m);
    lemma_full_groups(layer, arity, m);
    assert forall|p: int| 0 <= p < m implies layer_above(width, arity, layer)[p] == above[p] by {
        assert(p * arity + arity <= arity * m) by (nonlinear_arith)
            requires
                p + 1 <= m,
        ;
        assert(0 <= p * arity) by (nonlinear_arith)
            requires
                0 <= p,
        ;
        assert(group(layer, arity, p) =~= children(width, arity, leaves, level + 1, p as nat));
        lemma_subtree_children(width, arity, leaves, level + 1, p as nat);
    }
    assert(layer_above(width, arity, layer) =~= above);
}

/// The root over a full layer is the top node.
proof fn lemma_root_over_layer(
    width: Option<nat>,
    arity: nat,
    leaves: Seq<Seq<u8>>,
    level: nat,
    rest: nat,
)
    requires
        arity >= 2,
    ensures
        root_over(
            width,
            arity,
            tree_layer(width, arity, leaves, level, tree_size(arity, rest)),
        ) == subtree(width, arity, leaves, level + rest, 0),
    decreases rest,
{
    if rest > 0 {
        let m = tree_size(arity, (rest - 1) as nat);
        lemma_tree_size_pos(arity, (rest - 1) as nat);
        assert(arity * m >= 2) by (nonlinear_arith)
            requires
                arity >= 2,
                m >= 1,
        ;
        lemma_layer_above(width, arity, leaves, level, m);
        lemma_root_over_layer(width, arity, leaves, level + 1, (rest - 1) as nat);
    }
}

/// The root of a full tree is its top node.
pub proof fn lemma_root_is_top(
    width: Option<nat>,
    arity: nat,
    blocks: Seq<Seq<u8>>,
    depth: nat,
)
    requires
        arity >= 2,
        blocks.len() == tree_size(arity, depth),
    ensures
        merkle_root(width, arity, blocks) == subtree(width, arity, leaf_layer(blocks), depth, 0),
{
    let leaves = leaf_layer(blocks);
    assert(leaves =~= tree_layer(width, arity, leaves, 0, blocks.len()));
    lemma_root_over_layer(width, arity, leaves, 0, depth);
    if blocks.len() <= 1 {
        if depth > 0 {
            lemma_tree_size_pos(arity, (depth - 1) as nat);
            assert(arity * tree_size(arity, (depth - 1) as nat) >= 2) by (nonlinear_arith)
                requires
                    arity >= 2,
                    tree_size(arity, (depth - 1) as nat) >= 1,
            ;
        }
        lemma_tree_size_pos(arity, depth);
    }
}

/// Digests, one after the other, take 32 bytes each.
pub proof fn lemma_join_len(parts: Seq<Seq<u8>>)
    requires
        forall|i: int| 0 <= i < parts.len() ==> (#[trigger] parts[i]).len() == 32,
    ensures
        join(parts).len() == 32 * parts.len(),
    decreases parts.len(),
{
    if parts.len() > 0 {
        lemma_join_len(parts.drop_last());
    }
}

/// Every node of a tree over digests is a digest.
pub proof fn lemma_subtree_len(
    width: Option<nat>,
    arity: nat,
    leaves: Seq<Seq<u8>>,
    level: nat,
    pos: nat,
)
    requires
        forall|i: int| 0 <= i < leaves.len() ==> (#[trigger] leaves[i]).len() == 32,
        level == 0 ==> pos < leaves.len(),
    ensures
        subtree(width, arity, leaves, level, pos).len() == 32,
{
    if level == 0 {
        assert(leaves[pos as int].len() == 32);
    } else {
        lemma_digest_len(
            node_input(width, first_children(width, arity, leaves, level, pos, arity)),
        );
    }
}

/// The span of a node is made of the spans of its children.
pub proof fn lemma_child_span(arity: nat, level: nat, pos: nat, c: int, n: nat)
    requires
        level > 0,
        0 <= c < arity,
        (pos + 1) * tree_size(arity, level) <= n,
    ensures
        pos * tree_size(arity, level) <= (pos * arity + c) * tree_size(arity, (level - 1) as nat),
        (pos * arity + c + 1) * tree_size(arity, (level - 1) as nat) <= (pos + 1) * tree_size(
            arity,
            level,
        ),
        ((pos * arity + c) as nat + 1) * tree_size(arity, (level - 1) as nat) <= n,
{
    let s = tree_size(arity, (level - 1) as nat);
    assert(tree_size(arity, level) == arity * s);
    assert(pos * (arity * s) <= (pos * arity + c) * s) by (nonlinear_arith)
        requires
            0 <= c,
            s >= 0,
    ;
    assert((pos * arity + c + 1) * s <= (pos + 1) * (arity * s)) by (nonlinear_arith)
        requires
            c + 1 <= arity,
            s >= 0,
    ;
}

/// A node depends on the leaves under it and on no other.
pub proof fn lemma_subtree_local(
    width: Option<nat>,
    arity: nat,
    a: Seq<Seq<u8>>,
    b: Seq<Seq<u8>>,
    level: nat,
    pos: nat,
)
    requires
        a.len() == b.len(),
        (pos + 1) * tree_size(arity, level) <= a.len(),
        forall|i: int|
            pos * tree_size(arity, level) <= i < (pos + 1) * tree_size(arity, level)
                ==> #[trigger] a[i] == b[i],
    ensures
        subtree(width, arity, a, level, pos) == subtree(width, arity, b, level, pos),
    decreases level,
{
    if level == 0 {
        assert((pos + 1) * 1 == pos + 1 && pos * 1 == pos);
        assert(a[pos as int] == b[pos as int]);
    } else {
        let (ca, cb) = (
            children(width, arity, a, level, pos),
            children(width, arity, b, level, pos),
        );
        assert forall|c: int| 0 <= c < arity implies ca[c] == cb[c] by {
            lemma_child_span(arity, level, pos, c, a.len());
            assert(0 <= pos * arity) by (nonlinear_arith);
            lemma_subtree_local(width, arity, a, b, (level - 1) as nat, (pos * arity + c) as nat);
        }
        assert(ca =~= cb);
        lemma_subtree_children(width, arity, a, level, pos);
        lemma_subtree_children(width, arity, b, level, pos);
    }
}

/// A node is the one in the same place of the tree over the leaves from any
/// multiple of its span on.
proof fn lemma_subtree_shift(
    width: Option<nat>,
    arity: nat,
    leaves: Seq<Seq<u8>>,
    level: nat,
    pos: nat,
    from: nat,
)
    requires
        (from + pos + 1) * tree_size(arity, level) <= leaves.len(),
    ensures
        from * tree_size(arity, level) <= leaves.len(),
        subtree(width, arity, leaves, level, from + pos) == subtree(
            width,
            arity,
            leaves.skip((from * tree_size(arity, level)) as int),
            level,
            pos,
        ),
    decreases level,
{
    let size = tree_size(arity, level);
    assert(from * size <= (from + pos + 1) * size) by (nonlinear_arith)
        requires
            size >= 0,
    ;
    let rest = leaves.skip((from * size) as int);
    if level == 0 {
        assert(from * 1 == from && (from + pos + 1) * 1 == from + pos + 1);
    } else {
        let below = tree_size(arity, (level - 1) as nat);
        let ca = children(width, arity, leaves, level, from + pos);
        let cb = children(width, arity, rest, level, pos);
        assert(from * arity * below == from * (arity * below)) by (nonlinear_arith);
        assert(0 <= from * arity && 0 <= pos * arity) by (nonlinear_arith);
        assert forall|c: int| 0 <= c < arity implies ca[c] == cb[c] by {
            lemma_child_span(arity, level, from + pos, c, leaves.len());
            assert((from + pos) * arity + c == from * arity + (pos * arity + c))
                by (nonlinear_arith);
            lemma_subtree_shift(
                width,
                arity,
                leaves,
                (level - 1) as nat,
                (pos * arity + c) as nat,
                (from * arity) as nat,
            );
        }
        assert(ca =~= cb);
        lemma_subtree_children(width, arity, leaves, level, from + pos);
        lemma_subtree_children(width, arity, rest, level, pos);
    }
}

/// A node depends on as many leaves as it spans.
proof fn lemma_subtree_take(
    width: Option<nat>,
    arity: nat,
    leaves: Seq<Seq<u8>>,
    level: nat,
    pos: nat,
    n: nat,
)
    requires
        (pos + 1) * tree_size(arity, level) <= n <= leaves.len(),
    ensures
        subtree(width, arity, leaves, level, pos) == subtree(
            width,
            arity,
            leaves.take(n as int),
            level,
            pos,
        ),
    decreases level,
{
    let fewer = leaves.take(n as int);
    if level == 0 {
        assert((pos + 1) * 1 == pos + 1);
    } else {
        let ca = children(width, arity, leaves, level, pos);
        let cb = children(width, arity, fewer, level, pos);
        assert(0 <= pos * arity) by (nonlinear_arith);
        assert forall|c: int| 0 <= c < arity implies ca[c] == cb[c] by {
            lemma_child_span(arity, level, pos, c, n);
            lemma_subtree_take(width, arity, leaves, (level - 1) as nat, (pos * arity + c) as nat, n);
        }
        assert(ca =~= cb);
        lemma_subtree_children(width, arity, leaves, level, pos);
        lemma_subtree_children(width, arity, fewer, level, pos);
    }
}

/// The `c`-th part of as many blocks as a tree of the given depth has leaves.
pub open spec fn part(arity: nat, blocks: Seq<Seq<u8>>, depth: nat, c: int) -> Seq<Seq<u8>> {
    blocks.subrange(c * tree_size(arity, depth), (c + 1) * tree_size(arity, depth))
}

/// The tree from the top down: the root over one block is the block's digest, and
/// the root of a deeper full tree hashes the roots of its `arity` parts, from left
/// to right.
pub proof fn lemma_root_of_parts(
    width: Option<nat>,
    arity: nat,
    blocks: Seq<Seq<u8>>,
    depth: nat,
)
    requires
        arity >= 2,
    ensures
        blocks.len() == 1 ==> merkle_root(width, arity, blocks) == sha256_of(blocks[0]),
        blocks.len() == tree_size(arity, depth + 1) ==> merkle_root(width, arity, blocks)
            == sha256_of(
            node_input(
                width,
                Seq::new(
                    arity,
                    |c: int| merkle_root(width, arity, part(arity, blocks, depth, c)),
                ),
            ),
        ),
{
    if blocks.len() == tree_size(arity, depth + 1) {
        let leaves = leaf_layer(blocks);
        let size = tree_size(arity, depth);
        let roots = Seq::new(
            arity,
            |c: int| merkle_root(width, arity, part(arity, blocks, depth, c)),
        );
        lemma_root_is_top(width, arity, blocks, depth + 1);
        lemma_subtree_children(width, arity, leaves, depth + 1, 0);
        let kids = children(width, arity, leaves, depth + 1, 0);
        assert forall|c: int| 0 <= c < arity implies kids[c] == roots[c] by {
            let own = part(arity, blocks, depth, c);
            assert((c + 1) * size <= arity * size && 0 <= c * size && (c + 1) * size == c * size
                + size) by (nonlinear_arith)
                requires
                    0 <= c < arity,
                    size >= 0,
            ;
            let k = c as nat;
            assert((k + 0 + 1) * size <= leaves.len());
            lemma_subtree_shift(width, arity, leaves, depth, 0, k);
            let rest = leaves.skip((k * size) as int);
            assert((0 + 1) * size == size) by (nonlinear_arith);
            lemma_subtree_take(width, arity, rest, depth, 0, size);
            assert(leaf_layer(own) =~= rest.take(size as int));
            lemma_root_is_top(width, arity, own, depth);
            assert(0 * arity + c == c);
        }
        assert(kids =~= roots);
    }
}

/// What a node hashes starts with the digests of its children, from left to
/// right, and goes on with zeros as far as the bucket reaches.
pub proof fn lemma_node_input(w: nat, parts: Seq<Seq<u8>>, i: int, j: int)
    requires
        forall|k: int| 0 <= k < parts.len() ==> (#[trigger] parts[k]).len() == 32,
        0 <= j < 32,
        0 <= i,
    ensures
        node_input(Some(w), parts).len() == 32 * w,
        node_input(None, parts).len() == 32 * parts.len(),
        i < parts.len() && i < w ==> node_input(Some(w), parts)[32 * i + j] == parts[i][j],
        i < parts.len() ==> node_input(None, parts)[32 * i + j] == parts[i][j],
        parts.len() <= i < w ==> node_input(Some(w), parts)[32 * i + j] == 0,
{
    lemma_join_len(parts);
    if i < parts.len() {
        lemma_join_at(parts, i, j);
    }
}

proof fn lemma_join_at(parts: Seq<Seq<u8>>, i: int, j: int)
    requires
        forall|k: int| 0 <= k < parts.len() ==> (#[trigger] parts[k]).len() == 32,
        0 <= j < 32,
        0 <= i < parts.len(),
    ensures
        join(parts)[32 * i + j] == parts[i][j],
    decreases parts.len(),
{
    let fewer = parts.drop_last();
    lemma_join_len(fewer);
    if i < fewer.len() {
        lemma_join_at(fewer, i, j);
    }
}

/// The groups cut a layer into neighbours: member `i` stands in group `i / arity`
/// at place `i % arity`, every group has a member, and none more than `arity`.
pub proof fn lemma_groups(layer: Seq<Seq<u8>>, arity: nat, i: int)
    requires
        arity >= 1,
        0 <= i < layer.len(),
    ensures
        0 <= i / (arity as int) < group_count(layer.len(), arity),
        group(layer, arity, i / (arity as int))[i % (arity as int)] == layer[i],
        1 <= group(layer, arity, i / (arity as int)).len() <= arity,
        i % (arity as int) < group(layer, arity, i / (arity as int)).len(),
        (group_count(layer.len(), arity) - 1) * arity < layer.len() <= group_count(
            layer.len(),
            arity,
        ) * arity,
{
    let (a, n) = (arity as int, layer.len() as int);
    let (q, r) = (i / a, i % a);
    let g = (n + a - 1) / a;
    lemma_fundamental_div_mod(i, a);
    lemma_fundamental_div_mod(n + a - 1, a);
    let s = (n + a - 1) % a;
    assert(0 <= q && q < g && q * a == i - r && (q + 1) * a == q * a + a && (g - 1) * a < n && n
        <= g * a && g >= 0) by (nonlinear_arith)
        requires
            i == a * q + r,
            n + a - 1 == a * g + s,
            0 <= r < a,
            0 <= s < a,
            0 <= i < n,
            a >= 1,
    ;
}

/// A bucket of exactly the children's digests leaves a node as it is without a
/// bucket.
proof fn lemma_exact_bucket(arity: nat, leaves: Seq<Seq<u8>>, level: nat, pos: nat)
    requires
        arity >= 1,
        forall|i: int| 0 <= i < leaves.len() ==> (#[trigger] leaves[i]).len() == 32,
        (pos + 1) * tree_size(arity, level) <= leaves.len(),
    ensures
        subtree(Some(arity), arity, leaves, level, pos) == subtree(None, arity, leaves, level, pos),
    decreases level,
{
    if level > 0 {
        let ca = children(Some(arity), arity, leaves, level, pos);
        let cb = children(None, arity, leaves, level, pos);
        assert forall|c: int| 0 <= c < arity implies ca[c] == cb[c] && (#[trigger] cb[c]).len()
            == 32 by {
            lemma_child_span(arity, level, pos, c, leaves.len());
            assert(0 <= pos * arity) by (nonlinear_arith);
            let q = (pos * arity + c) as nat;
            lemma_exact_bucket(arity, leaves, (level - 1) as nat, q);
            if level == 1 {
                assert((q + 1) * 1 == q + 1);
            }
            lemma_subtree_len(None, arity, leaves, (level - 1) as nat, q);
        }
        assert(ca =~= cb);
        lemma_join_len(cb);
        assert(resized(join(cb), 32 * arity) =~= join(cb));
        lemma_subtree_children(Some(arity), arity, leaves, level, pos);
        lemma_subtree_children(None, arity, leaves, level, pos);
    }
}

/// On a full tree, a bucket as wide as the arity changes nothing: the bucketed
/// root is the plain one.
pub proof fn lemma_full_bucket_is_plain(arity: nat, blocks: Seq<Seq<u8>>, depth: nat)
    requires
        arity >= 2,
        blocks.len() == tree_size(arity, depth),
    ensures
        merkle_root(Some(arity), arity, blocks) == merkle_root(None, arity, blocks),
{
    let leaves = leaf_layer(blocks);
    lemma_root_is_top(Some(arity), arity, blocks, depth);
    lemma_root_is_top(None, arity, blocks, depth);
    assert((0nat + 1) * tree_size(arity, depth) == tree_size(arity, depth)) by (nonlinear_arith);
    assert forall|i: int| 0 <= i < leaves.len() implies (#[trigger] leaves[i]).len() == 32 by {
        lemma_digest_len(blocks[i]);
    }
    lemma_exact_bucket(arity, leaves, depth, 0);
}

/// Joining starts with the first part.
pub proof fn lemma_join_first(parts: Seq<Seq<u8>>)
    requires
        parts.len() > 0,
    ensures
        join(parts) == parts[0] + join(parts.skip(1)),
    decreases parts.len(),
{
    let rest = parts.skip(1);
    if parts.len() == 1 {
        assert(parts.drop_last() =~= Seq::empty());
        assert(rest =~= Seq::empty());
        assert(join(parts) =~= parts[0] + join(rest));
    } else {
        let shorter = parts.drop_last();
        lemma_join_first(shorter);
        assert(shorter.skip(1) =~= rest.drop_last());
        assert(join(parts) =~= parts[0] + join(rest));
    }
}

/// The bucket of a node is the left child's digest and the padded digests of
/// the others.
pub proof fn lemma_bucket_splits(parts: Seq<Seq<u8>>, w: nat)
    requires
        parts.len() > 0,
        w > 0,
        parts[0].len() == 32,
    ensures
        resized(join(parts), 32 * w) == parts[0] + resized(
            join(parts.skip(1)),
            (32 * (w - 1)) as nat,
        ),
{
    lemma_join_first(parts);
    assert(resized(join(parts), 32 * w) =~= parts[0] + resized(
        join(parts.skip(1)),
        (32 * (w - 1)) as nat,
    ));
}

/// The number of leaves of a full tree, if it fits.
pub fn leaf_count(arity: usize, depth: usize) -> (n: usize)
    requires
        tree_size(arity as nat, depth as nat) <= usize::MAX,
    ensures
        n == tree_size(arity as nat, depth as nat),
{
    if arity == 0 {
        if depth == 0 {
            return 1;
        }
        assert(0 * tree_size(0, (depth - 1) as nat) == 0) by (nonlinear_arith);
        return 0;
    }
    let mut n: usize = 1;
    for k in 0..depth
        invariant
            arity >= 1,
            tree_size(arity as nat, depth as nat) <= usize::MAX,
            n == tree_size(arity as nat, k as nat),
    {
        proof {
            lemma_tree_size_grows(arity as nat, (k + 1) as nat, depth as nat);
        }
        n = arity * n;
    }
    n
}

/// A deeper tree has at least as many leaves.
pub proof fn lemma_tree_size_grows(arity: nat, k: nat, depth: nat)
    requires
        arity >= 1,
        k <= depth,
    ensures
        tree_size(arity, k) <= tree_size(arity, depth),
    decreases depth,
{
    if k < depth {
        lemma_tree_size_grows(arity, k, (depth - 1) as nat);
        let s = tree_size(arity, (depth - 1) as nat);
        assert(s <= arity * s) by (nonlinear_arith)
            requires
                arity >= 1,
        ;
    }
}

/// A tree of arity two or more and depth 64 or more has at least `2^64` leaves.
pub proof fn lemma_tree_size_above(arity: nat, depth: nat)
    requires
        arity >= 2,
        64 <= depth,
    ensures
        tree_size(arity, depth) >= 0x1_0000_0000_0000_0000,
{
    lemma2_to64_rest();
    lemma_tree_size_pow2(arity, 64);
    lemma_tree_size_grows(arity, 64, depth);
}

/// A tree of arity two or more has at least as many leaves as a binary one.
proof fn lemma_tree_size_pow2(arity: nat, depth: nat)
    requires
        arity >= 2,
    ensures
        tree_size(arity, depth) >= pow2(depth),
    decreases depth,
{
    lemma2_to64();
    if depth > 0 {
        let d = (depth - 1) as nat;
        lemma_tree_size_pow2(arity, d);
        lemma_pow2_unfold(depth);
        let s = tree_size(arity, d);
        assert(arity * s >= 2 * s) by (nonlinear_arith)
            requires
                arity >= 2,
        ;
    }
}

/// A tree has the leaves of a subtree times as many subtrees.
pub proof fn lemma_tree_size_splits(arity: nat, level: nat, depth: nat)
    requires
        level <= depth,
    ensures
        tree_size(arity, depth) == tree_size(arity, level) * tree_size(
            arity,
            (depth - level) as nat,
        ),
    decreases level,
{
    let rest = tree_size(arity, (depth - level) as nat) as int;
    if level == 0 {
        assert(1 * rest == rest);
    } else {
        let l = (level - 1) as nat;
        lemma_tree_size_splits(arity, l, depth);
        let below = tree_size(arity, l) as int;
        let more = tree_size(arity, (depth - l) as nat) as int;
        assert((depth - l) as nat - 1 == depth - level);
        assert(more == arity * rest);
        assert(below * (arity * rest) == (arity * below) * rest) by (nonlinear_arith);
    }
}

} // verus!
