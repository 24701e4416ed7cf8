//! What every node knows of the protocol: its configuration, the canonical
//! chain, the chunks certified so far, and who plays which role when.
use vstd::prelude::*;
use crate::config::{chunk_producer_names_fit, Config};
use crate::naming::{
    block_producer_name, block_producer_prefix_bytes, chunk_producer_name,
    chunk_producer_prefix_bytes, dashed_name, data_owner_name, data_owner_prefix,
    data_owner_prefix_bytes, decimal, lemma_decimal_len_u32, numbered_name, replica_name,
    replica_prefix_bytes, validator_name, validator_prefix, validator_prefix_bytes, NodeRole,
};
use crate::sim_core::message::HandlerError;
use crate::sim_core::node::{padded, NodeID};
use crate::sorted_map::SortedMap;
use crate::types::block::{block_hash, genesis_view, Block, BlockView};
use crate::types::cert::{AvailCert, CertView, StateCert};
use crate::types::chunk::ChunkID;
use crate::types::encoding::{block_encodable, is_encodable};
use crate::types::height::Height;
use crate::types::shard::ShardID;

verus! {

/// `ids` is the list of the `n` identities named `name(0)`, ..., `name(n - 1)`.
pub open spec fn ids_named(ids: Seq<NodeID>, name: spec_fn(nat) -> Seq<u8>, n: nat) -> bool {
    &&& ids.len() == n
    &&& forall|i: int| 0 <= i < n ==> (#[trigger] ids[i])@ == padded(name(i as nat))
}

/// `ids` lists, shard after shard, the `n` identities `name(s, 0)`, ...,
/// `name(s, n - 1)` of each of the shards `0`, ..., `shards - 1`.
pub open spec fn ids_named_per_shard(
    ids: Seq<NodeID>,
    name: spec_fn(nat, nat) -> Seq<u8>,
    shards: nat,
    n: nat,
) -> bool {
    &&& ids.len() == shards * n
    &&& forall|k: int| 0 <= k < ids.len() ==> (#[trigger] ids[k])@ == padded(name((k / n as int) as nat, (k % n as int) as nat))
}

/// The names `name(0)`, ..., `name(n - 1)`.
pub open spec fn named_seq(name: spec_fn(nat) -> Seq<u8>, n: nat) -> Seq<Seq<u8>> {
    Seq::new(n, |i: int| name(i as nat))
}

/// The names `name(s, i)` for every shard `s < shards` and every `i < n`,
/// shard after shard.
pub open spec fn named_seq_per_shard(name: spec_fn(nat, nat) -> Seq<u8>, shards: nat, n: nat) -> Seq<Seq<u8>> {
    Seq::new(shards * n, |k: int| name((k / n as int) as nat, (k % n as int) as nat))
}

/// The identity bytes of the nodes named `names`.
pub open spec fn identities(names: Seq<Seq<u8>>) -> Seq<Seq<u8>> {
    names.map_values(|n: Seq<u8>| padded(n))
}

/// `ids` are, one for one, the identities of the nodes named `names`.
pub open spec fn ids_match(ids: Seq<NodeID>, names: Seq<Seq<u8>>) -> bool {
    &&& ids.len() == names.len()
    &&& forall|k: int| 0 <= k < ids.len() ==> (#[trigger] ids[k])@ == padded(names[k])
}

/// The names `name((start + k) % pool_size)` for `k < num_items`.
pub open spec fn rotation_seq(name: spec_fn(nat) -> Seq<u8>, start: nat, num_items: nat, pool_size: nat) -> Seq<Seq<u8>> {
    Seq::new(num_items, |k: int| name(((start + k) % (pool_size as int)) as nat))
}

/// Identities named by a rotation match the rotation's names.
pub proof fn lemma_rotation_match(ids: Seq<NodeID>, name: spec_fn(nat) -> Seq<u8>, start: nat, num_items: nat, pool_size: nat)
    requires
        rotation_named(ids, name, start, num_items, pool_size),
    ensures
        ids_match(ids, rotation_seq(name, start, num_items, pool_size)),
{
}

/// Identities that match names have the names' identity bytes.
pub proof fn lemma_ids_match_bytes(ids: Seq<NodeID>, names: Seq<Seq<u8>>)
    requires
        ids_match(ids, names),
    ensures
        crate::sim_core::node::id_bytes(ids) == identities(names),
{
    assert(crate::sim_core::node::id_bytes(ids) =~= identities(names));
}

/// Identities named `name(0)`, ... match those names.
pub proof fn lemma_ids_named_match(ids: Seq<NodeID>, name: spec_fn(nat) -> Seq<u8>, n: nat)
    requires
        ids_named(ids, name, n),
    ensures
        ids_match(ids, named_seq(name, n)),
{
}

/// Identities named shard after shard match those names.
pub proof fn lemma_ids_named_per_shard_match(ids: Seq<NodeID>, name: spec_fn(nat, nat) -> Seq<u8>, shards: nat, n: nat)
    requires
        ids_named_per_shard(ids, name, shards, n),
    ensures
        ids_match(ids, named_seq_per_shard(name, shards, n)),
{
}

/// Matching identities and names can be concatenated.
pub proof fn lemma_ids_match_concat(a: Seq<NodeID>, na: Seq<Seq<u8>>, b: Seq<NodeID>, nb: Seq<Seq<u8>>)
    requires
        ids_match(a, na),
        ids_match(b, nb),
    ensures
        ids_match(a + b, na + nb),
{
    assert forall|k: int| 0 <= k < (a + b).len() implies (#[trigger] (a + b)[k])@ == padded((na + nb)[k]) by {
        if k >= a.len() {
            assert((a + b)[k] == b[k - a.len()]);
            assert((na + nb)[k] == nb[k - a.len()]);
        }
    }
}

/// The chunks that a list of certificates certifies.
pub open spec fn cert_chunks(certs: Seq<CertView>) -> Set<ChunkID> {
    Set::new(|c: ChunkID| exists|i: int| 0 <= i < certs.len() && (#[trigger] certs[i]).chunk_id == c)
}

/// `b` may be appended to `chain`: the first block must be the genesis block;
/// any later one must name the hash of the current head as its parent.
pub open spec fn block_fits(chain: Seq<BlockView>, b: BlockView) -> bool {
    if chain.len() == 0 {
        b == genesis_view()
    } else {
        block_encodable(chain.last()) && b.parent_hash@ == block_hash(chain.last())
    }
}

/// Why `b` cannot extend `chain`: a first block that is not the genesis
/// block, a head with no encoding (hence no hash), or a parent hash that is
/// not the head's.
pub open spec fn misfit(chain: Seq<BlockView>, b: BlockView) -> HandlerError {
    if chain.len() == 0 {
        HandlerError::NonGenesisFirstBlock
    } else if !block_encodable(chain.last()) {
        HandlerError::Unencodable
    } else {
        HandlerError::BlockOutOfOrder
    }
}

/// The start of a rotation: `((shard + height * num_shards) * num_items) % pool_size`.
#[verifier::opaque]
pub open spec fn rotation_start(height: u32, shard: u32, num_shards: u32, num_items: u32, pool_size: u32) -> nat {
    (((shard + height * num_shards) * num_items) % (pool_size as int)) as nat
}

/// The rotation start is computed without overflowing a `u32`.
#[verifier::opaque]
pub open spec fn rotation_fits(height: u32, shard: u32, num_shards: u32, num_items: u32) -> bool {
    &&& height * num_shards <= u32::MAX
    &&& shard + height * num_shards <= u32::MAX
    &&& (shard + height * num_shards) * num_items <= u32::MAX
}

/// `ids` holds `num_items` names `name(i)` for consecutive `i` (wrapping
/// around `pool_size`) from `start`.
pub open spec fn rotation_named(ids: Seq<NodeID>, name: spec_fn(nat) -> Seq<u8>, start: nat, num_items: nat, pool_size: nat) -> bool {
    &&& ids.len() == num_items
    &&& forall|k: int| 0 <= k < num_items ==> (#[trigger] ids[k])@ == padded(name(((start + k) % (pool_size as int)) as nat))
}

/// Two members of rotations at one height, for shards below `num_shards` whose
/// batches together fit in the pool, sit at different places of the pool
/// unless they are the same member of the same shard's batch.
proof fn lemma_rotation_slots_distinct(
    height: u32,
    s1: u32,
    s2: u32,
    num_shards: u32,
    num_items: u32,
    pool_size: u32,
    k1: int,
    k2: int,
)
    requires
        pool_size > 0,
        num_shards * num_items <= pool_size,
        s1 < num_shards,
        s2 < num_shards,
        rotation_fits(height, s1, num_shards, num_items),
        rotation_fits(height, s2, num_shards, num_items),
        0 <= k1 < num_items,
        0 <= k2 < num_items,
        s1 != s2 || k1 != k2,
    ensures
        (rotation_start(height, s1, num_shards, num_items, pool_size) + k1) % (pool_size as int)
            != (rotation_start(height, s2, num_shards, num_items, pool_size) + k2) % (pool_size as int),
{
    reveal(rotation_start);
    let p = pool_size as int;
    let n = num_items as int;
    let base = height * num_shards;
    let x1 = (s1 + base) * n + k1;
    let x2 = (s2 + base) * n + k2;
    vstd::arithmetic::div_mod::lemma_add_mod_noop((s1 + base) * n, k1, p);
    vstd::arithmetic::div_mod::lemma_add_mod_noop((s2 + base) * n, k2, p);
    vstd::arithmetic::div_mod::lemma_mod_twice(k1, p);
    vstd::arithmetic::div_mod::lemma_mod_twice(k2, p);
    vstd::arithmetic::div_mod::lemma_mod_twice((s1 + base) * n, p);
    vstd::arithmetic::div_mod::lemma_mod_twice((s2 + base) * n, p);
    assert(x1 % p == (rotation_start(height, s1, num_shards, num_items, pool_size) + k1) % p) by {
        vstd::arithmetic::div_mod::lemma_add_mod_noop((((s1 + base) * n) % p), k1, p);
    }
    assert(x2 % p == (rotation_start(height, s2, num_shards, num_items, pool_size) + k2) % p) by {
        vstd::arithmetic::div_mod::lemma_add_mod_noop((((s2 + base) * n) % p), k2, p);
    }
    let sn = num_shards as int;
    let d1 = s1 as int;
    let d2 = s2 as int;
    assert(x1 != x2 && x1 - x2 < p && x2 - x1 < p) by (nonlinear_arith)
        requires
            x1 == (d1 + base) * n + k1,
            x2 == (d2 + base) * n + k2,
            0 <= d1 < sn,
            0 <= d2 < sn,
            0 <= k1 < n,
            0 <= k2 < n,
            d1 != d2 || k1 != k2,
            sn * n <= p,
    {
        assert((d1 + base) * n == d1 * n + base * n);
        assert((d2 + base) * n == d2 * n + base * n);
        if d1 < d2 {
            assert((d2 - d1) * n >= n);
            assert((d2 - d1) * n <= (sn - 1) * n);
        } else if d2 < d1 {
            assert((d1 - d2) * n >= n);
            assert((d1 - d2) * n <= (sn - 1) * n);
        } else {
            assert(sn * n >= n);
        }
    }
    vstd::arithmetic::div_mod::lemma_fundamental_div_mod(x1, p);
    vstd::arithmetic::div_mod::lemma_fundamental_div_mod(x2, p);
    if x1 % p == x2 % p {
        let q1 = x1 / p;
        let q2 = x2 / p;
        assert(false) by (nonlinear_arith)
            requires
                x1 == p * q1 + x1 % p,
                x2 == p * q2 + x2 % p,
                x1 % p == x2 % p,
                x1 != x2,
                x1 - x2 < p,
                x2 - x1 < p,
                p > 0,
        {
            assert(x1 - x2 == p * (q1 - q2));
            if q1 > q2 {
                assert(p * (q1 - q2) >= p);
            } else if q1 < q2 {
                assert(p * (q2 - q1) >= p);
            }
        }
    }
}

/// Two members of rotations at one height, named by `name`, have different
/// identities unless they are the same member of the same shard's batch,
/// where `name` gives different members of the pool different identities.
proof fn lemma_rotation_ids_distinct(
    ids1: Seq<NodeID>,
    ids2: Seq<NodeID>,
    name: spec_fn(nat) -> Seq<u8>,
    height: u32,
    s1: u32,
    s2: u32,
    num_shards: u32,
    num_items: u32,
    pool_size: u32,
)
    requires
        pool_size > 0,
        num_shards * num_items <= pool_size,
        s1 < num_shards,
        s2 < num_shards,
        rotation_fits(height, s1, num_shards, num_items),
        rotation_fits(height, s2, num_shards, num_items),
        rotation_named(ids1, name, rotation_start(height, s1, num_shards, num_items, pool_size), num_items as nat, pool_size as nat),
        rotation_named(ids2, name, rotation_start(height, s2, num_shards, num_items, pool_size), num_items as nat, pool_size as nat),
        forall|a: nat, b: nat| a < pool_size && b < pool_size && a != b ==> padded(#[trigger] name(a)) != padded(#[trigger] name(b)),
    ensures
        forall|k1: int, k2: int|
            0 <= k1 < num_items && 0 <= k2 < num_items && (s1 != s2 || k1 != k2) ==> (#[trigger] ids1[k1])@ != (#[trigger] ids2[k2])@,
{
    let p = pool_size as int;
    let st1 = rotation_start(height, s1, num_shards, num_items, pool_size);
    let st2 = rotation_start(height, s2, num_shards, num_items, pool_size);
    assert forall|k1: int, k2: int|
        0 <= k1 < num_items && 0 <= k2 < num_items && (s1 != s2 || k1 != k2) implies (#[trigger] ids1[k1])@ != (#[trigger] ids2[k2])@ by {
        lemma_rotation_slots_distinct(height, s1, s2, num_shards, num_items, pool_size, k1, k2);
        let a = ((st1 + k1) % p) as nat;
        let b = ((st2 + k2) % p) as nat;
        assert(ids1[k1]@ == padded(name(a)));
        assert(ids2[k2]@ == padded(name(b)));
        assert(a < pool_size && b < pool_size && a != b);
    }
}

/// Rotations at one height over a pool of nodes named `prefix` followed by
/// their number: when the shards' batches together fit in the pool
/// (`num_shards * num_items <= pool_size`), two different shards get no
/// common node and no batch names a node twice.
pub proof fn lemma_round_robin_batches_disjoint(
    ids1: Seq<NodeID>,
    ids2: Seq<NodeID>,
    prefix: Seq<u8>,
    height: u32,
    s1: u32,
    s2: u32,
    num_shards: u32,
    num_items: u32,
    pool_size: u32,
)
    requires
        pool_size > 0,
        num_shards * num_items <= pool_size,
        s1 < num_shards,
        s2 < num_shards,
        forall|i: int| 0 <= i < prefix.len() ==> prefix[i] != 0u8,
        prefix.len() + decimal((pool_size - 1) as nat).len() <= 32,
        rotation_fits(height, s1, num_shards, num_items),
        rotation_fits(height, s2, num_shards, num_items),
        rotation_named(ids1, |i: nat| prefix + decimal(i), rotation_start(height, s1, num_shards, num_items, pool_size), num_items as nat, pool_size as nat),
        rotation_named(ids2, |i: nat| prefix + decimal(i), rotation_start(height, s2, num_shards, num_items, pool_size), num_items as nat, pool_size as nat),
    ensures
        forall|k1: int, k2: int|
            0 <= k1 < num_items && 0 <= k2 < num_items && (s1 != s2 || k1 != k2) ==> (#[trigger] ids1[k1])@ != (#[trigger] ids2[k2])@,
{
    let name = |i: nat| prefix + decimal(i);
    assert forall|a: nat, b: nat| a < pool_size && b < pool_size && a != b implies padded(#[trigger] name(a)) != padded(#[trigger] name(b)) by {
        crate::naming::lemma_decimal_len_monotonic(a, (pool_size - 1) as nat);
        crate::naming::lemma_decimal_len_monotonic(b, (pool_size - 1) as nat);
        crate::naming::lemma_decimal_digits(a);
        crate::naming::lemma_decimal_digits(b);
        let na = prefix + decimal(a);
        let nb = prefix + decimal(b);
        assert forall|i: int| 0 <= i < na.len() implies na[i] != 0u8 by {
            if i >= prefix.len() {
                assert(na[i] == decimal(a)[i - prefix.len()]);
            }
        }
        assert forall|i: int| 0 <= i < nb.len() implies nb[i] != 0u8 by {
            if i >= prefix.len() {
                assert(nb[i] == decimal(b)[i - prefix.len()]);
            }
        }
        if padded(na) == padded(nb) {
            crate::sim_core::node::lemma_padded_injective(na, nb);
            crate::naming::lemma_prefix_cancel(prefix, decimal(a), decimal(b));
            crate::naming::lemma_decimal_injective(a, b);
        }
    }
    lemma_rotation_ids_distinct(ids1, ids2, name, height, s1, s2, num_shards, num_items, pool_size);
}

/// The data owners of two different shards at one height are different
/// nodes, and no data owner holds two parts of one chunk, whenever the
/// shards' batches together fit in the pool
/// (`num_shards * num_chunk_data_parts <= num_data_owners`).
pub proof fn lemma_data_owner_batches_disjoint(
    ids1: Seq<NodeID>,
    ids2: Seq<NodeID>,
    height: u32,
    s1: u32,
    s2: u32,
    num_shards: u32,
    num_parts: u32,
    num_data_owners: u32,
)
    requires
        num_data_owners > 0,
        num_shards * num_parts <= num_data_owners,
        s1 < num_shards,
        s2 < num_shards,
        rotation_fits(height, s1, num_shards, num_parts),
        rotation_fits(height, s2, num_shards, num_parts),
        rotation_named(ids1, |i: nat| data_owner_name(i), rotation_start(height, s1, num_shards, num_parts, num_data_owners), num_parts as nat, num_data_owners as nat),
        rotation_named(ids2, |i: nat| data_owner_name(i), rotation_start(height, s2, num_shards, num_parts, num_data_owners), num_parts as nat, num_data_owners as nat),
    ensures
        forall|k1: int, k2: int|
            0 <= k1 < num_parts && 0 <= k2 < num_parts && (s1 != s2 || k1 != k2) ==> (#[trigger] ids1[k1])@ != (#[trigger] ids2[k2])@,
{
    let name = |i: nat| data_owner_name(i);
    assert forall|a: nat, b: nat| a < num_data_owners && b < num_data_owners && a != b implies padded(#[trigger] name(a)) != padded(#[trigger] name(b)) by {
        lemma_decimal_len_u32(a);
        lemma_decimal_len_u32(b);
        crate::naming::lemma_role_ids_distinct(NodeRole::DataOwner(a as u32), NodeRole::DataOwner(b as u32));
    }
    lemma_rotation_ids_distinct(ids1, ids2, name, height, s1, s2, num_shards, num_parts, num_data_owners);
}

/// The validators of two different shards at one height are different
/// nodes, and no validator is sampled twice for one chunk, whenever the
/// shards' samples together fit in the pool
/// (`num_shards * validator_sample_size <= num_validators`).
pub proof fn lemma_validator_batches_disjoint(
    ids1: Seq<NodeID>,
    ids2: Seq<NodeID>,
    height: u32,
    s1: u32,
    s2: u32,
    num_shards: u32,
    sample_size: u32,
    num_validators: u32,
)
    requires
        num_validators > 0,
        num_shards * sample_size <= num_validators,
        s1 < num_shards,
        s2 < num_shards,
        rotation_fits(height, s1, num_shards, sample_size),
        rotation_fits(height, s2, num_shards, sample_size),
        rotation_named(ids1, |i: nat| validator_name(i), rotation_start(height, s1, num_shards, sample_size, num_validators), sample_size as nat, num_validators as nat),
        rotation_named(ids2, |i: nat| validator_name(i), rotation_start(height, s2, num_shards, sample_size, num_validators), sample_size as nat, num_validators as nat),
    ensures
        forall|k1: int, k2: int|
            0 <= k1 < sample_size && 0 <= k2 < sample_size && (s1 != s2 || k1 != k2) ==> (#[trigger] ids1[k1])@ != (#[trigger] ids2[k2])@,
{
    let name = |i: nat| validator_name(i);
    assert forall|a: nat, b: nat| a < num_validators && b < num_validators && a != b implies padded(#[trigger] name(a)) != padded(#[trigger] name(b)) by {
        lemma_decimal_len_u32(a);
        lemma_decimal_len_u32(b);
        crate::naming::lemma_role_ids_distinct(NodeRole::Validator(a as u32), NodeRole::Validator(b as u32));
    }
    lemma_rotation_ids_distinct(ids1, ids2, name, height, s1, s2, num_shards, sample_size, num_validators);
}

/// The chain starts at the genesis block, and each later block names the
/// hash of the one before it.
pub open spec fn chain_linked(chain: Seq<BlockView>) -> bool {
    &&& chain.len() > 0 ==> chain[0] == genesis_view()
    &&& forall|i: int|
        0 < i < chain.len() ==> block_encodable(chain[i - 1]) && (#[trigger] chain[i]).parent_hash@ == block_hash(chain[i - 1])
}

/// The chunks of the availability certificates of the blocks of `chain`.
pub open spec fn certified_avail(chain: Seq<BlockView>) -> Set<ChunkID>
    decreases chain.len(),
{
    if chain.len() == 0 {
        Set::empty()
    } else {
        certified_avail(chain.drop_last()) + cert_chunks(chain.last().avail_certs)
    }
}

/// The chunks of the state certificates of the blocks of `chain`.
pub open spec fn certified_state(chain: Seq<BlockView>) -> Set<ChunkID>
    decreases chain.len(),
{
    if chain.len() == 0 {
        Set::empty()
    } else {
        certified_state(chain.drop_last()) + cert_chunks(chain.last().state_certs)
    }
}

/// The chain state every role keeps: the configuration, the canonical
/// chain, and the chunks certified available or endorsed in it.
pub struct CoreState {
    config: Config,
    canonical_chain: Vec<Block>,
    avail_certs: SortedMap<ChunkID, ()>,
    state_certs: SortedMap<ChunkID, ()>,
}

/// Two positions of a shard-major listing of `n` items per shard name
/// different (shard, item) pairs.
proof fn lemma_split_positions_distinct(k1: int, k2: int, shards: int, n: int)
    requires
        0 <= k1 < shards * n,
        0 <= k2 < shards * n,
        k1 != k2,
        n > 0,
    ensures
        k1 / n < shards,
        k2 / n < shards,
        k1 / n != k2 / n || k1 % n != k2 % n,
{
    vstd::arithmetic::div_mod::lemma_fundamental_div_mod(k1, n);
    vstd::arithmetic::div_mod::lemma_fundamental_div_mod(k2, n);
    vstd::arithmetic::div_mod::lemma_div_pos_is_pos(k1, n);
    vstd::arithmetic::div_mod::lemma_div_pos_is_pos(k2, n);
    assert(k1 / n < shards && k2 / n < shards) by (nonlinear_arith)
        requires
            0 <= k1 < shards * n,
            0 <= k2 < shards * n,
            k1 == n * (k1 / n) + k1 % n,
            k2 == n * (k2 / n) + k2 % n,
            0 <= k1 % n,
            0 <= k2 % n,
            n > 0,
    {
        if k1 / n >= shards {
            assert(n * (k1 / n) >= n * shards);
        }
        if k2 / n >= shards {
            assert(n * (k2 / n) >= n * shards);
        }
    }
}

/// The chunk producers of all shards, listed shard after shard, are all
/// different nodes.
pub proof fn lemma_chunk_producer_ids_distinct(ids: Seq<NodeID>, num_shards: u32, per_shard: u32)
    requires
        ids_named_per_shard(ids, |s: nat, i: nat| chunk_producer_name(s, i), num_shards as nat, per_shard as nat),
        forall|s: nat| s < num_shards ==> #[trigger] chunk_producer_names_fit(s, per_shard as nat),
    ensures
        forall|k1: int, k2: int| 0 <= k1 < ids.len() && 0 <= k2 < ids.len() && k1 != k2 ==> (#[trigger] ids[k1])@ != (#[trigger] ids[k2])@,
{
    let n = per_shard as int;
    assert forall|k1: int, k2: int| 0 <= k1 < ids.len() && 0 <= k2 < ids.len() && k1 != k2 implies (#[trigger] ids[k1])@ != (#[trigger] ids[k2])@ by {
        if n == 0 {
            assert(ids.len() == 0) by (nonlinear_arith)
                requires ids.len() == num_shards * n, n == 0;
        } else {
            lemma_split_positions_distinct(k1, k2, num_shards as int, n);
            let s1 = (k1 / n) as nat;
            let i1 = (k1 % n) as nat;
            let s2 = (k2 / n) as nat;
            let i2 = (k2 % n) as nat;
            assert(chunk_producer_names_fit(s1, per_shard as nat));
            assert(chunk_producer_names_fit(s2, per_shard as nat));
            assert(chunk_producer_name(s1, i1).len() <= 32);
            assert(chunk_producer_name(s2, i2).len() <= 32);
            let a = NodeRole::ChunkProducer(s1 as u32, i1 as u32);
            let b = NodeRole::ChunkProducer(s2 as u32, i2 as u32);
            crate::naming::lemma_role_ids_distinct(a, b);
        }
    }
}

/// The replicas of all shards, listed shard after shard, are all different
/// nodes.
pub proof fn lemma_replica_ids_distinct(ids: Seq<NodeID>, num_shards: u32, per_shard: u32)
    requires
        ids_named_per_shard(ids, |s: nat, i: nat| replica_name(s, i), num_shards as nat, per_shard as nat),
    ensures
        forall|k1: int, k2: int| 0 <= k1 < ids.len() && 0 <= k2 < ids.len() && k1 != k2 ==> (#[trigger] ids[k1])@ != (#[trigger] ids[k2])@,
{
    let n = per_shard as int;
    assert forall|k1: int, k2: int| 0 <= k1 < ids.len() && 0 <= k2 < ids.len() && k1 != k2 implies (#[trigger] ids[k1])@ != (#[trigger] ids[k2])@ by {
        if n == 0 {
            assert(ids.len() == 0) by (nonlinear_arith)
                requires ids.len() == num_shards * n, n == 0;
        } else {
            lemma_split_positions_distinct(k1, k2, num_shards as int, n);
            let s1 = (k1 / n) as nat;
            let i1 = (k1 % n) as nat;
            let s2 = (k2 / n) as nat;
            let i2 = (k2 % n) as nat;
            lemma_decimal_len_u32(s1);
            lemma_decimal_len_u32(i1);
            lemma_decimal_len_u32(s2);
            lemma_decimal_len_u32(i2);
            let a = NodeRole::Replica(s1 as u32, i1 as u32);
            let b = NodeRole::Replica(s2 as u32, i2 as u32);
            crate::naming::lemma_role_ids_distinct(a, b);
        }
    }
}

/// `(s * n + i) / n == s` and `(s * n + i) % n == i` for `i < n`.
proof fn lemma_split_index(s: int, i: int, n: int)
    requires
        0 <= s,
        0 <= i < n,
    ensures
        (s * n + i) / n == s,
        (s * n + i) % n == i,
{
    vstd::arithmetic::div_mod::lemma_fundamental_div_mod_converse(s * n + i, n, s, i);
}

/// Certifying one more chunk adds it to the certified set.
pub proof fn lemma_cert_chunks_step(s: Seq<CertView>, i: int)
    requires
        0 <= i < s.len(),
    ensures
        cert_chunks(s.subrange(0, i + 1)) == cert_chunks(s.subrange(0, i)).insert(s[i].chunk_id),
{
    let s1 = s.subrange(0, i + 1);
    let s0 = s.subrange(0, i);
    assert forall|c: ChunkID| #[trigger] cert_chunks(s1).contains(c) implies cert_chunks(s0).insert(s[i].chunk_id).contains(c) by {
        let j = choose|j: int| 0 <= j < s1.len() && (#[trigger] s1[j]).chunk_id == c;
        if j < i {
            assert(s0[j] == s1[j]);
        }
    }
    assert forall|c: ChunkID| #[trigger] cert_chunks(s0).insert(s[i].chunk_id).contains(c) implies cert_chunks(s1).contains(c) by {
        if c == s[i].chunk_id {
            assert(s1[i].chunk_id == c);
        } else {
            let j = choose|j: int| 0 <= j < s0.len() && (#[trigger] s0[j]).chunk_id == c;
            assert(s1[j] == s0[j]);
        }
    }
    assert(cert_chunks(s1) =~= cert_chunks(s0).insert(s[i].chunk_id));
}

/// Adds the chunks of `certs` to `set`.
fn record_avail_chunks(set: &mut SortedMap<ChunkID, ()>, certs: &Vec<AvailCert>)
    requires
        old(set).wf(),
    ensures
        final(set).wf(),
        final(set)@.dom() == old(set)@.dom() + cert_chunks(certs@.map_values(|c: AvailCert| c@)),
{
    let ghost views = certs@.map_values(|c: AvailCert| c@);
    let mut i: usize = 0;
    while i < certs.len()
        invariant
            i <= certs@.len(),
            views == certs@.map_values(|c: AvailCert| c@),
            set.wf(),
            set@.dom() == old(set)@.dom() + cert_chunks(views.subrange(0, i as int)),
        decreases certs@.len() - i,
    {
        set.insert(certs[i].chunk_id, ());
        proof {
            lemma_cert_chunks_step(views, i as int);
            assert(set@.dom() =~= old(set)@.dom() + cert_chunks(views.subrange(0, i + 1)));
        }
        i = i + 1;
    }
    proof {
        assert(views.subrange(0, views.len() as int) =~= views);
    }
}

/// Adds the chunks of `certs` to `set`.
fn record_state_chunks(set: &mut SortedMap<ChunkID, ()>, certs: &Vec<StateCert>)
    requires
        old(set).wf(),
    ensures
        final(set).wf(),
        final(set)@.dom() == old(set)@.dom() + cert_chunks(certs@.map_values(|c: StateCert| c@)),
{
    let ghost views = certs@.map_values(|c: StateCert| c@);
    let mut i: usize = 0;
    while i < certs.len()
        invariant
            i <= certs@.len(),
            views == certs@.map_values(|c: StateCert| c@),
            set.wf(),
            set@.dom() == old(set)@.dom() + cert_chunks(views.subrange(0, i as int)),
        decreases certs@.len() - i,
    {
        set.insert(certs[i].chunk_id, ());
        proof {
            lemma_cert_chunks_step(views, i as int);
            assert(set@.dom() =~= old(set)@.dom() + cert_chunks(views.subrange(0, i + 1)));
        }
        i = i + 1;
    }
    proof {
        assert(views.subrange(0, views.len() as int) =~= views);
    }
}

impl CoreState {
    /// The configuration.
    pub closed spec fn cfg(&self) -> Config {
        self.config
    }

    /// The canonical chain, genesis first.
    pub closed spec fn chain(&self) -> Seq<BlockView> {
        self.canonical_chain@.map_values(|b: Block| b@)
    }

    /// The chunks with an availability certificate in the chain.
    pub closed spec fn available(&self) -> Set<ChunkID> {
        self.avail_certs@.dom()
    }

    /// The chunks with a state certificate in the chain.
    pub closed spec fn endorsed(&self) -> Set<ChunkID> {
        self.state_certs@.dom()
    }

    /// The certified chunks are kept as sorted maps.
    pub closed spec fn wf(&self) -> bool {
        &&& self.avail_certs.wf()
        &&& self.state_certs.wf()
        &&& chain_linked(self.chain())
        &&& self.available() == certified_avail(self.chain())
        &&& self.endorsed() == certified_state(self.chain())
    }

    /// What every chain state holds: the chain starts at the genesis block,
    /// each later block names the hash of the one before, and the chunks
    /// certified available (endorsed) are those of the availability (state)
    /// certificates of the chain's blocks.
    pub proof fn lemma_chain_shape(&self)
        requires
            self.wf(),
        ensures
            chain_linked(self.chain()),
            self.available() == certified_avail(self.chain()),
            self.endorsed() == certified_state(self.chain()),
    {
    }

    /// An empty chain under `config`.
    pub fn new(config: Config) -> (r: Self)
        ensures
            r.wf(),
            r.cfg() == config,
            r.chain() == Seq::<BlockView>::empty(),
            r.available() == Set::<ChunkID>::empty(),
            r.endorsed() == Set::<ChunkID>::empty(),
    {
        let r = Self {
            config,
            canonical_chain: Vec::new(),
            avail_certs: SortedMap::new(),
            state_certs: SortedMap::new(),
        };
        proof {
            assert(r.chain() =~= Seq::<BlockView>::empty());
            assert(r.available() =~= Set::<ChunkID>::empty());
            assert(r.endorsed() =~= Set::<ChunkID>::empty());
        }
        r
    }

    /// The configuration.
    pub fn config(&self) -> (r: &Config)
        ensures
            *r == self.cfg(),
    {
        &self.config
    }

    /// `block-producer-0`, ..., one per block producer.
    pub fn block_producer_ids(&self) -> (r: Vec<NodeID>)
        ensures
            ids_named(r@, |i: nat| block_producer_name(i), self.cfg().num_block_producers as nat),
    {
        let prefix = block_producer_prefix_bytes();
        let mut ids: Vec<NodeID> = Vec::new();
        let mut i: u32 = 0;
        while i < self.config.num_block_producers
            invariant
                i <= self.config.num_block_producers,
                prefix@ == crate::naming::block_producer_prefix(),
                ids_named(ids@, |i: nat| block_producer_name(i), i as nat),
            decreases self.config.num_block_producers - i,
        {
            let name = numbered_name(prefix.as_slice(), i);
            proof {
                lemma_decimal_len_u32(i as nat);
            }
            ids.push(NodeID::from_name(name.as_slice()));
            i = i + 1;
        }
        ids
    }

    /// `chunk-producer-<shard>-0`, ..., one per chunk producer of the shard.
    pub fn chunk_producer_ids(&self, shard: ShardID) -> (r: Vec<NodeID>)
        requires
            chunk_producer_names_fit(shard.0 as nat, self.cfg().num_chunk_producers_per_shard as nat),
        ensures
            ids_named(
                r@,
                |i: nat| chunk_producer_name(shard.0 as nat, i),
                self.cfg().num_chunk_producers_per_shard as nat,
            ),
    {
        let prefix = chunk_producer_prefix_bytes();
        let mut ids: Vec<NodeID> = Vec::new();
        let mut i: u32 = 0;
        while i < self.config.num_chunk_producers_per_shard
            invariant
                i <= self.config.num_chunk_producers_per_shard,
                prefix@ == crate::naming::chunk_producer_prefix(),
                chunk_producer_names_fit(shard.0 as nat, self.config.num_chunk_producers_per_shard as nat),
                ids_named(ids@, |i: nat| chunk_producer_name(shard.0 as nat, i), i as nat),
            decreases self.config.num_chunk_producers_per_shard - i,
        {
            let name = dashed_name(prefix.as_slice(), shard.0, i);
            assert(chunk_producer_name(shard.0 as nat, i as nat).len() <= 32);
            ids.push(NodeID::from_name(name.as_slice()));
            i = i + 1;
        }
        ids
    }

    /// The chunk producers of every shard, shard after shard.
    pub fn chunk_producer_ids_all_shards(&self) -> (r: Vec<NodeID>)
        requires
            forall|s: nat| s < self.cfg().num_shards ==> #[trigger] chunk_producer_names_fit(s, self.cfg().num_chunk_producers_per_shard as nat),
        ensures
            ids_named_per_shard(
                r@,
                |s: nat, i: nat| chunk_producer_name(s, i),
                self.cfg().num_shards as nat,
                self.cfg().num_chunk_producers_per_shard as nat,
            ),
    {
        let ghost n = self.config.num_chunk_producers_per_shard as int;
        let shards = self.config.all_shards();
        let mut ids: Vec<NodeID> = Vec::new();
        let mut s: usize = 0;
        while s < shards.len()
            invariant
                s <= shards@.len(),
                shards@ == Seq::new(self.config.num_shards as nat, |i: int| ShardID(i as u32)),
                n == self.config.num_chunk_producers_per_shard,
                forall|s: nat| s < self.cfg().num_shards ==> #[trigger] chunk_producer_names_fit(s, self.cfg().num_chunk_producers_per_shard as nat),
                ids_named_per_shard(ids@, |s: nat, i: nat| chunk_producer_name(s, i), s as nat, n as nat),
            decreases shards@.len() - s,
        {
            let shard = shards[s];
            assert(chunk_producer_names_fit(s as nat, self.cfg().num_chunk_producers_per_shard as nat));
            let mut more = self.chunk_producer_ids(shard);
            let ghost before = ids@;
            let ghost added = more@;
            ids.append(&mut more);
            proof {
                assert forall|k: int| 0 <= k < ids@.len() implies (#[trigger] ids@[k])@ == padded(chunk_producer_name((k / n) as nat, (k % n) as nat)) by {
                    if k >= before.len() {
                        let i = k - before.len();
                        assert(before.len() == s * n);
                        lemma_split_index(s as int, i, n);
                        assert(ids@[k] == added[i]);
                    }
                }
                assert(ids@.len() == (s + 1) * n) by (nonlinear_arith)
                    requires ids@.len() == s * n + n;
            }
            s = s + 1;
        }
        ids
    }

    /// `replica-<shard>-0`, ..., one per replica of the shard.
    pub fn replica_ids(&self, shard: ShardID) -> (r: Vec<NodeID>)
        ensures
            ids_named(r@, |i: nat| replica_name(shard.0 as nat, i), self.cfg().num_replicas_per_shard as nat),
    {
        let prefix = replica_prefix_bytes();
        let mut ids: Vec<NodeID> = Vec::new();
        let mut i: u32 = 0;
        while i < self.config.num_replicas_per_shard
            invariant
                i <= self.config.num_replicas_per_shard,
                prefix@ == crate::naming::replica_prefix(),
                ids_named(ids@, |i: nat| replica_name(shard.0 as nat, i), i as nat),
            decreases self.config.num_replicas_per_shard - i,
        {
            let name = dashed_name(prefix.as_slice(), shard.0, i);
            proof {
                lemma_decimal_len_u32(i as nat);
                lemma_decimal_len_u32(shard.0 as nat);
            }
            ids.push(NodeID::from_name(name.as_slice()));
            i = i + 1;
        }
        ids
    }

    /// The replicas of every shard, shard after shard.
    pub fn replica_ids_all_shards(&self) -> (r: Vec<NodeID>)
        ensures
            ids_named_per_shard(
                r@,
                |s: nat, i: nat| replica_name(s, i),
                self.cfg().num_shards as nat,
                self.cfg().num_replicas_per_shard as nat,
            ),
    {
        let ghost n = self.config.num_replicas_per_shard as int;
        let shards = self.config.all_shards();
        let mut ids: Vec<NodeID> = Vec::new();
        let mut s: usize = 0;
        while s < shards.len()
            invariant
                s <= shards@.len(),
                shards@ == Seq::new(self.config.num_shards as nat, |i: int| ShardID(i as u32)),
                n == self.config.num_replicas_per_shard,
                ids_named_per_shard(ids@, |s: nat, i: nat| replica_name(s, i), s as nat, n as nat),
            decreases shards@.len() - s,
        {
            let shard = shards[s];
            let mut more = self.replica_ids(shard);
            let ghost before = ids@;
            let ghost added = more@;
            ids.append(&mut more);
            proof {
                assert forall|k: int| 0 <= k < ids@.len() implies (#[trigger] ids@[k])@ == padded(replica_name((k / n) as nat, (k % n) as nat)) by {
                    if k >= before.len() {
                        let i = k - before.len();
                        assert(before.len() == s * n);
                        lemma_split_index(s as int, i, n);
                        assert(ids@[k] == added[i]);
                    }
                }
                assert(ids@.len() == (s + 1) * n) by (nonlinear_arith)
                    requires ids@.len() == s * n + n;
            }
            s = s + 1;
        }
        ids
    }

    /// `data-owner-0`, ..., one per data owner.
    pub fn data_owner_ids(&self) -> (r: Vec<NodeID>)
        ensures
            ids_named(r@, |i: nat| data_owner_name(i), self.cfg().num_data_owners as nat),
    {
        let prefix = data_owner_prefix_bytes();
        let mut ids: Vec<NodeID> = Vec::new();
        let mut i: u32 = 0;
        while i < self.config.num_data_owners
            invariant
                i <= self.config.num_data_owners,
                prefix@ == crate::naming::data_owner_prefix(),
                ids_named(ids@, |i: nat| data_owner_name(i), i as nat),
            decreases self.config.num_data_owners - i,
        {
            let name = numbered_name(prefix.as_slice(), i);
            proof {
                lemma_decimal_len_u32(i as nat);
            }
            ids.push(NodeID::from_name(name.as_slice()));
            i = i + 1;
        }
        ids
    }

    /// `validator-0`, ..., one per validator.
    pub fn validator_ids(&self) -> (r: Vec<NodeID>)
        ensures
            ids_named(r@, |i: nat| validator_name(i), self.cfg().num_validators as nat),
    {
        let prefix = validator_prefix_bytes();
        let mut ids: Vec<NodeID> = Vec::new();
        let mut i: u32 = 0;
        while i < self.config.num_validators
            invariant
                i <= self.config.num_validators,
                prefix@ == crate::naming::validator_prefix(),
                ids_named(ids@, |i: nat| validator_name(i), i as nat),
            decreases self.config.num_validators - i,
        {
            let name = numbered_name(prefix.as_slice(), i);
            proof {
                lemma_decimal_len_u32(i as nat);
            }
            ids.push(NodeID::from_name(name.as_slice()));
            i = i + 1;
        }
        ids
    }

    /// The block producer of `height`: they take turns, height by height.
    pub fn block_producer_at(&self, height: Height) -> (r: NodeID)
        requires
            self.cfg().num_block_producers > 0,
        ensures
            r@ == padded(block_producer_name((height.0 % self.cfg().num_block_producers) as nat)),
    {
        let index = u32::from(height) % self.config.num_block_producers;
        let prefix = block_producer_prefix_bytes();
        let name = numbered_name(prefix.as_slice(), index);
        proof {
            lemma_decimal_len_u32(index as nat);
        }
        NodeID::from_name(name.as_slice())
    }

    /// The chunk producer of `shard` at `height`: the shard's chunk
    /// producers take turns, height by height.
    pub fn chunk_producer_at(&self, height: Height, shard: ShardID) -> (r: NodeID)
        requires
            self.cfg().num_chunk_producers_per_shard > 0,
            chunk_producer_name(shard.0 as nat, (height.0 % self.cfg().num_chunk_producers_per_shard) as nat).len() <= 32,
        ensures
            r@ == padded(chunk_producer_name(shard.0 as nat, (height.0 % self.cfg().num_chunk_producers_per_shard) as nat)),
    {
        let index = u32::from(height) % self.config.num_chunk_producers_per_shard;
        let prefix = chunk_producer_prefix_bytes();
        let name = dashed_name(prefix.as_slice(), shard.0, index);
        NodeID::from_name(name.as_slice())
    }

    /// Whether the name of the chunk producer of `shard` at `height` fits
    /// the 32 bytes of an identity.
    pub fn chunk_producer_name_fits(&self, height: Height, shard: ShardID) -> (r: bool)
        requires
            self.cfg().num_chunk_producers_per_shard > 0,
        ensures
            r == (chunk_producer_name(shard.0 as nat, (height.0 % self.cfg().num_chunk_producers_per_shard) as nat).len() <= 32),
    {
        let index = u32::from(height) % self.config.num_chunk_producers_per_shard;
        proof {
            assert(crate::naming::chunk_producer_prefix().len() == 15);
        }
        crate::config::decimal_len(shard.0) + crate::config::decimal_len(index) <= 16
    }

    /// Whether the rotations of `height` and `shard` over `num_items` items
    /// are computed without overflow.
    pub fn rotation_fits(&self, height: Height, shard: ShardID, num_items: u32) -> (r: bool)
        ensures
            r == rotation_fits(height.0, shard.0, self.cfg().num_shards, num_items),
    {
        reveal(rotation_fits);
        match height.0.checked_mul(self.config.num_shards) {
            None => false,
            Some(a) => match shard.0.checked_add(a) {
                None => false,
                Some(b) => b.checked_mul(num_items).is_some(),
            },
        }
    }

    /// The data owners that store the parts of the chunk of `shard` at
    /// `height`, one per part.
    pub fn data_owner_at(&self, height: Height, shard: ShardID) -> (r: Vec<NodeID>)
        requires
            self.cfg().num_data_owners > 0,
            rotation_fits(height.0, shard.0, self.cfg().num_shards, self.cfg().num_chunk_data_parts),
        ensures
            rotation_named(
                r@,
                |i: nat| data_owner_name(i),
                rotation_start(height.0, shard.0, self.cfg().num_shards, self.cfg().num_chunk_data_parts, self.cfg().num_data_owners),
                self.cfg().num_chunk_data_parts as nat,
                self.cfg().num_data_owners as nat,
            ),
    {
        let prefix = data_owner_prefix_bytes();
        proof {
            lemma_decimal_len_u32((self.config.num_data_owners - 1) as nat);
        }
        Self::round_robin(
            height,
            shard,
            self.config.num_shards,
            self.config.num_chunk_data_parts,
            self.config.num_data_owners,
            prefix.as_slice(),
        )
    }

    /// The validators that check the chunk of `shard` at `height`.
    pub fn validators_at(&self, height: Height, shard: ShardID) -> (r: Vec<NodeID>)
        requires
            self.cfg().num_validators > 0,
            rotation_fits(height.0, shard.0, self.cfg().num_shards, self.cfg().validator_sample_size),
        ensures
            rotation_named(
                r@,
                |i: nat| validator_name(i),
                rotation_start(height.0, shard.0, self.cfg().num_shards, self.cfg().validator_sample_size, self.cfg().num_validators),
                self.cfg().validator_sample_size as nat,
                self.cfg().num_validators as nat,
            ),
    {
        let prefix = validator_prefix_bytes();
        proof {
            lemma_decimal_len_u32((self.config.num_validators - 1) as nat);
        }
        Self::round_robin(
            height,
            shard,
            self.config.num_shards,
            self.config.validator_sample_size,
            self.config.num_validators,
            prefix.as_slice(),
        )
    }

    /// `num_items` consecutive members of a pool of `pool_size` (wrapping
    /// around), starting after the items that earlier blocks and lower
    /// shards of this block have taken.
    fn round_robin(
        height: Height,
        shard: ShardID,
        num_shards: u32,
        num_items: u32,
        pool_size: u32,
        prefix: &[u8],
    ) -> (r: Vec<NodeID>)
        requires
            pool_size > 0,
            prefix@.len() + decimal((pool_size - 1) as nat).len() <= 32,
            rotation_fits(height.0, shard.0, num_shards, num_items),
        ensures
            rotation_named(
                r@,
                |i: nat| prefix@ + decimal(i),
                rotation_start(height.0, shard.0, num_shards, num_items, pool_size),
                num_items as nat,
                pool_size as nat,
            ),
    {
        reveal(rotation_fits);
        reveal(rotation_start);
        //          < ---------- items in previous and this block ----------- >
        //           < -- batches in previous and this block --- >
        //                    < -- batches in previous blocks -- >
        let mut index = (shard.add(height.mul(num_shards)) * num_items) % pool_size;
        let ghost start = rotation_start(height.0, shard.0, num_shards, num_items, pool_size);
        let mut node_ids: Vec<NodeID> = Vec::new();
        let mut k: u32 = 0;
        proof {
            vstd::arithmetic::div_mod::lemma_mod_bound(((shard.0 + height.0 * num_shards) * num_items) as int, pool_size as int);
            vstd::arithmetic::div_mod::lemma_small_mod(start, pool_size as nat);
        }
        while k < num_items
            invariant
                k <= num_items,
                pool_size > 0,
                prefix@.len() + decimal((pool_size - 1) as nat).len() <= 32,
                index < pool_size,
                index == (start + k) % (pool_size as int),
                start < pool_size,
                node_ids@.len() == k,
                forall|j: int| 0 <= j < k ==> (#[trigger] node_ids@[j])@ == padded(prefix@ + decimal(((start + j) % (pool_size as int)) as nat)),
            decreases num_items - k,
        {
            let name = numbered_name(prefix, index);
            proof {
                crate::naming::lemma_decimal_len_monotonic(index as nat, (pool_size - 1) as nat);
            }
            node_ids.push(NodeID::from_name(name.as_slice()));
            proof {
                vstd::arithmetic::div_mod::lemma_add_mod_noop(start + k, 1, pool_size as int);
                if pool_size > 1 {
                    vstd::arithmetic::div_mod::lemma_small_mod(1, pool_size as nat);
                } else {
                    assert((start + k + 1) % 1 == 0);
                    assert((index + 1) % 1 == 0);
                }
            }
            index = (index + 1) % pool_size;
            k = k + 1;
        }
        node_ids
    }

    /// Whether `block` can extend the chain, and if not, why.
    pub fn check_next_block(&self, block: &Block) -> (r: Result<(), HandlerError>)
        ensures
            r == if block_fits(self.chain(), block@) {
                Ok::<(), HandlerError>(())
            } else {
                Err(misfit(self.chain(), block@))
            },
    {
        let n = self.canonical_chain.len();
        if n == 0 {
            if block.is_genesis() {
                Ok(())
            } else {
                Err(HandlerError::NonGenesisFirstBlock)
            }
        } else {
            let head = &self.canonical_chain[n - 1];
            assert(self.chain().last() == head@);
            if !is_encodable(head) {
                return Err(HandlerError::Unencodable);
            }
            let head_hash = head.hash();
            proof {
                crate::types::hash::lemma_hash_eq(block.parent_hash, head_hash);
            }
            if block.parent_hash == head_hash {
                Ok(())
            } else {
                Err(HandlerError::BlockOutOfOrder)
            }
        }
    }

    /// Appends `block` to the chain, as `apply_block`, if it extends the
    /// chain; otherwise changes nothing and says why.
    pub fn try_apply_block(&mut self, block: Block) -> (r: Result<(), HandlerError>)
        requires
            old(self).wf(),
        ensures
            final(self).wf(),
            r == if block_fits(old(self).chain(), block@) {
                Ok::<(), HandlerError>(())
            } else {
                Err(misfit(old(self).chain(), block@))
            },
            r is Err ==> *final(self) == *old(self),
            r is Ok ==> {
                &&& final(self).cfg() == old(self).cfg()
                &&& final(self).chain() == old(self).chain().push(block@)
                &&& final(self).available() == old(self).available() + cert_chunks(block@.avail_certs)
                &&& final(self).endorsed() == old(self).endorsed() + cert_chunks(block@.state_certs)
            },
    {
        match self.check_next_block(&block) {
            Err(e) => Err(e),
            Ok(()) => {
                self.apply_block(block);
                Ok(())
            },
        }
    }

    /// Appends `block` to the chain and records the chunks it certifies.
    #[verifier::spinoff_prover]
    pub fn apply_block(&mut self, block: Block)
        requires
            old(self).wf(),
            block_fits(old(self).chain(), block@),
        ensures
            final(self).wf(),
            final(self).cfg() == old(self).cfg(),
            final(self).chain() == old(self).chain().push(block@),
            final(self).available() == old(self).available() + cert_chunks(block@.avail_certs),
            final(self).endorsed() == old(self).endorsed() + cert_chunks(block@.state_certs),
    {
        let ghost chain0 = self.chain();
        let ghost b = block@;
        record_avail_chunks(&mut self.avail_certs, &block.avail_certs);
        record_state_chunks(&mut self.state_certs, &block.state_certs);
        self.canonical_chain.push(block);
        proof {
            let chain = self.chain();
            assert(chain =~= chain0.push(b));
            assert(chain.drop_last() =~= chain0);
            assert(certified_avail(chain) == certified_avail(chain0) + cert_chunks(b.avail_certs));
            assert(certified_state(chain) == certified_state(chain0) + cert_chunks(b.state_certs));
            assert forall|i: int| 0 < i < chain.len() implies block_encodable(chain[i - 1]) && (#[trigger] chain[i]).parent_hash@ == block_hash(chain[i - 1]) by {
                if i < chain0.len() {
                    assert(chain[i] == chain0[i]);
                    assert(chain[i - 1] == chain0[i - 1]);
                } else {
                    assert(chain[i] == b);
                    assert(chain[i - 1] == chain0.last());
                }
            }
        }
    }

    /// The block at `height` of the chain, if the chain reaches that high.
    pub fn canonical_block_at(&self, height: Height) -> (r: Option<&Block>)
        ensures
            r matches Some(b) ==> height.0 < self.chain().len() && b@ == self.chain()[height.0 as int],
            r is None ==> height.0 >= self.chain().len(),
    {
        if (height.0 as usize) < self.canonical_chain.len() {
            Some(&self.canonical_chain[height.0 as usize])
        } else {
            None
        }
    }

    /// Whether the chain holds an availability certificate for `chunk_id`.
    pub fn chunk_available(&self, chunk_id: &ChunkID) -> (r: bool)
        requires
            self.wf(),
        ensures
            r == self.available().contains(*chunk_id),
    {
        self.avail_certs.contains_key(chunk_id)
    }
}

} // verus!
