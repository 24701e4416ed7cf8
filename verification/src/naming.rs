//! Textual node names: decimal rendering of numbers and the role prefixes
//! from which every node identity of a configuration is spelled.
use vstd::prelude::*;
use crate::sim_core::node::{lemma_padded_injective, padded};

verus! {

/// The ASCII code of the digit `0`.
pub const DIGIT_ZERO: u8 = 48;

/// The ASCII code of `-`, which separates the numbers in a name.
pub const DASH: u8 = 45;

/// The decimal digits of `n`, most significant first, without leading zeros.
pub open spec fn decimal(n: nat) -> Seq<u8>
    decreases n,
{
    if n < 10 {
        seq![(48 + n) as u8]
    } else {
        decimal(n / 10).push((48 + n % 10) as u8)
    }
}

/// A byte that is an ASCII decimal digit.
pub open spec fn is_digit(b: u8) -> bool {
    48 <= b <= 57
}

/// Every byte of a decimal rendering is a digit.
pub proof fn lemma_decimal_digits(n: nat)
    ensures
        1 <= decimal(n).len(),
        forall|i: int| 0 <= i < decimal(n).len() ==> is_digit(#[trigger] decimal(n)[i]),
    decreases n,
{
    if n >= 10 {
        lemma_decimal_digits(n / 10);
    }
}

/// Renderings of numbers below `10^k` take at most `k` digits; in particular a
/// `u32` takes at most ten.
pub proof fn lemma_decimal_len_u32(n: nat)
    requires
        n <= 0xffff_ffff,
    ensures
        decimal(n).len() <= 10,
{
    reveal_with_fuel(pow10, 11);
    lemma_decimal_len_bound(n, 10, 10_000_000_000);
}

/// A number below `bound == 10^k` (with `k >= 1`) has at most `k` digits.
pub proof fn lemma_decimal_len_bound(n: nat, k: nat, bound: nat)
    requires
        n < bound,
        bound == pow10(k),
        k >= 1,
    ensures
        decimal(n).len() <= k,
    decreases n,
{
    if n >= 10 {
        let k1 = (k - 1) as nat;
        assert(pow10(k) == 10 * pow10(k1));
        assert(n / 10 < pow10(k1));
        if k1 == 0 {
            assert(pow10(0) == 1);
            assert(false);
        }
        lemma_decimal_len_bound(n / 10, k1, pow10(k1));
    }
}

/// `10^k`.
pub open spec fn pow10(k: nat) -> nat
    decreases k,
{
    if k == 0 {
        1
    } else {
        10 * pow10((k - 1) as nat)
    }
}

/// Larger numbers never take fewer digits.
pub proof fn lemma_decimal_len_monotonic(a: nat, b: nat)
    requires
        a <= b,
    ensures
        decimal(a).len() <= decimal(b).len(),
    decreases b,
{
    if a >= 10 {
        lemma_decimal_len_monotonic(a / 10, b / 10);
    }
}

/// Distinct numbers have distinct renderings.
pub proof fn lemma_decimal_injective(a: nat, b: nat)
    requires
        decimal(a) == decimal(b),
    ensures
        a == b,
    decreases a + b,
{
    let da = decimal(a);
    if a < 10 && b < 10 {
        assert(da[0] == decimal(b)[0]);
    } else if a >= 10 && b >= 10 {
        assert(da.last() == decimal(b).last());
        assert(da.drop_last() =~= decimal(a / 10));
        assert(decimal(b).drop_last() =~= decimal(b / 10));
        lemma_decimal_injective(a / 10, b / 10);
    } else if a < 10 {
        lemma_decimal_digits(b / 10);
        assert(decimal(b).len() >= 2);
        assert(false);
    } else {
        lemma_decimal_digits(a / 10);
        assert(da.len() >= 2);
        assert(false);
    }
}

/// A name followed by `-`, a number, is taken apart again: if two names of the
/// shape `decimal(a) - decimal(b)` agree, so do their numbers.
pub proof fn lemma_dashed_pair_injective(a1: nat, b1: nat, a2: nat, b2: nat)
    requires
        decimal(a1) + seq![DASH] + decimal(b1) == decimal(a2) + seq![DASH] + decimal(b2),
    ensures
        a1 == a2,
        b1 == b2,
{
    let s1 = decimal(a1) + seq![DASH] + decimal(b1);
    let s2 = decimal(a2) + seq![DASH] + decimal(b2);
    let l1 = decimal(a1).len();
    let l2 = decimal(a2).len();
    lemma_decimal_digits(a1);
    lemma_decimal_digits(a2);
    lemma_decimal_digits(b1);
    lemma_decimal_digits(b2);
    if l1 < l2 {
        assert(s1[l1 as int] == DASH);
        assert(s2[l1 as int] == decimal(a2)[l1 as int]);
        assert(false);
    } else if l2 < l1 {
        assert(s2[l2 as int] == DASH);
        assert(s1[l2 as int] == decimal(a1)[l2 as int]);
        assert(false);
    }
    assert(decimal(a1) =~= s1.subrange(0, l1 as int));
    assert(decimal(a2) =~= s2.subrange(0, l1 as int));
    lemma_decimal_injective(a1, a2);
    assert(decimal(b1) =~= s1.subrange(l1 as int + 1, s1.len() as int));
    assert(decimal(b2) =~= s2.subrange(l1 as int + 1, s2.len() as int));
    lemma_decimal_injective(b1, b2);
}

/// Appends the decimal digits of `n` to `buf`.
pub fn push_decimal(buf: &mut Vec<u8>, n: u64)
    ensures
        final(buf)@ == old(buf)@ + decimal(n as nat),
    decreases n,
{
    if n >= 10 {
        push_decimal(buf, n / 10);
    }
    let digit: u8 = (n % 10) as u8;
    buf.push(DIGIT_ZERO + digit);
    proof {
        if n >= 10 {
            assert(decimal(n as nat) == decimal((n / 10) as nat).push((48 + n % 10) as u8));
        }
        assert(final(buf)@ =~= old(buf)@ + decimal(n as nat));
    }
}

/// `block-producer-`
pub open spec fn block_producer_prefix() -> Seq<u8> {
    seq![98u8, 108, 111, 99, 107, 45, 112, 114, 111, 100, 117, 99, 101, 114, 45]
}

/// `chunk-producer-`
pub open spec fn chunk_producer_prefix() -> Seq<u8> {
    seq![99u8, 104, 117, 110, 107, 45, 112, 114, 111, 100, 117, 99, 101, 114, 45]
}

/// `replica-`
pub open spec fn replica_prefix() -> Seq<u8> {
    seq![114u8, 101, 112, 108, 105, 99, 97, 45]
}

/// `data-owner-`
pub open spec fn data_owner_prefix() -> Seq<u8> {
    seq![100u8, 97, 116, 97, 45, 111, 119, 110, 101, 114, 45]
}

/// `validator-`
pub open spec fn validator_prefix() -> Seq<u8> {
    seq![118u8, 97, 108, 105, 100, 97, 116, 111, 114, 45]
}

/// The name of the `i`-th block producer: `block-producer-<i>`.
pub open spec fn block_producer_name(i: nat) -> Seq<u8> {
    block_producer_prefix() + decimal(i)
}

/// The name of the `i`-th chunk producer of `shard`: `chunk-producer-<shard>-<i>`.
pub open spec fn chunk_producer_name(shard: nat, i: nat) -> Seq<u8> {
    chunk_producer_prefix() + (decimal(shard) + seq![DASH] + decimal(i))
}

/// The name of the `i`-th replica of `shard`: `replica-<shard>-<i>`.
pub open spec fn replica_name(shard: nat, i: nat) -> Seq<u8> {
    replica_prefix() + (decimal(shard) + seq![DASH] + decimal(i))
}

/// The name of the `i`-th data owner: `data-owner-<i>`.
pub open spec fn data_owner_name(i: nat) -> Seq<u8> {
    data_owner_prefix() + decimal(i)
}

/// The name of the `i`-th validator: `validator-<i>`.
pub open spec fn validator_name(i: nat) -> Seq<u8> {
    validator_prefix() + decimal(i)
}

/// The role of a node, with the numbers that tell it apart from the other
/// nodes of that role: a shard, then an index, where the role is per shard.
#[derive(Clone, Copy, Debug, PartialEq, Eq, Structural)]
pub enum NodeRole {
    BlockProducer(u32),
    ChunkProducer(u32, u32),
    Replica(u32, u32),
    DataOwner(u32),
    Validator(u32),
}

/// The name of the node with role `r`.
pub open spec fn role_name(r: NodeRole) -> Seq<u8> {
    match r {
        NodeRole::BlockProducer(i) => block_producer_name(i as nat),
        NodeRole::ChunkProducer(s, i) => chunk_producer_name(s as nat, i as nat),
        NodeRole::Replica(s, i) => replica_name(s as nat, i as nat),
        NodeRole::DataOwner(i) => data_owner_name(i as nat),
        NodeRole::Validator(i) => validator_name(i as nat),
    }
}

/// The first byte of the names of a role's nodes.
spec fn role_initial(r: NodeRole) -> u8 {
    match r {
        NodeRole::BlockProducer(_) => 98u8,
        NodeRole::ChunkProducer(_, _) => 99u8,
        NodeRole::Replica(_, _) => 114u8,
        NodeRole::DataOwner(_) => 100u8,
        NodeRole::Validator(_) => 118u8,
    }
}

/// `prefix + a == prefix + b` only when `a == b`.
pub proof fn lemma_prefix_cancel(prefix: Seq<u8>, a: Seq<u8>, b: Seq<u8>)
    requires
        prefix + a == prefix + b,
    ensures
        a == b,
{
    assert(a =~= (prefix + a).subrange(prefix.len() as int, (prefix + a).len() as int));
    assert(b =~= (prefix + b).subrange(prefix.len() as int, (prefix + b).len() as int));
}

/// Distinct nodes have distinct names: nodes of different roles, and nodes
/// of one role with different numbers.
pub proof fn lemma_role_names_distinct(a: NodeRole, b: NodeRole)
    requires
        a != b,
    ensures
        role_name(a) != role_name(b),
{
    assert(role_name(a)[0] == role_initial(a));
    assert(role_name(b)[0] == role_initial(b));
    if role_name(a) == role_name(b) {
        match (a, b) {
            (NodeRole::BlockProducer(i), NodeRole::BlockProducer(j)) => {
                lemma_prefix_cancel(block_producer_prefix(), decimal(i as nat), decimal(j as nat));
                lemma_decimal_injective(i as nat, j as nat);
            },
            (NodeRole::ChunkProducer(s1, i1), NodeRole::ChunkProducer(s2, i2)) => {
                lemma_prefix_cancel(
                    chunk_producer_prefix(),
                    decimal(s1 as nat) + seq![DASH] + decimal(i1 as nat),
                    decimal(s2 as nat) + seq![DASH] + decimal(i2 as nat),
                );
                lemma_dashed_pair_injective(s1 as nat, i1 as nat, s2 as nat, i2 as nat);
            },
            (NodeRole::Replica(s1, i1), NodeRole::Replica(s2, i2)) => {
                lemma_prefix_cancel(
                    replica_prefix(),
                    decimal(s1 as nat) + seq![DASH] + decimal(i1 as nat),
                    decimal(s2 as nat) + seq![DASH] + decimal(i2 as nat),
                );
                lemma_dashed_pair_injective(s1 as nat, i1 as nat, s2 as nat, i2 as nat);
            },
            (NodeRole::DataOwner(i), NodeRole::DataOwner(j)) => {
                lemma_prefix_cancel(data_owner_prefix(), decimal(i as nat), decimal(j as nat));
                lemma_decimal_injective(i as nat, j as nat);
            },
            (NodeRole::Validator(i), NodeRole::Validator(j)) => {
                lemma_prefix_cancel(validator_prefix(), decimal(i as nat), decimal(j as nat));
                lemma_decimal_injective(i as nat, j as nat);
            },
            _ => {},
        }
    }
}

/// No byte of a node's name is zero.
proof fn lemma_role_name_nonzero(r: NodeRole)
    ensures
        forall|i: int| 0 <= i < role_name(r).len() ==> role_name(r)[i] != 0u8,
{
    match r {
        NodeRole::BlockProducer(i) => lemma_decimal_digits(i as nat),
        NodeRole::ChunkProducer(s, i) => {
            lemma_decimal_digits(s as nat);
            lemma_decimal_digits(i as nat);
        },
        NodeRole::Replica(s, i) => {
            lemma_decimal_digits(s as nat);
            lemma_decimal_digits(i as nat);
        },
        NodeRole::DataOwner(i) => lemma_decimal_digits(i as nat),
        NodeRole::Validator(i) => lemma_decimal_digits(i as nat),
    }
    let n = role_name(r);
    assert forall|i: int| 0 <= i < n.len() implies n[i] != 0u8 by {
        match r {
            NodeRole::BlockProducer(k) => {
                if i >= block_producer_prefix().len() {
                    assert(n[i] == decimal(k as nat)[i - block_producer_prefix().len()]);
                }
            },
            NodeRole::ChunkProducer(s, k) => {
                let p = chunk_producer_prefix();
                let d = decimal(s as nat) + seq![DASH] + decimal(k as nat);
                if i >= p.len() {
                    let j = i - p.len();
                    assert(n[i] == d[j]);
                    if j < decimal(s as nat).len() {
                        assert(d[j] == decimal(s as nat)[j]);
                    } else if j > decimal(s as nat).len() {
                        assert(d[j] == decimal(k as nat)[j - decimal(s as nat).len() - 1]);
                    }
                }
            },
            NodeRole::Replica(s, k) => {
                let p = replica_prefix();
                let d = decimal(s as nat) + seq![DASH] + decimal(k as nat);
                if i >= p.len() {
                    let j = i - p.len();
                    assert(n[i] == d[j]);
                    if j < decimal(s as nat).len() {
                        assert(d[j] == decimal(s as nat)[j]);
                    } else if j > decimal(s as nat).len() {
                        assert(d[j] == decimal(k as nat)[j - decimal(s as nat).len() - 1]);
                    }
                }
            },
            NodeRole::DataOwner(k) => {
                if i >= data_owner_prefix().len() {
                    assert(n[i] == decimal(k as nat)[i - data_owner_prefix().len()]);
                }
            },
            NodeRole::Validator(k) => {
                if i >= validator_prefix().len() {
                    assert(n[i] == decimal(k as nat)[i - validator_prefix().len()]);
                }
            },
        }
    }
}

/// Distinct nodes have distinct identities, wherever their names fit the 32
/// bytes of an identity.
pub proof fn lemma_role_ids_distinct(a: NodeRole, b: NodeRole)
    requires
        a != b,
        role_name(a).len() <= 32,
        role_name(b).len() <= 32,
    ensures
        padded(role_name(a)) != padded(role_name(b)),
{
    lemma_role_names_distinct(a, b);
    lemma_role_name_nonzero(a);
    lemma_role_name_nonzero(b);
    if padded(role_name(a)) == padded(role_name(b)) {
        lemma_padded_injective(role_name(a), role_name(b));
    }
}

/// A fresh buffer holding `prefix`.
fn prefix_vec(prefix: &[u8]) -> (r: Vec<u8>)
    ensures
        r@ == prefix@,
{
    let mut r: Vec<u8> = Vec::new();
    let mut i: usize = 0;
    while i < prefix.len()
        invariant
            i <= prefix@.len(),
            r@ == prefix@.subrange(0, i as int),
        decreases prefix@.len() - i,
    {
        r.push(prefix[i]);
        i = i + 1;
        proof {
            assert(r@ =~= prefix@.subrange(0, i as int));
        }
    }
    proof {
        assert(r@ =~= prefix@);
    }
    r
}

/// `prefix` followed by the digits of `n`.
pub fn numbered_name(prefix: &[u8], n: u32) -> (r: Vec<u8>)
    ensures
        r@ == prefix@ + decimal(n as nat),
{
    let mut r = prefix_vec(prefix);
    push_decimal(&mut r, n as u64);
    r
}

/// `prefix` followed by `a`, a dash and `b`.
pub fn dashed_name(prefix: &[u8], a: u32, b: u32) -> (r: Vec<u8>)
    ensures
        r@ == prefix@ + (decimal(a as nat) + seq![DASH] + decimal(b as nat)),
{
    let mut r = prefix_vec(prefix);
    push_decimal(&mut r, a as u64);
    r.push(DASH);
    push_decimal(&mut r, b as u64);
    proof {
        assert(r@ =~= prefix@ + (decimal(a as nat) + seq![DASH] + decimal(b as nat)));
    }
    r
}

/// The bytes of `block-producer-`.
pub fn block_producer_prefix_bytes() -> (r: Vec<u8>)
    ensures
        r@ == block_producer_prefix(),
{
    let r = vec![98u8, 108, 111, 99, 107, 45, 112, 114, 111, 100, 117, 99, 101, 114, 45];
    proof {
        assert(r@ =~= block_producer_prefix());
    }
    r
}

/// The bytes of `chunk-producer-`.
pub fn chunk_producer_prefix_bytes() -> (r: Vec<u8>)
    ensures
        r@ == chunk_producer_prefix(),
{
    let r = vec![99u8, 104, 117, 110, 107, 45, 112, 114, 111, 100, 117, 99, 101, 114, 45];
    proof {
        assert(r@ =~= chunk_producer_prefix());
    }
    r
}

/// The bytes of `replica-`.
pub fn replica_prefix_bytes() -> (r: Vec<u8>)
    ensures
        r@ == replica_prefix(),
{
    let r = vec![114u8, 101, 112, 108, 105, 99, 97, 45];
    proof {
        assert(r@ =~= replica_prefix());
    }
    r
}

/// The bytes of `data-owner-`.
pub fn data_owner_prefix_bytes() -> (r: Vec<u8>)
    ensures
        r@ == data_owner_prefix(),
{
    let r = vec![100u8, 97, 116, 97, 45, 111, 119, 110, 101, 114, 45];
    proof {
        assert(r@ =~= data_owner_prefix());
    }
    r
}

/// The bytes of `validator-`.
pub fn validator_prefix_bytes() -> (r: Vec<u8>)
    ensures
        r@ == validator_prefix(),
{
    let r = vec![118u8, 97, 108, 105, 100, 97, 116, 111, 114, 45];
    proof {
        assert(r@ =~= validator_prefix());
    }
    r
}

} // verus!
