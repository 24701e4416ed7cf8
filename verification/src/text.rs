//! Human-readable renderings of blocks, chunks, certificates, identities and
//! payloads, as ASCII bytes: what the simulation prints in its logs.
use vstd::prelude::*;
use crate::naming::{decimal, push_decimal};
use crate::sim_core::node::NodeID;
use crate::types::block::{Block, BlockView};
use crate::types::cert::{AvailCert, CertView, StateCert};
use crate::types::chunk::{ChunkID, ChunkPart, ChunkPartID};
use crate::types::state_witness::StateWitness;

verus! {

/// The lowercase hexadecimal digit for `d < 16`.
pub open spec fn hex_digit(d: u8) -> u8 {
    if d < 10 {
        (48 + d) as u8
    } else {
        (87 + d) as u8
    }
}

/// The two lowercase hexadecimal digits of `b`.
pub open spec fn hex_byte(b: u8) -> Seq<u8> {
    seq![hex_digit(b / 16), hex_digit(b % 16)]
}

/// The decimal digits of `n`, with leading zeros up to three digits.
pub open spec fn decimal3(n: nat) -> Seq<u8> {
    if decimal(n).len() >= 3 {
        decimal(n)
    } else {
        Seq::new((3 - decimal(n).len()) as nat, |i: int| 48u8) + decimal(n)
    }
}

/// Below a thousand, `decimal3` is exactly three digits: hundreds, tens and
/// units, zeros included; from a thousand on it is the plain decimal
/// rendering, with no leading zero.
pub proof fn lemma_decimal3_digits(n: nat)
    ensures
        n < 1000 ==> decimal3(n) == seq![(48 + n / 100) as u8, (48 + n / 10 % 10) as u8, (48 + n % 10) as u8],
        n >= 1000 ==> decimal3(n) == decimal(n) && decimal(n).len() >= 4 && decimal(n)[0] != 48u8,
{
    reveal_with_fuel(decimal, 4);
    crate::naming::lemma_decimal_digits(n);
    if n < 10 {
        assert(decimal(n) == seq![(48 + n) as u8]);
        assert(decimal3(n) =~= seq![(48 + n / 100) as u8, (48 + n / 10 % 10) as u8, (48 + n % 10) as u8]);
    } else if n < 100 {
        assert(decimal(n / 10) == seq![(48 + n / 10) as u8]);
        assert(decimal(n) =~= seq![(48 + n / 10) as u8, (48 + n % 10) as u8]);
        assert(decimal3(n) =~= seq![(48 + n / 100) as u8, (48 + n / 10 % 10) as u8, (48 + n % 10) as u8]);
    } else if n < 1000 {
        assert(decimal(n / 100) == seq![(48 + n / 100) as u8]);
        assert(decimal(n / 10) =~= seq![(48 + n / 100) as u8, (48 + n / 10 % 10) as u8]);
        assert(decimal(n) =~= seq![(48 + n / 100) as u8, (48 + n / 10 % 10) as u8, (48 + n % 10) as u8]);
        assert(decimal3(n) =~= seq![(48 + n / 100) as u8, (48 + n / 10 % 10) as u8, (48 + n % 10) as u8]);
    } else {
        reveal_with_fuel(crate::naming::pow10, 4);
        lemma_decimal_leading(n, 3);
    }
}

/// A positive number's rendering starts with a digit other than zero, and a
/// number of at least `10^k` takes more than `k` digits.
proof fn lemma_decimal_leading(n: nat, k: nat)
    requires
        n >= 1,
        n >= crate::naming::pow10(k),
    ensures
        decimal(n)[0] != 48u8,
        decimal(n).len() >= k + 1,
    decreases n,
{
    crate::naming::lemma_decimal_digits(n);
    if n >= 10 {
        let k1: nat = if k > 0 { (k - 1) as nat } else { 0 };
        if k > 0 {
            assert(crate::naming::pow10(k) == 10 * crate::naming::pow10(k1));
        } else {
            assert(crate::naming::pow10(0) == 1);
        }
        lemma_decimal_leading(n / 10, k1);
        assert(decimal(n) == decimal(n / 10).push((48 + n % 10) as u8));
        assert(decimal(n)[0] == decimal(n / 10)[0]);
    } else if k > 0 {
        assert(crate::naming::pow10(k) == 10 * crate::naming::pow10((k - 1) as nat));
        lemma_pow10_positive((k - 1) as nat);
    }
}

/// `10^k` is at least one.
proof fn lemma_pow10_positive(k: nat)
    ensures
        crate::naming::pow10(k) >= 1,
    decreases k,
{
    if k > 0 {
        lemma_pow10_positive((k - 1) as nat);
    }
}

/// `, `
pub open spec fn comma() -> Seq<u8> {
    seq![44u8, 32]
}

/// A hash is shown by the hexadecimal digits of its first four bytes.
pub open spec fn hash_text(h: Seq<u8>) -> Seq<u8> {
    hex_byte(h[0]) + hex_byte(h[1]) + hex_byte(h[2]) + hex_byte(h[3])
}

/// The name of a node: its identity bytes up to the first zero byte.
pub open spec fn node_id_text(id: Seq<u8>) -> Seq<u8>
    decreases id.len(),
{
    if id.len() == 0 || id[0] == 0 {
        Seq::empty()
    } else {
        seq![id[0]] + node_id_text(id.drop_first())
    }
}

/// The name is the part of the identity before its first zero byte.
proof fn lemma_node_id_text(id: Seq<u8>, n: nat)
    requires
        n <= id.len(),
        forall|j: int| 0 <= j < n ==> id[j] != 0u8,
        n < id.len() ==> id[n as int] == 0u8,
    ensures
        node_id_text(id) == id.take(n as int),
    decreases n,
{
    if n == 0 {
        assert(id.take(0) =~= Seq::<u8>::empty());
    } else {
        let rest = id.drop_first();
        assert forall|j: int| 0 <= j < n - 1 implies rest[j] != 0u8 by {
            assert(rest[j] == id[j + 1]);
        }
        if n - 1 < rest.len() {
            assert(rest[n - 1] == id[n as int]);
        }
        lemma_node_id_text(rest, (n - 1) as nat);
        assert(seq![id[0]] + rest.take(n - 1) =~= id.take(n as int));
    }
}

/// `Ch(<height>, <hash>, <shard>)`
pub open spec fn chunk_id_text(c: ChunkID) -> Seq<u8> {
    seq![67u8, 104, 40] + decimal(c.block_id.height.0 as nat) + comma() + hash_text(c.block_id.hash@) + comma()
        + decimal(c.shard_id.0 as nat) + seq![41u8]
}

/// `ChPartID(<chunk>, <index>)`
pub open spec fn chunk_part_id_text(p: ChunkPartID) -> Seq<u8> {
    seq![67u8, 104, 80, 97, 114, 116, 73, 68, 40] + chunk_id_text(p.chunk_id) + comma() + decimal(p.index as nat) + seq![41u8]
}

/// `ChPart(<chunk>, <index>)`
pub open spec fn chunk_part_text(p: ChunkPart) -> Seq<u8> {
    seq![67u8, 104, 80, 97, 114, 116, 40] + chunk_id_text(p.chunk_id) + comma() + decimal(p.index as nat) + seq![41u8]
}

/// `AvCert`
pub open spec fn avail_tag() -> Seq<u8> {
    seq![65u8, 118, 67, 101, 114, 116]
}

/// `StCert`
pub open spec fn state_tag() -> Seq<u8> {
    seq![83u8, 116, 67, 101, 114, 116]
}

/// `<tag>(<chunk>, sigs:<number of signers>)`
pub open spec fn cert_text(tag: Seq<u8>, c: CertView) -> Seq<u8> {
    tag + seq![40u8] + chunk_id_text(c.chunk_id) + seq![44u8, 32, 115, 105, 103, 115, 58] + decimal(c.signers.len())
        + seq![41u8]
}

/// The certificates shown one after another, separated by `, `.
pub open spec fn certs_text(tag: Seq<u8>, certs: Seq<CertView>) -> Seq<u8>
    decreases certs.len(),
{
    if certs.len() == 0 {
        Seq::empty()
    } else if certs.len() == 1 {
        cert_text(tag, certs[0])
    } else {
        certs_text(tag, certs.drop_last()) + comma() + cert_text(tag, certs.last())
    }
}

/// `Block(<height, three digits at least>, <parent hash>, [<availability
/// certificates>], [<state certificates>])`
pub open spec fn block_text(b: BlockView) -> Seq<u8> {
    seq![66u8, 108, 111, 99, 107, 40] + decimal3(b.height.0 as nat) + comma() + hash_text(b.parent_hash@) + comma()
        + seq![91u8] + certs_text(avail_tag(), b.avail_certs) + seq![93u8] + comma() + seq![91u8] + certs_text(
        state_tag(),
        b.state_certs,
    ) + seq![93u8, 41]
}

/// `StWit(<chunk>)`
pub open spec fn state_witness_text(w: StateWitness) -> Seq<u8> {
    seq![83u8, 116, 87, 105, 116, 40] + chunk_id_text(w.chunk_id) + seq![41u8]
}

/// Appends `piece` to `buf`.
fn push_piece(buf: &mut Vec<u8>, piece: Vec<u8>)
    ensures
        final(buf)@ == old(buf)@ + piece@,
{
    let mut piece = piece;
    buf.append(&mut piece);
}

/// Appends the hexadecimal digits of `b`.
fn push_hex_byte(buf: &mut Vec<u8>, b: u8)
    ensures
        final(buf)@ == old(buf)@ + hex_byte(b),
{
    let hi = b / 16;
    let lo = b % 16;
    let h = if hi < 10 { 48 + hi } else { 87 + hi };
    let l = if lo < 10 { 48 + lo } else { 87 + lo };
    buf.push(h);
    buf.push(l);
    proof {
        assert(final(buf)@ =~= old(buf)@ + hex_byte(b));
    }
}

/// Appends the text of the hash with bytes `h`.
pub fn push_hash(buf: &mut Vec<u8>, h: &crate::types::hash::Hash)
    ensures
        final(buf)@ == old(buf)@ + hash_text(h@),
{
    push_hex_byte(buf, h.0[0]);
    push_hex_byte(buf, h.0[1]);
    push_hex_byte(buf, h.0[2]);
    push_hex_byte(buf, h.0[3]);
    proof {
        assert(final(buf)@ =~= old(buf)@ + hash_text(h@));
    }
}

/// Appends the decimal digits of `n`, with leading zeros up to three digits.
pub fn push_decimal3(buf: &mut Vec<u8>, n: u32)
    ensures
        final(buf)@ == old(buf)@ + decimal3(n as nat),
{
    let ghost start = buf@;
    if n < 10 {
        buf.push(48);
        buf.push(48);
    } else if n < 100 {
        buf.push(48);
    }
    push_decimal(buf, n as u64);
    proof {
        reveal_with_fuel(decimal, 3);
        crate::naming::lemma_decimal_digits(n as nat);
        if n >= 100 {
            assert(decimal(n as nat).len() >= 3) by {
                lemma_decimal_len_at_least3(n as nat);
            }
        }
        assert(buf@ =~= start + decimal3(n as nat));
    }
}

proof fn lemma_decimal_len_at_least3(n: nat)
    requires
        n >= 100,
    ensures
        decimal(n).len() >= 3,
{
    reveal_with_fuel(decimal, 3);
}

/// Appends the text of `c`.
pub fn push_chunk_id(buf: &mut Vec<u8>, c: &ChunkID)
    ensures
        final(buf)@ == old(buf)@ + chunk_id_text(*c),
{
    let ghost start = buf@;
    push_piece(buf, vec![67u8, 104, 40]);
    push_decimal(buf, c.block_id.height.0 as u64);
    push_piece(buf, vec![44u8, 32]);
    push_hash(buf, &c.block_id.hash);
    push_piece(buf, vec![44u8, 32]);
    push_decimal(buf, c.shard_id.0 as u64);
    buf.push(41u8);
    proof {
        assert(buf@ =~= start + chunk_id_text(*c));
    }
}

/// Appends the text of `p`.
pub fn push_chunk_part_id(buf: &mut Vec<u8>, p: &ChunkPartID)
    ensures
        final(buf)@ == old(buf)@ + chunk_part_id_text(*p),
{
    let ghost start = buf@;
    push_piece(buf, vec![67u8, 104, 80, 97, 114, 116, 73, 68, 40]);
    push_chunk_id(buf, &p.chunk_id);
    push_piece(buf, vec![44u8, 32]);
    push_decimal(buf, p.index as u64);
    buf.push(41u8);
    proof {
        assert(buf@ =~= start + chunk_part_id_text(*p));
    }
}

/// Appends the text of `p`.
pub fn push_chunk_part(buf: &mut Vec<u8>, p: &ChunkPart)
    ensures
        final(buf)@ == old(buf)@ + chunk_part_text(*p),
{
    let ghost start = buf@;
    push_piece(buf, vec![67u8, 104, 80, 97, 114, 116, 40]);
    push_chunk_id(buf, &p.chunk_id);
    push_piece(buf, vec![44u8, 32]);
    push_decimal(buf, p.index as u64);
    buf.push(41u8);
    proof {
        assert(buf@ =~= start + chunk_part_text(*p));
    }
}

/// Appends the text of a certificate tagged `tag` for `chunk_id`, signed by
/// `num_signers` nodes.
fn push_cert(buf: &mut Vec<u8>, tag: &Vec<u8>, chunk_id: &ChunkID, num_signers: usize)
    ensures
        final(buf)@ == old(buf)@ + tag@ + seq![40u8] + chunk_id_text(*chunk_id) + seq![44u8, 32, 115, 105, 103, 115, 58]
            + decimal(num_signers as nat) + seq![41u8],
{
    let ghost start = buf@;
    push_piece(buf, tag.clone());
    buf.push(40u8);
    push_chunk_id(buf, chunk_id);
    push_piece(buf, vec![44u8, 32, 115, 105, 103, 115, 58]);
    push_decimal(buf, num_signers as u64);
    buf.push(41u8);
    proof {
        assert(buf@ =~= start + tag@ + seq![40u8] + chunk_id_text(*chunk_id) + seq![44u8, 32, 115, 105, 103, 115, 58]
            + decimal(num_signers as nat) + seq![41u8]);
    }
}

/// Appends the text of the availability certificates `certs`.
pub fn push_avail_certs(buf: &mut Vec<u8>, certs: &Vec<AvailCert>)
    ensures
        final(buf)@ == old(buf)@ + certs_text(avail_tag(), certs@.map_values(|c: AvailCert| c@)),
{
    let ghost start = buf@;
    let ghost views = certs@.map_values(|c: AvailCert| c@);
    let tag = vec![65u8, 118, 67, 101, 114, 116];
    let mut i: usize = 0;
    while i < certs.len()
        invariant
            i <= certs@.len(),
            tag@ == avail_tag(),
            views == certs@.map_values(|c: AvailCert| c@),
            buf@ == start + certs_text(avail_tag(), views.take(i as int)),
        decreases certs@.len() - i,
    {
        let ghost before = buf@;
        if i > 0 {
            push_piece(buf, vec![44u8, 32]);
        }
        push_cert(buf, &tag, &certs[i].chunk_id, certs[i].signers.len());
        proof {
            let t = views.take(i + 1);
            assert(t.drop_last() =~= views.take(i as int));
            assert(t.last() == certs@[i as int]@);
            if i == 0 {
                assert(t.len() == 1);
            }
            assert(buf@ =~= start + certs_text(avail_tag(), t));
        }
        i = i + 1;
    }
    proof {
        assert(views.take(certs@.len() as int) =~= views);
    }
}

/// Appends the text of the state certificates `certs`.
pub fn push_state_certs(buf: &mut Vec<u8>, certs: &Vec<StateCert>)
    ensures
        final(buf)@ == old(buf)@ + certs_text(state_tag(), certs@.map_values(|c: StateCert| c@)),
{
    let ghost start = buf@;
    let ghost views = certs@.map_values(|c: StateCert| c@);
    let tag = vec![83u8, 116, 67, 101, 114, 116];
    let mut i: usize = 0;
    while i < certs.len()
        invariant
            i <= certs@.len(),
            tag@ == state_tag(),
            views == certs@.map_values(|c: StateCert| c@),
            buf@ == start + certs_text(state_tag(), views.take(i as int)),
        decreases certs@.len() - i,
    {
        if i > 0 {
            push_piece(buf, vec![44u8, 32]);
        }
        push_cert(buf, &tag, &certs[i].chunk_id, certs[i].signers.len());
        proof {
            let t = views.take(i + 1);
            assert(t.drop_last() =~= views.take(i as int));
            assert(t.last() == certs@[i as int]@);
            if i == 0 {
                assert(t.len() == 1);
            }
            assert(buf@ =~= start + certs_text(state_tag(), t));
        }
        i = i + 1;
    }
    proof {
        assert(views.take(certs@.len() as int) =~= views);
    }
}

/// Appends the text of `b`.
pub fn push_block(buf: &mut Vec<u8>, b: &Block)
    ensures
        final(buf)@ == old(buf)@ + block_text(b@),
{
    let ghost start = buf@;
    push_piece(buf, vec![66u8, 108, 111, 99, 107, 40]);
    push_decimal3(buf, b.height.0);
    push_piece(buf, vec![44u8, 32]);
    push_hash(buf, &b.parent_hash);
    push_piece(buf, vec![44u8, 32, 91]);
    push_avail_certs(buf, &b.avail_certs);
    push_piece(buf, vec![93u8, 44, 32, 91]);
    push_state_certs(buf, &b.state_certs);
    push_piece(buf, vec![93u8, 41]);
    proof {
        assert(buf@ =~= start + block_text(b@));
    }
}

/// Appends the text of `w`.
pub fn push_state_witness(buf: &mut Vec<u8>, w: &StateWitness)
    ensures
        final(buf)@ == old(buf)@ + state_witness_text(*w),
{
    let ghost start = buf@;
    push_piece(buf, vec![83u8, 116, 87, 105, 116, 40]);
    push_chunk_id(buf, &w.chunk_id);
    buf.push(41u8);
    proof {
        assert(buf@ =~= start + state_witness_text(*w));
    }
}

/// Appends the name of the node `id`: its bytes up to the first zero byte.
pub fn push_node_id(buf: &mut Vec<u8>, id: &NodeID)
    ensures
        final(buf)@ == old(buf)@ + node_id_text(id@),
{
    let ghost start = buf@;
    let n = id.name_len();
    let mut i: usize = 0;
    while i < n
        invariant
            i <= n <= 32,
            id@.len() == 32,
            buf@ == start + id@.take(i as int),
        decreases n - i,
    {
        buf.push(id.0[i]);
        proof {
            assert(id@.take(i + 1) =~= id@.take(i as int).push(id@[i as int]));
        }
        i = i + 1;
    }
    proof {
        lemma_node_id_text(id@, n as nat);
    }
}

/// `s` right-aligned in a field of `width` bytes, padded with spaces.
pub open spec fn pad_left(s: Seq<u8>, width: nat) -> Seq<u8> {
    if s.len() >= width {
        s
    } else {
        Seq::new((width - s.len()) as nat, |i: int| 32u8) + s
    }
}

/// A node's log line: `<clock, five wide> <name>: <text>`.
pub open spec fn log_text(clock: u64, id: NodeID, text: Seq<u8>) -> Seq<u8> {
    pad_left(decimal(clock as nat), 5) + seq![32u8] + node_id_text(id@) + seq![58u8, 32] + text
}

/// The line for a received message: `RCV <clock, five wide> <name>:
/// <message>`.
pub open spec fn receive_text(clock: u64, id: NodeID, message: Seq<u8>) -> Seq<u8> {
    seq![82u8, 67, 86, 32] + pad_left(decimal(clock as nat), 5) + seq![32u8] + node_id_text(id@) + seq![58u8, 32]
        + message
}

/// The line for a sent message: `SND <clock, five wide> <source> -> <dest>:
/// <message>`.
pub open spec fn send_text(clock: u64, source: NodeID, dest: NodeID, message: Seq<u8>) -> Seq<u8> {
    seq![83u8, 78, 68, 32] + pad_left(decimal(clock as nat), 5) + seq![32u8] + node_id_text(source@) + seq![
        32u8,
        45,
        62,
        32,
    ] + node_id_text(dest@) + seq![58u8, 32] + message
}

/// Appends the decimal digits of `n`, right-aligned in five places.
fn push_clock(buf: &mut Vec<u8>, n: u64)
    ensures
        final(buf)@ == old(buf)@ + pad_left(decimal(n as nat), 5),
{
    let ghost start = buf@;
    let mut digits: Vec<u8> = Vec::new();
    push_decimal(&mut digits, n);
    let len = digits.len();
    let mut k: usize = if len < 5 { len } else { 5 };
    while k < 5
        invariant
            len < 5 ==> len <= k,
            k <= 5,
            len >= 5 ==> k == 5 && buf@ == start,
            len == digits@.len(),
            len < 5 ==> buf@ == start + Seq::new((k - len) as nat, |i: int| 32u8),
        decreases 5 - k,
    {
        buf.push(32u8);
        proof {
            assert(buf@ =~= start + Seq::new((k + 1 - len) as nat, |i: int| 32u8));
        }
        k = k + 1;
    }
    let ghost spaces = buf@;
    buf.append(&mut digits);
    proof {
        assert(digits@ == Seq::<u8>::empty());
        if len >= 5 {
            assert(spaces =~= start);
        }
        assert(buf@ =~= start + pad_left(decimal(n as nat), 5));
    }
}

/// A node's log line for `text`.
pub fn log_line(clock: u64, id: &NodeID, text: &Vec<u8>) -> (r: Vec<u8>)
    ensures
        r@ == log_text(clock, *id, text@),
{
    let mut r: Vec<u8> = Vec::new();
    push_clock(&mut r, clock);
    r.push(32u8);
    push_node_id(&mut r, id);
    r.push(58u8);
    r.push(32u8);
    push_piece(&mut r, text.clone());
    proof {
        assert(r@ =~= log_text(clock, *id, text@));
    }
    r
}

/// The line for a message, shown as `message`, received at `clock` by `id`.
pub fn receive_line(clock: u64, id: &NodeID, message: &Vec<u8>) -> (r: Vec<u8>)
    ensures
        r@ == receive_text(clock, *id, message@),
{
    let mut r: Vec<u8> = vec![82u8, 67, 86, 32];
    push_clock(&mut r, clock);
    r.push(32u8);
    push_node_id(&mut r, id);
    r.push(58u8);
    r.push(32u8);
    push_piece(&mut r, message.clone());
    proof {
        assert(r@ =~= receive_text(clock, *id, message@));
    }
    r
}

/// The line for a message, shown as `message`, sent at `clock` from
/// `source` to `dest`.
pub fn send_line(clock: u64, source: &NodeID, dest: &NodeID, message: &Vec<u8>) -> (r: Vec<u8>)
    ensures
        r@ == send_text(clock, *source, *dest, message@),
{
    let mut r: Vec<u8> = vec![83u8, 78, 68, 32];
    push_clock(&mut r, clock);
    r.push(32u8);
    push_node_id(&mut r, source);
    push_piece(&mut r, vec![32u8, 45, 62, 32]);
    push_node_id(&mut r, dest);
    r.push(58u8);
    r.push(32u8);
    push_piece(&mut r, message.clone());
    proof {
        assert(r@ =~= send_text(clock, *source, *dest, message@));
    }
    r
}

impl NodeID {
    /// The node's name as shown in logs.
    pub fn render(&self) -> (r: Vec<u8>)
        ensures
            r@ == node_id_text(self@),
    {
        let mut r: Vec<u8> = Vec::new();
        push_node_id(&mut r, self);
        proof {
            assert(r@ =~= node_id_text(self@));
        }
        r
    }
}

impl crate::types::hash::Hash {
    /// The hash as shown in logs.
    pub fn render(&self) -> (r: Vec<u8>)
        ensures
            r@ == hash_text(self@),
    {
        let mut r: Vec<u8> = Vec::new();
        push_hash(&mut r, self);
        proof {
            assert(r@ =~= hash_text(self@));
        }
        r
    }
}

impl crate::types::shard::ShardID {
    /// The shard as shown in logs: its number.
    pub fn render(&self) -> (r: Vec<u8>)
        ensures
            r@ == decimal(self.0 as nat),
    {
        let mut r: Vec<u8> = Vec::new();
        push_decimal(&mut r, self.0 as u64);
        proof {
            assert(r@ =~= decimal(self.0 as nat));
        }
        r
    }
}

impl ChunkID {
    /// The chunk as shown in logs.
    pub fn render(&self) -> (r: Vec<u8>)
        ensures
            r@ == chunk_id_text(*self),
    {
        let mut r: Vec<u8> = Vec::new();
        push_chunk_id(&mut r, self);
        proof {
            assert(r@ =~= chunk_id_text(*self));
        }
        r
    }
}

impl ChunkPartID {
    /// The part name as shown in logs.
    pub fn render(&self) -> (r: Vec<u8>)
        ensures
            r@ == chunk_part_id_text(*self),
    {
        let mut r: Vec<u8> = Vec::new();
        push_chunk_part_id(&mut r, self);
        proof {
            assert(r@ =~= chunk_part_id_text(*self));
        }
        r
    }
}

impl ChunkPart {
    /// The part as shown in logs.
    pub fn render(&self) -> (r: Vec<u8>)
        ensures
            r@ == chunk_part_text(*self),
    {
        let mut r: Vec<u8> = Vec::new();
        push_chunk_part(&mut r, self);
        proof {
            assert(r@ =~= chunk_part_text(*self));
        }
        r
    }
}

impl AvailCert {
    /// The certificate as shown in logs.
    pub fn render(&self) -> (r: Vec<u8>)
        ensures
            r@ == cert_text(avail_tag(), self@),
    {
        let mut r: Vec<u8> = Vec::new();
        let tag = vec![65u8, 118, 67, 101, 114, 116];
        push_cert(&mut r, &tag, &self.chunk_id, self.signers.len());
        proof {
            assert(r@ =~= cert_text(avail_tag(), self@));
        }
        r
    }
}

impl StateCert {
    /// The certificate as shown in logs.
    pub fn render(&self) -> (r: Vec<u8>)
        ensures
            r@ == cert_text(state_tag(), self@),
    {
        let mut r: Vec<u8> = Vec::new();
        let tag = vec![83u8, 116, 67, 101, 114, 116];
        push_cert(&mut r, &tag, &self.chunk_id, self.signers.len());
        proof {
            assert(r@ =~= cert_text(state_tag(), self@));
        }
        r
    }
}

impl StateWitness {
    /// The witness as shown in logs.
    pub fn render(&self) -> (r: Vec<u8>)
        ensures
            r@ == state_witness_text(*self),
    {
        let mut r: Vec<u8> = Vec::new();
        push_state_witness(&mut r, self);
        proof {
            assert(r@ =~= state_witness_text(*self));
        }
        r
    }
}

impl Block {
    /// The block as shown in logs.
    pub fn render(&self) -> (r: Vec<u8>)
        ensures
            r@ == block_text(self@),
    {
        let mut r: Vec<u8> = Vec::new();
        push_block(&mut r, self);
        proof {
            assert(r@ =~= block_text(self@));
        }
        r
    }
}

} // verus!
