//! A forward-only byte stream derived from a secret and a salt with HMAC-SHA256.

use hmac::{Hmac, Mac};
use sha2::Sha256;
use vstd::prelude::*;

verus! {

/// A live HMAC-SHA256 context. Verus cannot declare `Hmac<D>` itself (its
/// bounds name traits of the digest crate), so the context is kept opaque here
/// and described by `mac_key` and `mac_input`.
#[verifier::external_body]
pub struct MacState {
    inner: Hmac<Sha256>,
}

/// The key that a context was created with.
pub uninterp spec fn mac_key(m: MacState) -> Seq<u8>;

/// The bytes that a context has absorbed since it was created.
pub uninterp spec fn mac_input(m: MacState) -> Seq<u8>;

/// The HMAC-SHA256 tag of `msg` under `key`.
pub uninterp spec fn hmac_sha256(key: Seq<u8>, msg: Seq<u8>) -> [u8; 32];

/// Relies on `Mac::new_varkey` of `Hmac<Sha256>`: it takes a key of any length
/// (it never returns `Err`) and starts a context that has absorbed nothing.
#[verifier::external_body]
fn mac_new(key: &[u8]) -> (r: MacState)
    ensures
        mac_key(r) == key@,
        mac_input(r) == Seq::<u8>::empty(),
{
    MacState { inner: Hmac::<Sha256>::new_varkey(key).unwrap() }
}

/// Relies on `Mac::input` of `Hmac<Sha256>`: it appends `data` to what the
/// context has absorbed and keeps its key.
#[verifier::external_body]
fn mac_absorb(m: &mut MacState, data: &[u8])
    ensures
        mac_key(*final(m)) == mac_key(*old(m)),
        mac_input(*final(m)) == mac_input(*old(m)) + data@,
{
    m.inner.input(data)
}

/// Relies on `Clone` and `Mac::result` of `Hmac<Sha256>`: a copy of the context
/// is finalized, so the tag covers all that the context has absorbed and the
/// context itself stays as it was.
#[verifier::external_body]
fn mac_peek(m: &MacState) -> (r: [u8; 32])
    ensures
        r == hmac_sha256(mac_key(*m), mac_input(*m)),
{
    m.inner.clone().result().code().into()
}

/// The number of bytes in one block: one HMAC-SHA256 tag.
pub const BLOCK_SIZE: usize = 32;

/// How many whole blocks cover `length` bytes.
pub open spec fn block_count(length: nat) -> nat {
    length / (BLOCK_SIZE as nat) + if length % (BLOCK_SIZE as nat) > 0 {
        1nat
    } else {
        0nat
    }
}

/// The first `n` blocks of the chain that starts from a context keyed with
/// `key` that has absorbed `start`: each block is the tag of everything
/// absorbed so far, and is then absorbed itself.
pub open spec fn chain(key: Seq<u8>, start: Seq<u8>, n: nat) -> Seq<u8>
    decreases n,
{
    if n == 0 {
        Seq::empty()
    } else {
        let prev = chain(key, start, (n - 1) as nat);
        prev + hmac_sha256(key, start + prev)@
    }
}

/// What an `Entropy` is: the key, all bytes the context has absorbed (the salt
/// and then every block produced), and the count of block bytes produced.
pub struct EntropyView {
    pub key: Seq<u8>,
    pub absorbed: Seq<u8>,
    pub consumed: nat,
}

/// The state that `Entropy::new(secret, salt)` starts in.
pub open spec fn initial(secret: Seq<u8>, salt: Seq<u8>) -> EntropyView {
    EntropyView { key: secret, absorbed: salt, consumed: 0 }
}

/// The bytes that a request for `length` bytes returns in state `v`.
pub open spec fn output_of(v: EntropyView, length: nat) -> Seq<u8> {
    chain(v.key, v.absorbed, block_count(length)).take(length as int)
}

/// The state after a request for `length` bytes in state `v`: every block
/// computed is absorbed and counted, also the part cut off from the output.
pub open spec fn state_after(v: EntropyView, length: nat) -> EntropyView {
    EntropyView {
        key: v.key,
        absorbed: v.absorbed + chain(v.key, v.absorbed, block_count(length)),
        consumed: v.consumed + block_count(length) * (BLOCK_SIZE as nat),
    }
}

/// The outputs of requests for `lengths`, in order, starting in state `v`.
pub open spec fn outputs_of(v: EntropyView, lengths: Seq<nat>) -> Seq<Seq<u8>>
    decreases lengths.len(),
{
    if lengths.len() == 0 {
        Seq::empty()
    } else {
        seq![output_of(v, lengths[0])] + outputs_of(state_after(v, lengths[0]), lengths.drop_first())
    }
}

/// The state after requests for `lengths`, in order, starting in state `v`.
pub open spec fn state_after_all(v: EntropyView, lengths: Seq<nat>) -> EntropyView
    decreases lengths.len(),
{
    if lengths.len() == 0 {
        v
    } else {
        state_after_all(state_after(v, lengths[0]), lengths.drop_first())
    }
}

/// The number of blocks that requests for `lengths` compute in all.
pub open spec fn total_blocks(lengths: Seq<nat>) -> nat
    decreases lengths.len(),
{
    if lengths.len() == 0 {
        0
    } else {
        block_count(lengths[0]) + total_blocks(lengths.drop_first())
    }
}

/// Every block is `BLOCK_SIZE` bytes long.
pub proof fn lemma_chain_len(key: Seq<u8>, start: Seq<u8>, n: nat)
    ensures
        chain(key, start, n).len() == n * (BLOCK_SIZE as nat),
    decreases n,
{
    if n > 0 {
        lemma_chain_len(key, start, (n - 1) as nat);
        assert(n * 32 == (n - 1) * 32 + 32) by (nonlinear_arith);
    }
}

/// Computing `n + m` blocks is computing `n` blocks and then `m` more from
/// the state those `n` blocks leave.
pub proof fn lemma_chain_append(key: Seq<u8>, start: Seq<u8>, n: nat, m: nat)
    ensures
        chain(key, start, n + m) == chain(key, start, n) + chain(
            key,
            start + chain(key, start, n),
            m,
        ),
    decreases m,
{
    let first = chain(key, start, n);
    let next = start + first;
    if m == 0 {
        assert(chain(key, start, n + m) =~= first + chain(key, next, m));
    } else {
        lemma_chain_append(key, start, n, (m - 1) as nat);
        let prev = chain(key, next, (m - 1) as nat);
        assert(start + (first + prev) =~= next + prev);
        assert(chain(key, start, n + m) =~= first + chain(key, next, m));
    }
}

/// Determinism: two states with the same key that have absorbed the same bytes
/// (such as two made by `Entropy::new` from the same secret and salt) give the
/// same outputs for the same requests, and again agree in key and absorbed
/// bytes afterwards, whatever their counters hold.
pub proof fn lemma_deterministic(a: EntropyView, b: EntropyView, lengths: Seq<nat>)
    requires
        a.key == b.key,
        a.absorbed == b.absorbed,
    ensures
        outputs_of(a, lengths) == outputs_of(b, lengths),
        state_after_all(a, lengths).key == state_after_all(b, lengths).key,
        state_after_all(a, lengths).absorbed == state_after_all(b, lengths).absorbed,
    decreases lengths.len(),
{
    if lengths.len() > 0 {
        lemma_deterministic(
            state_after(a, lengths[0]),
            state_after(b, lengths[0]),
            lengths.drop_first(),
        );
    }
}

/// The counter after a series of requests has grown by the full size of every
/// block computed: the sum over the requests of `block_count(length) * BLOCK_SIZE`.
pub proof fn lemma_counter(v: EntropyView, lengths: Seq<nat>)
    ensures
        state_after_all(v, lengths).consumed == v.consumed + total_blocks(lengths) * (
        BLOCK_SIZE as nat),
    decreases lengths.len(),
{
    if lengths.len() > 0 {
        let n = block_count(lengths[0]);
        let rest = total_blocks(lengths.drop_first());
        lemma_counter(state_after(v, lengths[0]), lengths.drop_first());
        assert((n + rest) * 32 == n * 32 + rest * 32) by (nonlinear_arith);
    }
}

/// Where the first of two requests asks for a whole number of blocks, the two
/// outputs together are the output of one request for both lengths, and the
/// state afterwards is the same.
pub proof fn lemma_split_on_block_boundary(v: EntropyView, a: nat, b: nat)
    requires
        a % (BLOCK_SIZE as nat) == 0,
    ensures
        output_of(v, a) + output_of(state_after(v, a), b) == output_of(v, a + b),
        state_after(state_after(v, a), b) == state_after(v, a + b),
{
    let q = a / 32;
    let nb = block_count(b);
    assert(a == q * 32);
    assert(block_count(a) == q);
    assert(block_count(a + b) == q + nb) by {
        assert((q * 32 + b) / 32 == q + b / 32 && (q * 32 + b) % 32 == b % 32) by (nonlinear_arith);
    }
    let first = chain(v.key, v.absorbed, q);
    let w = state_after(v, a);
    let second = chain(v.key, w.absorbed, nb);
    lemma_chain_append(v.key, v.absorbed, q, nb);
    lemma_chain_len(v.key, v.absorbed, q);
    lemma_chain_len(v.key, w.absorbed, nb);
    assert(b <= nb * 32) by (nonlinear_arith)
        requires nb == b / 32 + if b % 32 > 0 { 1nat } else { 0nat };
    assert(first.take(a as int) =~= first);
    assert(first + second.take(b as int) =~= (first + second).take((a + b) as int));
    assert(v.absorbed + (first + second) =~= w.absorbed + second);
    assert((q + nb) * 32 == q * 32 + nb * 32) by (nonlinear_arith);
}

/// A keyed, deterministic stream of pseudorandom bytes.
pub struct Entropy {
    hmac: MacState,
    consumed: usize,
}

impl View for Entropy {
    type V = EntropyView;

    closed spec fn view(&self) -> EntropyView {
        EntropyView {
            key: mac_key(self.hmac),
            absorbed: mac_input(self.hmac),
            consumed: self.consumed as nat,
        }
    }
}

impl Entropy {
    /// Starts a stream keyed with `secret` that has absorbed `salt`.
    pub fn new(secret: &[u8], salt: &[u8]) -> (r: Self)
        ensures
            r@ == initial(secret@, salt@),
    {
        let mut hmac = mac_new(secret);
        mac_absorb(&mut hmac, salt);
        Self { hmac, consumed: 0 }
    }

    /// The number of block bytes computed so far, also those cut off from
    /// outputs.
    pub fn consumed(&self) -> (r: usize)
        ensures
            r == self@.consumed,
    {
        self.consumed
    }

    /// Returns the next `length` bytes of the stream.
    pub fn get_bytes(&mut self, length: usize) -> (r: Vec<u8>)
        requires
            old(self)@.consumed + block_count(length as nat) * (BLOCK_SIZE as nat) <= usize::MAX,
        ensures
            r@.len() == length,
            r@ == output_of(old(self)@, length as nat),
            final(self)@ == state_after(old(self)@, length as nat),
            length == 0 ==> r@.len() == 0 && final(self)@ == old(self)@,
    {
        let ghost key = self@.key;
        let ghost start = self@.absorbed;
        let total: usize = length / BLOCK_SIZE + if length % BLOCK_SIZE > 0 {
            1
        } else {
            0
        };
        assert(total as nat == block_count(length as nat));
        let mut blocks: usize = total;
        let mut output: Vec<u8> = Vec::new();
        while blocks > 0
            invariant
                blocks <= total,
                total as nat == block_count(length as nat),
                self.consumed == old(self).consumed,
                self.consumed + total * BLOCK_SIZE <= usize::MAX,
                mac_key(self.hmac) == key,
                mac_input(self.hmac) == start + output@,
                output@ == chain(key, start, (total - blocks) as nat),
                output@.len() == (total - blocks) * BLOCK_SIZE,
            decreases blocks,
        {
            let bytes = mac_peek(&self.hmac);
            mac_absorb(&mut self.hmac, bytes.as_slice());
            output.extend_from_slice(bytes.as_slice());
            assert(output@ == chain(key, start, (total - blocks + 1) as nat));
            blocks -= 1;
        }
        self.consumed = self.consumed + output.len();
        proof {
            if length == 0 {
                assert(start + chain(key, start, 0) =~= start);
            }
        }
        output.truncate(length);
        output
    }
}

} // verus!
