//! The keystream generator: a linear-congruential generator modulo 2^32 whose
//! top byte is emitted at every step, and the XOR stream cipher built on it.
use vstd::prelude::*;

verus! {

/// Multiplier of the generator.
pub const LCG_MULTIPLIER: u32 = 1103515245;

/// Increment of the generator.
pub const LCG_INCREMENT: u32 = 12345;

/// One step of the generator: `(A * s + C) mod 2^32`.
pub open spec fn lcg_step(s: u32) -> u32 {
    ((LCG_MULTIPLIER as int * s as int + LCG_INCREMENT as int) % 0x1_0000_0000) as u32
}

/// The byte emitted for a state: its top eight bits.
pub open spec fn top_byte(s: u32) -> u8 {
    (s >> 24u32) as u8
}

/// The state reached from `s` after `n` steps.
pub open spec fn state_after(s: u32, n: nat) -> u32
    decreases n,
{
    if n == 0 {
        s
    } else {
        lcg_step(state_after(s, (n - 1) as nat))
    }
}

/// The first `n` bytes that a generator in state `s` emits.
pub open spec fn keystream(s: u32, n: nat) -> Seq<u8> {
    Seq::new(n, |i: int| top_byte(state_after(s, (i + 1) as nat)))
}

/// The state a generator seeded with `seed` starts from: the low 32 bits.
pub open spec fn seed_state(seed: u64) -> u32 {
    (seed % 0x1_0000_0000) as u32
}

/// Bytewise XOR of `x` against the first `x.len()` bytes of `k`.
pub open spec fn xor_bytes(x: Seq<u8>, k: Seq<u8>) -> Seq<u8> {
    Seq::new(x.len(), |i: int| x[i] ^ k[i])
}

/// What the cipher turns `x` into when its generator stands in state `s`.
pub open spec fn cipher(x: Seq<u8>, s: u32) -> Seq<u8> {
    xor_bytes(x, keystream(s, x.len()))
}

/// A keystream cursor. `position` counts the bytes emitted so far (modulo
/// 2^64); it is informative only and never affects the bytes.
#[derive(Debug, PartialEq, Eq, Structural)]
pub struct Lcg {
    pub state: u32,
    pub position: u64,
}

impl Lcg {
    /// A generator seeded from the low 32 bits of `seed`, at position 0.
    pub fn new(seed: u64) -> (r: Lcg)
        ensures
            r.state == seed_state(seed),
            r.position == 0,
    {
        Lcg { state: (seed % 0x1_0000_0000) as u32, position: 0 }
    }

    /// Advances the generator one step and returns the top byte of the new
    /// state.
    pub fn next_byte(&mut self) -> (r: u8)
        ensures
            final(self).state == lcg_step(old(self).state),
            final(self).position == (old(self).position + 1) % 0x1_0000_0000_0000_0000,
            r == top_byte(final(self).state),
    {
        assert(LCG_MULTIPLIER as int * self.state as int <= 0x7FFF_FFFF * 0xFFFF_FFFFint)
            by (nonlinear_arith)
            requires
                self.state <= 0xFFFF_FFFF,
        ;
        let next: u64 = (LCG_MULTIPLIER as u64 * self.state as u64 + LCG_INCREMENT as u64)
            % 0x1_0000_0000;
        self.state = next as u32;
        self.position = self.position.wrapping_add(1);
        (self.state >> 24) as u8
    }

    /// Draws the next `n` bytes of the keystream.
    pub fn take(&mut self, n: usize) -> (r: Vec<u8>)
        ensures
            r@ == keystream(old(self).state, n as nat),
            final(self).state == state_after(old(self).state, n as nat),
            final(self).position == (old(self).position + n) % 0x1_0000_0000_0000_0000,
    {
        let ghost s0 = self.state;
        let ghost p0 = self.position;
        let mut out: Vec<u8> = Vec::new();
        let mut i: usize = 0;
        while i < n
            invariant
                i <= n,
                self.state == state_after(s0, i as nat),
                self.position == (p0 + i) % 0x1_0000_0000_0000_0000,
                out@ == keystream(s0, i as nat),
            decreases n - i,
        {
            let b = self.next_byte();
            out.push(b);
            i = i + 1;
            assert(out@ =~= keystream(s0, i as nat));
        }
        out
    }
}

/// XORs each byte of `data` with the next byte of the keystream, one
/// generator step per byte. Applied with a generator in the same state, it
/// undoes itself.
pub fn transform(data: &[u8], ks: &mut Lcg) -> (r: Vec<u8>)
    ensures
        r@ == cipher(data@, old(ks).state),
        final(ks).state == state_after(old(ks).state, data@.len()),
        final(ks).position == (old(ks).position + data@.len()) % 0x1_0000_0000_0000_0000,
{
    let ghost s0 = ks.state;
    let ghost p0 = ks.position;
    let mut out: Vec<u8> = Vec::new();
    let mut i: usize = 0;
    while i < data.len()
        invariant
            i <= data@.len(),
            ks.state == state_after(s0, i as nat),
            ks.position == (p0 + i) % 0x1_0000_0000_0000_0000,
            out@ == xor_bytes(data@.take(i as int), keystream(s0, i as nat)),
        decreases data@.len() - i,
    {
        let k = ks.next_byte();
        out.push(data[i] ^ k);
        i = i + 1;
        assert(out@ =~= xor_bytes(data@.take(i as int), keystream(s0, i as nat)));
    }
    assert(data@.take(data@.len() as int) =~= data@);
    out
}

proof fn lemma_state_after_adds(s: u32, n: nat, m: nat)
    ensures
        state_after(s, n + m) == state_after(state_after(s, n), m),
    decreases m,
{
    if m > 0 {
        lemma_state_after_adds(s, n, (m - 1) as nat);
    }
}

/// The keystream is a fixed sequence per seed: drawing `n` bytes and then
/// `m` more yields exactly the first `n + m` bytes drawn at once, so any two
/// generators seeded alike agree on their first N bytes however their draws
/// are split.
pub proof fn lemma_keystream_deterministic(seed: u64, n: nat, m: nat)
    ensures
        keystream(seed_state(seed), n + m) == keystream(seed_state(seed), n) + keystream(
            state_after(seed_state(seed), n),
            m,
        ),
{
    let s = seed_state(seed);
    let whole = keystream(s, n + m);
    let parts = keystream(s, n) + keystream(state_after(s, n), m);
    assert forall|j: int| 0 <= j < n + m implies #[trigger] whole[j] == parts[j] by {
        if j >= n {
            lemma_state_after_adds(s, n, (j - n + 1) as nat);
            assert(n + (j - n + 1) == j + 1);
        }
    }
    assert(keystream(s, n + m) =~= keystream(s, n) + keystream(state_after(s, n), m));
}

/// The cipher undoes itself: two generators created from the same seed and
/// advanced by the same number of prior steps turn `cipher(x)` back into `x`.
pub proof fn lemma_cipher_round_trip(x: Seq<u8>, seed: u64, prior: nat)
    ensures
        cipher(cipher(x, state_after(seed_state(seed), prior)), state_after(seed_state(seed), prior))
            == x,
{
    let s = state_after(seed_state(seed), prior);
    let k = keystream(s, x.len());
    assert forall|i: int| 0 <= i < x.len() implies #[trigger] cipher(cipher(x, s), s)[i] == x[i] by {
        let a = x[i];
        let b = k[i];
        assert((a ^ b) ^ b == a) by (bit_vector);
    }
    assert(cipher(cipher(x, s), s) =~= x);
}

} // verus!
