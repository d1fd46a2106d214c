//! The xorshift128+ generator that produces random benchmark keys.

use vstd::prelude::*;
use crate::keygen::{le_bytes, put_le_u64, two64};

verus! {

/// A xorshift128+ generator state.
pub struct Xorshift128 {
    s: [u64; 2],
}

/// The state a seed starts from.
pub open spec fn seed_state(seed: u64) -> (u64, u64) {
    (seed ^ 0xdeadbeefcafe1234u64, (((seed as int + 1) % two64()) as u64) ^ 0xabcdef0123456789u64)
}

/// One step of the generator: the state after it.
pub open spec fn step(st: (u64, u64)) -> (u64, u64) {
    let s1 = st.0;
    let s0 = st.1;
    let t = s1 ^ (s1 << 23u64);
    (s0, t ^ s0 ^ (t >> 18u64) ^ (s0 >> 5u64))
}

/// The number one step yields: the new second word plus the old one, wrapping.
pub open spec fn output(st: (u64, u64)) -> u64 {
    ((step(st).1 as int + st.1 as int) % two64()) as u64
}

/// The state after `n` steps.
pub open spec fn state_after(st: (u64, u64), n: nat) -> (u64, u64)
    decreases n,
{
    if n == 0 {
        st
    } else {
        step(state_after(st, (n - 1) as nat))
    }
}

/// The number yielded by step `t` (counting from 0).
pub open spec fn nth_output(st: (u64, u64), t: nat) -> u64 {
    output(state_after(st, t))
}

/// The bytes of key `t` (counting from 0): outputs `2t` and `2t + 1`.
pub open spec fn nth_key(st: (u64, u64), t: nat) -> Seq<u8> {
    le_bytes(nth_output(st, 2 * t) as int, 8) + le_bytes(nth_output(st, 2 * t + 1) as int, 8)
}

impl Xorshift128 {
    /// The generator's state words.
    pub closed spec fn state(&self) -> (u64, u64) {
        (self.s[0], self.s[1])
    }

    /// A generator seeded with `seed`.
    pub fn new(seed: u64) -> (r: Self)
        ensures
            r.state() == seed_state(seed),
    {
        Xorshift128 {
            s: [seed ^ 0xdeadbeefcafe1234, seed.wrapping_add(1) ^ 0xabcdef0123456789],
        }
    }

    /// The next 64-bit number.
    pub fn next_u64(&mut self) -> (r: u64)
        ensures
            r == output(old(self).state()),
            final(self).state() == step(old(self).state()),
    {
        let mut s1 = self.s[0];
        let s0 = self.s[1];
        self.s[0] = s0;
        s1 = s1 ^ (s1 << 23);
        self.s[1] = s1 ^ s0 ^ (s1 >> 18) ^ (s0 >> 5);
        self.s[1].wrapping_add(s0)
    }

    /// A 16-byte key: two numbers, each as 8 little-endian bytes.
    pub fn next_key(&mut self) -> (r: [u8; 16])
        ensures
            r@ == le_bytes(output(old(self).state()) as int, 8) + le_bytes(
                output(step(old(self).state())) as int,
                8,
            ),
            final(self).state() == step(step(old(self).state())),
    {
        let a = self.next_u64();
        let b = self.next_u64();
        let mut k = [0u8; 16];
        put_le_u64(&mut k, 0, a);
        put_le_u64(&mut k, 8, b);
        assert(k@ =~= le_bytes(a as int, 8) + le_bytes(b as int, 8));
        k
    }

    /// The next `n` keys, in order.
    pub fn next_keys(&mut self, n: usize) -> (r: Vec<[u8; 16]>)
        ensures
            r@.len() == n,
            forall|t: int| 0 <= t < n ==> (#[trigger] r@[t])@ == nth_key(old(self).state(), t as nat),
            final(self).state() == state_after(old(self).state(), 2 * n as nat),
    {
        let ghost st0 = self.state();
        let mut keys: Vec<[u8; 16]> = Vec::with_capacity(n);
        let mut i: usize = 0;
        while i < n
            invariant
                i <= n,
                keys@.len() == i,
                forall|t: int| 0 <= t < i ==> (#[trigger] keys@[t])@ == nth_key(st0, t as nat),
                self.state() == state_after(st0, 2 * i as nat),
            decreases n - i,
        {
            let ghost before = self.state();
            let k = self.next_key();
            proof {
                assert(state_after(st0, 2 * i as nat + 1) == step(state_after(st0, 2 * i as nat)));
                assert(state_after(st0, 2 * i as nat + 2) == step(
                    state_after(st0, 2 * i as nat + 1),
                ));
            }
            keys.push(k);
            i = i + 1;
        }
        keys
    }
}

} // verus!
