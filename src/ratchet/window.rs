//! The replay window: a sliding bitmap of the counters already delivered in
//! the current receiving epoch.

use vstd::prelude::*;
use crate::crypto::bytes32_eq;

verus! {

/// Number of counters the replay window tracks.
pub const WINDOW_BITS: u32 = 1024;

/// Bytes of the replay window's bitmap.
pub const WINDOW_BYTES: usize = 128;

/// Abstract replay window: its anchor key, its base counter and one flag per
/// tracked counter.
pub struct WindowView {
    pub anchor: Seq<u8>,
    pub base: u32,
    pub bits: Seq<bool>,
}

/// Whether bit `off` of a little-endian bitmap is set.
pub open spec fn bit_at(bm: Seq<u8>, off: int) -> bool {
    (bm[off / 8] >> ((off % 8) as u8)) & 1u8 == 1u8
}

/// A window with no flag set.
pub open spec fn no_bits() -> Seq<bool> {
    Seq::new(WINDOW_BITS as nat, |k: int| false)
}

/// The flags of a window moved up by `delta` counters: flags that stay in
/// range keep their value, the new top ones are clear.
pub open spec fn slid_bits(bits: Seq<bool>, delta: nat) -> Seq<bool> {
    Seq::new(WINDOW_BITS as nat, |k: int| k + delta < WINDOW_BITS && bits[k + delta])
}

/// Whether counter `n` of epoch `pk` counts as delivered: counters below the
/// base do; counters in range do when their flag is set.
pub open spec fn window_delivered(w: WindowView, pk: Seq<u8>, n: u32) -> bool {
    &&& pk == w.anchor
    &&& (n < w.base || (n - w.base < WINDOW_BITS && w.bits[n - w.base]))
}

/// The window after marking counter `n` of epoch `pk`: a new epoch resets it;
/// a counter beyond its top slides it so that `n` is the top counter,
/// keeping the flags that stay in range.
pub open spec fn window_mark(w: WindowView, pk: Seq<u8>, n: u32) -> WindowView {
    let w0 = if pk != w.anchor {
        WindowView { anchor: pk, base: 0, bits: no_bits() }
    } else {
        w
    };
    if n < w0.base {
        w0
    } else if n - w0.base >= WINDOW_BITS {
        let base = (n - (WINDOW_BITS - 1)) as u32;
        WindowView {
            anchor: pk,
            base,
            bits: slid_bits(w0.bits, (base - w0.base) as nat).update(WINDOW_BITS - 1, true),
        }
    } else {
        WindowView { anchor: pk, base: w0.base, bits: w0.bits.update(n - w0.base, true) }
    }
}

/// Bit facts on a byte: setting bit `b` sets it and leaves the others.
proof fn lemma_set_bit(x: u8, b: u8, c: u8)
    requires
        b < 8,
        c < 8,
    ensures
        ((x | (1u8 << b)) >> c) & 1u8 == 1u8 <==> (c == b || (x >> c) & 1u8 == 1u8),
{
    assert(((x | (1u8 << b)) >> c) & 1u8 == 1u8 <==> (c == b || (x >> c) & 1u8 == 1u8)) by (bit_vector)
        requires
            b < 8,
            c < 8,
    ;
}

/// No bit of zero is set.
proof fn lemma_zero_bits(c: u8)
    requires
        c < 8,
    ensures
        (0u8 >> c) & 1u8 != 1u8,
{
    assert((0u8 >> c) & 1u8 != 1u8) by (bit_vector)
        requires
            c < 8,
    ;
}

/// A sliding bitmap of the counters already delivered in the current
/// receiving epoch.
#[derive(Clone, Debug)]
pub struct DeliveredWindow {
    pub dh_pub: [u8; 32],
    pub base: u32,
    pub bitmap: Vec<u8>,
}

impl View for DeliveredWindow {
    type V = WindowView;

    open spec fn view(&self) -> WindowView {
        WindowView {
            anchor: self.dh_pub@,
            base: self.base,
            bits: Seq::new(WINDOW_BITS as nat, |k: int| bit_at(self.bitmap@, k)),
        }
    }
}

impl DeliveredWindow {
    /// The bitmap holds exactly the window's bits.
    pub open spec fn wf(&self) -> bool {
        self.bitmap@.len() == WINDOW_BYTES
    }

    /// An empty window anchored to `dh_pub`, based at counter zero.
    pub fn new(dh_pub: [u8; 32]) -> (r: Self)
        ensures
            r.wf(),
            r@ == (WindowView { anchor: dh_pub@, base: 0, bits: no_bits() }),
    {
        let bm = vec![0u8; WINDOW_BYTES];
        let r = DeliveredWindow { dh_pub, base: 0, bitmap: bm };
        assert forall|k: int| 0 <= k < WINDOW_BITS implies !bit_at(r.bitmap@, k) by {
            lemma_zero_bits((k % 8) as u8);
        }
        assert(r@.bits =~= no_bits());
        r
    }

    /// Clears every bit.
    fn clear(&mut self)
        requires
            old(self).wf(),
        ensures
            final(self).wf(),
            final(self).dh_pub == old(self).dh_pub,
            final(self).base == old(self).base,
            final(self)@.bits == no_bits(),
    {
        let mut i: usize = 0;
        while i < WINDOW_BYTES
            invariant
                0 <= i <= WINDOW_BYTES,
                self.bitmap@.len() == WINDOW_BYTES,
                self.dh_pub == old(self).dh_pub,
                self.base == old(self).base,
                forall|j: int| 0 <= j < i ==> self.bitmap@[j] == 0u8,
            decreases WINDOW_BYTES - i,
        {
            self.bitmap[i] = 0u8;
            i = i + 1;
        }
        assert forall|k: int| 0 <= k < WINDOW_BITS implies !bit_at(self.bitmap@, k) by {
            lemma_zero_bits((k % 8) as u8);
        }
        assert(self@.bits =~= no_bits());
    }

    /// Sets the flag at offset `off` from the base.
    fn set_bit(&mut self, off: u32)
        requires
            old(self).wf(),
            off < WINDOW_BITS,
        ensures
            final(self).wf(),
            final(self).dh_pub == old(self).dh_pub,
            final(self).base == old(self).base,
            final(self)@.bits == old(self)@.bits.update(off as int, true),
    {
        let i = (off / 8) as usize;
        let b = (off % 8) as u8;
        let x = self.bitmap[i];
        self.bitmap[i] = x | (1u8 << b);
        assert forall|k: int| 0 <= k < WINDOW_BITS implies bit_at(self.bitmap@, k) == old(self)@.bits.update(off as int, true)[k] by {
            lemma_set_bit(x, b, (k % 8) as u8);
            if k / 8 != i as int {
                assert(self.bitmap@[k / 8] == old(self).bitmap@[k / 8]);
            }
        }
        assert(self@.bits =~= old(self)@.bits.update(off as int, true));
    }

    /// Reads the flag at offset `off` from the base.
    fn get_bit(&self, off: u32) -> (r: bool)
        requires
            self.wf(),
            off < WINDOW_BITS,
        ensures
            r == self@.bits[off as int],
    {
        let i = (off / 8) as usize;
        let b = (off % 8) as u8;
        (self.bitmap[i] >> b) & 1u8 == 1u8
    }

    /// Whether counter `n` of epoch `dh_pub` has been delivered.
    pub fn was_delivered(&self, dh_pub: [u8; 32], n: u32) -> (r: bool)
        requires
            self.wf(),
        ensures
            r == window_delivered(self@, dh_pub@, n),
    {
        if !bytes32_eq(&dh_pub, &self.dh_pub) {
            return false;
        }
        if n < self.base {
            return true;
        }
        let off = n - self.base;
        if off >= WINDOW_BITS {
            return false;
        }
        self.get_bit(off)
    }

    /// Marks counter `n` of epoch `dh_pub` delivered.
    pub fn mark(&mut self, dh_pub: [u8; 32], n: u32)
        requires
            old(self).wf(),
        ensures
            final(self).wf(),
            final(self)@ == window_mark(old(self)@, dh_pub@, n),
    {
        if !bytes32_eq(&dh_pub, &self.dh_pub) {
            self.dh_pub = dh_pub;
            self.base = 0;
            self.clear();
        }
        if n < self.base {
            return;
        }
        let off = n - self.base;
        if off >= WINDOW_BITS {
            self.slide(n - WINDOW_BITS + 1);
            self.set_bit(WINDOW_BITS - 1);
        } else {
            self.set_bit(off);
        }
    }

    /// Moves the base up to `new_base`, keeping the flags still in range.
    fn slide(&mut self, new_base: u32)
        requires
            old(self).wf(),
            new_base > old(self).base,
        ensures
            final(self).wf(),
            final(self).dh_pub == old(self).dh_pub,
            final(self).base == new_base,
            final(self)@.bits == slid_bits(old(self)@.bits, (new_base - old(self).base) as nat),
    {
        let delta = new_base - self.base;
        let mut fresh = DeliveredWindow::new(self.dh_pub);
        let ghost target = slid_bits(self@.bits, delta as nat);
        let mut k: u32 = 0;
        while k < WINDOW_BITS
            invariant
                self.wf(),
                fresh.wf(),
                fresh.dh_pub == self.dh_pub,
                fresh.base == 0,
                delta == new_base - self.base,
                target == slid_bits(self@.bits, delta as nat),
                k <= WINDOW_BITS,
                forall|t: int| 0 <= t < WINDOW_BITS ==> #[trigger] fresh@.bits[t] == (t < k && target[t]),
            decreases WINDOW_BITS - k,
        {
            if delta < WINDOW_BITS - k && self.get_bit(k + delta) {
                fresh.set_bit(k);
            }
            k = k + 1;
        }
        assert forall|t: int| 0 <= t < WINDOW_BITS implies #[trigger] fresh@.bits[t] == target[t] by {}
        assert(fresh@.bits =~= target);
        fresh.base = new_base;
        *self = fresh;
    }
}

} // verus!
