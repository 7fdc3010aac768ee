//! Root-to-leaf paths in a binary tree, stored compactly as the bits of an
//! integer together with a length.

use vstd::arithmetic::power2::{pow2, lemma2_to64};
use vstd::prelude::*;

verus! {

/// The most decisions a path can hold: the bit width of its backing integer.
pub const MAX_STEPS: u8 = 32;

/// One decision on the way down a tree.
#[derive(Debug, PartialEq, Eq, Structural, Hash, Copy, Clone)]
pub enum Step {
    Left,
    Right,
}

impl Step {
    /// The decision as a bit: `Right` is `true`.
    pub open spec fn spec_bit(self) -> bool {
        self is Right
    }

    pub fn from_bit(bit: bool) -> (r: Step)
        ensures
            r.spec_bit() == bit,
    {
        if bit {
            Step::Right
        } else {
            Step::Left
        }
    }

    pub fn bit(self) -> (r: bool)
        ensures
            r == self.spec_bit(),
    {
        match self {
            Step::Left => false,
            Step::Right => true,
        }
    }
}

impl From<bool> for Step {
    fn from(value: bool) -> (r: Step)
        ensures
            r.spec_bit() == value,
    {
        Step::from_bit(value)
    }
}

impl vstd::std_specs::convert::FromSpecImpl<bool> for Step {
    open spec fn obeys_from_spec() -> bool {
        true
    }

    open spec fn from_spec(v: bool) -> Step {
        Step::from_bit_spec(v)
    }
}

impl From<Step> for bool {
    fn from(value: Step) -> (r: bool)
        ensures
            r == value.spec_bit(),
    {
        value.bit()
    }
}

impl vstd::std_specs::convert::FromSpecImpl<Step> for bool {
    open spec fn obeys_from_spec() -> bool {
        true
    }

    open spec fn from_spec(v: Step) -> bool {
        v.spec_bit()
    }
}

/// The decisions encoded by the low `len` bits of `bits`, oldest first: the
/// most recent decision is the lowest bit.
pub open spec fn path_of(bits: nat, len: nat) -> Seq<bool>
    decreases len,
{
    if len == 0 {
        Seq::empty()
    } else {
        path_of(bits / 2, (len - 1) as nat).push(bits % 2 == 1)
    }
}

/// The number whose low bits, most significant first, are `path`.
pub open spec fn path_value(path: Seq<bool>) -> nat
    decreases path.len(),
{
    if path.len() == 0 {
        0
    } else {
        path_value(path.drop_last()) * 2 + if path.last() {
            1nat
        } else {
            0nat
        }
    }
}

/// A path from the root of a tree: at most `MAX_STEPS` decisions.
///
/// Two paths are equal exactly when they hold the same decisions: the bits
/// above `len` are always zero, so the length is never lost.
#[derive(Debug, PartialEq, Eq, Structural, Hash, Copy, Clone)]
pub struct Steps {
    pub bits: u32,
    pub len: u8,
}

impl View for Steps {
    type V = Seq<bool>;

    open spec fn view(&self) -> Seq<bool> {
        path_of(self.bits as nat, self.len as nat)
    }
}

pub proof fn lemma_path_len(bits: nat, len: nat)
    ensures
        path_of(bits, len).len() == len,
    decreases len,
{
    if len > 0 {
        lemma_path_len(bits / 2, (len - 1) as nat);
    }
}

/// Below `2^len`, a number is recovered from its path.
pub proof fn lemma_path_value(bits: nat, len: nat)
    requires
        bits < pow2(len),
    ensures
        path_value(path_of(bits, len)) == bits,
    decreases len,
{
    lemma_path_len(bits, len);
    if len == 0 {
        lemma2_to64();
    } else {
        let l1 = (len - 1) as nat;
        vstd::arithmetic::power2::lemma_pow2_unfold(len);
        assert(bits / 2 < pow2(l1));
        lemma_path_value(bits / 2, l1);
        let p = path_of(bits, len);
        assert(p.drop_last() =~= path_of(bits / 2, l1));
    }
}

impl Steps {
    pub open spec fn wf(&self) -> bool {
        &&& self.len <= MAX_STEPS
        &&& (self.bits as nat) < pow2(self.len as nat)
    }

    pub proof fn lemma_view_len(&self)
        ensures
            self@.len() == self.len,
    {
        lemma_path_len(self.bits as nat, self.len as nat);
    }

    /// Well-formed paths are equal exactly when their decisions are.
    pub proof fn lemma_view_injective(&self, other: &Steps)
        requires
            self.wf(),
            other.wf(),
        ensures
            (self@ == other@) == (*self == *other),
    {
        self.lemma_view_len();
        other.lemma_view_len();
        if self@ == other@ {
            lemma_path_value(self.bits as nat, self.len as nat);
            lemma_path_value(other.bits as nat, other.len as nat);
        }
    }

    /// The empty path.
    pub fn new() -> (r: Steps)
        ensures
            r.wf(),
            r.len == 0,
            r@ == Seq::<bool>::empty(),
    {
        proof {
            lemma2_to64();
        }
        Steps { bits: 0, len: 0 }
    }

    /// Appends one decision.
    pub fn push(&mut self, step: Step)
        requires
            old(self).wf(),
            old(self).len < MAX_STEPS,
        ensures
            final(self).wf(),
            final(self).len == old(self).len + 1,
            final(self)@ == old(self)@.push(step.spec_bit()),
    {
        let b: u32 = if step.bit() {
            1
        } else {
            0
        };
        let ghost old_bits = self.bits as nat;
        let ghost old_len = self.len as nat;
        proof {
            lemma2_to64();
            vstd::arithmetic::power2::lemma_pow2_unfold((old_len + 1) as nat);
            if old_len < 31 {
                vstd::arithmetic::power2::lemma_pow2_strictly_increases(old_len, 31);
            }
        }
        let x = self.bits;
        assert(x < 0x8000_0000u32);
        assert((x << 1u32) | b == x * 2 + b) by (bit_vector)
            requires
                x < 0x8000_0000u32,
                b <= 1u32,
        ;
        self.bits = (x << 1u32) | b;
        self.len = self.len + 1;
        proof {
            let nb = self.bits as nat;
            assert(nb / 2 == old_bits);
            assert(nb % 2 == b as nat);
            assert(self@ =~= path_of(old_bits, old_len).push(step.spec_bit()));
        }
    }

    /// Removes and returns the most recent decision.
    pub fn pop(&mut self) -> (r: Option<Step>)
        requires
            old(self).wf(),
        ensures
            final(self).wf(),
            old(self)@.len() == 0 ==> r is None && *final(self) == *old(self),
            old(self)@.len() > 0 ==> r == Some(Step::from_bit_spec(old(self)@.last()))
                && final(self)@ == old(self)@.drop_last(),
    {
        pop_impl(&mut self.bits, &mut self.len)
    }
}

/// The decisions of a sequence of steps, as bits.
pub open spec fn step_bits(s: Seq<Step>) -> Seq<bool> {
    s.map_values(|x: Step| x.spec_bit())
}

impl Steps {
    /// The decisions, most recent first.
    pub fn backward(&self) -> (r: Vec<Step>)
        requires
            self.wf(),
        ensures
            step_bits(r@) == self@.reverse(),
    {
        let mut rest = *self;
        let mut out: Vec<Step> = Vec::new();
        proof {
            rest.lemma_view_len();
            assert(self@ =~= rest@ + step_bits(out@).reverse());
        }
        while rest.len > 0
            invariant
                rest.wf(),
                rest@.len() == rest.len,
                self@ == rest@ + step_bits(out@).reverse(),
            decreases rest.len,
        {
            let ghost before = rest@;
            let ghost out0 = out@;
            let step = rest.pop();
            match step {
                Some(x) => {
                    out.push(x);
                    proof {
                        rest.lemma_view_len();
                        assert(step_bits(out@) =~= step_bits(out0).push(before.last()));
                        assert(step_bits(out@).reverse() =~= seq![before.last()] + step_bits(out0).reverse());
                        assert(before =~= rest@.push(before.last()));
                        assert(self@ =~= rest@ + step_bits(out@).reverse());
                    }
                },
                None => {},
            }
        }
        proof {
            assert(rest@.len() == 0);
            assert(self@ =~= step_bits(out@).reverse());
            assert(step_bits(out@) =~= step_bits(out@).reverse().reverse());
        }
        out
    }

    /// The decisions in the order they were made.
    pub fn forward(&self) -> (r: Vec<Step>)
        requires
            self.wf(),
        ensures
            step_bits(r@) == self@,
    {
        let back = self.backward();
        let mut out: Vec<Step> = Vec::new();
        let mut k: usize = back.len();
        while k > 0
            invariant
                k <= back@.len(),
                step_bits(back@) == self@.reverse(),
                step_bits(out@) == self@.reverse().subrange(k as int, back@.len() as int).reverse(),
            decreases k,
        {
            k -= 1;
            let ghost out0 = out@;
            out.push(back[k]);
            proof {
                let rv = self@.reverse();
                let n = back@.len() as int;
                assert(step_bits(back@)[k as int] == back@[k as int].spec_bit());
                assert(rv[k as int] == back@[k as int].spec_bit());
                assert(step_bits(out@) =~= step_bits(out0).push(back@[k as int].spec_bit()));
                assert(rv.subrange(k as int, n).reverse() =~= rv.subrange(k as int + 1, n).reverse().push(rv[k as int]));
                assert(step_bits(out@) =~= rv.subrange(k as int, n).reverse());
            }
        }
        proof {
            assert(self@.reverse().subrange(0, back@.len() as int) =~= self@.reverse());
            assert(self@.reverse().reverse() =~= self@);
        }
        out
    }
}

impl Step {
    pub open spec fn from_bit_spec(bit: bool) -> Step {
        if bit {
            Step::Right
        } else {
            Step::Left
        }
    }
}

/// Removes the most recent decision from the path held by `bits` and `len`.
pub fn pop_impl(bits: &mut u32, len: &mut u8) -> (r: Option<Step>)
    requires
        (Steps { bits: *old(bits), len: *old(len) }).wf(),
    ensures
        (Steps { bits: *final(bits), len: *final(len) }).wf(),
        *old(len) == 0 ==> r is None && *final(bits) == *old(bits) && *final(len) == 0,
        *old(len) > 0 ==> r == Some(Step::from_bit_spec(path_of(*old(bits) as nat, *old(len) as nat).last()))
            && path_of(*final(bits) as nat, *final(len) as nat)
            == path_of(*old(bits) as nat, *old(len) as nat).drop_last(),
{
    if *len == 0 {
        None
    } else {
        let ghost ob = *bits as nat;
        let ghost ol = *len as nat;
        *len = *len - 1;
        let step = *bits & 1;
        let x = *bits;
        assert(x & 1u32 == x % 2) by (bit_vector);
        assert(x >> 1u32 == x / 2) by (bit_vector);
        *bits = x >> 1u32;
        proof {
            vstd::arithmetic::power2::lemma_pow2_unfold(ol);
            lemma_path_len(ob, ol);
        }
        Some(Step::from_bit(step != 0))
    }
}

} // verus!
