//! Capabilities that the kernel attests for a connection.

use vstd::prelude::*;

verus! {

/// A privilege that a connection may hold.
#[derive(Copy, Clone, Debug, PartialEq, Eq, Structural)]
pub enum Cap {
    /// Management of every client's windows.
    Shell,
}

impl Cap {
    pub open spec fn spec_mask(self) -> u64 {
        match self {
            Cap::Shell => 1,
        }
    }

    /// The bit that stands for the capability in a [`CapSet`].
    pub fn mask(self) -> (mask: u64)
        ensures
            mask == self.spec_mask(),
    {
        match self {
            Cap::Shell => 1,
        }
    }

    /// The capability's name.
    pub fn name(self) -> (name: &'static str)
        ensures
            name@ == self.spec_name(),
    {
        match self {
            Cap::Shell => "Shell",
        }
    }

    pub open spec fn spec_name(self) -> Seq<char> {
        match self {
            Cap::Shell => "Shell"@,
        }
    }
}

/// A set of capabilities, one bit each.
#[derive(Copy, Clone, Debug, PartialEq, Eq, Structural)]
pub struct CapSet(pub u64);

impl CapSet {
    /// The set that holds no capability.
    pub fn empty() -> (set: CapSet)
        ensures
            set == CapSet(0),
            !set.spec_contains(Cap::Shell),
    {
        assert(0u64 & 1 == 0) by (bit_vector);
        CapSet(0)
    }

    pub open spec fn spec_contains(self, cap: Cap) -> bool {
        self.0 & cap.spec_mask() != 0
    }

    pub fn contains(self, cap: Cap) -> (r: bool)
        ensures
            r == self.spec_contains(cap),
    {
        self.0 & cap.mask() != 0
    }

    /// The set that holds exactly the listed capabilities.
    pub fn from_caps(caps: &[Cap]) -> (set: CapSet)
        ensures
            forall|cap: Cap| #[trigger] set.spec_contains(cap) == caps@.contains(cap),
    {
        let mut bits: u64 = 0;
        assert(0u64 & 1 == 0) by (bit_vector);
        let mut i: usize = 0;
        while i < caps.len()
            invariant
                i <= caps@.len(),
                forall|cap: Cap| #[trigger]
                    CapSet(bits).spec_contains(cap) == caps@.take(i as int).contains(cap),
            decreases caps@.len() - i,
        {
            let mask: u64 = caps[i].mask();
            proof {
                assert((bits | 1) & 1 != 0) by (bit_vector);
                let now = caps@.take(i + 1);
                assert(now[i as int] == caps@[i as int]);
                assert forall|cap: Cap| #[trigger]
                    CapSet(bits | mask).spec_contains(cap) == now.contains(cap) by {
                    assert(cap == Cap::Shell);
                    assert(caps@[i as int] == Cap::Shell);
                }
            }
            bits = bits | mask;
            i += 1;
        }
        proof {
            assert(caps@.take(i as int) =~= caps@);
        }
        CapSet(bits)
    }
}

} // verus!
