//! The flags of a slab.

use vstd::prelude::*;

verus! {

/// inuse: `0..32`, objects: `32..63`, frozen(in `cache_cpu`): `63..64`
#[derive(Debug, Clone, Copy, PartialEq, Eq)]
pub struct SlabFlags(u64);

impl SlabFlags {
    const FROZEN_SHIFT: u64 = 63;

    const FROZEN_BITMASK: u64 = 0x8000_0000_0000_0000;

    const OBJECTS_SHIFT: u64 = 32;

    const OBJECTS_BITMASK: u64 = 0x7FFF_FFFF_0000_0000;

    const INUSE_BITMASK: u64 = 0xFFFF_FFFF;

    /// The flags as a number.
    pub closed spec fn value(self) -> nat {
        self.0 as nat
    }

    /// The number of objects that are in use.
    pub open spec fn spec_inuse(self) -> nat {
        self.value() % 0x1_0000_0000
    }

    /// The number of objects of the slab.
    pub open spec fn spec_objects(self) -> nat {
        self.value() / 0x1_0000_0000 % 0x8000_0000
    }

    /// The slab is the active one of a cpu.
    pub open spec fn spec_frozen(self) -> bool {
        self.value() / 0x8000_0000_0000_0000 == 1
    }

    /// The flags with these fields. What exceeds a field reaches into the ones above it.
    pub fn new(frozen: bool, objects: usize, inuse: usize) -> (r: Self)
        ensures
            r.value() == (if frozen {
                1u64 << 63
            } else {
                0u64
            }) | ((objects as u64) << 32) | inuse as u64,
            inuse < 0x1_0000_0000 ==> {
                &&& r.spec_frozen() == (frozen || objects as nat / 0x8000_0000 % 2 == 1)
                &&& r.spec_objects() == objects as nat % 0x8000_0000
                &&& r.spec_inuse() == inuse
            },
    {
        let f: u64 = if frozen {
            1
        } else {
            0
        };
        let o: u64 = objects as u64;
        let i: u64 = inuse as u64;
        let v: u64 = (f << 63) | (o << 32) | i;
        proof {
            assert(i < 0x1_0000_0000 ==> v % 0x1_0000_0000 == i && v / 0x1_0000_0000 % 0x8000_0000
                == o % 0x8000_0000 && (v / 0x8000_0000_0000_0000 == 1) == (f == 1 || o
                / 0x8000_0000 % 2 == 1)) by (bit_vector)
                requires
                    v == (f << 63) | (o << 32) | i,
                    f <= 1,
            ;
            assert(0u64 << 63 == 0u64) by (bit_vector);
        }
        SlabFlags(v)
    }

    pub fn is_frozen(&self) -> (r: bool)
        ensures
            r == self.spec_frozen(),
    {
        let v: u64 = self.0;
        proof {
            assert((((v & 0x8000_0000_0000_0000) >> 63) != 0) == (v / 0x8000_0000_0000_0000 == 1))
                by (bit_vector);
        }
        (v & Self::FROZEN_BITMASK) >> Self::FROZEN_SHIFT != 0
    }

    pub fn set_frozen(self, frozen: bool) -> (r: Self)
        ensures
            r.spec_frozen() == frozen,
            r.spec_objects() == self.spec_objects(),
            r.spec_inuse() == self.spec_inuse(),
    {
        let f: u64 = if frozen {
            1
        } else {
            0
        };
        let v: u64 = self.0;
        let w: u64 = (v & !Self::FROZEN_BITMASK) | (f << Self::FROZEN_SHIFT);
        proof {
            assert(w % 0x1_0000_0000 == v % 0x1_0000_0000 && w / 0x1_0000_0000 % 0x8000_0000 == v
                / 0x1_0000_0000 % 0x8000_0000 && (w / 0x8000_0000_0000_0000 == 1) == (f == 1))
                by (bit_vector)
                requires
                    w == (v & !0x8000_0000_0000_0000u64) | (f << 63),
                    f <= 1,
            ;
        }
        SlabFlags(w)
    }

    pub fn objects(&self) -> (r: usize)
        ensures
            r == self.spec_objects(),
    {
        let v: u64 = self.0;
        let o: u64 = (v & Self::OBJECTS_BITMASK) >> Self::OBJECTS_SHIFT;
        proof {
            assert(o == v / 0x1_0000_0000 % 0x8000_0000 && o < 0x8000_0000) by (bit_vector)
                requires
                    o == (v & 0x7FFF_FFFF_0000_0000) >> 32,
            ;
        }
        o as usize
    }

    pub fn set_objects(self, objects: usize) -> (r: Self)
        ensures
            r.spec_frozen() == (self.spec_frozen() || objects as nat / 0x8000_0000 % 2 == 1),
            r.spec_objects() == objects as nat % 0x8000_0000,
            r.spec_inuse() == self.spec_inuse(),
    {
        let v: u64 = self.0;
        let o: u64 = objects as u64;
        let w: u64 = (v & !Self::OBJECTS_BITMASK) | (o << Self::OBJECTS_SHIFT);
        proof {
            assert(w % 0x1_0000_0000 == v % 0x1_0000_0000 && w / 0x1_0000_0000 % 0x8000_0000 == o
                % 0x8000_0000 && (w / 0x8000_0000_0000_0000 == 1) == (v / 0x8000_0000_0000_0000
                == 1 || o / 0x8000_0000 % 2 == 1)) by (bit_vector)
                requires
                    w == (v & !0x7FFF_FFFF_0000_0000u64) | (o << 32),
            ;
        }
        SlabFlags(w)
    }

    pub fn inuse(&self) -> (r: usize)
        ensures
            r == self.spec_inuse(),
    {
        let v: u64 = self.0;
        let i: u64 = v & Self::INUSE_BITMASK;
        proof {
            assert(i == v % 0x1_0000_0000 && i < 0x1_0000_0000) by (bit_vector)
                requires
                    i == v & 0xFFFF_FFFF,
            ;
        }
        i as usize
    }

    pub fn set_inuse(self, inuse: usize) -> (r: Self)
        ensures
            r.value() == (self.value() as u64 & !0xFFFF_FFFFu64) | inuse as u64,
            inuse < 0x1_0000_0000 ==> {
                &&& r.spec_frozen() == self.spec_frozen()
                &&& r.spec_objects() == self.spec_objects()
                &&& r.spec_inuse() == inuse
            },
    {
        let v: u64 = self.0;
        let i: u64 = inuse as u64;
        let w: u64 = (v & !Self::INUSE_BITMASK) | i;
        proof {
            assert(i < 0x1_0000_0000 ==> w % 0x1_0000_0000 == i && w / 0x1_0000_0000 % 0x8000_0000
                == v / 0x1_0000_0000 % 0x8000_0000 && (w / 0x8000_0000_0000_0000 == 1) == (v
                / 0x8000_0000_0000_0000 == 1)) by (bit_vector)
                requires
                    w == (v & !0xFFFF_FFFFu64) | i,
            ;
        }
        SlabFlags(w)
    }

    /// The flags as a number.
    pub fn as_u64(self) -> (r: u64)
        ensures
            r == self.value(),
    {
        self.0
    }

    /// The flags with one object less in use. Where none is in use, it is borrowed from the bits
    /// above.
    pub fn minus_one(self) -> (r: Self)
        ensures
            if self.spec_inuse() > 0 {
                &&& r.spec_inuse() == self.spec_inuse() - 1
                &&& r.spec_objects() == self.spec_objects()
                &&& r.spec_frozen() == self.spec_frozen()
            } else if self.spec_objects() > 0 {
                &&& r.spec_inuse() == 0xFFFF_FFFF
                &&& r.spec_objects() == self.spec_objects() - 1
                &&& r.spec_frozen() == self.spec_frozen()
            } else {
                &&& r.spec_inuse() == 0xFFFF_FFFF
                &&& r.spec_objects() == 0x7FFF_FFFF
                &&& r.spec_frozen() == !self.spec_frozen()
            },
    {
        SlabFlags(self.0.wrapping_sub(1))
    }
}

} // verus!
