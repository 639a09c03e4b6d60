use vstd::prelude::*;

use crate::identity::Identity;

verus! {

/// Multiplier of the 64-bit lane mix, a large prime.
pub const LANE_PRIME: u64 = 0x100000001b3;

/// Starting state of the first lane.
pub const LANE_SEED_0: u64 = 0xcbf29ce484222325;

/// Starting state of the second lane.
pub const LANE_SEED_1: u64 = 0x9ae16a3b2f90404f;

/// Starting state of the third lane.
pub const LANE_SEED_2: u64 = 0xc949d7c7509e6557;

/// Starting state of the fourth lane.
pub const LANE_SEED_3: u64 = 0xff51afd7ed558ccd;

/// One step of a lane: absorb a byte, then diffuse by a prime multiply.
pub open spec fn mix(h: u64, b: u8) -> u64 {
    (h ^ (b as u64)).wrapping_mul(LANE_PRIME)
}

/// A whole lane: fold `mix` over the bytes, left to right, from `h`.
pub open spec fn lane(s: Seq<u8>, h: u64) -> u64
    decreases s.len(),
{
    if s.len() == 0 {
        h
    } else {
        lane(s.drop_first(), mix(h, s.first()))
    }
}

/// The content digest of a byte string: four independently seeded lanes.
///
/// The digest is a pure function of the bytes, so equal byte strings always
/// receive equal identities, in any process and on any machine.
pub open spec fn digest_bytes_spec(s: Seq<u8>) -> Identity {
    Identity {
        w0: lane(s, LANE_SEED_0),
        w1: lane(s, LANE_SEED_1),
        w2: lane(s, LANE_SEED_2),
        w3: lane(s, LANE_SEED_3),
    }
}

/// Computes the content digest of a byte string.
pub fn digest_bytes(s: &Vec<u8>) -> (r: Identity)
    ensures
        r == digest_bytes_spec(s@),
{
    let mut h0: u64 = LANE_SEED_0;
    let mut h1: u64 = LANE_SEED_1;
    let mut h2: u64 = LANE_SEED_2;
    let mut h3: u64 = LANE_SEED_3;
    let mut i: usize = 0;
    proof {
        assert(s@.skip(0) =~= s@);
    }
    while i < s.len()
        invariant
            0 <= i <= s@.len(),
            lane(s@.skip(i as int), h0) == lane(s@, LANE_SEED_0),
            lane(s@.skip(i as int), h1) == lane(s@, LANE_SEED_1),
            lane(s@.skip(i as int), h2) == lane(s@, LANE_SEED_2),
            lane(s@.skip(i as int), h3) == lane(s@, LANE_SEED_3),
        decreases s@.len() - i,
    {
        let b = s[i];
        proof {
            let rest = s@.skip(i as int);
            assert(rest.first() == s@[i as int]);
            assert(rest.drop_first() =~= s@.skip(i + 1));
        }
        h0 = (h0 ^ (b as u64)).wrapping_mul(LANE_PRIME);
        h1 = (h1 ^ (b as u64)).wrapping_mul(LANE_PRIME);
        h2 = (h2 ^ (b as u64)).wrapping_mul(LANE_PRIME);
        h3 = (h3 ^ (b as u64)).wrapping_mul(LANE_PRIME);
        i = i + 1;
    }
    proof {
        assert(s@.skip(s@.len() as int) =~= Seq::<u8>::empty());
    }
    Identity { w0: h0, w1: h1, w2: h2, w3: h3 }
}

} // verus!
