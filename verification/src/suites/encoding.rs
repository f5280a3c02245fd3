//! The encoding of values in words: its awkward corners.

use super::cuts::{spell, spelled, tell, told, trouble};
use super::outcomes::heading;
use crate::canonical::{digest, list_words, plain, plain_bits, same_words, Canonical};
use crate::double::Double;
use crate::math::{Vec2, Vec3};
use crate::mesh::words::write_text;
use crate::selftest::{Failure, SuiteResult};
use crate::spans::{EPS_SPAN_MERGE, EPS_SPAN_MIN};
use vstd::prelude::*;

verus! {

/// Both zeros, one either way, a tenth, the least normal and the greatest finite
/// number, the step above one, the infinities, the least number of all, and half a
/// turn.
pub open spec fn corner_values() -> Seq<u64> {
    seq![
        0u64,
        0x8000_0000_0000_0000u64,
        0x3ff0_0000_0000_0000u64,
        0xbff0_0000_0000_0000u64,
        0x3fb9_9999_9999_999au64,
        0x0010_0000_0000_0000u64,
        0x7fef_ffff_ffff_ffffu64,
        0x3cb0_0000_0000_0000u64,
        0x7ff0_0000_0000_0000u64,
        0xfff0_0000_0000_0000u64,
        1u64,
        0x4009_21fb_5444_2d18u64,
    ]
}

fn list_corners() -> (v: [u64; 12])
    ensures
        v@ == corner_values(),
{
    let v: [u64; 12] = [
        0,
        0x8000_0000_0000_0000,
        0x3ff0_0000_0000_0000,
        0xbff0_0000_0000_0000,
        0x3fb9_9999_9999_999a,
        0x0010_0000_0000_0000,
        0x7fef_ffff_ffff_ffff,
        0x3cb0_0000_0000_0000,
        0x7ff0_0000_0000_0000,
        0xfff0_0000_0000_0000,
        1,
        0x4009_21fb_5444_2d18,
    ];
    assert(v@ =~= corner_values());
    v
}

/// A number with a pattern.
pub open spec fn number(bits: u64) -> Double {
    Double { bits }
}

/// What the suite records: its name, the corners, a text, two vectors, and the thresholds
/// of spans.
pub open spec fn encoding_words() -> Seq<u64> {
    let one = number(0x3ff0_0000_0000_0000);
    let two = number(0x4000_0000_0000_0000);
    heading("hash.selfcheck"@) + Seq::new(12, |i: int| plain_bits(number(corner_values()[i]))) + list_words("chipbreaker"@) + (Vec2 { x: one, y: two })
        .words() + (Vec3 { x: one, y: two, z: number(0) }).words() + seq![
        plain_bits(number(EPS_SPAN_MERGE)),
        plain_bits(number(EPS_SPAN_MIN)),
    ]
}

fn expect(holds: bool, case: &str, detail: &str, failures: &mut Vec<Failure>)
    ensures
        holds ==> final(failures)@ == old(failures)@,
        !holds ==> told(final(failures)@) == told(old(failures)@) + seq![(case@, detail@)],
{
    if !holds {
        let f: Failure = trouble(case, "", "", detail);
        proof {
            reveal_strlit("");
            assert(f.case@ =~= case@);
        }
        tell(failures, f);
    }
}

/// Known answers of the encoding: both zeros are one number, every NaN is, and
/// vectors of different sizes are told apart.
pub fn canonical_hash_suite() -> (r: SuiteResult)
    ensures
        r.name@ == "hash.selfcheck"@,
        r.description@ == "canonical encoding known-answer checks (widening, NaN, signed zero)"@,
        r.cases == 18,
        r.failures@.len() == 0,
        r.digest@ == spelled(encoding_words(), encoding_words().len()),
{
    let mut failures: Vec<Failure> = Vec::new();
    let mut words: Vec<u64> = Vec::new();
    write_text("hash.selfcheck", &mut words);
    assert(words@ =~= heading("hash.selfcheck"@));
    let ghost named = words@;
    assert(named =~= named + Seq::new(0, |i: int| plain_bits(number(corner_values()[i]))));
    let corners: [u64; 12] = list_corners();
    let mut i: usize = 0;
    while i < 12
        invariant
            i <= 12,
            corners@ == corner_values(),
            words@ == named + Seq::new(i as nat, |i: int| plain_bits(number(corner_values()[i]))),
        decreases 12 - i,
    {
        words.push(plain(Double::from_bits(corners[i])));
        i = i + 1;
        assert(words@ =~= named + Seq::new(i as nat, |i: int| plain_bits(number(corner_values()[i]))));
    }
    write_text("chipbreaker", &mut words);

    let zero: Vec<u64> = digest(&Double::zeroed());
    let negative: Vec<u64> = digest(&Double::from_bits(0x8000_0000_0000_0000));
    expect(same_words(&zero, &negative), "negative-zero", "-0.0 and 0.0 hash differently", &mut failures);
    let quiet: Vec<u64> = digest(&Double::from_bits(0x7ff8_0000_0000_0000));
    let payload: Vec<u64> = digest(&Double::from_bits(0x7ff8_0000_0000_0007));
    expect(same_words(&quiet, &payload), "nan-payload", "distinct NaN payloads hash differently", &mut failures);
    let count: Vec<u64> = digest(&0xffff_ffffu32);
    let again: Vec<u64> = digest(&0xffff_ffffu32);
    expect(same_words(&count, &again), "usize-stability", "usize hashing is not reproducible", &mut failures);
    expect(u64::BITS == 64, "u64-width", "u64 is not eight bytes", &mut failures);
    expect(usize::BITS == 32 || usize::BITS == 64, "usize-width", "unexpected usize width", &mut failures);

    let one: Double = Double::from_bits(0x3ff0_0000_0000_0000);
    let two: Double = Double::from_bits(0x4000_0000_0000_0000);
    let plane: Vec<u64> = digest(&Vec2::new(one, two));
    let space: Vec<u64> = digest(&Vec3::new(one, two, Double::zeroed()));
    assert(plane@.len() == 2 && space@.len() == 3);
    expect(!same_words(&plane, &space), "type-separation", "Vec2 and Vec3 collide", &mut failures);
    Vec2::new(one, two).write_words(&mut words);
    Vec3::new(one, two, Double::zeroed()).write_words(&mut words);
    words.push(plain(Double::from_bits(EPS_SPAN_MERGE)));
    words.push(plain(Double::from_bits(EPS_SPAN_MIN)));
    assert(words@ =~= encoding_words());
    let digest: String = spell(words.as_slice());
    SuiteResult {
        name: "hash.selfcheck",
        description: "canonical encoding known-answer checks (widening, NaN, signed zero)",
        cases: 18,
        failures,
        digest,
    }
}

} // verus!
