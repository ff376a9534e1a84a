//! Bit-packed save files: one bit per known fact, most significant bit first.

use vstd::prelude::*;

verus! {

/// One packed unit of a save: eight facts.
pub type Packed = u8;

/// Bits in one packed unit.
pub const PACKED_SIZE: usize = 8;

/// Number of facts a complete save holds.
pub const KEYS_COUNT: usize = 374;

/// Number of packed units in a complete save.
pub const PACKED_LEN: usize = 47;

/// The bit of `byte` at position `i`, counted from the most significant bit.
pub open spec fn bit_at(byte: u8, i: u8) -> bool {
    (byte >> (7u8 - i) as u8) & 1u8 == 1u8
}

/// Whether fact number `k` is set in the packed save `save`.
pub open spec fn fact(save: Seq<u8>, k: int) -> bool {
    bit_at(save[k / 8], (k % 8) as u8)
}

/// Number of packed units that hold `n` facts.
pub open spec fn units_for(n: int) -> int {
    (n + 7) / 8
}

/// A save is complete when it holds exactly `PACKED_LEN` units and no bit
/// beyond fact `KEYS_COUNT - 1` is set.
pub open spec fn complete(save: Seq<u8>) -> bool {
    &&& save.len() == PACKED_LEN
    &&& forall|k: int| KEYS_COUNT <= k < 8 * PACKED_LEN ==> !#[trigger] fact(save, k)
}

/// Every fact set in `old`, among those both saves have a unit for, is set in `new`.
pub open spec fn extends(old: Seq<u8>, new: Seq<u8>) -> bool {
    forall|k: int|
        0 <= k < 8 * old.len() && k < 8 * new.len() && #[trigger] fact(old, k) ==> fact(new, k)
}

proof fn lemma_set_bit(b: u8, i: u8, j: u8)
    requires
        i < 8,
        j < 8,
    ensures
        bit_at(b | (1u8 << (7u8 - i) as u8), j) == (bit_at(b, j) || i == j),
{
    assert(((b | (1u8 << (7u8 - i) as u8)) >> (7u8 - j) as u8) & 1u8 == 1u8 <==> ((b >> (7u8
        - j) as u8) & 1u8 == 1u8 || i == j)) by (bit_vector)
        requires
            i < 8,
            j < 8,
    ;
}

proof fn lemma_zero_bits(j: u8)
    requires
        j < 8,
    ensures
        !bit_at(0u8, j),
{
    assert((0u8 >> (7u8 - j) as u8) & 1u8 != 1u8) by (bit_vector)
        requires
            j < 8,
    ;
}

proof fn lemma_tail_bits(n: u8)
    ensures
        ((n << 6u8) == 0u8) == (!bit_at(n, 6) && !bit_at(n, 7)),
{
    assert(((n << 6u8) == 0u8) <==> (!((n >> (7u8 - 6u8) as u8) & 1u8 == 1u8) && !((n >> (7u8
        - 7u8) as u8) & 1u8 == 1u8))) by (bit_vector);
}

proof fn lemma_covered(o: u8, n: u8)
    ensures
        (o & !n == 0u8) == (forall|j: u8| j < 8 && #[trigger] bit_at(o, j) ==> bit_at(n, j)),
{
    if o & !n == 0u8 {
        assert forall|j: u8| j < 8 && #[trigger] bit_at(o, j) implies bit_at(n, j) by {
            assert((n >> (7u8 - j) as u8) & 1u8 == 1u8) by (bit_vector)
                requires
                    j < 8,
                    o & !n == 0u8,
                    (o >> (7u8 - j) as u8) & 1u8 == 1u8,
            ;
        }
    } else if forall|j: u8| j < 8 && #[trigger] bit_at(o, j) ==> bit_at(n, j) {
        assert(bit_at(o, 0) ==> bit_at(n, 0));
        assert(bit_at(o, 1) ==> bit_at(n, 1));
        assert(bit_at(o, 2) ==> bit_at(n, 2));
        assert(bit_at(o, 3) ==> bit_at(n, 3));
        assert(bit_at(o, 4) ==> bit_at(n, 4));
        assert(bit_at(o, 5) ==> bit_at(n, 5));
        assert(bit_at(o, 6) ==> bit_at(n, 6));
        assert(bit_at(o, 7) ==> bit_at(n, 7));
        assert(o & !n == 0u8) by (bit_vector)
            requires
                (o >> 7u8) & 1u8 == 1u8 ==> (n >> 7u8) & 1u8 == 1u8,
                (o >> 6u8) & 1u8 == 1u8 ==> (n >> 6u8) & 1u8 == 1u8,
                (o >> 5u8) & 1u8 == 1u8 ==> (n >> 5u8) & 1u8 == 1u8,
                (o >> 4u8) & 1u8 == 1u8 ==> (n >> 4u8) & 1u8 == 1u8,
                (o >> 3u8) & 1u8 == 1u8 ==> (n >> 3u8) & 1u8 == 1u8,
                (o >> 2u8) & 1u8 == 1u8 ==> (n >> 2u8) & 1u8 == 1u8,
                (o >> 1u8) & 1u8 == 1u8 ==> (n >> 1u8) & 1u8 == 1u8,
                (o >> 0u8) & 1u8 == 1u8 ==> (n >> 0u8) & 1u8 == 1u8,
        ;
    }
}

/// Packs `bools` eight to a unit, the first of each eight in the most
/// significant bit; the last unit is filled up with unset bits.
pub fn pack_bools(bools: &[bool]) -> (bytes: Vec<Packed>)
    ensures
        bytes@.len() == units_for(bools@.len() as int),
        forall|k: int|
            0 <= k < 8 * bytes@.len() ==> #[trigger] fact(bytes@, k) == (k < bools@.len()
                && bools@[k]),
{
    let n = bools.len();
    let units = if n % 8 == 0 {
        n / 8
    } else {
        n / 8 + 1
    };
    let mut bytes: Vec<Packed> = Vec::new();
    let mut unit: usize = 0;
    while unit < units
        invariant
            n == bools@.len(),
            units == units_for(n as int),
            unit <= units,
            bytes@.len() == unit,
            forall|k: int|
                0 <= k < 8 * unit ==> #[trigger] fact(bytes@, k) == (k < n && bools@[k]),
        decreases units - unit,
    {
        let base = unit * 8;
        let rest = n - base;
        let mut byte: u8 = 0;
        let mut i: u8 = 0;
        proof {
            assert forall|j: u8| j < 8 implies !#[trigger] bit_at(byte, j) by {
                lemma_zero_bits(j);
            }
        }
        while i < 8
            invariant
                n == bools@.len(),
                base + rest == n,
                i <= 8,
                forall|j: u8|
                    j < i ==> #[trigger] bit_at(byte, j) == (j < rest && bools@[base + j]),
                forall|j: u8| i <= j < 8 ==> !#[trigger] bit_at(byte, j),
            decreases 8 - i,
        {
            if (i as usize) < rest && bools[base + (i as usize)] {
                let ghost before = byte;
                byte = byte | (1u8 << (7u8 - i));
                proof {
                    assert forall|j: u8| j < 8 implies #[trigger] bit_at(byte, j) == (bit_at(
                        before,
                        j,
                    ) || i == j) by {
                        lemma_set_bit(before, i, j);
                    }
                }
            }
            i = i + 1;
        }
        let ghost prev = bytes@;
        bytes.push(byte);
        proof {
            assert forall|k: int| 0 <= k < 8 * (unit + 1) implies #[trigger] fact(bytes@, k) == (k
                < n && bools@[k]) by {
                if k < 8 * unit {
                    assert(bytes@[k / 8] == prev[k / 8]);
                    assert(fact(prev, k) == (k < n && bools@[k]));
                } else {
                    let j = (k % 8) as u8;
                    assert(k / 8 == unit);
                    assert(k == base + j);
                    assert(bytes@[k / 8] == byte);
                    assert(bit_at(byte, j) == (j < rest && bools@[base + j]));
                }
            }
        }
        unit = unit + 1;
    }
    bytes
}

/// Checks that a save holds the valid number of keys.
pub fn is_valid_number_of_keys(packed: &[Packed]) -> (valid: bool)
    ensures
        valid == complete(packed@),
{
    if packed.len() != PACKED_LEN {
        return false;
    }
    let last = packed[PACKED_LEN - 1];
    proof {
        lemma_tail_bits(last);
        assert(fact(packed@, 374) == bit_at(last, 6));
        assert(fact(packed@, 375) == bit_at(last, 7));
    }
    (last << 6u8) == 0
}

/// Checks that a new save only adds keys to the old one and removes none.
pub fn is_allowed_to_override(old: &[Packed], new: &[Packed]) -> (allowed: bool)
    ensures
        allowed == extends(old@, new@),
{
    let mut u: usize = 0;
    while u < old.len() && u < new.len()
        invariant
            forall|k: int| 0 <= k < 8 * u && #[trigger] fact(old@, k) ==> fact(new@, k),
            u <= old@.len(),
            u <= new@.len(),
        decreases old@.len() - u,
    {
        let o = old[u];
        let n = new[u];
        proof {
            lemma_covered(o, n);
        }
        if o & !n != 0 {
            proof {
                let j = choose|j: u8| j < 8 && #[trigger] bit_at(o, j) && !bit_at(n, j);
                let k = 8 * u + j;
                assert(k / 8 == u && k % 8 == j);
                assert(fact(old@, k) && !fact(new@, k));
            }
            return false;
        }
        proof {
            assert forall|k: int| 0 <= k < 8 * (u + 1) && #[trigger] fact(old@, k) implies fact(
                new@,
                k,
            ) by {
                if k >= 8 * u {
                    assert(k / 8 == u);
                    assert(bit_at(o, (k % 8) as u8));
                }
            }
        }
        u = u + 1;
    }
    true
}

/// Whether fact `index` is set in a save of the full length.
pub fn has_bool_enabled(save: &[Packed], index: usize) -> (enabled: bool)
    ensures
        enabled == (index < KEYS_COUNT && save@.len() == PACKED_LEN && fact(save@, index as int)),
{
    if index >= KEYS_COUNT || save.len() != PACKED_LEN {
        return false;
    }
    let shift: u8 = (7 - index % 8) as u8;
    (save[index / 8] >> shift) & 1 == 1
}

/// A copy of `save` with fact `index` set.
pub fn enable_bool(save: &[Packed], index: usize) -> (enabled: Vec<Packed>)
    requires
        index / 8 < save@.len(),
    ensures
        enabled@.len() == save@.len(),
        forall|k: int|
            0 <= k < 8 * save@.len() ==> #[trigger] fact(enabled@, k) == (fact(save@, k) || k
                == index),
{
    let mut enabled: Vec<Packed> = Vec::new();
    let mut u: usize = 0;
    while u < save.len()
        invariant
            u <= save@.len(),
            enabled@ == save@.subrange(0, u as int),
        decreases save@.len() - u,
    {
        enabled.push(save[u]);
        proof {
            assert(enabled@ =~= save@.subrange(0, u + 1));
        }
        u = u + 1;
    }
    proof {
        assert(enabled@ =~= save@);
    }
    let unit = index / 8;
    let bit: u8 = (index % 8) as u8;
    let before = enabled[unit];
    enabled.set(unit, before | (1u8 << (7u8 - bit)));
    proof {
        assert forall|k: int| 0 <= k < 8 * save@.len() implies #[trigger] fact(enabled@, k) == (
        fact(save@, k) || k == index) by {
            if k / 8 == unit {
                lemma_set_bit(before, bit, (k % 8) as u8);
            }
        }
    }
    enabled
}

} // verus!
