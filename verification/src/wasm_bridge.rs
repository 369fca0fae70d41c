//! Ternary values and their exchange formats: trits, trytes, packed bytes,
//! 16-bit integers and ASCII text.

use vstd::prelude::*;
use vstd::math::min;
use vstd::string::StringSliceAdditionalSpecFns;

verus! {

/// A balanced ternary digit: -1, 0 or +1.
#[derive(Debug, Clone, Copy, PartialEq, Eq, Structural)]
pub enum Trit {
    Neg,
    Zero,
    Pos,
}

impl Trit {
    /// The integer a trit stands for.
    pub open spec fn value(self) -> int {
        match self {
            Trit::Neg => -1,
            Trit::Zero => 0,
            Trit::Pos => 1,
        }
    }

    /// The trit's integer value as an `i8`.
    pub fn to_i8(self) -> (r: i8)
        ensures
            r == self.value(),
    {
        match self {
            Trit::Neg => -1,
            Trit::Zero => 0,
            Trit::Pos => 1,
        }
    }

    /// Convert from i8; every input maps to the trit of its sign.
    pub fn from_i8(v: i8) -> (r: Trit)
        ensures
            r.value() == sign(v as int),
    {
        if v <= -1 {
            Trit::Neg
        } else if v == 0 {
            Trit::Zero
        } else {
            Trit::Pos
        }
    }

    /// Multiply two trits (balanced ternary multiplication).
    pub fn mul(self, other: Trit) -> (r: Trit)
        ensures
            r.value() == self.value() * other.value(),
    {
        match (self, other) {
            (Trit::Zero, _) | (_, Trit::Zero) => Trit::Zero,
            (Trit::Neg, Trit::Neg) | (Trit::Pos, Trit::Pos) => Trit::Pos,
            _ => Trit::Neg,
        }
    }

    /// Add two trits, returning (carry, sum).
    pub fn add(self, other: Trit) -> (r: (Trit, Trit))
        ensures
            3 * r.0.value() + r.1.value() == self.value() + other.value(),
    {
        let s: i8 = self.to_i8() + other.to_i8();
        if s == -2 {
            (Trit::Neg, Trit::Pos)
        } else if s == -1 {
            (Trit::Zero, Trit::Neg)
        } else if s == 0 {
            (Trit::Zero, Trit::Zero)
        } else if s == 1 {
            (Trit::Zero, Trit::Pos)
        } else {
            (Trit::Pos, Trit::Neg)
        }
    }
}

/// The sign of an integer: -1, 0 or 1.
pub open spec fn sign(v: int) -> int {
    if v < 0 {
        -1
    } else if v == 0 {
        0
    } else {
        1
    }
}

/// 3 to the power `n`.
pub open spec fn pow3(n: nat) -> int
    decreases n,
{
    if n == 0 {
        1
    } else {
        3 * pow3((n - 1) as nat)
    }
}

/// The value of the lowest `n` digits of a balanced ternary numeral,
/// least significant digit first.
pub open spec fn digits_value(s: Seq<Trit>, n: nat) -> int
    decreases n,
{
    if n == 0 {
        0
    } else {
        digits_value(s, (n - 1) as nat) + s[n - 1].value() * pow3((n - 1) as nat)
    }
}

/// The nearest integer to `v` that a tryte can hold.
pub open spec fn clamp_tryte(v: int) -> int {
    if v > 364 {
        364
    } else if v < -364 {
        -364
    } else {
        v
    }
}

/// The tryte whose six trits are all zero.
pub open spec fn zero_tryte() -> Tryte {
    Tryte([Trit::Zero; 6usize])
}

/// A tryte is 6 trits (range -364..=364), least significant trit first.
#[derive(Debug, Clone, Copy, PartialEq, Eq)]
pub struct Tryte(pub [Trit; 6]);

impl Tryte {
    /// The integer a tryte stands for.
    pub open spec fn value(self) -> int {
        digits_value(self.0@, 6)
    }

    /// The tryte whose six trits are all zero.
    pub fn zero() -> (r: Tryte)
        ensures
            r == zero_tryte(),
            forall|i: int| 0 <= i < 6 ==> r.0@[i] == Trit::Zero,
            r.value() == 0,
    {
        let r = Tryte([Trit::Zero;6]);
        proof {
            lemma_digits_value_zero_above(r.0@, 0, 6);
        }
        r
    }

    /// The all-zero tryte has value 0.
    pub proof fn lemma_zero_value()
        ensures
            zero_tryte().value() == 0,
    {
        let z = zero_tryte();
        assert forall|i: int| 0 <= i < 6 implies z.0@[i] == Trit::Zero by {}
        lemma_digits_value_zero_above(z.0@, 0, 6);
    }

    /// Convert a balanced ternary tryte to its integer value.
    pub fn to_i32(self) -> (r: i32)
        ensures
            r == self.value(),
    {
        let mut val: i32 = 0;
        let mut pow: i32 = 1;
        let mut i: usize = 0;
        proof {
            lemma_digits_value_bound(self.0@, 0);
        }
        while i < 6
            invariant
                0 <= i <= 6,
                pow == pow3(i as nat),
                val == digits_value(self.0@, i as nat),
                -(pow - 1) <= 2 * val <= pow - 1,
            decreases 6 - i,
        {
            proof {
                lemma_digits_value_bound(self.0@, (i + 1) as nat);
                assert(pow3(6) == 729) by {
                    reveal_with_fuel(pow3, 7);
                }
                lemma_pow3_monotone((i + 1) as nat, 6);
            }
            val = val + self.0[i].to_i8() as i32 * pow;
            pow = pow * 3;
            i = i + 1;
        }
        val
    }

    /// Convert an integer to a tryte (clamped to range).
    pub fn from_i32(v: i32) -> (r: Tryte)
        ensures
            r.value() == clamp_tryte(v as int),
    {
        let mut v = v;
        if v > 364 {
            v = 364;
        }
        if v < -364 {
            v = -364;
        }
        let ghost clamped = v as int;
        let mut trits = [Trit::Zero;6];
        let mut idx: usize = 0;
        proof {
            lemma_digits_value_zero_above(trits@, 0, 6);
        }
        while v != 0 && idx < 6
            invariant
                0 <= idx <= 6,
                trits@.len() == 6,
                forall|j: int| idx <= j < 6 ==> trits@[j] == Trit::Zero,
                -digit_bound(idx as nat) <= v <= digit_bound(idx as nat),
                clamped == digits_value(trits@, idx as nat) + pow3(idx as nat) * v,
            decreases 6 - idx,
        {
            // Euclidean remainder of v by 3.
            let r0 = v % 3;
            let r = if r0 < 0 {
                r0 + 3
            } else {
                r0
            };
            let ghost old_trits = trits@;
            let ghost old_v = v as int;
            let d: Trit;
            if r == 0 {
                d = Trit::Zero;
                v = v / 3;
            } else if r == 1 {
                d = Trit::Pos;
                v = (v - 1) / 3;
            } else {
                d = Trit::Neg;
                v = (v + 1) / 3;
            }
            trits[idx] = d;
            proof {
                assert(old_v == 3 * v + d.value());
                lemma_digits_value_update_above(old_trits, idx as nat, d, idx as nat);
                let p = pow3(idx as nat);
                assert(p * old_v == p * d.value() + (3 * p) * v) by (nonlinear_arith)
                    requires
                        old_v == 3 * v + d.value(),
                ;
                assert(pow3((idx + 1) as nat) == 3 * p);
                assert(trits@ == old_trits.update(idx as int, d));
                assert(digits_value(trits@, (idx + 1) as nat) == digits_value(old_trits, idx as nat)
                    + d.value() * p);
                assert(d.value() * p == p * d.value()) by (nonlinear_arith);
            }
            idx = idx + 1;
        }
        proof {
            assert(v == 0);
            lemma_digits_value_zero_above(trits@, idx as nat, 6);
        }
        Tryte(trits)
    }
}

/// The largest magnitude left to encode once `k` of the six trits are written.
pub open spec fn digit_bound(k: nat) -> int {
    if k == 0 {
        364
    } else if k == 1 {
        121
    } else if k == 2 {
        40
    } else if k == 3 {
        13
    } else if k == 4 {
        4
    } else if k == 5 {
        1
    } else {
        0
    }
}

proof fn lemma_pow3_monotone(a: nat, b: nat)
    requires
        a <= b,
    ensures
        1 <= pow3(a) <= pow3(b),
    decreases b,
{
    if b > a {
        lemma_pow3_monotone(a, (b - 1) as nat);
    } else if a > 0 {
        lemma_pow3_monotone((a - 1) as nat, (a - 1) as nat);
    }
}

/// Digits at positions `n` and above do not count toward `digits_value(s, n)`.
proof fn lemma_digits_value_update_above(s: Seq<Trit>, i: nat, t: Trit, n: nat)
    requires
        n <= i < s.len(),
    ensures
        digits_value(s.update(i as int, t), n) == digits_value(s, n),
    decreases n,
{
    if n > 0 {
        lemma_digits_value_update_above(s, i, t, (n - 1) as nat);
    }
}

/// Zero digits above position `k` add nothing to the value.
proof fn lemma_digits_value_zero_above(s: Seq<Trit>, k: nat, n: nat)
    requires
        k <= n <= s.len(),
        forall|j: int| k <= j < n ==> s[j] == Trit::Zero,
    ensures
        digits_value(s, n) == digits_value(s, k),
    decreases n,
{
    if n > k {
        lemma_digits_value_zero_above(s, k, (n - 1) as nat);
    }
}

/// A numeral of `n` balanced digits stays within half of `3^n` in magnitude.
proof fn lemma_digits_value_bound(s: Seq<Trit>, n: nat)
    requires
        n <= s.len(),
    ensures
        -(pow3(n) - 1) <= 2 * digits_value(s, n) <= pow3(n) - 1,
    decreases n,
{
    if n > 0 {
        lemma_digits_value_bound(s, (n - 1) as nat);
        let p = pow3((n - 1) as nat);
        assert(s[n - 1].value() * p == p || s[n - 1].value() * p == 0 || s[n - 1].value() * p
            == -p);
    }
}

/// Two numerals of `n` balanced digits with one value have the same digits.
proof fn lemma_digits_value_injective(a: Seq<Trit>, b: Seq<Trit>, n: nat)
    requires
        n <= a.len(),
        n <= b.len(),
        digits_value(a, n) == digits_value(b, n),
    ensures
        forall|j: int| 0 <= j < n ==> a[j] == b[j],
    decreases n,
{
    if n > 0 {
        let m = (n - 1) as nat;
        lemma_digits_value_bound(a, m);
        lemma_digits_value_bound(b, m);
        let p = pow3(m);
        lemma_pow3_monotone(0, m);
        let da = a[m as int].value();
        let db = b[m as int].value();
        assert(da * p - db * p == (da - db) * p) by (nonlinear_arith);
        if da != db {
            assert((da - db) * p >= p || (da - db) * p <= -p) by (nonlinear_arith)
                requires
                    da != db,
                    -1 <= da <= 1,
                    -1 <= db <= 1,
                    p >= 1,
            ;
            assert(false);
        }
        assert(a[m as int] == b[m as int]);
        lemma_digits_value_injective(a, b, m);
    }
}

/// Every tryte holds a value in -364..=364, and no two trytes hold the same value:
/// converting a tryte to an integer and back gives the same tryte.
pub proof fn tryte_value_round_trip(t: Tryte, u: Tryte)
    ensures
        -364 <= t.value() <= 364,
        clamp_tryte(t.value()) == t.value(),
        u.value() == t.value() ==> u == t,
{
    lemma_digits_value_bound(t.0@, 6);
    assert(pow3(6) == 729) by {
        reveal_with_fuel(pow3, 7);
    }
    if u.value() == t.value() {
        lemma_digits_value_injective(t.0@, u.0@, 6);
        assert(u.0@ =~= t.0@);
        assert(u.0 == t.0);
    }
}

/// Unpacking the bytes that packing made, for as many trits as were packed,
/// gives back the same trits.
pub proof fn trit_packing_round_trip(s: Seq<Trit>)
    ensures
        deserialized_trits(serialized_trits(s), s.len()) == s,
{
    let n = s.len() as int;
    let b = serialized_trits(s);
    let d = deserialized_trits(b, s.len());
    assert(unpacked_len(packed_len(n)) >= n);
    assert(d.len() == s.len());
    assert forall|k: int| 0 <= k < s.len() implies d[k] == s[k] by {
        let g = k / 5;
        let i = k % 5;
        let c0 = code_at(s, 5 * g);
        let c1 = code_at(s, 5 * g + 1);
        let c2 = code_at(s, 5 * g + 2);
        let c3 = code_at(s, 5 * g + 3);
        let c4 = code_at(s, 5 * g + 4);
        assert(0 <= c0 < 3 && 0 <= c1 < 3 && 0 <= c2 < 3 && 0 <= c3 < 3 && 0 <= c4 < 3);
        let v = group_value(s, g);
        assert(v == c0 + 4 * c1 + 16 * c2 + 64 * c3 + 256 * c4);
        let w = c0 + 4 * c1 + 16 * c2 + 64 * c3;
        assert(v % 256 == w && v / 256 == c4);
        assert(k == 5 * g + i);
        assert(2 * g < b.len());
        if i < 4 {
            assert(b[2 * g] as int == w);
            assert(w % 4 == c0 && (w / 4) % 4 == c1 && (w / 16) % 4 == c2 && w / 64 == c3);
            assert(byte_field(b[2 * g], i) == trit_code(s[k]));
        } else {
            assert(n / 5 >= g + 1);
            assert(2 * g + 1 < b.len());
            assert(b[2 * g + 1] as int == c4);
        }
    }
    assert(d =~= s);
}

/// The packed layout: trit `k` of the input sits in group `k / 5` at place
/// `k % 5`; places 0..=3 are the two-bit fields of the group's first byte
/// (lowest first) and place 4 the lowest two bits of its second byte; each
/// field holds the trit's value plus one (0 for -1, 1 for 0, 2 for +1).
pub proof fn packing_layout_law(s: Seq<Trit>, k: int)
    requires
        0 <= k < s.len(),
    ensures
        ({
            let b = serialized_trits(s);
            let g = k / 5;
            let i = k % 5;
            &&& i < 4 ==> 2 * g < b.len() && (b[2 * g] as int / (if i == 0 { 1int } else if i == 1 { 4 } else if i == 2 { 16 } else { 64 })) % 4 == s[k].value() + 1
            &&& i == 4 ==> 2 * g + 1 < b.len() && (b[2 * g + 1] as int) % 4 == s[k].value() + 1
        }),
{
    let n = s.len() as int;
    let b = serialized_trits(s);
    let g = k / 5;
    let i = k % 5;
    let c0 = code_at(s, 5 * g);
    let c1 = code_at(s, 5 * g + 1);
    let c2 = code_at(s, 5 * g + 2);
    let c3 = code_at(s, 5 * g + 3);
    let c4 = code_at(s, 5 * g + 4);
    assert(0 <= c0 < 3 && 0 <= c1 < 3 && 0 <= c2 < 3 && 0 <= c3 < 3 && 0 <= c4 < 3);
    let v = group_value(s, g);
    let w = c0 + 4 * c1 + 16 * c2 + 64 * c3;
    assert(v % 256 == w && v / 256 == c4);
    assert(k == 5 * g + i);
    assert(2 * g < b.len());
    assert(trit_code(s[k]) == s[k].value() + 1);
    if i < 4 {
        assert(b[2 * g] as int == w);
        assert(w % 4 == c0 && (w / 4) % 4 == c1 && (w / 16) % 4 == c2 && (w / 64) % 4 == c3);
    } else {
        assert(n / 5 >= g + 1);
        assert(2 * g + 1 < b.len());
        assert(b[2 * g + 1] as int == c4);
    }
}

/// Encoding trytes as `i16` values and decoding them gives back the same trytes.
pub proof fn i16_round_trip(ts: Seq<Tryte>, vals: Seq<i16>, us: Seq<Tryte>)
    requires
        vals.len() == ts.len(),
        forall|i: int| 0 <= i < ts.len() ==> vals[i] == ts[i].value(),
        us.len() == vals.len(),
        forall|i: int| 0 <= i < vals.len() ==> us[i].value() == clamp_tryte(vals[i] as int),
    ensures
        us == ts,
{
    assert forall|i: int| 0 <= i < ts.len() implies us[i] == ts[i] by {
        tryte_value_round_trip(ts[i], us[i]);
    }
    assert(us =~= ts);
}

/// ASCII text turned into trytes and back is the same text.
pub proof fn ascii_text_round_trip(s: &str)
    requires
        s.is_ascii(),
    ensures
        Seq::new(s.spec_bytes().len(), |i: int| text_char(s.spec_bytes()[i] as int)) == s@,
{
    vstd::string::is_ascii_spec_bytes(s);
    let t = Seq::new(s.spec_bytes().len(), |i: int| text_char(s.spec_bytes()[i] as int));
    assert forall|i: int| 0 <= i < s@.len() implies t[i] == s@[i] by {
        assert('\0' <= s@[i] <= '\u{7f}');
    }
    assert(t =~= s@);
}

/// Bridge for serializing/deserializing ternary data between Rust and JS.
pub struct WasmBridge;

impl WasmBridge {
    /// Serialize a slice of trits into a byte buffer: 2 bits each, 10 bits
    /// → 2 bytes per 5 trits. Each group of five trits makes a 10-bit value,
    /// the first trit in the lowest bits, stored low byte first; a last group
    /// of fewer than five trits fits in one byte.
    pub fn serialize_trits(trits: &[Trit]) -> (out: Vec<u8>)
        ensures
            out@ == serialized_trits(trits@),
            out@.len() == packed_len(trits@.len() as int),
    {
        let mut out: Vec<u8> = Vec::new();
        let n = trits.len();
        let mut start: usize = 0;
        while start < n
            invariant
                n == trits@.len(),
                start <= n,
                start % 5 == 0 || start == n,
                out@.len() == packed_len(start as int),
                forall|k: int| 0 <= k < out@.len() ==> out@[k] == packed_byte(trits@, k),
            decreases n - start,
        {
            let end = if n - start < 5 {
                n
            } else {
                start + 5
            };
            let mut group: u16 = 0;
            let mut j: usize = 0;
            while j < end - start
                invariant
                    n == trits@.len(),
                    start < end <= n,
                    end - start <= 5,
                    end == n || end == start + 5,
                    j <= end - start,
                    group as int == packed_prefix(trits@, start as int, j as int),
                decreases end - start - j,
            {
                let bits: u16 = match trits[start + j] {
                    Trit::Neg => 0,
                    Trit::Zero => 1,
                    Trit::Pos => 2,
                };
                let shift: u32 = 2 * (j as u32);
                proof {
                    lemma_pack_field(group, bits, j as u32);
                }
                group = group | (bits << shift);
                j = j + 1;
            }
            let ghost g = start as int / 5;
            proof {
                assert(start as int == 5 * g);
                assert(packed_prefix(trits@, start as int, 5) == group_value(trits@, g));
                assert(packed_prefix(trits@, start as int, (end - start) as int) == group_value(trits@, g));
                assert(out@.len() == 2 * g);
            }
            out.push((group % 256) as u8);
            if end - start == 5 {
                out.push((group / 256) as u8);
                assert(packed_len(end as int) == 2 * g + 2);
            } else {
                assert(group_value(trits@, g) < 256);
                assert(packed_len(end as int) == 2 * g + 1);
            }
            start = end;
        }
        assert(out@ =~= serialized_trits(trits@));
        out
    }

    /// Deserialize `count` trits from a byte buffer, or as many as it holds:
    /// five from each pair of bytes, four from a last single byte.
    pub fn deserialize_trits(bytes: &[u8], count: usize) -> (out: Vec<Trit>)
        ensures
            out@ == deserialized_trits(bytes@, count as nat),
    {
        let mut trits: Vec<Trit> = Vec::new();
        let n = bytes.len();
        let mut b: usize = 0;
        while b < n
            invariant
                n == bytes@.len(),
                b <= n,
                b % 2 == 0 || b == n,
                trits@.len() == min(count as int, unpacked_len(b as int)),
                forall|k: int| 0 <= k < trits@.len() ==> trits@[k] == trit_in_bytes(bytes@, k),
            decreases n - b,
        {
            let ghost g = b as int / 2;
            assert(unpacked_len(b as int) == 5 * g);
            let low = bytes[b];
            let mut i: u32 = 0;
            while i < 4 && trits.len() < count
                invariant
                    n == bytes@.len(),
                    b < n,
                    b == 2 * g,
                    low == bytes@[b as int],
                    i <= 4,
                    trits@.len() == min(count as int, 5 * g + i),
                    forall|k: int| 0 <= k < trits@.len() ==> trits@[k] == trit_in_bytes(bytes@, k),
                decreases 4 - i,
            {
                let bits = (low >> (2 * i)) & 3;
                proof {
                    lemma_unpack_field(low, i);
                }
                let ghost k = trits@.len() as int;
                assert(k / 5 == g && k % 5 == i);
                trits.push(decode_trit(bits));
                i = i + 1;
            }
            if b + 1 < n {
                if trits.len() < count {
                    let high = bytes[b + 1];
                    let bits = high & 3;
                    assert(high & 3 == high % 4) by (bit_vector);
                    let ghost k = trits@.len() as int;
                    assert(k == 5 * g + 4);
                    assert(k / 5 == g && k % 5 == 4);
                    trits.push(decode_trit(bits));
                }
                assert(unpacked_len((b + 2) as int) == 5 * g + 5);
                b = b + 2;
            } else {
                assert(unpacked_len(n as int) == 5 * g + 4);
                b = n;
            }
        }
        trits.truncate(count);
        assert(trits@ =~= deserialized_trits(bytes@, count as nat));
        trits
    }

    /// Encode trytes as their integer values, one `i16` each.
    pub fn encode_trytes_as_i16(trytes: &[Tryte]) -> (out: Vec<i16>)
        ensures
            out@.len() == trytes@.len(),
            forall|i: int| 0 <= i < trytes@.len() ==> out@[i] == trytes@[i].value(),
    {
        let mut out: Vec<i16> = Vec::new();
        let mut i: usize = 0;
        while i < trytes.len()
            invariant
                i <= trytes@.len(),
                out@.len() == i,
                forall|j: int| 0 <= j < i ==> out@[j] == trytes@[j].value(),
            decreases trytes@.len() - i,
        {
            let v = trytes[i].to_i32();
            proof {
                tryte_value_round_trip(trytes@[i as int], trytes@[i as int]);
            }
            out.push(v as i16);
            i = i + 1;
        }
        out
    }

    /// Decode `i16` values back to trytes, clamping each to the tryte range.
    pub fn decode_trytes_from_i16(vals: &[i16]) -> (out: Vec<Tryte>)
        ensures
            out@.len() == vals@.len(),
            forall|i: int| 0 <= i < vals@.len() ==> out@[i].value() == clamp_tryte(vals@[i] as int),
    {
        let mut out: Vec<Tryte> = Vec::new();
        let mut i: usize = 0;
        while i < vals.len()
            invariant
                i <= vals@.len(),
                out@.len() == i,
                forall|j: int| 0 <= j < i ==> out@[j].value() == clamp_tryte(vals@[j] as int),
            decreases vals@.len() - i,
        {
            out.push(Tryte::from_i32(vals[i] as i32));
            i = i + 1;
        }
        out
    }

    /// Convert a string to ternary: each byte of its UTF-8 encoding becomes
    /// the tryte of that byte's value.
    pub fn string_to_trytes(s: &str) -> (out: Vec<Tryte>)
        ensures
            out@.len() == s.spec_bytes().len(),
            forall|i: int| 0 <= i < out@.len() ==> out@[i].value() == s.spec_bytes()[i] as int,
    {
        let bytes = s.as_bytes();
        let mut out: Vec<Tryte> = Vec::new();
        let mut i: usize = 0;
        while i < bytes.len()
            invariant
                bytes@ == s.spec_bytes(),
                i <= bytes@.len(),
                out@.len() == i,
                forall|j: int| 0 <= j < i ==> out@[j].value() == bytes@[j] as int,
            decreases bytes@.len() - i,
        {
            out.push(Tryte::from_i32(bytes[i] as i32));
            i = i + 1;
        }
        out
    }

    /// Convert ternary back to a string: values 0..=127 become the ASCII
    /// character with that code, any other value becomes '?'.
    pub fn trytes_to_string(trytes: &[Tryte]) -> (out: String)
        ensures
            out@ == Seq::new(trytes@.len(), |i: int| text_char(trytes@[i].value())),
    {
        let mut bytes: Vec<u8> = Vec::new();
        let mut i: usize = 0;
        while i < trytes.len()
            invariant
                i <= trytes@.len(),
                bytes@.len() == i,
                forall|j: int| 0 <= j < i ==> bytes@[j] < 128,
                forall|j: int| 0 <= j < i ==> bytes@[j] as char == text_char(trytes@[j].value()),
            decreases trytes@.len() - i,
        {
            let v = trytes[i].to_i32();
            let b: u8 = if v >= 0 && v <= 127 {
                v as u8
            } else {
                63u8 // the code of '?'
            };
            bytes.push(b);
            i = i + 1;
        }
        let out = string_from_utf8_lossy(&bytes);
        assert(out@ =~= Seq::new(trytes@.len(), |i: int| text_char(trytes@[i].value())));
        out
    }
}

/// Calls `String::from_utf8_lossy` and takes the text as an owned `String`.
/// Its documentation says that bytes that are valid UTF-8 come back as the same
/// text; ASCII bytes (below 128) are valid UTF-8, one character per byte with
/// the byte's code. Nothing is stated here of input that is not ASCII.
#[verifier::external_body]
fn string_from_utf8_lossy(bytes: &Vec<u8>) -> (s: String)
    ensures
        (forall|i: int| 0 <= i < bytes@.len() ==> bytes@[i] < 128) ==> s@ == Seq::new(
            bytes@.len(),
            |i: int| bytes@[i] as char,
        ),
{
    String::from_utf8_lossy(bytes).into_owned()
}

/// The number of bytes `n` trits pack into: two for each full group of
/// five, one more for a last group of fewer.
pub open spec fn packed_len(n: int) -> int {
    2 * (n / 5) + if n % 5 != 0 { 1int } else { 0int }
}

/// The number of trits a buffer of `len` bytes holds: five for each pair of
/// bytes, four for a last single byte.
pub open spec fn unpacked_len(len: int) -> int {
    5 * (len / 2) + 4 * (len % 2)
}

/// The bytes that `serialize_trits` makes of a sequence of trits.
pub open spec fn serialized_trits(s: Seq<Trit>) -> Seq<u8> {
    Seq::new(packed_len(s.len() as int) as nat, |k: int| packed_byte(s, k) as u8)
}

/// Trit number `k` of a buffer: trits `5g .. 5g+3` are the four two-bit
/// fields of byte `2g`, trit `5g+4` the lowest two bits of byte `2g+1`.
pub open spec fn trit_in_bytes(b: Seq<u8>, k: int) -> Trit {
    let g = k / 5;
    let i = k % 5;
    if i < 4 {
        code_trit(byte_field(b[2 * g], i))
    } else {
        code_trit(b[2 * g + 1] as int % 4)
    }
}

/// The trits that `deserialize_trits` reads from bytes: at most `count`.
pub open spec fn deserialized_trits(b: Seq<u8>, count: nat) -> Seq<Trit> {
    Seq::new(min(count as int, unpacked_len(b.len() as int)) as nat, |k: int| trit_in_bytes(b, k))
}

/// The sum of the codes of the first `j` (0..=5) trits from position `base`,
/// weighted 1, 4, 16, 64, 256.
pub open spec fn packed_prefix(s: Seq<Trit>, base: int, j: int) -> int {
    (if j > 0 { code_at(s, base) } else { 0 }) + (if j > 1 { 4 * code_at(s, base + 1) } else { 0 })
        + (if j > 2 { 16 * code_at(s, base + 2) } else { 0 }) + (if j > 3 { 64 * code_at(s, base + 3) } else { 0 })
        + (if j > 4 { 256 * code_at(s, base + 4) } else { 0 })
}

/// The trit a two-bit code stands for, in executable form.
fn decode_trit(bits: u8) -> (t: Trit)
    ensures
        t == code_trit(bits as int),
{
    match bits {
        0 => Trit::Neg,
        1 => Trit::Zero,
        2 => Trit::Pos,
        _ => Trit::Zero,  // 0b11 unused, treat as Zero
    }
}

proof fn lemma_pack_field(group: u16, c: u16, j: u32)
    requires
        j < 5,
        c < 3,
        (j == 0 ==> group == 0),
        (j == 1 ==> group < 4),
        (j == 2 ==> group < 16),
        (j == 3 ==> group < 64),
        (j == 4 ==> group < 256),
    ensures
        (group | (c << (2 * j) as u32)) as int == group + (if j == 0 { c as int } else if j == 1 { 4 * c } else if j == 2 { 16 * c } else if j == 3 { 64 * c } else { 256 * c }),
        ((group | (c << (2 * j) as u32)) as int) < (if j == 0 { 4int } else if j == 1 { 16 } else if j == 2 { 64 } else if j == 3 { 256 } else { 1024 }),
{
    if j == 0 {
        assert(group | (c << 0u32) == group + c) by (bit_vector)
            requires group == 0, c < 3;
    } else if j == 1 {
        assert(group | (c << 2u32) == group + 4 * c && group | (c << 2u32) < 16) by (bit_vector)
            requires group < 4, c < 3;
    } else if j == 2 {
        assert(group | (c << 4u32) == group + 16 * c && group | (c << 4u32) < 64) by (bit_vector)
            requires group < 16, c < 3;
    } else if j == 3 {
        assert(group | (c << 6u32) == group + 64 * c && group | (c << 6u32) < 256) by (bit_vector)
            requires group < 64, c < 3;
    } else {
        assert(group | (c << 8u32) == group + 256 * c && group | (c << 8u32) < 1024) by (bit_vector)
            requires group < 256, c < 3;
    }
}

proof fn lemma_unpack_field(byte: u8, i: u32)
    requires
        i < 4,
    ensures
        ((byte >> (2 * i) as u32) & 3) as int == byte_field(byte, i as int),
{
    if i == 0 {
        assert((byte >> 0u32) & 3 == byte % 4) by (bit_vector);
    } else if i == 1 {
        assert((byte >> 2u32) & 3 == (byte / 4) % 4) by (bit_vector);
    } else if i == 2 {
        assert((byte >> 4u32) & 3 == (byte / 16) % 4) by (bit_vector);
    } else {
        assert((byte >> 6u32) & 3 == byte / 64) by (bit_vector);
    }
}

/// The two-bit code of a trit in the packed byte format.
pub open spec fn trit_code(t: Trit) -> int {
    match t {
        Trit::Neg => 0,
        Trit::Zero => 1,
        Trit::Pos => 2,
    }
}

/// The trit a two-bit code stands for; the unused code 3 reads as zero.
pub open spec fn code_trit(c: int) -> Trit {
    if c == 0 {
        Trit::Neg
    } else if c == 2 {
        Trit::Pos
    } else {
        Trit::Zero
    }
}

/// The code of the trit at position `i`, or 0 past the end.
pub open spec fn code_at(s: Seq<Trit>, i: int) -> int {
    if 0 <= i < s.len() {
        trit_code(s[i])
    } else {
        0
    }
}

/// The 10-bit value of the group of trits `5g .. 5g+4`: two bits each,
/// the first trit lowest.
pub open spec fn group_value(s: Seq<Trit>, g: int) -> int {
    code_at(s, 5 * g) + 4 * code_at(s, 5 * g + 1) + 16 * code_at(s, 5 * g + 2) + 64 * code_at(
        s,
        5 * g + 3,
    ) + 256 * code_at(s, 5 * g + 4)
}

/// Byte `k` of the packed format: the low byte of group `k / 2`'s value for
/// even `k`, its high byte for odd `k`.
pub open spec fn packed_byte(s: Seq<Trit>, k: int) -> int {
    if k % 2 == 0 {
        group_value(s, k / 2) % 256
    } else {
        group_value(s, k / 2) / 256
    }
}

/// The two-bit field number `i` (0..4) of a byte.
pub open spec fn byte_field(b: u8, i: int) -> int {
    let v = b as int;
    if i == 0 {
        v % 4
    } else if i == 1 {
        (v / 4) % 4
    } else if i == 2 {
        (v / 16) % 4
    } else {
        v / 64
    }
}

/// The characters that text of the given tryte values reads as:
/// values 0..=127 are ASCII characters, any other value reads as '?'.
pub open spec fn text_char(v: int) -> char {
    if 0 <= v <= 127 {
        (v as u8) as char
    } else {
        '?'
    }
}

} // verus!
