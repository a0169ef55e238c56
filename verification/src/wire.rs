use vstd::prelude::*;
use vstd::arithmetic::power2::{pow2, lemma_pow2_adds, lemma_pow2_unfold, lemma_pow2_pos};
use vstd::bits::{lemma_u64_shl_is_mul, lemma_u64_shr_is_div};
use crate::error::DecodeError;
use crate::field::{FieldNumber, spec_field_number_valid};

verus! {

/// The protobuf wire types, each pinned to its numeric code by `spec_code`.
#[derive(Clone, Copy, Debug, Eq, PartialEq, Structural)]
pub enum WireType {
    Varint,
    Fixed32,
    Fixed64,
    Bytes,
    StartGroup,
    EndGroup,
}

impl WireType {
    /// The low-3-bit code of this wire type on the wire.
    pub open spec fn spec_code(self) -> i8 {
        match self {
            WireType::Varint => 0,
            WireType::Fixed64 => 1,
            WireType::Bytes => 2,
            WireType::StartGroup => 3,
            WireType::EndGroup => 4,
            WireType::Fixed32 => 5,
        }
    }

    /// The wire type a code denotes; codes 6 and 7 denote none.
    pub open spec fn spec_new(num: i8) -> Option<WireType> {
        if num == 0 {
            Some(WireType::Varint)
        } else if num == 1 {
            Some(WireType::Fixed64)
        } else if num == 2 {
            Some(WireType::Bytes)
        } else if num == 3 {
            Some(WireType::StartGroup)
        } else if num == 4 {
            Some(WireType::EndGroup)
        } else if num == 5 {
            Some(WireType::Fixed32)
        } else {
            None
        }
    }

    pub fn new(num: i8) -> (r: Option<Self>)
        ensures
            r == Self::spec_new(num),
    {
        match num {
            0 => Some(WireType::Varint),
            5 => Some(WireType::Fixed32),
            1 => Some(WireType::Fixed64),
            2 => Some(WireType::Bytes),
            3 => Some(WireType::StartGroup),
            4 => Some(WireType::EndGroup),
            _ => None,
        }
    }

    pub fn get(self) -> (r: i8)
        ensures
            r == self.spec_code(),
    {
        match self {
            WireType::Varint => 0,
            WireType::Fixed32 => 5,
            WireType::Fixed64 => 1,
            WireType::Bytes => 2,
            WireType::StartGroup => 3,
            WireType::EndGroup => 4,
        }
    }

    pub fn try_from(num: i8) -> (r: Result<Self, DecodeError>)
        ensures
            match r {
                Ok(w) => Self::spec_new(num) == Some(w),
                Err(e) => Self::spec_new(num) is None && e == DecodeError::InvalidWireType(num),
            },
    {
        match WireType::new(num) {
            Some(w) => Ok(w),
            None => Err(DecodeError::InvalidWireType(num)),
        }
    }

    /// Codes round-trip: reading back the code of a wire type gives that type.
    pub proof fn lemma_code_round_trip(self)
        ensures
            Self::spec_new(self.spec_code()) == Some(self),
    {
    }
}

// ------------------------------------------------------------------
// Varint
//
// Variable length encoding for a u64: 7 bits per byte, little-endian,
// the most significant bit of each byte set unless it is the last.

/// The shortest varint encoding of `v`; what `put_varint` appends.
pub open spec fn varint_enc(v: u64) -> Seq<u8>
    decreases v,
{
    if v < 0x80 {
        seq![v as u8]
    } else {
        seq![((v % 0x80) + 0x80) as u8] + varint_enc((v / 0x80) as u64)
    }
}

/// The decoder, byte for byte: reading a varint from `s[index..]` after
/// `index` continuation bytes have already been taken.  `Ok((value of the
/// remaining chain, index just past the chain))`.  At most 10 bytes are
/// read in all; a 10th byte above 1 would push the value past `2^64 - 1`.
pub open spec fn spec_parse_varint_rec(s: Seq<u8>, index: int) -> Result<(nat, int), DecodeError>
    decreases 10 - index,
{
    if index >= 10 {
        Err(DecodeError::Overflow)
    } else if s.len() <= index {
        Err(DecodeError::Eof)
    } else {
        let b = s[index];
        if index == 9 && b > 1 {
            Err(DecodeError::Overflow)
        } else if b < 0x80 {
            Ok((b as nat, index + 1))
        } else {
            match spec_parse_varint_rec(s, index + 1) {
                Ok((v, end)) => Ok(((b & 0x7f) as nat + 128 * v, end)),
                Err(e) => Err(e),
            }
        }
    }
}

/// What a varint decode yields on the byte sequence `s`:
/// the decoded value and the number of bytes consumed, or the fault.
pub open spec fn spec_parse_varint(s: Seq<u8>) -> Result<(nat, int), DecodeError> {
    spec_parse_varint_rec(s, 0)
}

proof fn lemma_u8_low7(b: u8)
    by (bit_vector)
    ensures
        b & 0x7f < 0x80,
        b < 0x80 ==> b & 0x7f == b,
        b >= 0x80 ==> (b & 0x7f) as int == b - 0x80,
{
}

proof fn lemma_u64_low7_byte(v: u64)
    by (bit_vector)
    ensures
        ((v & 0x7f) | 0x80) as u8 as int == (v % 0x80) + 0x80,
        v >> 7 == v / 0x80,
        v < 0x80 ==> v as u8 as int == v,
{
}

/// Appends the shortest varint form of `val`; a single `0x00` for zero.
pub fn put_varint(buf: &mut Vec<u8>, val: u64)
    ensures
        final(buf)@ == old(buf)@ + varint_enc(val),
{
    let ghost orig = buf@;
    let ghost v0 = val;
    let mut val = val;
    while val >= 0x80
        invariant
            buf@ + varint_enc(val) == orig + varint_enc(v0),
        decreases val,
    {
        let ghost val_in = val;
        buf.push(((val & 0x7f) | 0x80) as u8);
        val >>= 7;
        proof {
            lemma_u64_low7_byte(val_in);
            assert(varint_enc(val_in) == seq![((val_in % 0x80) + 0x80) as u8] + varint_enc(val))
                by {
                assert(val == (val_in / 0x80) as u64);
            };
            assert(buf@ + varint_enc(val) =~= orig + varint_enc(v0));
        }
    }
    let ghost val_fin = val;
    buf.push(val as u8);
    proof {
        lemma_u64_low7_byte(val_fin);
        assert(varint_enc(val_fin) == seq![val_fin as u8]);
        assert(buf@ =~= orig + varint_enc(v0));
    }
}

/// Reads a varint at `*pos`, advancing `*pos` past it; the exact image of
/// `spec_parse_varint` on the bytes from `*pos`.
#[verifier::loop_isolation(false)]
pub fn parse_varint(buf: &Vec<u8>, pos: &mut usize) -> (r: Result<u64, DecodeError>)
    requires
        *old(pos) <= buf@.len(),
    ensures
        *old(pos) <= *final(pos) <= buf@.len(),
        match r {
            Ok(v) => spec_parse_varint(buf@.skip(*old(pos) as int)) == Ok::<(nat, int),
                DecodeError,
            >((v as nat, *final(pos) - *old(pos))),
            Err(e) => spec_parse_varint(buf@.skip(*old(pos) as int)) == Err::<(nat, int),
                DecodeError,
            >(e),
        },
        r == Err::<u64, DecodeError>(DecodeError::Eof) ==> *final(pos) == buf@.len(),
        r == Err::<u64, DecodeError>(DecodeError::Overflow) ==> *final(pos) == *old(pos) + 10,
{
    let ghost s = buf@.skip(*old(pos) as int);
    let ghost start = *pos;
    let mut varint: u64 = 0;
    let mut index: usize = 0;
    proof {
        vstd::arithmetic::power2::lemma2_to64();
        assert(pow2(0) == 1);
        match spec_parse_varint_rec(s, 0) {
            Ok((v, end)) => {
                assert((0 + v * pow2(0)) as nat == v) by (nonlinear_arith)
                    requires
                        pow2(0) == 1,
                ;
            },
            Err(_) => {},
        }
    }
    loop
        invariant
            0 <= index <= 10,
            *pos == start + index,
            start + index <= buf@.len(),
            s == buf@.skip(start as int),
            varint < pow2((7 * index) as nat),
            match spec_parse_varint_rec(s, index as int) {
                Ok((v, end)) => spec_parse_varint_rec(s, 0) == Ok::<(nat, int), DecodeError>(
                    ((varint + v * pow2((7 * index) as nat)) as nat, end)),
                Err(e) => spec_parse_varint_rec(s, 0) == Err::<(nat, int), DecodeError>(e),
            },
        decreases 10 - index,
    {
        proof {
            lemma_pow2_pos((7 * index) as nat);
        }
        if index >= 10 {
            return Err(DecodeError::Overflow);
        }
        if *pos >= buf.len() {
            assert(s.len() <= index);
            return Err(DecodeError::Eof);
        }
        let val = buf[*pos];
        *pos += 1;
        assert(val == s[index as int]);

        if index == 9 && val > 1 {
            return Err(DecodeError::Overflow);
        }

        proof {
            lemma_u8_low7(val);
            if index == 9 {
                assert(val <= 1);
            }
            lemma_pow2_adds((7 * index) as nat, 7);
            assert(pow2(7) == 128) by {
                vstd::arithmetic::power2::lemma2_to64();
            };
            // the new digit cannot overflow a u64
            assert((val & 0x7f) as nat * pow2((7 * index) as nat) + varint < pow2(
                (7 * (index + 1)) as nat,
            )) by {
                let p = pow2((7 * index) as nat);
                assert((val & 0x7f) as nat * p <= 127 * p) by (nonlinear_arith)
                    requires
                        (val & 0x7f) < 0x80,
                        p > 0,
                ;
                assert(127 * p + p == 128 * p);
                assert(pow2((7 * (index + 1)) as nat) == 128 * p);
            };
            if index == 9 {
                assert((val & 0x7f) as nat * pow2(63) + varint < pow2(64)) by {
                    let p = pow2(63);
                    assert((val & 0x7f) == val);
                    assert(val as nat * p <= 1 * p) by (nonlinear_arith)
                        requires
                            val <= 1,
                            p > 0,
                    ;
                    assert(pow2(64) == 2 * pow2(63)) by {
                        lemma_pow2_adds(63, 1);
                        lemma_pow2_unfold(1);
                    };
                };
            }
            assert(pow2((7 * (index + 1)) as nat) <= pow2(64) || index == 9) by {
                if index < 9 {
                    vstd::arithmetic::power2::lemma_pow2_strictly_increases(
                        (7 * (index + 1)) as nat,
                        64,
                    );
                }
            };
            assert(pow2(64) == 0x10000000000000000) by {
                vstd::arithmetic::power2::lemma2_to64_rest();
            };
            lemma_u64_shl_is_mul((val & 0x7f) as u64, (7 * index) as u64);
        }
        let add_part = ((val & 0x7f) as u64) << ((7 * index) as u64);
        varint += add_part;

        if val < 0x80 {
            assert(spec_parse_varint_rec(s, index as int) == Ok::<(nat, int), DecodeError>(
                (val as nat, index + 1)));
            return Ok(varint);
        }
        proof {
            // glue the unfolded step back onto the whole-parse equation
            let i = index as int;
            let p = pow2((7 * index) as nat);
            match spec_parse_varint_rec(s, i + 1) {
                Ok((v2, end)) => {
                    assert(spec_parse_varint_rec(s, i) == Ok::<(nat, int), DecodeError>(
                        ((s[i] & 0x7f) as nat + 128 * v2, end)));
                    assert(varint + ((s[i] & 0x7f) as nat + 128 * v2) * p == (varint + (s[i]
                        & 0x7f) as nat * p) + v2 * (128 * p)) by (nonlinear_arith);
                    assert(128 * p == pow2((7 * (index + 1)) as nat));
                },
                Err(_) => {},
            }
        }
        index += 1;
    }
}


/// A successful varint decode never exceeds `2^64 - 1`.
pub proof fn lemma_parse_varint_bound(s: Seq<u8>, index: int)
    requires
        spec_parse_varint_rec(s, index) is Ok,
    ensures
        spec_parse_varint_rec(s, index)->Ok_0.0 < pow2((7 * (10 - index)) as nat),
        index == 0 ==> spec_parse_varint_rec(s, index)->Ok_0.0 < pow2(64),
    decreases 10 - index,
{
    let (v, end) = spec_parse_varint_rec(s, index)->Ok_0;
    let b = s[index];
    lemma_u8_low7(b);
    lemma_pow2_pos((7 * (9 - index)) as nat);
    lemma_pow2_adds((7 * (9 - index)) as nat, 7);
    assert(pow2(7) == 128) by {
        vstd::arithmetic::power2::lemma2_to64();
    };
    if index == 9 && b <= 1 {
        assert(pow2(7) == 128);
        assert(v == b as nat);
    } else if b < 0x80 {
        lemma_pow2_pos((7 * (10 - index)) as nat);
        assert(pow2(7) <= pow2((7 * (10 - index)) as nat)) by {
            if 7 < 7 * (10 - index) {
                vstd::arithmetic::power2::lemma_pow2_strictly_increases(
                    7,
                    (7 * (10 - index)) as nat,
                );
            }
        };
    } else {
        lemma_parse_varint_bound(s, index + 1);
        let (v2, _) = spec_parse_varint_rec(s, index + 1)->Ok_0;
        let p = pow2((7 * (9 - index)) as nat);
        assert(v == (b & 0x7f) as nat + 128 * v2);
        assert(128 * v2 <= 128 * (p - 1)) by (nonlinear_arith)
            requires
                v2 < p,
        ;
        assert(pow2((7 * (10 - index)) as nat) == 128 * p);
    }
    if index == 0 {
        assert(pow2(70) > pow2(64)) by {
            vstd::arithmetic::power2::lemma_pow2_strictly_increases(64, 70);
        };
        assert(v < pow2(70));
        // tighter: walk once more for the exact 2^64 bound
        lemma_parse_varint_bound_tight(s, 0);
        lemma_pow2_unfold(64);
        assert(pow2(64) == 2 * pow2(63));
    }
}

/// Tighter bound for the whole-parse case: the 10th byte carries at most 1.
proof fn lemma_parse_varint_bound_tight(s: Seq<u8>, index: int)
    requires
        0 <= index <= 9,
        spec_parse_varint_rec(s, index) is Ok,
    ensures
        spec_parse_varint_rec(s, index)->Ok_0.0 < 2 * pow2((7 * (9 - index)) as nat),
    decreases 10 - index,
{
    let (v, end) = spec_parse_varint_rec(s, index)->Ok_0;
    let b = s[index];
    lemma_u8_low7(b);
    lemma_pow2_pos((7 * (9 - index)) as nat);
    if index == 9 && b <= 1 {
        assert(pow2(0) == 1) by {
            vstd::arithmetic::power2::lemma2_to64();
        };
    } else if b < 0x80 {
        assert(pow2(7) <= pow2((7 * (9 - index) + 7) as nat)) by {
            if 7 < 7 * (9 - index) + 7 {
                vstd::arithmetic::power2::lemma_pow2_strictly_increases(
                    7,
                    (7 * (9 - index) + 7) as nat,
                );
            }
        };
        assert(pow2(7) == 128) by {
            vstd::arithmetic::power2::lemma2_to64();
        };
        assert(v == b as nat);
        assert(2 * pow2((7 * (9 - index)) as nat) >= 128) by {
            if index < 9 {
                assert(pow2(7) <= pow2((7 * (9 - index)) as nat)) by {
                    if 7 < 7 * (9 - index) {
                        vstd::arithmetic::power2::lemma_pow2_strictly_increases(
                            7,
                            (7 * (9 - index)) as nat,
                        );
                    }
                };
            } else {
                assert(b < 2);
            }
        };
    } else {
        lemma_parse_varint_bound_tight(s, index + 1);
        let (v2, _) = spec_parse_varint_rec(s, index + 1)->Ok_0;
        let p = pow2((7 * (8 - index)) as nat);
        lemma_pow2_adds((7 * (8 - index)) as nat, 7);
        assert(pow2(7) == 128) by {
            vstd::arithmetic::power2::lemma2_to64();
        };
        lemma_pow2_pos((7 * (8 - index)) as nat);
        assert(v == (b & 0x7f) as nat + 128 * v2);
        assert(128 * v2 <= 128 * (2 * p - 1)) by (nonlinear_arith)
            requires
                v2 < 2 * p,
        ;
        assert(pow2((7 * (9 - index)) as nat) == 128 * p);
    }
}

/// The whole-parse value fits a `u64`.
pub proof fn lemma_parse_varint_fits(s: Seq<u8>)
    requires
        spec_parse_varint(s) is Ok,
    ensures
        spec_parse_varint(s)->Ok_0.0 < 0x10000000000000000,
{
    lemma_parse_varint_bound_tight(s, 0);
    assert(pow2(63) == 0x8000000000000000) by {
        vstd::arithmetic::power2::lemma2_to64_rest();
    };
}

/// The minimal encoding of `v` spans exactly `k` bytes when `v` lies in
/// `[128^(k-1), 128^k)` (with the low interval closed at zero for `k == 1`).
pub proof fn lemma_varint_enc_len(v: u64, k: nat)
    requires
        1 <= k <= 10,
        v < pow2((7 * k) as nat),
        k > 1 ==> v >= pow2((7 * (k - 1)) as nat),
    ensures
        varint_enc(v).len() == k,
    decreases k,
{
    assert(pow2(7) == 128) by {
        vstd::arithmetic::power2::lemma2_to64();
    };
    if k == 1 {
        assert(v < 0x80);
    } else {
        let p_hi = pow2((7 * (k - 1)) as nat);
        lemma_pow2_pos((7 * (k - 2)) as nat);
        lemma_pow2_adds((7 * (k - 2)) as nat, 7);
        lemma_pow2_adds((7 * (k - 1)) as nat, 7);
        assert(v >= 128);
        let v2 = (v / 0x80) as u64;
        assert(v2 < pow2((7 * (k - 1)) as nat)) by (nonlinear_arith)
            requires
                v < 128 * pow2((7 * (k - 1)) as nat),
                v2 == v / 0x80,
        ;
        assert(v2 >= pow2((7 * (k - 2)) as nat)) by (nonlinear_arith)
            requires
                v >= 128 * pow2((7 * (k - 2)) as nat),
                v2 == v / 0x80,
        ;
        lemma_varint_enc_len(v2, (k - 1) as nat);
    }
}

/// Size prediction for the minimal varint form, without writing it:
/// `1 + floor((64 - leading_zeros(v)) * 9 / 64)`, the exact length of
/// `varint_enc(num)`.
pub fn size_varint(num: u64) -> (r: usize)
    ensures
        r == varint_enc(num).len(),
        1 <= r <= 10,
{
    let bits = 64u32 - num.leading_zeros();
    let r = 1 + bits as usize * 9 / 64;
    proof {
        vstd::std_specs::bits::axiom_u64_leading_zeros(num);
        let lz = vstd::std_specs::bits::u64_leading_zeros(num);
        vstd::arithmetic::power2::lemma2_to64();
        if num == 0 {
            assert(varint_enc(0).len() == 1);
        } else {
            assert(lz < 64);
            // leading zeros bound the value: 2^(63 - lz) <= num < 2^(64 - lz)
            if lz > 0 {
                lemma_u64_shr_is_div(num, (64 - lz) as u64);
            }
            lemma_u64_shr_is_div(num, (63 - lz) as u64);
            lemma_pow2_pos((63 - lz) as nat);
            lemma_pow2_pos((64 - lz) as nat);
            let sh63 = (63 - lz) as u64;
            assert((num >> sh63) & 1u64 != 0u64);
            assert((num >> sh63) & 1u64 != 0u64 ==> (num >> sh63) >= 1u64) by (bit_vector);
            assert((num >> sh63) as nat == num as nat / pow2((63 - lz) as nat));
            assert(num >= pow2((63 - lz) as nat)) by (nonlinear_arith)
                requires
                    num as nat / pow2((63 - lz) as nat) >= 1,
                    pow2((63 - lz) as nat) > 0,
            ;
            if lz > 0 {
                assert(num < pow2((64 - lz) as nat)) by (nonlinear_arith)
                    requires
                        num as nat / pow2((64 - lz) as nat) == 0,
                        pow2((64 - lz) as nat) > 0,
                ;
            } else {
                assert(pow2(64) == 0x10000000000000000) by {
                    vstd::arithmetic::power2::lemma2_to64_rest();
                };
                assert(num < pow2((64 - lz) as nat));
            }
            let b = (64 - lz) as nat;
            let kk = ((b - 1) / 7 + 1) as nat;
            assert(1 <= kk <= 10);
            assert(7 * (kk - 1) <= b - 1 < 7 * kk) by (nonlinear_arith)
                requires
                    kk == (b - 1) / 7 + 1,
                    1 <= b <= 64,
            ;
            assert(num < pow2((7 * kk) as nat)) by {
                if b < 7 * kk {
                    vstd::arithmetic::power2::lemma_pow2_strictly_increases(b, (7 * kk) as nat);
                }
            };
            if kk > 1 {
                assert(num >= pow2((7 * (kk - 1)) as nat)) by {
                    if 7 * (kk - 1) < b - 1 {
                        vstd::arithmetic::power2::lemma_pow2_strictly_increases(
                            (7 * (kk - 1)) as nat,
                            (b - 1) as nat,
                        );
                    }
                };
            }
            lemma_varint_enc_len(num, kk);
            assert(b * 9 / 64 == (b - 1) / 7) by (nonlinear_arith)
                requires
                    1 <= b <= 64,
            ;
        }
    }
    r
}

// ------------------------------------------------------------------
// Fixed-width values: four or eight raw little-endian bytes.

/// The four little-endian bytes of `v`.
pub open spec fn le32_enc(v: u32) -> Seq<u8> {
    seq![
        (v % 0x100) as u8,
        ((v / 0x100) % 0x100) as u8,
        ((v / 0x10000) % 0x100) as u8,
        (v / 0x1000000) as u8,
    ]
}

/// The eight little-endian bytes of `v`.
pub open spec fn le64_enc(v: u64) -> Seq<u8> {
    seq![
        (v % 0x100) as u8,
        ((v / 0x100) % 0x100) as u8,
        ((v / 0x10000) % 0x100) as u8,
        ((v / 0x1000000) % 0x100) as u8,
        ((v / 0x100000000) % 0x100) as u8,
        ((v / 0x10000000000) % 0x100) as u8,
        ((v / 0x1000000000000) % 0x100) as u8,
        (v / 0x100000000000000) as u8,
    ]
}

/// The value of four little-endian bytes.
pub open spec fn le32_val(s: Seq<u8>) -> u32
    recommends
        s.len() >= 4,
{
    (s[0] + s[1] * 0x100 + s[2] * 0x10000 + s[3] * 0x1000000) as u32
}

/// The value of eight little-endian bytes.
pub open spec fn le64_val(s: Seq<u8>) -> u64
    recommends
        s.len() >= 8,
{
    (s[0] + s[1] * 0x100 + s[2] * 0x10000 + s[3] * 0x1000000 + s[4] * 0x100000000 + s[5]
        * 0x10000000000 + s[6] * 0x1000000000000 + s[7] * 0x100000000000000) as u64
}

pub open spec fn spec_parse_fixed32(s: Seq<u8>) -> Result<(u32, int), DecodeError> {
    if s.len() < 4 {
        Err(DecodeError::Eof)
    } else {
        Ok((le32_val(s), 4))
    }
}

pub open spec fn spec_parse_fixed64(s: Seq<u8>) -> Result<(u64, int), DecodeError> {
    if s.len() < 8 {
        Err(DecodeError::Eof)
    } else {
        Ok((le64_val(s), 8))
    }
}

proof fn lemma_le32_round(v: u32)
    by (bit_vector)
    ensures
        (v % 0x100) + ((v / 0x100) % 0x100) * 0x100 + ((v / 0x10000) % 0x100) * 0x10000 + (v
            / 0x1000000) * 0x1000000 == v,
        v / 0x1000000 < 0x100,
{
}

proof fn lemma_le64_round(v: u64)
    by (bit_vector)
    ensures
        (v % 0x100) + ((v / 0x100) % 0x100) * 0x100 + ((v / 0x10000) % 0x100) * 0x10000 + ((v
            / 0x1000000) % 0x100) * 0x1000000 + ((v / 0x100000000) % 0x100) * 0x100000000 + ((v
            / 0x10000000000) % 0x100) * 0x10000000000 + ((v / 0x1000000000000) % 0x100)
            * 0x1000000000000 + (v / 0x100000000000000) * 0x100000000000000 == v,
        v / 0x100000000000000 < 0x100,
{
}

/// Little-endian round trip for four bytes.
pub proof fn lemma_fixed32_round_trip(v: u32, rest: Seq<u8>)
    ensures
        spec_parse_fixed32(le32_enc(v) + rest) == Ok::<(u32, int), DecodeError>((v, 4)),
        le32_enc(v).len() == 4,
{
    lemma_le32_round(v);
    let s = le32_enc(v) + rest;
    assert(s[0] == (v % 0x100) as u8);
    assert(s[1] == ((v / 0x100) % 0x100) as u8);
    assert(s[2] == ((v / 0x10000) % 0x100) as u8);
    assert(s[3] == (v / 0x1000000) as u8);
}

/// Little-endian round trip for eight bytes.
pub proof fn lemma_fixed64_round_trip(v: u64, rest: Seq<u8>)
    ensures
        spec_parse_fixed64(le64_enc(v) + rest) == Ok::<(u64, int), DecodeError>((v, 8)),
        le64_enc(v).len() == 8,
{
    lemma_le64_round(v);
    let s = le64_enc(v) + rest;
    assert(s[0] == (v % 0x100) as u8);
    assert(s[1] == ((v / 0x100) % 0x100) as u8);
    assert(s[2] == ((v / 0x10000) % 0x100) as u8);
    assert(s[3] == ((v / 0x1000000) % 0x100) as u8);
    assert(s[4] == ((v / 0x100000000) % 0x100) as u8);
    assert(s[5] == ((v / 0x10000000000) % 0x100) as u8);
    assert(s[6] == ((v / 0x1000000000000) % 0x100) as u8);
    assert(s[7] == (v / 0x100000000000000) as u8);
}

/// Appends the four little-endian bytes of `val`.
pub fn put_fixed32(buf: &mut Vec<u8>, val: u32)
    ensures
        final(buf)@ == old(buf)@ + le32_enc(val),
{
    buf.push((val % 0x100) as u8);
    buf.push(((val / 0x100) % 0x100) as u8);
    buf.push(((val / 0x10000) % 0x100) as u8);
    buf.push((val / 0x1000000) as u8);
    proof {
        assert(buf@ =~= old(buf)@ + le32_enc(val));
    }
}

/// Appends the eight little-endian bytes of `val`.
pub fn put_fixed64(buf: &mut Vec<u8>, val: u64)
    ensures
        final(buf)@ == old(buf)@ + le64_enc(val),
{
    buf.push((val % 0x100) as u8);
    buf.push(((val / 0x100) % 0x100) as u8);
    buf.push(((val / 0x10000) % 0x100) as u8);
    buf.push(((val / 0x1000000) % 0x100) as u8);
    buf.push(((val / 0x100000000) % 0x100) as u8);
    buf.push(((val / 0x10000000000) % 0x100) as u8);
    buf.push(((val / 0x1000000000000) % 0x100) as u8);
    buf.push((val / 0x100000000000000) as u8);
    proof {
        assert(buf@ =~= old(buf)@ + le64_enc(val));
    }
}

/// Reads four little-endian bytes at `*pos`.
pub fn parse_fixed32(buf: &Vec<u8>, pos: &mut usize) -> (r: Result<u32, DecodeError>)
    requires
        *old(pos) <= buf@.len(),
    ensures
        *old(pos) <= *final(pos) <= buf@.len(),
        match r {
            Ok(v) => spec_parse_fixed32(buf@.skip(*old(pos) as int)) == Ok::<(u32, int),
                DecodeError,
            >((v, *final(pos) - *old(pos))),
            Err(e) => spec_parse_fixed32(buf@.skip(*old(pos) as int)) == Err::<(u32, int),
                DecodeError,
            >(e),
        },
{
    if buf.len() - *pos < 4 {
        return Err(DecodeError::Eof);
    }
    let b0 = buf[*pos] as u32;
    let b1 = buf[*pos + 1] as u32;
    let b2 = buf[*pos + 2] as u32;
    let b3 = buf[*pos + 3] as u32;
    *pos += 4;
    let v = b0 + b1 * 0x100 + b2 * 0x10000 + b3 * 0x1000000;
    proof {
        let s = buf@.skip(*old(pos) as int);
        assert(s[0] == b0 && s[1] == b1 && s[2] == b2 && s[3] == b3);
    }
    Ok(v)
}

/// Reads eight little-endian bytes at `*pos`.
pub fn parse_fixed64(buf: &Vec<u8>, pos: &mut usize) -> (r: Result<u64, DecodeError>)
    requires
        *old(pos) <= buf@.len(),
    ensures
        *old(pos) <= *final(pos) <= buf@.len(),
        match r {
            Ok(v) => spec_parse_fixed64(buf@.skip(*old(pos) as int)) == Ok::<(u64, int),
                DecodeError,
            >((v, *final(pos) - *old(pos))),
            Err(e) => spec_parse_fixed64(buf@.skip(*old(pos) as int)) == Err::<(u64, int),
                DecodeError,
            >(e),
        },
{
    if buf.len() - *pos < 8 {
        return Err(DecodeError::Eof);
    }
    let b0 = buf[*pos] as u64;
    let b1 = buf[*pos + 1] as u64;
    let b2 = buf[*pos + 2] as u64;
    let b3 = buf[*pos + 3] as u64;
    let b4 = buf[*pos + 4] as u64;
    let b5 = buf[*pos + 5] as u64;
    let b6 = buf[*pos + 6] as u64;
    let b7 = buf[*pos + 7] as u64;
    *pos += 8;
    let v = b0 + b1 * 0x100 + b2 * 0x10000 + b3 * 0x1000000 + b4 * 0x100000000 + b5 * 0x10000000000
        + b6 * 0x1000000000000 + b7 * 0x100000000000000;
    proof {
        let s = buf@.skip(*old(pos) as int);
        assert(s[0] == b0 && s[1] == b1 && s[2] == b2 && s[3] == b3);
        assert(s[4] == b4 && s[5] == b5 && s[6] == b6 && s[7] == b7);
    }
    Ok(v)
}

pub fn size_fixed32() -> (r: usize)
    ensures
        r == 4,
{
    4
}

pub fn size_fixed64() -> (r: usize)
    ensures
        r == 8,
{
    8
}


// ------------------------------------------------------------------
// Length-delimited values: a varint length prefix, then that many bytes.

/// What a length-delimited decode yields: the payload bytes and the
/// total number of bytes consumed, or the fault.
pub open spec fn spec_parse_bytes(s: Seq<u8>) -> Result<(Seq<u8>, int), DecodeError> {
    match spec_parse_varint(s) {
        Ok((len, n)) => if n + len <= s.len() {
            Ok((s.subrange(n, n + len), n + len))
        } else {
            Err(DecodeError::Eof)
        },
        Err(e) => Err(e),
    }
}

/// Appends a varint length prefix followed by the bytes of `val`.
pub fn put_bytes(buf: &mut Vec<u8>, val: &[u8])
    ensures
        final(buf)@ == old(buf)@ + varint_enc(val@.len() as u64) + val@,
{
    put_varint(buf, val.len() as u64);
    let ghost mid = buf@;
    let mut i: usize = 0;
    while i < val.len()
        invariant
            0 <= i <= val@.len(),
            buf@ == mid + val@.subrange(0, i as int),
        decreases val@.len() - i,
    {
        buf.push(val[i]);
        i += 1;
        proof {
            assert(buf@ =~= mid + val@.subrange(0, i as int));
        }
    }
    proof {
        assert(val@.subrange(0, val@.len() as int) =~= val@);
    }
}

/// Reads a length-delimited payload at `*pos` into a fresh buffer.
pub fn parse_bytes(buf: &Vec<u8>, pos: &mut usize) -> (r: Result<Vec<u8>, DecodeError>)
    requires
        *old(pos) <= buf@.len(),
    ensures
        *old(pos) <= *final(pos) <= buf@.len(),
        match r {
            Ok(v) => spec_parse_bytes(buf@.skip(*old(pos) as int)) == Ok::<(Seq<u8>, int),
                DecodeError,
            >((v@, *final(pos) - *old(pos))),
            Err(e) => spec_parse_bytes(buf@.skip(*old(pos) as int)) == Err::<(Seq<u8>, int),
                DecodeError,
            >(e),
        },
{
    let ghost p0 = *pos;
    let ghost s = buf@.skip(*pos as int);
    let len64 = match parse_varint(buf, pos) {
        Ok(v) => v,
        Err(e) => {
            return Err(e);
        },
    };
    let rem = buf.len() - *pos;
    if len64 > rem as u64 {
        return Err(DecodeError::Eof);
    }
    let len = len64 as usize;
    let ghost n = *pos - p0;
    let start = *pos;
    let mut out: Vec<u8> = Vec::new();
    let mut i: usize = 0;
    #[verifier::loop_isolation(false)]
    while i < len
        invariant
            0 <= i <= len,
            out@ == buf@.subrange(start as int, start + i),
        decreases len - i,
    {
        out.push(buf[start + i]);
        i += 1;
        proof {
            assert(out@ =~= buf@.subrange(start as int, start + i));
        }
    }
    *pos = start + len;
    proof {
        assert(s.subrange(n, n + len64 as nat) =~= buf@.subrange(start as int, start + len));
    }
    Ok(out)
}

/// The byte cost of a length-delimited field body of `num` bytes.
pub fn size_bytes(num: usize) -> (r: usize)
    requires
        num + 10 <= usize::MAX,
    ensures
        r == varint_enc(num as u64).len() + num,
{
    size_varint(num as u64) + num
}

// ------------------------------------------------------------------
// Tags: `(field_number << 3) | wire_type_code`, carried as a varint.

/// The tag value for a field number and wire type.
pub open spec fn spec_encode_tag(n: i32, w: WireType) -> u64 {
    ((n as u64) * 8 + (w.spec_code() as u64)) as u64
}

/// Splitting a tag value: the full high bits must form a legal field
/// number — out-of-range high bits fail however wide they are — and the
/// low three bits a known wire type code.  The number check comes first.
pub open spec fn spec_decode_tag(v: u64) -> Result<(i32, WireType), DecodeError> {
    let n = v >> 3u64;
    let c = (v & 7u64) as i8;
    if !spec_field_number_valid(n as int) {
        Err(DecodeError::InvalidFieldNumber(n as i32))
    } else {
        match WireType::spec_new(c) {
            Some(w) => Ok((n as i32, w)),
            None => Err(DecodeError::InvalidWireType(c)),
        }
    }
}

proof fn lemma_encode_tag_bits(n: i32, c: u64)
    by (bit_vector)
    requires
        1 <= n <= 0x1fffffff,
        c <= 5,
    ensures
        ((n as u64) << 3u64) | (c & 7) == ((n as u64) * 8 + c) as u64,
        (((n as u64) * 8 + c) as u64) >> 3u64 == n as u64,
        ((((n as u64) * 8 + c) as u64) >> 3u64) as i32 == n,
        (((n as u64) * 8 + c) as u64) & 7 == c,
{
}

/// The packed tag for a field number and wire type.
pub fn encode_tag(num: FieldNumber, typ: WireType) -> (r: u64)
    requires
        num.wf(),
    ensures
        r == spec_encode_tag(num.spec_get(), typ),
{
    let c = typ.get() as u64;
    proof {
        lemma_encode_tag_bits(num.spec_get(), c);
    }
    ((num.get() as u64) << 3u64) | (c & 7)
}

/// Splits a tag varint into its field number and wire type.
pub fn decode_tag(varint: u64) -> (r: Result<(FieldNumber, WireType), DecodeError>)
    ensures
        match r {
            Ok((num, wt)) => spec_decode_tag(varint) == Ok::<(i32, WireType), DecodeError>(
                (num.spec_get(), wt)) && num.wf(),
            Err(e) => spec_decode_tag(varint) == Err::<(i32, WireType), DecodeError>(e),
        },
{
    let n64 = varint >> 3u64;
    let c = (varint & 7) as i8;
    if n64 > 0x1fffffff {
        return Err(DecodeError::InvalidFieldNumber(n64 as i32));
    }
    proof {
        assert(n64 <= 0x1fffffff ==> (n64 as i32) as int == n64 as int) by (bit_vector);
    }
    let num = match FieldNumber::try_from(n64 as i32) {
        Ok(f) => f,
        Err(e) => {
            return Err(e);
        },
    };
    let wt = match WireType::try_from(c) {
        Ok(w) => w,
        Err(e) => {
            return Err(e);
        },
    };
    Ok((num, wt))
}

/// Tag round trip: a packed tag splits back into the number and wire
/// type it was made from.
pub proof fn lemma_tag_round_trip(num: FieldNumber, typ: WireType)
    requires
        num.wf(),
    ensures
        spec_decode_tag(spec_encode_tag(num.spec_get(), typ)) == Ok::<(i32, WireType),
            DecodeError,
        >((num.spec_get(), typ)),
{
    let c = typ.spec_code() as u64;
    lemma_encode_tag_bits(num.spec_get(), c);
    typ.lemma_code_round_trip();
    assert((spec_encode_tag(num.spec_get(), typ) & 7) as i8 == typ.spec_code());
}

/// Appends the tag for `num` and `typ` as a varint.
pub fn put_tag(buf: &mut Vec<u8>, num: FieldNumber, typ: WireType)
    requires
        num.wf(),
    ensures
        final(buf)@ == old(buf)@ + varint_enc(spec_encode_tag(num.spec_get(), typ)),
{
    let tag = encode_tag(num, typ);
    put_varint(buf, tag);
}

/// What a tag decode yields on the byte sequence `s`.
pub open spec fn spec_parse_tag(s: Seq<u8>) -> Result<((i32, WireType), int), DecodeError> {
    match spec_parse_varint(s) {
        Ok((v, n)) => match spec_decode_tag(v as u64) {
            Ok((num, wt)) => Ok(((num, wt), n)),
            Err(e) => Err(e),
        },
        Err(e) => Err(e),
    }
}

/// Reads a tag at `*pos`.
pub fn parse_tag(buf: &Vec<u8>, pos: &mut usize) -> (r: Result<(FieldNumber, WireType), DecodeError>)
    requires
        *old(pos) <= buf@.len(),
    ensures
        *old(pos) <= *final(pos) <= buf@.len(),
        match r {
            Ok((num, wt)) => spec_parse_tag(buf@.skip(*old(pos) as int)) == Ok::<((i32, WireType),
                int), DecodeError>(((num.spec_get(), wt), *final(pos) - *old(pos))) && num.wf(),
            Err(e) => spec_parse_tag(buf@.skip(*old(pos) as int)) == Err::<((i32, WireType), int),
                DecodeError,
            >(e),
        },
{
    proof {
        if spec_parse_varint(buf@.skip(*old(pos) as int)) is Ok {
            lemma_parse_varint_fits(buf@.skip(*old(pos) as int));
        }
    }
    let v = match parse_varint(buf, pos) {
        Ok(v) => v,
        Err(e) => {
            return Err(e);
        },
    };
    match decode_tag(v) {
        Ok(t) => Ok(t),
        Err(e) => Err(e),
    }
}

/// The byte cost of the tag for `num` (as carried before a varint value).
pub open spec fn spec_size_tag(n: i32) -> int {
    varint_enc(spec_encode_tag(n, WireType::Varint)).len() as int
}

pub fn size_tag(num: FieldNumber) -> (r: usize)
    requires
        num.wf(),
    ensures
        r == spec_size_tag(num.spec_get()),
        1 <= r <= 10,
{
    size_varint(encode_tag(num, WireType::Varint))
}

/// The byte cost of the tag for `num` under a given wire type.
pub fn size_tag_for(num: FieldNumber, typ: WireType) -> (r: usize)
    requires
        num.wf(),
    ensures
        r == varint_enc(spec_encode_tag(num.spec_get(), typ)).len(),
        1 <= r <= 10,
{
    size_varint(encode_tag(num, typ))
}

/// The byte cost of a group body of `len` bytes plus one bracketing tag.
pub fn size_group(num: FieldNumber, len: usize) -> (r: usize)
    requires
        num.wf(),
        len + 10 <= usize::MAX,
    ensures
        r == len + spec_size_tag(num.spec_get()),
{
    size_tag(num) + len
}

// ------------------------------------------------------------------
// Zig-zag: interleaves signed values so small magnitudes stay short.

/// `0, -1, 1, -2, 2, ...` mapped to `0, 1, 2, 3, 4, ...`.
pub open spec fn spec_zig_zag_enc(v: i64) -> u64 {
    if v >= 0 {
        (2 * v) as u64
    } else {
        (-2 * v - 1) as u64
    }
}

/// The inverse of `spec_zig_zag_enc`.
pub open spec fn spec_zig_zag_dec(u: u64) -> i64 {
    if u % 2 == 0 {
        (u / 2) as i64
    } else {
        (-1 - (u / 2) as int) as i64
    }
}

proof fn lemma_zig_zag_enc_bits(v: i64)
    by (bit_vector)
    ensures
        ((v << 1) as u64) ^ ((v >> 63) as u64) == (if v >= 0 {
            (2 * v) as u64
        } else {
            (-2 * v - 1) as u64
        }),
{
}

proof fn lemma_zig_zag_dec_bits(u: u64)
    by (bit_vector)
    ensures
        ((u >> 1) as i64) ^ (((u as i64) << 63) >> 63) == (if u % 2 == 0 {
            (u / 2) as i64
        } else {
            (-1 - (u / 2) as int) as i64
        }),
{
}

/// Maps a zig-zag varint value back to its signed value.
pub fn decode_zig_zag(varint: u64) -> (r: i64)
    ensures
        r == spec_zig_zag_dec(varint),
{
    proof {
        lemma_zig_zag_dec_bits(varint);
    }
    ((varint >> 1u64) as i64) ^ (((varint as i64) << 63i64) >> 63i64)
}

/// Maps a signed value to its zig-zag varint value.
pub fn encode_zig_zag(varint: i64) -> (r: u64)
    ensures
        r == spec_zig_zag_enc(varint),
{
    proof {
        lemma_zig_zag_enc_bits(varint);
    }
    ((varint << 1i64) as u64) ^ ((varint >> 63i64) as u64)
}

/// Zig-zag round trip: decoding an encoded value gives it back, over the
/// whole signed 64-bit range; and the other way around.
pub proof fn lemma_zig_zag_round_trip(v: i64, u: u64)
    ensures
        spec_zig_zag_dec(spec_zig_zag_enc(v)) == v,
        spec_zig_zag_enc(spec_zig_zag_dec(u)) == u,
{
}

/// A varint read as a bool: zero is false, everything else true.
pub fn decode_bool(varint: u64) -> (r: bool)
    ensures
        r == (varint != 0),
{
    varint != 0
}

/// The wire form of a bool.
pub fn encode_bool(varint: bool) -> (r: u64)
    ensures
        r == (if varint {
            1u64
        } else {
            0u64
        }),
{
    if varint {
        1
    } else {
        0
    }
}


// ------------------------------------------------------------------
// Laws of the varint form.

/// A byte sequence the varint decoder accepts in full: every byte but the
/// last carries the continuation bit, the last does not, at most ten bytes,
/// and a tenth byte no greater than 1.
pub open spec fn valid_chain(c: Seq<u8>) -> bool {
    &&& 1 <= c.len() <= 10
    &&& forall|i: int| 0 <= i < c.len() - 1 ==> c[i] >= 0x80
    &&& c[c.len() - 1] < 0x80
    &&& c.len() == 10 ==> c[9] <= 1
}

/// The value a chain denotes: its low 7-bit groups, little-endian.
pub open spec fn chain_value(c: Seq<u8>) -> nat
    decreases c.len(),
{
    if c.len() == 0 {
        0
    } else {
        (c[0] & 0x7f) as nat + 128 * chain_value(c.drop_first())
    }
}

proof fn lemma_chain_parse(s: Seq<u8>, i: int, c: Seq<u8>)
    requires
        0 <= i,
        i + c.len() <= 10,
        i + c.len() <= s.len(),
        c.len() >= 1,
        c =~= s.subrange(i, i + c.len()),
        forall|j: int| 0 <= j < c.len() - 1 ==> c[j] >= 0x80,
        c[c.len() - 1] < 0x80,
        i + c.len() == 10 ==> c[c.len() - 1] <= 1,
    ensures
        spec_parse_varint_rec(s, i) == Ok::<(nat, int), DecodeError>((chain_value(c), i + c.len())),
    decreases c.len(),
{
    let b = s[i];
    assert(b == c[0]);
    lemma_u8_low7(b);
    if c.len() == 1 {
        assert(b < 0x80);
        assert(chain_value(c) == (c[0] & 0x7f) as nat + 128 * chain_value(c.drop_first()));
        assert(c.drop_first().len() == 0);
        assert(chain_value(c) == b as nat);
    } else {
        assert(b >= 0x80);
        assert(i < 9);
        let c2 = c.drop_first();
        assert(c2 =~= s.subrange(i + 1, i + 1 + c2.len()));
        assert(c2[c2.len() - 1] == c[c.len() - 1]);
        lemma_chain_parse(s, i + 1, c2);
        assert(spec_parse_varint_rec(s, i) == Ok::<(nat, int), DecodeError>(
            ((b & 0x7f) as nat + 128 * chain_value(c2), i + c.len())));
    }
}

/// Denormalization acceptance: the decoder yields the denoted value of
/// every acceptable chain, minimal or not, whatever follows it.
pub proof fn lemma_varint_denormalized(c: Seq<u8>, rest: Seq<u8>)
    requires
        valid_chain(c),
    ensures
        spec_parse_varint(c + rest) == Ok::<(nat, int), DecodeError>((chain_value(c), c.len() as int)),
{
    let s = c + rest;
    assert(c =~= s.subrange(0, c.len() as int));
    lemma_chain_parse(s, 0, c);
}

/// The minimal encoding is an acceptable chain denoting its own value,
/// with every byte before the last a continuation byte.
pub proof fn lemma_varint_enc_chain(v: u64)
    ensures
        valid_chain(varint_enc(v)),
        chain_value(varint_enc(v)) == v,
{
    vstd::arithmetic::power2::lemma_pow2_unfold(64);
    assert(pow2(64) == 0x10000000000000000) by {
        vstd::arithmetic::power2::lemma2_to64_rest();
    };
    lemma_varint_enc_chain_rec(v, 0);
}

proof fn lemma_varint_enc_chain_rec(v: u64, i: int)
    requires
        0 <= i <= 9,
        v < 2 * pow2((7 * (9 - i)) as nat),
    ensures
        ({
            let c = varint_enc(v);
            &&& 1 <= c.len() <= 10 - i
            &&& forall|j: int| 0 <= j < c.len() - 1 ==> c[j] >= 0x80
            &&& c[c.len() - 1] < 0x80
            &&& i + c.len() == 10 ==> c[c.len() - 1] <= 1
            &&& chain_value(c) == v
        }),
    decreases 10 - i,
{
    let c = varint_enc(v);
    lemma_pow2_pos((7 * (9 - i)) as nat);
    if v < 0x80 {
        assert(c =~= seq![v as u8]);
        let b = v as u8;
        lemma_u8_low7(b);
        assert(chain_value(c) == (b & 0x7f) as nat + 128 * chain_value(c.drop_first()));
        assert(c.drop_first().len() == 0);
        if i == 9 {
            assert(pow2(0) == 1) by {
                vstd::arithmetic::power2::lemma2_to64();
            };
            assert(v < 2);
        }
    } else {
        assert(i < 9) by {
            if i == 9 {
                assert(pow2(0) == 1) by {
                    vstd::arithmetic::power2::lemma2_to64();
                };
            }
        };
        let v2 = (v / 0x80) as u64;
        let p = pow2((7 * (9 - i - 1)) as nat);
        lemma_pow2_pos((7 * (9 - i - 1)) as nat);
        lemma_pow2_adds((7 * (9 - i - 1)) as nat, 7);
        assert(pow2(7) == 128) by {
            vstd::arithmetic::power2::lemma2_to64();
        };
        assert(v2 < 2 * p) by (nonlinear_arith)
            requires
                v < 2 * (p * 128),
                v2 == v / 0x80,
                p > 0,
        ;
        lemma_varint_enc_chain_rec(v2, i + 1);
        let b = ((v % 0x80) + 0x80) as u8;
        assert(c =~= seq![b] + varint_enc(v2));
        assert(c.drop_first() =~= varint_enc(v2));
        lemma_u8_low7(b);
        assert((b & 0x7f) as nat == v % 0x80);
        assert(chain_value(c) == (v % 0x80) + 128 * chain_value(varint_enc(v2)));
        assert(v % 0x80 + 128 * (v / 0x80) == v) by (nonlinear_arith);
    }
}

/// Varint round trip: decoding the minimal encoding of `v`, with anything
/// at all after it, gives back `v` and consumes exactly the encoding.
pub proof fn lemma_varint_round_trip(v: u64, rest: Seq<u8>)
    ensures
        spec_parse_varint(varint_enc(v) + rest) == Ok::<(nat, int), DecodeError>(
            (v as nat, varint_enc(v).len() as int)),
{
    lemma_varint_enc_chain(v);
    lemma_varint_denormalized(varint_enc(v), rest);
}

/// Encoder minimality: no acceptable chain denoting `v` is shorter than
/// the encoder's output, whose continuation bit falls at the last byte.
pub proof fn lemma_varint_minimal(c: Seq<u8>)
    requires
        valid_chain(c),
    ensures
        varint_enc((chain_value(c) as u64)).len() <= c.len(),
        chain_value(c) < 0x10000000000000000,
    decreases c.len(),
{
    let v = chain_value(c);
    lemma_varint_denormalized(c, Seq::empty());
    lemma_parse_varint_fits(c + Seq::empty());
    let b = c[0];
    lemma_u8_low7(b);
    if c.len() == 1 {
        assert(c.drop_first().len() == 0);
        assert(v == b as nat);
        assert(v < 0x80);
    } else {
        let c2 = c.drop_first();
        assert(v == (b & 0x7f) as nat + 128 * chain_value(c2));
        if c2.len() == 10 {
            assert(c2[9] == c[10]);
        }
        assert(valid_chain(c2)) by {
            assert(forall|j: int| 0 <= j < c2.len() - 1 ==> c2[j] == c[j + 1] && c[j + 1] >= 0x80);
            assert(c2[c2.len() - 1] == c[c.len() - 1]);
        };
        lemma_varint_minimal(c2);
        let v2 = chain_value(c2);
        if v >= 0x80 {
            assert((v as u64) / 0x80 == v2 as u64) by (nonlinear_arith)
                requires
                    v == ((b & 0x7f) as nat) + 128 * v2,
                    ((b & 0x7f) as nat) < 128,
                    v < 0x10000000000000000,
                    v2 < 0x10000000000000000,
            ;
            let vu = v as u64;
            let v2u = v2 as u64;
            assert(varint_enc(vu) == seq![((vu % 0x80) + 0x80) as u8] + varint_enc(v2u));
        }
    }
}


// ------------------------------------------------------------------
// Wire tokens and the pull parser.

/// The ghost image of a `FieldValue`: the payload of a length-delimited
/// token as a byte sequence.
pub enum FieldValueModel {
    Varint(u64),
    Fixed32(u32),
    Fixed64(u64),
    Bytes(Seq<u8>),
    StartGroup,
    EndGroup,
}

/// One wire value, as pulled off the buffer.  Groups are not materialized:
/// the parser hands out bare bracketing tokens.
#[derive(Clone, Debug, Eq, PartialEq)]
pub enum FieldValue {
    Varint(u64),
    Fixed32(u32),
    Fixed64(u64),
    Bytes(Vec<u8>),
    StartGroup,
    EndGroup,
}

impl View for FieldValue {
    type V = FieldValueModel;

    open spec fn view(&self) -> FieldValueModel {
        match self {
            FieldValue::Varint(v) => FieldValueModel::Varint(*v),
            FieldValue::Fixed32(v) => FieldValueModel::Fixed32(*v),
            FieldValue::Fixed64(v) => FieldValueModel::Fixed64(*v),
            FieldValue::Bytes(b) => FieldValueModel::Bytes(b@),
            FieldValue::StartGroup => FieldValueModel::StartGroup,
            FieldValue::EndGroup => FieldValueModel::EndGroup,
        }
    }
}

/// One parsed field token: a field number and its wire value.
#[derive(Clone, Debug, Eq, PartialEq)]
pub struct WireField {
    pub num: FieldNumber,
    pub val: FieldValue,
}

impl View for WireField {
    type V = (i32, FieldValueModel);

    open spec fn view(&self) -> (i32, FieldValueModel) {
        (self.num.spec_get(), self.val@)
    }
}

/// What a wire-value decode yields under a given wire type.
pub open spec fn spec_parse_wire_value(s: Seq<u8>, typ: WireType) -> Result<
    (FieldValueModel, int),
    DecodeError,
> {
    match typ {
        WireType::Varint => match spec_parse_varint(s) {
            Ok((v, n)) => Ok((FieldValueModel::Varint(v as u64), n)),
            Err(e) => Err(e),
        },
        WireType::Fixed32 => match spec_parse_fixed32(s) {
            Ok((v, n)) => Ok((FieldValueModel::Fixed32(v), n)),
            Err(e) => Err(e),
        },
        WireType::Fixed64 => match spec_parse_fixed64(s) {
            Ok((v, n)) => Ok((FieldValueModel::Fixed64(v), n)),
            Err(e) => Err(e),
        },
        WireType::Bytes => match spec_parse_bytes(s) {
            Ok((b, n)) => Ok((FieldValueModel::Bytes(b), n)),
            Err(e) => Err(e),
        },
        WireType::StartGroup => Ok((FieldValueModel::StartGroup, 0)),
        WireType::EndGroup => Ok((FieldValueModel::EndGroup, 0)),
    }
}

/// What one whole field-token decode yields: the tag, then the value its
/// wire type calls for.
pub open spec fn spec_parse_field(s: Seq<u8>) -> Result<((i32, FieldValueModel), int), DecodeError> {
    match spec_parse_tag(s) {
        Ok(((n, wt), n1)) => match spec_parse_wire_value(s.skip(n1), wt) {
            Ok((fv, n2)) => Ok(((n, fv), n1 + n2)),
            Err(e) => Err(e),
        },
        Err(e) => Err(e),
    }
}

/// Reads the value belonging to an already-read tag of wire type `typ`.
pub fn parse_wire_value(buf: &Vec<u8>, pos: &mut usize, typ: WireType) -> (r: Result<
    FieldValue,
    DecodeError,
>)
    requires
        *old(pos) <= buf@.len(),
    ensures
        *old(pos) <= *final(pos) <= buf@.len(),
        match r {
            Ok(fv) => spec_parse_wire_value(buf@.skip(*old(pos) as int), typ) == Ok::<
                (FieldValueModel, int),
                DecodeError,
            >((fv@, *final(pos) - *old(pos))),
            Err(e) => spec_parse_wire_value(buf@.skip(*old(pos) as int), typ) == Err::<
                (FieldValueModel, int),
                DecodeError,
            >(e),
        },
{
    match typ {
        WireType::Varint => {
            proof {
                if spec_parse_varint(buf@.skip(*old(pos) as int)) is Ok {
                    lemma_parse_varint_fits(buf@.skip(*old(pos) as int));
                }
            }
            match parse_varint(buf, pos) {
                Ok(v) => Ok(FieldValue::Varint(v)),
                Err(e) => Err(e),
            }
        },
        WireType::Fixed32 => match parse_fixed32(buf, pos) {
            Ok(v) => Ok(FieldValue::Fixed32(v)),
            Err(e) => Err(e),
        },
        WireType::Fixed64 => match parse_fixed64(buf, pos) {
            Ok(v) => Ok(FieldValue::Fixed64(v)),
            Err(e) => Err(e),
        },
        WireType::Bytes => match parse_bytes(buf, pos) {
            Ok(b) => Ok(FieldValue::Bytes(b)),
            Err(e) => Err(e),
        },
        WireType::StartGroup => Ok(FieldValue::StartGroup),
        WireType::EndGroup => Ok(FieldValue::EndGroup),
    }
}

/// Reads one whole field token at `*pos`.
pub fn parse_next(buf: &Vec<u8>, pos: &mut usize) -> (r: Result<WireField, DecodeError>)
    requires
        *old(pos) <= buf@.len(),
    ensures
        *old(pos) <= *final(pos) <= buf@.len(),
        match r {
            Ok(wf) => spec_parse_field(buf@.skip(*old(pos) as int)) == Ok::<
                ((i32, FieldValueModel), int),
                DecodeError,
            >((wf@, *final(pos) - *old(pos))) && wf.num.wf(),
            Err(e) => spec_parse_field(buf@.skip(*old(pos) as int)) == Err::<
                ((i32, FieldValueModel), int),
                DecodeError,
            >(e),
        },
{
    let ghost p0 = *pos;
    let (num, typ) = match parse_tag(buf, pos) {
        Ok(t) => t,
        Err(e) => {
            return Err(e);
        },
    };
    let ghost p1 = *pos;
    proof {
        assert(buf@.skip(p1 as int) =~= buf@.skip(p0 as int).skip(p1 - p0));
    }
    let val = match parse_wire_value(buf, pos, typ) {
        Ok(v) => v,
        Err(e) => {
            return Err(e);
        },
    };
    Ok(WireField { num, val })
}

/// A pull iterator over the field tokens of one buffer.
pub struct Parser {
    buf: Vec<u8>,
    pos: usize,
}

impl Parser {
    /// The buffer this parser walks.
    pub closed spec fn spec_buf(&self) -> Seq<u8> {
        self.buf@
    }

    /// The read cursor.
    pub closed spec fn spec_pos(&self) -> int {
        self.pos as int
    }

    pub open spec fn wf(&self) -> bool {
        0 <= self.spec_pos() <= self.spec_buf().len()
    }

    /// The bytes not yet consumed.
    pub open spec fn remaining(&self) -> Seq<u8> {
        self.spec_buf().skip(self.spec_pos())
    }

    pub fn new(buf: Vec<u8>) -> (r: Parser)
        ensures
            r.spec_buf() == buf@,
            r.spec_pos() == 0,
            r.wf(),
    {
        Parser { buf, pos: 0 }
    }

    /// One field token per step; `None` exactly when the buffer is
    /// exhausted.  On a decode fault the error comes once, and the caller
    /// must stop.
    pub fn next(&mut self) -> (r: Option<Result<WireField, DecodeError>>)
        requires
            old(self).wf(),
        ensures
            final(self).wf(),
            final(self).spec_buf() == old(self).spec_buf(),
            old(self).spec_pos() <= final(self).spec_pos(),
            old(self).remaining().len() == 0 ==> r is None,
            match r {
                None => old(self).remaining().len() == 0 && final(self).spec_pos() == old(
                    self,
                ).spec_pos(),
                Some(Ok(wf)) => spec_parse_field(old(self).remaining()) == Ok::<
                    ((i32, FieldValueModel), int),
                    DecodeError,
                >((wf@, final(self).spec_pos() - old(self).spec_pos())) && wf.num.wf(),
                Some(Err(e)) => spec_parse_field(old(self).remaining()) == Err::<
                    ((i32, FieldValueModel), int),
                    DecodeError,
                >(e),
            },
    {
        if self.pos >= self.buf.len() {
            None
        } else {
            Some(parse_next(&self.buf, &mut self.pos))
        }
    }
}

} // verus!
