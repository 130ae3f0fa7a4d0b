//! Unsigned LEB128: the variable-length integer encoding used by every
//! length field of the container format.

use vstd::prelude::*;
use crate::DecodeError;

verus! {

/// Largest value a length field may carry: length fields are 32-bit.
pub open spec fn varint_limit() -> nat {
    0x1_0000_0000
}

/// The canonical (minimal) LEB128 encoding of `v`: seven payload bits per
/// byte, least significant first, high bit set on every byte but the last.
pub open spec fn varint_encode(v: nat) -> Seq<u8>
    decreases v,
{
    if v < 128 {
        seq![v as u8]
    } else {
        seq![((v % 128) + 128) as u8] + varint_encode(v / 128)
    }
}

/// Reads one LEB128 integer from the front of `s` with no size cap:
/// `Some((value, bytes_consumed))`, or `None` if the terminating byte
/// (high bit clear) never comes.  Non-minimal encodings are accepted.
pub open spec fn raw_varint_decode(s: Seq<u8>) -> Option<(nat, nat)>
    decreases s.len(),
{
    if s.len() == 0 {
        None
    } else if s[0] < 128 {
        Some((s[0] as nat, 1))
    } else {
        match raw_varint_decode(s.skip(1)) {
            Some(p) => Some((((s[0] - 128) + 128 * p.0) as nat, (p.1 + 1) as nat)),
            None => None,
        }
    }
}

/// Reads one LEB128 integer from the front of `s`, rejecting values that do
/// not fit in 32 bits.  This is the decoder every length field goes through.
pub open spec fn varint_decode(s: Seq<u8>) -> Option<(nat, nat)> {
    match raw_varint_decode(s) {
        Some(p) => if p.0 < varint_limit() {
            Some(p)
        } else {
            None
        },
        None => None,
    }
}

/// A successful raw decode consumes between 1 byte and the whole buffer.
pub proof fn lemma_raw_varint_consumes(s: Seq<u8>)
    ensures
        raw_varint_decode(s) matches Some(p) ==> 1 <= p.1 <= s.len(),
    decreases s.len(),
{
    if s.len() != 0 && s[0] >= 128 {
        lemma_raw_varint_consumes(s.skip(1));
    }
}

/// Values below the `k`-th power of 128 encode in at most `k` bytes.
pub proof fn lemma_varint_encode_len_bound(v: nat, k: nat)
    requires
        1 <= k,
        v < pow128(k),
    ensures
        varint_encode(v).len() <= k,
    decreases k,
{
    if v >= 128 {
        assert(pow128(k) == 128 * pow128((k - 1) as nat));
        assert(v / 128 < pow128((k - 1) as nat)) by (nonlinear_arith)
            requires
                v < 128 * pow128((k - 1) as nat),
        ;
        lemma_varint_encode_len_bound(v / 128, (k - 1) as nat);
    }
}

/// The canonical encoding of any value is nonempty, and values below the
/// 32-bit limit need at most 5 bytes.
pub proof fn lemma_varint_encode_len(v: nat)
    ensures
        1 <= varint_encode(v).len(),
        v < varint_limit() ==> varint_encode(v).len() <= 5,
    decreases v,
{
    if v >= 128 {
        lemma_varint_encode_len(v / 128);
    }
    if v < varint_limit() {
        lemma_pow128_5();
        lemma_varint_encode_len_bound(v, 5);
    }
}

/// Decoding undoes encoding: a canonical encoding at the front of any buffer
/// decodes to the encoded value and consumes exactly the encoding.
pub proof fn lemma_varint_roundtrip(v: nat, rest: Seq<u8>)
    ensures
        raw_varint_decode(varint_encode(v) + rest) == Some((v, varint_encode(v).len() as nat)),
    decreases v,
{
    let s = varint_encode(v) + rest;
    if v < 128 {
        assert(s[0] == v as u8);
        assert(s.len() >= 1);
    } else {
        lemma_varint_roundtrip(v / 128, rest);
        assert(s[0] == ((v % 128) + 128) as u8);
        assert(s.skip(1) =~= varint_encode(v / 128) + rest);
        assert((s[0] - 128) + 128 * (v / 128) == v) by {
            assert(v % 128 + 128 * (v / 128) == v) by (nonlinear_arith);
        };
    }
}

/// Powers of 128: the place value of the `k`-th byte of a LEB128 encoding.
pub open spec fn pow128(k: nat) -> nat
    decreases k,
{
    if k == 0 {
        1
    } else {
        128 * pow128((k - 1) as nat)
    }
}

pub proof fn lemma_pow128_5()
    ensures
        pow128(0) == 1,
        pow128(1) == 128,
        pow128(2) == 0x4000,
        pow128(3) == 0x20_0000,
        pow128(4) == 0x1000_0000,
        pow128(5) == 0x8_0000_0000,
{
    assert(pow128(0) == 1);
    assert(pow128(1) == 128);
    assert(pow128(2) == 0x4000);
    assert(pow128(3) == 0x20_0000);
    assert(pow128(4) == 0x1000_0000);
    assert(pow128(5) == 0x8_0000_0000);
}

/// Powers of 128 never decrease.
pub proof fn lemma_pow128_mono(a: nat, b: nat)
    requires
        a <= b,
    ensures
        pow128(a) <= pow128(b),
        1 <= pow128(a),
    decreases b,
{
    if b == 0 {
    } else if a == b {
        lemma_pow128_mono((a - 1) as nat, (b - 1) as nat);
        assert(pow128(b) == 128 * pow128((b - 1) as nat));
        assert(1 <= pow128(b)) by (nonlinear_arith)
            requires
                1 <= pow128((b - 1) as nat),
                pow128(b) == 128 * pow128((b - 1) as nat),
        ;
    } else {
        lemma_pow128_mono(a, (b - 1) as nat);
        assert(pow128((b - 1) as nat) <= 128 * pow128((b - 1) as nat)) by (nonlinear_arith)
            requires
                1 <= pow128((b - 1) as nat),
        ;
    }
}

/// A raw decode result, as it looks from `k` continuation bytes earlier,
/// those bytes having contributed the value `acc`.
pub open spec fn shifted_decode(r: Option<(nat, nat)>, acc: nat, k: nat) -> Option<(nat, nat)> {
    match r {
        Some(p) => Some((acc + pow128(k) * p.0, (p.1 + k) as nat)),
        None => None,
    }
}

/// Emits the canonical LEB128 encoding of `v`.
pub fn encode_varint(v: u32) -> (r: Vec<u8>)
    ensures
        r@ == varint_encode(v as nat),
{
    let mut out: Vec<u8> = Vec::new();
    let mut cur: u32 = v;
    proof {
        assert(out@ + varint_encode(cur as nat) =~= varint_encode(v as nat));
    }
    while cur >= 128
        invariant
            out@ + varint_encode(cur as nat) == varint_encode(v as nat),
        decreases cur,
    {
        let b: u8 = ((cur % 128) + 128) as u8;
        out.push(b);
        proof {
            assert(varint_encode(cur as nat) == seq![b] + varint_encode((cur / 128) as nat));
            assert(out@ + varint_encode((cur / 128) as nat) =~= varint_encode(v as nat));
        }
        cur = cur / 128;
    }
    out.push(cur as u8);
    proof {
        assert(varint_encode(cur as nat) =~= seq![cur as u8]);
        assert(out@ =~= varint_encode(v as nat));
    }
    out
}

/// Reads one LEB128 length field starting at `offset`: the decoded value and
/// the bytes consumed.  Fails with `MalformedVarint` exactly when no
/// terminating byte comes before the buffer ends or the value does not fit
/// in 32 bits.
pub fn decode_varint(bytes: &[u8], offset: usize) -> (r: Result<(u32, usize), DecodeError>)
    requires
        offset <= bytes@.len(),
    ensures
        match r {
            Ok(p) => varint_decode(bytes@.skip(offset as int)) == Some((p.0 as nat, p.1 as nat))
                && 1 <= p.1 && offset + p.1 <= bytes@.len(),
            Err(e) => e == DecodeError::MalformedVarint && varint_decode(
                bytes@.skip(offset as int),
            ) is None,
        },
{
    let ghost sfx = bytes@.skip(offset as int);
    let mut acc: u64 = 0;
    let mut mult: u64 = 1;
    let mut i: usize = offset;
    proof {
        lemma_raw_varint_consumes(sfx);
        match raw_varint_decode(sfx) {
            Some(p) => {
                assert(pow128(0) * p.0 == p.0);
                assert(shifted_decode(raw_varint_decode(sfx), 0, 0) == raw_varint_decode(sfx));
            },
            None => {},
        }
    }
    loop
        invariant
            offset <= i <= bytes@.len(),
            sfx == bytes@.skip(offset as int),
            mult == pow128(if i - offset <= 5 {
                (i - offset) as nat
            } else {
                5
            }),
            acc < pow128(if i - offset <= 5 {
                (i - offset) as nat
            } else {
                5
            }),
            raw_varint_decode(sfx) == shifted_decode(
                raw_varint_decode(bytes@.skip(i as int)),
                acc as nat,
                (i - offset) as nat,
            ),
        decreases bytes@.len() - i,
    {
        let ghost k = (i - offset) as nat;
        proof {
            lemma_pow128_5();
        }
        if i >= bytes.len() {
            proof {
                assert(bytes@.skip(i as int).len() == 0);
                assert(raw_varint_decode(bytes@.skip(i as int)) is None);
            }
            return Err(DecodeError::MalformedVarint);
        }
        let b: u8 = bytes[i];
        proof {
            assert(bytes@.skip(i as int)[0] == bytes@[i as int]);
            assert(bytes@.skip(i as int).skip(1) =~= bytes@.skip(i as int + 1));
        }
        let low: u64 = (b % 128) as u64;
        let ghost acc0 = acc;
        if mult > 0xFFFF_FFFF {
            // `mult` is capped at the fifth power of 128, so five or more
            // continuation bytes have gone by: any further nonzero payload
            // bits push the value past 32 bits.
            proof {
                assert(k >= 5) by {
                    if k <= 4 {
                        lemma_pow128_mono(k, 4);
                    }
                };
                lemma_pow128_mono(5, k);
            }
            if low != 0 {
                proof {
                    let cur = raw_varint_decode(bytes@.skip(i as int));
                    match cur {
                        Some(p) => {
                            if b < 128 {
                                assert(p == (b as nat, 1nat));
                                assert(pow128(k) * p.0 >= pow128(k) * 1) by (nonlinear_arith)
                                    requires
                                        p.0 >= 1,
                                        pow128(k) >= 0,
                                ;
                            } else {
                                let p2 = raw_varint_decode(bytes@.skip(i as int + 1));
                                match p2 {
                                    Some(q) => {
                                        assert(p.0 == (b - 128) + 128 * q.0);
                                        assert(pow128(k) * p.0 >= pow128(k) * 1) by (
                                        nonlinear_arith)
                                            requires
                                                p.0 >= 1,
                                                pow128(k) >= 0,
                                        ;
                                    },
                                    None => {},
                                }
                            }
                            assert(acc + pow128(k) * p.0 >= pow128(5));
                            assert(varint_decode(sfx) is None);
                        },
                        None => {},
                    }
                }
                return Err(DecodeError::MalformedVarint);
            }
        } else {
            proof {
                assert(k <= 4) by {
                    if k >= 5 {
                        assert(mult == pow128(5));
                    }
                };
                assert(low * mult < 0x8_0000_0000 && acc + low * mult < pow128(k + 1)) by (
                nonlinear_arith)
                    requires
                        low < 128,
                        mult == pow128(k),
                        acc < pow128(k),
                        pow128(k + 1) == 128 * pow128(k),
                        pow128(k) <= 0x1000_0000,
                ;
            }
            acc = acc + low * mult;
        }
        i = i + 1;
        proof {
            // One more byte of the suffix has been folded into `acc`.
            assert(acc == acc0 + pow128(k) * ((b % 128) as nat)) by {
                if mult > 0xFFFF_FFFF {
                    assert(low == 0);
                    assert(pow128(k) * ((b % 128) as nat) == 0) by (nonlinear_arith)
                        requires
                            b % 128 == 0,
                    ;
                } else {
                    assert(mult == pow128(k));
                }
            };
            let cur = raw_varint_decode(bytes@.skip(i as int - 1));
            let nxt = raw_varint_decode(bytes@.skip(i as int));
            if b >= 128 {
                assert(b % 128 == b - 128);
                match nxt {
                    Some(q) => {
                        assert(cur == Some::<(nat, nat)>((((b - 128) + 128 * q.0) as nat, (q.1
                            + 1) as nat)));
                        assert(pow128(k) * (((b - 128) + 128 * q.0) as nat) == pow128(k) * ((b
                            - 128) as nat) + pow128(k + 1) * q.0) by (nonlinear_arith)
                            requires
                                b >= 128,
                                pow128(k + 1) == 128 * pow128(k),
                        ;
                        assert(shifted_decode(cur, acc0 as nat, k) == shifted_decode(
                            nxt,
                            acc as nat,
                            k + 1,
                        ));
                    },
                    None => {
                        assert(cur is None);
                    },
                }
            }
        }
        if b < 128 {
            // Terminating byte: the whole value is now in `acc`.
            proof {
                let cur = raw_varint_decode(bytes@.skip(i as int - 1));
                assert(cur == Some::<(nat, nat)>((b as nat, 1nat)));
                if k >= 5 {
                    assert(low == 0 && b == 0);
                    assert(pow128(k) * (b as nat) == 0) by (nonlinear_arith)
                        requires
                            b == 0,
                    ;
                } else {
                    assert(mult == pow128(k));
                }
                assert(raw_varint_decode(sfx) == Some::<(nat, nat)>(
                    (acc as nat, (k + 1) as nat),
                ));
            }
            if acc > 0xFFFF_FFFF {
                proof {
                    assert(varint_decode(sfx) is None);
                }
                return Err(DecodeError::MalformedVarint);
            }
            proof {
                assert(varint_decode(sfx) == Some::<(nat, nat)>((acc as nat, (k + 1) as nat)));
            }
            return Ok((acc as u32, i - offset));
        }
        if mult <= 0xFFFF_FFFF {
            proof {
                assert((i - offset) as nat == k + 1);
                assert(k <= 4) by {
                    if k >= 5 {
                        assert(mult == pow128(5));
                    }
                };
                assert(mult * 128 == pow128(k + 1)) by (nonlinear_arith)
                    requires
                        mult == pow128(k),
                        pow128(k + 1) == 128 * pow128(k),
                ;
            }
            mult = mult * 128;
        } else {
            proof {
                assert(k >= 5) by {
                    if k <= 4 {
                        lemma_pow128_mono(k, 4);
                    }
                };
            }
        }
    }
}

} // verus!
