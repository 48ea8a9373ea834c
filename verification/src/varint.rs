use vstd::prelude::*;

verus! {

/// The unsigned varint encoding used for length prefixes in posting blocks
/// and term dictionaries: seven payload bits per byte, least-significant
/// first, high bit set on every byte but the last.
pub open spec fn vu64_of(x: nat) -> Seq<u8>
    decreases x,
{
    if x < 128 {
        seq![x as u8]
    } else {
        seq![(x % 128 + 128) as u8] + vu64_of(x / 128)
    }
}

spec fn pow128(n: nat) -> int
    decreases n,
{
    if n == 0 {
        1
    } else {
        128 * pow128((n - 1) as nat)
    }
}

proof fn lemma_vu64_len_ub(x: nat, k: nat)
    requires
        k >= 1,
        x < pow128(k),
    ensures
        1 <= vu64_of(x).len() <= k,
    decreases k,
{
    if x >= 128 {
        if k == 1 {
            assert(pow128(1) == 128 * pow128(0));
            assert(false);
        }
        assert(pow128(k) == 128 * pow128((k - 1) as nat));
        assert(x / 128 < pow128((k - 1) as nat)) by (nonlinear_arith)
            requires
                x < 128 * pow128((k - 1) as nat),
        ;
        lemma_vu64_len_ub(x / 128, (k - 1) as nat);
    }
}

proof fn lemma_pow128_10()
    ensures
        pow128(10) == 0x400000000000000000,
{
    assert(pow128(0) == 1);
    assert(pow128(1) == 128);
    assert(pow128(2) == 0x4000);
    assert(pow128(3) == 0x200000);
    assert(pow128(4) == 0x10000000);
    assert(pow128(5) == 0x800000000);
    assert(pow128(6) == 0x40000000000);
    assert(pow128(7) == 0x2000000000000);
    assert(pow128(8) == 0x100000000000000);
    assert(pow128(9) == 0x8000000000000000);
    assert(pow128(10) == 0x400000000000000000);
}

pub proof fn lemma_vu64_len_pos(x: nat)
    ensures
        crate::varint::vu64_of(x).len() >= 1,
{
}

pub proof fn lemma_vu64_len(x: nat)
    requires
        x <= u64::MAX,
    ensures
        1 <= vu64_of(x).len() <= 10,
{
    lemma_pow128_10();
    lemma_vu64_len_ub(x, 10);
}

/// Appends the varint encoding of `x` to `buf`.
///
/// Relies on varintrs::Binary::put_vu64 (via `write_vu64`), whose loop emits
/// `x`'s low seven bits with the continuation bit set while `x >= 0x80`, then
/// one final byte below 0x80: exactly the bytes of `vu64_of`.
#[verifier::external_body]
pub(crate) fn write_vu64(buf: &mut Vec<u8>, x: u64) -> (n: usize)
    ensures
        final(buf)@ == old(buf)@ + vu64_of(x as nat),
        n == vu64_of(x as nat).len(),
{
    varintrs::WriteBytesVarExt::write_vu64::<varintrs::Binary>(buf, x).unwrap()
}

/// Whether the encoding of `x` lies at `pos` in `s`.
pub open spec fn vu64_at(s: Seq<u8>, pos: int, x: nat) -> bool {
    &&& pos + vu64_of(x).len() <= s.len()
    &&& s.subrange(pos, pos + vu64_of(x).len()) == vu64_of(x)
}

/// Any matching encoding that starts with a continuation byte at `pos` has
/// its tail matching at `pos + 1`.
proof fn lemma_match_high(s: Seq<u8>, pos: int, x: nat)
    requires
        0 <= pos < s.len(),
        s[pos] >= 128,
        vu64_at(s, pos, x),
    ensures
        x >= 128,
        x % 128 == (s[pos] - 128) as nat,
        vu64_at(s, pos + 1, x / 128),
{
    let ex = vu64_of(x);
    assert(s.subrange(pos, pos + ex.len() as int)[0] == ex[0]);
    if x < 128 {
        assert(ex[0] == x as u8);
        assert(false);
    }
    let tail = vu64_of(x / 128);
    assert(ex == seq![(x % 128 + 128) as u8] + tail);
    assert(ex[0] == (x % 128 + 128) as u8);
    assert(s.subrange(pos + 1, pos + 1 + tail.len() as int) =~= tail) by {
        assert forall|i: int| 0 <= i < tail.len() implies s.subrange(
            pos + 1,
            pos + 1 + tail.len() as int,
        )[i] == tail[i] by {
            assert(s.subrange(pos, pos + ex.len() as int)[i + 1] == ex[i + 1]);
        }
    }
}

/// Reads one varint at `pos`. Returns the value and the count of bytes read,
/// or `None` where no 64-bit value's encoding starts at `pos`.
pub fn read_vu64(buf: &[u8], pos: usize) -> (r: Option<(u64, usize)>)
    requires
        pos <= buf@.len(),
    ensures
        match r {
            Some(p) => {
                &&& 1 <= p.1 <= 10
                &&& pos + p.1 <= buf@.len()
                &&& vu64_at(buf@, pos as int, p.0 as nat)
                &&& p.1 == vu64_of(p.0 as nat).len()
            },
            None => forall|x: u64| !vu64_at(buf@, pos as int, x as nat),
        },
    decreases buf@.len() - pos,
{
    if pos == buf.len() {
        proof {
            assert forall|x: u64| !vu64_at(buf@, pos as int, x as nat) by {
                lemma_vu64_len(x as nat);
            }
        }
        return None;
    }
    let b = buf[pos];
    if b < 128 {
        proof {
            assert(buf@.subrange(pos as int, pos + 1) =~= vu64_of(b as nat));
        }
        return Some((b as u64, 1));
    }
    let rest = read_vu64(buf, pos + 1);
    match rest {
        None => {
            proof {
                assert forall|x: u64| !vu64_at(buf@, pos as int, x as nat) by {
                    if vu64_at(buf@, pos as int, x as nat) {
                        lemma_match_high(buf@, pos as int, x as nat);
                        let y: u64 = x / 128;
                        assert((x as nat) / 128 == y as nat);
                        assert(vu64_at(buf@, pos as int + 1, y as nat));
                        assert(false);
                    }
                }
            }
            None
        },
        Some((v, n)) => {
            if v == 0 {
                proof {
                    assert forall|x: u64| !vu64_at(buf@, pos as int, x as nat) by {
                        if vu64_at(buf@, pos as int, x as nat) {
                            lemma_match_high(buf@, pos as int, x as nat);
                            let y: u64 = x / 128;
                            assert((x as nat) / 128 == y as nat);
                            assert(vu64_at(buf@, pos as int + 1, y as nat));
                            lemma_vu64_unique_at(buf@, pos as int + 1, y as nat, v as nat);
                            assert(x >= 128);
                            assert(x as nat / 128 >= 1);
                            assert(false);
                        }
                    }
                }
                None
            } else if v > (u64::MAX - ((b - 128) as u64)) / 128 {
                proof {
                    assert forall|x: u64| !vu64_at(buf@, pos as int, x as nat) by {
                        if vu64_at(buf@, pos as int, x as nat) {
                            lemma_match_high(buf@, pos as int, x as nat);
                            let y: u64 = x / 128;
                            assert((x as nat) / 128 == y as nat);
                            assert(vu64_at(buf@, pos as int + 1, y as nat));
                            lemma_vu64_unique_at(buf@, pos as int + 1, y as nat, v as nat);
                            let low: u64 = (b - 128) as u64;
                            assert(x as nat == 128 * ((x as nat) / 128) + (x as nat) % 128)
                                by (nonlinear_arith);
                            assert(x as nat == 128 * (v as nat) + low as nat);
                            assert(v as nat <= ((u64::MAX - low) as nat) / 128)
                                by (nonlinear_arith)
                                requires
                                    128 * (v as nat) + (low as nat) <= u64::MAX as nat,
                                    (low as nat) < 128,
                            ;
                            assert(false);
                        }
                    }
                }
                None
            } else {
                let low: u64 = (b - 128) as u64;
                proof {
                    assert(low as nat + (v as nat) * 128 <= u64::MAX as nat) by (nonlinear_arith)
                        requires
                            v as nat <= ((u64::MAX - low) as nat) / 128,
                            (low as nat) < 128,
                    ;
                }
                let value: u64 = low + v * 128;
                proof {
                    assert((value as nat) % 128 == low as nat && (value as nat) / 128 == v as nat)
                        by (nonlinear_arith)
                        requires
                            value as nat == low as nat + (v as nat) * 128,
                            low < 128,
                    ;
                    assert(value as nat >= 128) by (nonlinear_arith)
                        requires
                            value as nat == low as nat + (v as nat) * 128,
                            v >= 1,
                    ;
                    let ex = vu64_of(value as nat);
                    assert(ex == seq![b] + vu64_of(v as nat));
                    assert(buf@.subrange(pos as int, pos + 1 + n) =~= seq![b] + buf@.subrange(
                        pos as int + 1,
                        pos + 1 + n,
                    ));
                    lemma_vu64_len(value as nat);
                }
                Some((value, n + 1))
            }
        },
    }
}

/// Two values whose encodings lie at the same position are the same value.
pub proof fn lemma_vu64_unique_at(s: Seq<u8>, pos: int, x: nat, y: nat)
    requires
        0 <= pos,
        vu64_at(s, pos, x),
        vu64_at(s, pos, y),
    ensures
        x == y,
    decreases x,
{
    let ex = vu64_of(x);
    let ey = vu64_of(y);
    assert(s.subrange(pos, pos + ex.len() as int)[0] == ex[0]);
    assert(s.subrange(pos, pos + ey.len() as int)[0] == ey[0]);
    if x < 128 && y < 128 {
        assert(ex[0] == x as u8 && ey[0] == y as u8);
    } else if x >= 128 && y >= 128 {
        assert(s[pos] == ((x % 128 + 128) as u8));
        lemma_match_high(s, pos, x);
        lemma_match_high(s, pos, y);
        lemma_vu64_unique_at(s, pos + 1, x / 128, y / 128);
        assert(x == 128 * (x / 128) + x % 128) by (nonlinear_arith);
        assert(y == 128 * (y / 128) + y % 128) by (nonlinear_arith);
    } else if x < 128 {
        assert(ex[0] == x as u8 && ex[0] < 128);
        assert(ey[0] == (y % 128 + 128) as u8 && ey[0] >= 128);
        assert(false);
    } else {
        assert(ey[0] == y as u8 && ey[0] < 128);
        assert(ex[0] == (x % 128 + 128) as u8 && ex[0] >= 128);
        assert(false);
    }
}

} // verus!
