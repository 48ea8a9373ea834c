use crate::error::VBError;
use crate::strutil::dec_of;
use crate::strutil::u64_to_dec;
use vstd::prelude::*;
use vstd::string::StringExecFns;
use vstd::string::StringSliceAdditionalSpecFns;

verus! {

/// A vector column's type modifier: either unconstrained or a fixed
/// dimension count.
#[derive(Clone, Copy, Debug, PartialEq, Eq, Structural)]
pub enum VectorTypmod {
    Any,
    Dims(u16),
}

/// The numeric value of a digit string, most significant digit first.
pub open spec fn dec_val(digits: Seq<u8>) -> int
    decreases digits.len(),
{
    if digits.len() == 0 {
        0
    } else {
        dec_val(digits.drop_last()) * 10 + (digits.last() - 48)
    }
}

/// The digit part of a decimal string: everything after one optional
/// leading plus sign.
pub open spec fn dec_digits(b: Seq<u8>) -> Seq<u8> {
    if b.len() > 0 && b[0] == 43 {
        b.drop_first()
    } else {
        b
    }
}

/// Whether the bytes spell an unsigned 16-bit decimal number: an optional
/// plus sign, then at least one digit, with value at most 65535.
pub open spec fn is_u16_str(b: Seq<u8>) -> bool {
    &&& dec_digits(b).len() >= 1
    &&& forall|i: int| 0 <= i < dec_digits(b).len() ==> 48 <= #[trigger] dec_digits(b)[i] <= 57
    &&& dec_val(dec_digits(b)) <= 65535
}

proof fn lemma_dec_val_nonneg(digits: Seq<u8>)
    requires
        forall|i: int| 0 <= i < digits.len() ==> 48 <= #[trigger] digits[i] <= 57,
    ensures
        dec_val(digits) >= 0,
    decreases digits.len(),
{
    if digits.len() > 0 {
        assert forall|i: int| 0 <= i < digits.drop_last().len() implies 48 <= #[trigger] digits.drop_last()[i]
            <= 57 by {
            assert(digits.drop_last()[i] == digits[i]);
        }
        lemma_dec_val_nonneg(digits.drop_last());
        assert(dec_val(digits.drop_last()) * 10 >= 0) by (nonlinear_arith)
            requires
                dec_val(digits.drop_last()) >= 0,
        ;
    }
}

/// A digit string's value never shrinks as digits are appended.
proof fn lemma_dec_val_monotone(digits: Seq<u8>, i: int)
    requires
        0 <= i <= digits.len(),
        forall|t: int| 0 <= t < digits.len() ==> 48 <= #[trigger] digits[t] <= 57,
    ensures
        dec_val(digits.take(i)) <= dec_val(digits),
    decreases digits.len() - i,
{
    if i < digits.len() {
        lemma_dec_val_monotone(digits, i + 1);
        assert(digits.take(i + 1).drop_last() =~= digits.take(i));
        assert(digits.take(i + 1).last() == digits[i]);
        assert forall|t: int| 0 <= t < digits.take(i).len() implies 48 <= #[trigger] digits.take(
            i,
        )[t] <= 57 by {
            assert(digits.take(i)[t] == digits[t]);
        }
        lemma_dec_val_nonneg(digits.take(i));
        assert(dec_val(digits.take(i)) <= dec_val(digits.take(i)) * 10 + (digits[i] - 48))
            by (nonlinear_arith)
            requires
                dec_val(digits.take(i)) >= 0,
                48 <= digits[i] <= 57,
        ;
    } else {
        assert(digits.take(i) =~= digits);
    }
}

impl VectorTypmod {
    /// Parses a type-modifier string: an optional plus sign and decimal
    /// digits naming a dimension count up to 65535.
    #[verifier::loop_isolation(false)]
    pub fn parse_from_str(s: &str) -> (r: Option<VectorTypmod>)
        ensures
            r == if is_u16_str(s.spec_bytes()) {
                Some(VectorTypmod::Dims(dec_val(dec_digits(s.spec_bytes())) as u16))
            } else {
                None::<VectorTypmod>
            },
    {
        let b = s.as_bytes();
        let ghost digits = dec_digits(s.spec_bytes());
        let start: usize = if b.len() > 0 && b[0] == 43 {
            1
        } else {
            0
        };
        proof {
            assert(digits =~= b@.skip(start as int));
        }
        if b.len() == start {
            return None;
        }
        let mut acc: u32 = 0;
        let mut i: usize = start;
        while i < b.len()
            invariant
                start <= i <= b@.len(),
                acc == dec_val(digits.take(i - start)),
                acc <= 65535,
                forall|t: int| 0 <= t < i - start ==> 48 <= #[trigger] digits[t] <= 57,
            decreases b@.len() - i,
        {
            let c = b[i];
            if c < 48 || c > 57 {
                proof {
                    assert(digits[i - start] == c);
                    assert(!is_u16_str(s.spec_bytes()));
                }
                return None;
            }
            proof {
                assert(digits.take(i - start + 1).drop_last() =~= digits.take(i - start));
                assert(digits.take(i - start + 1).last() == digits[i - start]);
            }
            let next: u32 = acc * 10 + ((c - 48) as u32);
            if next > 65535 {
                proof {
                    if is_u16_str(s.spec_bytes()) {
                        lemma_dec_val_monotone(digits, i - start + 1);
                        assert(false);
                    }
                }
                return None;
            }
            acc = next;
            i += 1;
        }
        proof {
            assert(digits.take(b@.len() - start) =~= digits);
            assert(is_u16_str(s.spec_bytes()));
        }
        Some(VectorTypmod::Dims(acc as u16))
    }

    /// Interprets a numeric type modifier: `-1` is unconstrained, a value in
    /// the 16-bit range is a dimension count, anything else is rejected.
    pub fn parse_from_i32(x: i32) -> (r: Option<VectorTypmod>)
        ensures
            x == -1 ==> r == Some(VectorTypmod::Any),
            0 <= x <= 65535 ==> r == Some(VectorTypmod::Dims(x as u16)),
            !(x == -1 || 0 <= x <= 65535) ==> r is None,
    {
        if x == -1 {
            Some(VectorTypmod::Any)
        } else if 0 <= x && x <= 65535 {
            Some(VectorTypmod::Dims(x as u16))
        } else {
            None
        }
    }

    /// The modifier rendered as a decimal string, or nothing when
    /// unconstrained.
    pub fn into_option_string(self) -> (r: Option<String>)
        ensures
            match self {
                VectorTypmod::Any => r is None,
                VectorTypmod::Dims(x) => r matches Some(s) && s@ == dec_of(x as nat),
            },
    {
        match self {
            VectorTypmod::Any => None,
            VectorTypmod::Dims(x) => Some(u64_to_dec(x as u64)),
        }
    }

    pub fn into_i32(self) -> (r: i32)
        ensures
            r == match self {
                VectorTypmod::Any => -1int,
                VectorTypmod::Dims(x) => x as int,
            },
    {
        match self {
            VectorTypmod::Any => -1,
            VectorTypmod::Dims(x) => x as i32,
        }
    }

    pub fn dims(self) -> (r: Option<u16>)
        ensures
            r == match self {
                VectorTypmod::Any => None::<u16>,
                VectorTypmod::Dims(d) => Some(d),
            },
    {
        match self {
            VectorTypmod::Any => None,
            VectorTypmod::Dims(d) => Some(d),
        }
    }
}

/// Runs the literal scanner from position `i`: number tokens accumulate
/// between `[` and `]`, separated by commas, with blanks skipped anywhere; a
/// token byte is a digit, point, exponent mark, or sign. Yields the tokens
/// exactly when the input is one well-bracketed literal.
pub open spec fn lit_scan(
    b: Seq<u8>,
    i: int,
    st: int,
    toks: Seq<Seq<u8>>,
    cur: Option<Seq<u8>>,
) -> Option<Seq<Seq<u8>>>
    decreases b.len() - i,
{
    if i < 0 || i > b.len() {
        None
    } else if i == b.len() {
        if st == 2 {
            Some(toks)
        } else {
            None
        }
    } else {
        let c = b[i];
        if c == 32 {
            lit_scan(b, i + 1, st, toks, cur)
        } else if st == 0 {
            if c == 91 {
                lit_scan(b, i + 1, 1, toks, cur)
            } else {
                None
            }
        } else if st == 1 {
            if (48 <= c <= 57) || c == 46 || c == 101 || c == 43 || c == 45 {
                let t = match cur {
                    Some(t) => t,
                    None => Seq::empty(),
                };
                lit_scan(b, i + 1, 1, toks, Some(t.push(c)))
            } else if c == 44 {
                match cur {
                    Some(t) => lit_scan(b, i + 1, 1, toks.push(t), None),
                    None => None,
                }
            } else if c == 93 {
                match cur {
                    Some(t) => lit_scan(b, i + 1, 2, toks.push(t), None),
                    None => lit_scan(b, i + 1, 2, toks, None),
                }
            } else {
                None
            }
        } else {
            None
        }
    }
}

/// What a vector literal's bytes tokenize to, where they form one.
pub open spec fn lit_tokens(b: Seq<u8>) -> Option<Seq<Seq<u8>>> {
    lit_scan(b, 0, 0, Seq::empty(), None)
}

/// Tokenizes a bracketed vector literal such as the text form of a vector
/// column: the number tokens between `[` and `]`, in order. The tokens'
/// numeric conversion belongs to the surrounding program; dimension-count
/// validation against a modifier is `check_dims`.
#[verifier::loop_isolation(false)]
pub fn parse_vector_literal(input: &[u8]) -> (r: Result<Vec<Vec<u8>>, VBError>)
    ensures
        match r {
            Ok(toks) => lit_tokens(input@) == Some(
                Seq::new(toks@.len(), |t: int| toks@[t]@),
            ),
            Err(e) => lit_tokens(input@) is None && e is Unexpected,
        },
{
    let mut toks: Vec<Vec<u8>> = Vec::new();
    let mut cur: Option<Vec<u8>> = None;
    let mut st: u8 = 0;
    let mut i: usize = 0;
    proof {
        assert(Seq::new(toks@.len(), |t: int| toks@[t]@) =~= Seq::<Seq<u8>>::empty());
    }
    while i < input.len()
        invariant
            i <= input@.len(),
            st == 0 || st == 1 || st == 2,
            lit_tokens(input@) == lit_scan(
                input@,
                i as int,
                st as int,
                Seq::new(toks@.len(), |t: int| toks@[t]@),
                match cur {
                    Some(t) => Some(t@),
                    None => None::<Seq<u8>>,
                },
            ),
        decreases input@.len() - i,
    {
        let c = input[i];
        let ghost toks_v = Seq::new(toks@.len(), |t: int| toks@[t]@);
        if c == 32 {
        } else if st == 0 {
            if c == 91 {
                st = 1;
            } else {
                return Err(VBError::Unexpected(String::from_str("bad vector literal")));
            }
        } else if st == 1 {
            if (48 <= c && c <= 57) || c == 46 || c == 101 || c == 43 || c == 45 {
                let mut t = match cur {
                    Some(t) => t,
                    None => Vec::new(),
                };
                t.push(c);
                cur = Some(t);
            } else if c == 44 {
                match cur {
                    Some(t) => {
                        let ghost tv = t@;
                        toks.push(t);
                        cur = None;
                        proof {
                            assert(Seq::new(toks@.len(), |t: int| toks@[t]@) =~= toks_v.push(tv));
                        }
                    },
                    None => {
                        return Err(VBError::Unexpected(String::from_str("bad vector literal")));
                    },
                }
            } else if c == 93 {
                match cur {
                    Some(t) => {
                        let ghost tv = t@;
                        toks.push(t);
                        cur = None;
                        st = 2;
                        proof {
                            assert(Seq::new(toks@.len(), |t: int| toks@[t]@) =~= toks_v.push(tv));
                        }
                    },
                    None => {
                        st = 2;
                    },
                }
            } else {
                return Err(VBError::Unexpected(String::from_str("bad vector literal")));
            }
        } else {
            return Err(VBError::Unexpected(String::from_str("bad vector literal")));
        }
        i += 1;
    }
    if st != 2 {
        return Err(VBError::Unexpected(String::from_str("bad vector literal")));
    }
    Ok(toks)
}

/// Whether a token count satisfies a type modifier.
pub fn check_dims(typmod: VectorTypmod, count: usize) -> (ok: bool)
    ensures
        ok == match typmod {
            VectorTypmod::Any => true,
            VectorTypmod::Dims(d) => count == d as int,
        },
{
    match typmod {
        VectorTypmod::Any => true,
        VectorTypmod::Dims(d) => count == d as usize,
    }
}

} // verus!
