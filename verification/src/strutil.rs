use vstd::prelude::*;
use vstd::string::StringExecFns;

verus! {

/// Appends one character.
///
/// Relies on String::push: pushes exactly the given character onto the end
/// of the string.
#[verifier::external_body]
pub(crate) fn string_push_char(s: &mut String, c: char)
    ensures
        final(s)@ == old(s)@ + seq![c],
{
    s.push(c);
}

pub open spec fn digit_char(d: nat) -> char {
    if d == 0 {
        '0'
    } else if d == 1 {
        '1'
    } else if d == 2 {
        '2'
    } else if d == 3 {
        '3'
    } else if d == 4 {
        '4'
    } else if d == 5 {
        '5'
    } else if d == 6 {
        '6'
    } else if d == 7 {
        '7'
    } else if d == 8 {
        '8'
    } else {
        '9'
    }
}

fn digit_char_x(d: u64) -> (c: char)
    requires
        d < 10,
    ensures
        c == digit_char(d as nat),
{
    if d == 0 {
        '0'
    } else if d == 1 {
        '1'
    } else if d == 2 {
        '2'
    } else if d == 3 {
        '3'
    } else if d == 4 {
        '4'
    } else if d == 5 {
        '5'
    } else if d == 6 {
        '6'
    } else if d == 7 {
        '7'
    } else if d == 8 {
        '8'
    } else {
        '9'
    }
}

/// The decimal rendering of a number, most significant digit first.
pub open spec fn dec_of(n: nat) -> Seq<char>
    decreases n,
{
    if n < 10 {
        seq![digit_char(n)]
    } else {
        dec_of(n / 10) + seq![digit_char(n % 10)]
    }
}

/// Renders a number in decimal.
pub fn u64_to_dec(n: u64) -> (s: String)
    ensures
        s@ == dec_of(n as nat),
    decreases n,
{
    if n < 10 {
        let mut s = String::new();
        string_push_char(&mut s, digit_char_x(n));
        proof {
            assert(s@ =~= dec_of(n as nat));
        }
        s
    } else {
        let mut s = u64_to_dec(n / 10);
        string_push_char(&mut s, digit_char_x(n % 10));
        proof {
            assert(s@ =~= dec_of(n as nat));
        }
        s
    }
}

pub open spec fn pow10(k: nat) -> int
    decreases k,
{
    if k == 0 {
        1
    } else {
        10 * pow10((k - 1) as nat)
    }
}

pub proof fn lemma_pow10_pos(k: nat)
    ensures
        pow10(k) >= 1,
    decreases k,
{
    if k > 0 {
        lemma_pow10_pos((k - 1) as nat);
    }
}

/// A number zero-padded to nine decimal digits, most significant first.
pub open spec fn pad9(n: nat) -> Seq<char> {
    Seq::new(9, |i: int| digit_char(((n as int / pow10((8 - i) as nat)) % 10) as nat))
}

/// A number in decimal, zero-padded on the left to at least nine digits:
/// below a billion exactly nine digits, above it every digit. Distinct
/// numbers render distinctly either way, so names built from a counter
/// never repeat.
pub open spec fn pad_min9(n: nat) -> Seq<char> {
    if n < 1000000000 {
        pad9(n)
    } else {
        dec_of(n)
    }
}

/// Renders an id zero-padded to at least nine decimal digits.
pub fn u32_pad_min9(id: u32, out: &mut String)
    ensures
        final(out)@ == old(out)@ + pad_min9(id as nat),
{
    if id >= 1000000000 {
        let s = u64_to_dec(id as u64);
        out.append(s.as_str());
    } else {
        u32_pad9(id, out);
    }
}

/// Renders an id as exactly nine zero-padded decimal digits.
#[verifier::loop_isolation(false)]
pub fn u32_pad9(id: u32, out: &mut String)
    ensures
        final(out)@ == old(out)@ + pad9(id as nat),
{
    let mut divisor: u64 = 100000000;
    let mut i: usize = 0;
    proof {
        assert(pow10(8) == 100000000) by {
            assert(pow10(0) == 1);
            assert(pow10(1) == 10);
            assert(pow10(2) == 100);
            assert(pow10(3) == 1000);
            assert(pow10(4) == 10000);
            assert(pow10(5) == 100000);
            assert(pow10(6) == 1000000);
            assert(pow10(7) == 10000000);
            assert(pow10(8) == 100000000);
        }
    }
    while i < 9
        invariant
            i <= 9,
            i < 9 ==> divisor == pow10((8 - i) as nat),
            out@ == old(out)@ + pad9(id as nat).take(i as int),
        decreases 9 - i,
    {
        proof {
            lemma_pow10_pos((8 - i) as nat);
        }
        let d = ((id as u64) / divisor) % 10;
        let ghost pre = out@;
        string_push_char(out, digit_char_x(d));
        proof {
            assert(pad9(id as nat)[i as int] == digit_char(d as nat));
            assert(out@ =~= old(out)@ + pad9(id as nat).take(i + 1));
            if i < 8 {
                lemma_pow10_pos((7 - i) as nat);
                assert(pow10((8 - i) as nat) == 10 * pow10((7 - i) as nat));
                assert(divisor / 10 == pow10((7 - i) as nat)) by (nonlinear_arith)
                    requires
                        divisor == 10 * pow10((7 - i) as nat),
                        pow10((7 - i) as nat) >= 1,
                ;
            }
        }
        divisor = divisor / 10;
        i += 1;
    }
    proof {
        assert(pad9(id as nat).take(9) =~= pad9(id as nat));
    }
}

} // verus!
