//! Rendering of numbers as text, for diagnostics and for the public key.

use vstd::prelude::*;
use vstd::string::*;

verus! {

/// The character that stands for a digit below sixteen.
pub open spec fn digit_char(d: nat) -> char {
    if d == 0 {
        '0'
    } else if d == 1 {
        '1'
    } else if d == 2 {
        '2'
    } else if d == 3 {
        '3'
    } else if d == 4 {
        '4'
    } else if d == 5 {
        '5'
    } else if d == 6 {
        '6'
    } else if d == 7 {
        '7'
    } else if d == 8 {
        '8'
    } else if d == 9 {
        '9'
    } else if d == 10 {
        'a'
    } else if d == 11 {
        'b'
    } else if d == 12 {
        'c'
    } else if d == 13 {
        'd'
    } else if d == 14 {
        'e'
    } else {
        'f'
    }
}

/// The digits of `n` in the given base, most significant first, without
/// leading zeros; zero is the single digit `0`.
pub open spec fn digits(n: nat, base: nat) -> Seq<char>
    decreases n,
    via digits_terminates
{
    if base < 2 || n < base {
        seq![digit_char(n)]
    } else {
        digits(n / base, base).push(digit_char(n % base))
    }
}

#[via_fn]
proof fn digits_terminates(n: nat, base: nat) {
    if !(base < 2 || n < base) {
        lemma_quotient_smaller(n, base);
    }
}

proof fn lemma_quotient_smaller(n: nat, base: nat)
    by (nonlinear_arith)
    requires
        2 <= base <= n,
    ensures
        n / base < n,
{
}

/// The decimal digits of `n`.
pub open spec fn decimal(n: nat) -> Seq<char> {
    digits(n, 10)
}

/// The lower-case hexadecimal digits of `n`.
pub open spec fn hexadecimal(n: nat) -> Seq<char> {
    digits(n, 16)
}

/// A number has at least one digit.
pub proof fn lemma_digits_nonempty(n: nat, base: nat)
    ensures
        digits(n, base).len() > 0,
    decreases n,
{
    if base < 2 || n < base {
    } else {
        lemma_quotient_smaller(n, base);
        lemma_digits_nonempty(n / base, base);
    }
}

fn digit_text(d: u64) -> (s: &'static str)
    requires
        d < 16,
    ensures
        s@ == seq![digit_char(d as nat)],
{
    proof {
        reveal_strlit("0");
        reveal_strlit("1");
        reveal_strlit("2");
        reveal_strlit("3");
        reveal_strlit("4");
        reveal_strlit("5");
        reveal_strlit("6");
        reveal_strlit("7");
        reveal_strlit("8");
        reveal_strlit("9");
        reveal_strlit("a");
        reveal_strlit("b");
        reveal_strlit("c");
        reveal_strlit("d");
        reveal_strlit("e");
        reveal_strlit("f");
    }
    let s = if d == 0 {
        "0"
    } else if d == 1 {
        "1"
    } else if d == 2 {
        "2"
    } else if d == 3 {
        "3"
    } else if d == 4 {
        "4"
    } else if d == 5 {
        "5"
    } else if d == 6 {
        "6"
    } else if d == 7 {
        "7"
    } else if d == 8 {
        "8"
    } else if d == 9 {
        "9"
    } else if d == 10 {
        "a"
    } else if d == 11 {
        "b"
    } else if d == 12 {
        "c"
    } else if d == 13 {
        "d"
    } else if d == 14 {
        "e"
    } else {
        "f"
    };
    assert(s@ =~= seq![digit_char(d as nat)]);
    s
}

/// The low digits collected so far, turned most significant first.
spec fn collected(low: Seq<u64>) -> Seq<char> {
    Seq::new(low.len(), |i: int| digit_char(low[low.len() - 1 - i] as nat))
}

/// Appends the digits of `n` in the given base to `out`.
pub(crate) fn append_digits(out: &mut String, n: u64, base: u64)
    requires
        2 <= base <= 16,
    ensures
        final(out)@ == old(out)@ + digits(n as nat, base as nat),
{
    let mut low: Vec<u64> = Vec::new();
    let mut m: u64 = n;
    assert(collected(low@) =~= Seq::<char>::empty());
    while m >= base
        invariant
            2 <= base <= 16,
            forall|i: int| 0 <= i < low@.len() ==> low@[i] < base,
            digits(n as nat, base as nat) == digits(m as nat, base as nat) + collected(low@),
        decreases m,
    {
        let ghost before = low@;
        let d: u64 = m % base;
        low.push(d);
        proof {
            let b = base as nat;
            let rest = digits((m / base) as nat, b);
            assert(digits(m as nat, b) == rest.push(digit_char(d as nat)));
            assert(collected(low@) =~= seq![digit_char(d as nat)] + collected(before));
            assert(rest.push(digit_char(d as nat)) + collected(before) =~= rest + collected(low@));
        }
        m = m / base;
    }
    out.append(digit_text(m));
    let mut k: usize = low.len();
    assert(collected(low@).subrange(0, 0) =~= Seq::<char>::empty());
    while k > 0
        invariant
            k <= low@.len(),
            forall|i: int| 0 <= i < low@.len() ==> low@[i] < 16,
            out@ == old(out)@ + seq![digit_char(m as nat)] + collected(low@).subrange(
                0,
                low@.len() - k,
            ),
        decreases k,
    {
        k = k - 1;
        out.append(digit_text(low[k]));
        proof {
            let c = collected(low@);
            let done = low@.len() - k - 1;
            assert(c.subrange(0, done + 1) =~= c.subrange(0, done) + seq![c[done]]);
        }
    }
    proof {
        let c = collected(low@);
        assert(c.subrange(0, low@.len() as int) =~= c);
        assert(digits(m as nat, base as nat) == seq![digit_char(m as nat)]);
        assert(old(out)@ + seq![digit_char(m as nat)] + c =~= old(out)@ + (seq![
            digit_char(m as nat),
        ] + c));
    }
}

/// Renders `n` in decimal.
pub fn to_decimal(n: u64) -> (s: String)
    ensures
        s@ == decimal(n as nat),
{
    let mut s = String::new();
    append_digits(&mut s, n, 10);
    assert(Seq::<char>::empty() + decimal(n as nat) =~= decimal(n as nat));
    s
}

/// Renders `n` in lower-case hexadecimal.
pub fn to_hexadecimal(n: u64) -> (s: String)
    ensures
        s@ == hexadecimal(n as nat),
{
    let mut s = String::new();
    append_digits(&mut s, n, 16);
    assert(Seq::<char>::empty() + hexadecimal(n as nat) =~= hexadecimal(n as nat));
    s
}

} // verus!
