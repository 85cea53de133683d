use vstd::prelude::*;
use vstd::arithmetic::div_mod::lemma_fundamental_div_mod;

verus! {

pub open spec fn is_digit(c: char) -> bool {
    48 <= c as u32 && c as u32 <= 57
}

pub open spec fn digit_of_char(c: char) -> nat {
    (c as u32 - 48) as nat
}

pub open spec fn char_of_digit(d: nat) -> char {
    if d == 0 {
        '0'
    } else if d == 1 {
        '1'
    } else if d == 2 {
        '2'
    } else if d == 3 {
        '3'
    } else if d == 4 {
        '4'
    } else if d == 5 {
        '5'
    } else if d == 6 {
        '6'
    } else if d == 7 {
        '7'
    } else if d == 8 {
        '8'
    } else {
        '9'
    }
}

pub open spec fn all_digits(s: Seq<char>) -> bool {
    forall|i: int| 0 <= i < s.len() ==> is_digit(#[trigger] s[i])
}

/// The decimal numeral of `n`, most significant digit first, no leading zeros.
pub open spec fn spec_digits(n: nat) -> Seq<char>
    decreases n,
{
    if n < 10 {
        seq![char_of_digit(n)]
    } else {
        spec_digits(n / 10).push(char_of_digit(n % 10))
    }
}

/// The value of a digit sequence read as a decimal numeral.
pub open spec fn seq_val(s: Seq<char>) -> nat
    decreases s.len(),
{
    if s.len() == 0 {
        0
    } else {
        seq_val(s.drop_last()) * 10 + digit_of_char(s.last())
    }
}

pub proof fn lemma_spec_digits(n: nat)
    ensures
        spec_digits(n).len() >= 1,
        all_digits(spec_digits(n)),
        seq_val(spec_digits(n)) == n,
    decreases n,
{
    if n < 10 {
        let s = spec_digits(n);
        assert(s.len() == 1);
        assert(s.last() == char_of_digit(n));
        assert(s.drop_last() =~= Seq::<char>::empty());
        assert(seq_val(s.drop_last()) == 0);
        assert(seq_val(s) == 0 * 10 + digit_of_char(char_of_digit(n)));
        assert(digit_of_char(char_of_digit(n)) == n);
    } else {
        lemma_spec_digits(n / 10);
        let s = spec_digits(n);
        assert(s.drop_last() =~= spec_digits(n / 10));
        assert(s.last() == char_of_digit(n % 10));
        lemma_fundamental_div_mod(n as int, 10);
        assert(seq_val(s) == (n / 10) * 10 + n % 10);
        assert(all_digits(s)) by {
            assert(forall|i: int|
                0 <= i < s.len() - 1 ==> s[i] == #[trigger] spec_digits(n / 10)[i]);
        }
    }
}

/// A digit sequence is worth at least any of its prefixes.
pub proof fn lemma_seq_val_prefix(s: Seq<char>, j: int)
    requires
        0 <= j <= s.len(),
    ensures
        seq_val(s.take(j)) <= seq_val(s),
    decreases s.len(),
{
    if j == s.len() {
        assert(s.take(j) =~= s);
    } else {
        assert(s.drop_last().take(j) =~= s.take(j));
        lemma_seq_val_prefix(s.drop_last(), j);
        assert(seq_val(s) == seq_val(s.drop_last()) * 10 + digit_of_char(s.last()));
        assert(seq_val(s.drop_last()) * 10 >= seq_val(s.drop_last())) by (nonlinear_arith);
    }
}

pub fn digit_char(d: u64) -> (c: char)
    requires
        d < 10,
    ensures
        c == char_of_digit(d as nat),
{
    if d == 0 {
        '0'
    } else if d == 1 {
        '1'
    } else if d == 2 {
        '2'
    } else if d == 3 {
        '3'
    } else if d == 4 {
        '4'
    } else if d == 5 {
        '5'
    } else if d == 6 {
        '6'
    } else if d == 7 {
        '7'
    } else if d == 8 {
        '8'
    } else {
        '9'
    }
}

fn push_digits(n: u64, out: &mut Vec<char>)
    ensures
        final(out)@ == old(out)@ + spec_digits(n as nat),
    decreases n,
{
    if n < 10 {
        out.push(digit_char(n));
        proof {
            assert(out@ =~= old(out)@ + spec_digits(n as nat));
        }
    } else {
        push_digits(n / 10, out);
        out.push(digit_char(n % 10));
        proof {
            assert(out@ =~= old(out)@ + spec_digits(n as nat));
        }
    }
}

/// The decimal numeral of `n` as characters.
pub fn format_u64(n: u64) -> (r: Vec<char>)
    ensures
        r@ == spec_digits(n as nat),
{
    let mut out: Vec<char> = Vec::new();
    push_digits(n, &mut out);
    proof {
        assert(out@ =~= spec_digits(n as nat));
    }
    out
}

/// The decimal numeral of `n`, a `-` sign first when `n` is negative.
pub open spec fn spec_digits_i64(n: int) -> Seq<char> {
    if n < 0 {
        seq!['-'] + spec_digits((-n) as nat)
    } else {
        spec_digits(n as nat)
    }
}

pub fn format_i64(n: i64) -> (r: Vec<char>)
    ensures
        r@ == spec_digits_i64(n as int),
{
    let mut out: Vec<char> = Vec::new();
    if n < 0 {
        out.push('-');
        let mag: u64 = ((-(n + 1)) as u64) + 1;
        push_digits(mag, &mut out);
        proof {
            assert(out@ =~= spec_digits_i64(n as int));
        }
    } else {
        push_digits(n as u64, &mut out);
        proof {
            assert(out@ =~= spec_digits_i64(n as int));
        }
    }
    out
}

/// A whole field read as a decimal `u64`: defined exactly when the field is
/// nonempty, all digits, and its value fits.
pub open spec fn spec_parse_u64(s: Seq<char>) -> Option<u64> {
    if s.len() >= 1 && all_digits(s) && seq_val(s) < 0x1_0000_0000_0000_0000 {
        Some(seq_val(s) as u64)
    } else {
        None
    }
}

pub fn parse_u64_field(v: &Vec<char>) -> (r: Option<u64>)
    ensures
        r == spec_parse_u64(v@),
{
    if v.len() == 0 {
        return None;
    }
    let mut acc: u64 = 0;
    let mut i: usize = 0;
    proof {
        assert(v@.take(0) =~= Seq::<char>::empty());
    }
    while i < v.len()
        invariant
            i <= v@.len(),
            all_digits(v@.take(i as int)),
            acc as nat == seq_val(v@.take(i as int)),
        decreases v@.len() - i,
    {
        let c = v[i];
        let cu = c as u32;
        if cu < 48 || cu > 57 {
            return None;
        }
        let d: u64 = (cu - 48) as u64;
        let ghost pre = v@.take(i as int);
        let ghost cur = v@.take(i as int + 1);
        proof {
            assert(cur.drop_last() =~= pre);
            assert(cur.last() == c);
            assert(seq_val(cur) == seq_val(pre) * 10 + digit_of_char(c));
        }
        let m = acc.checked_mul(10);
        let step = match m {
            Some(x) => x.checked_add(d),
            None => None,
        };
        match step {
            Some(x) => {
                acc = x;
            },
            None => {
                proof {
                    lemma_seq_val_prefix(v@, i as int + 1);
                }
                return None;
            },
        }
        i = i + 1;
    }
    proof {
        assert(v@.take(i as int) =~= v@);
    }
    Some(acc)
}

} // verus!
