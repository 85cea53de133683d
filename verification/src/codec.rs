use crate::num::{
    all_digits, is_digit, lemma_seq_val_prefix, lemma_spec_digits, parse_u64_field, seq_val,
    spec_digits, spec_digits_i64, format_u64, format_i64,
};
use crate::text::chars_to_string;
use vstd::prelude::*;

verus! {

// Snapshot files hold one record after another, each field written as a
// decimal numeral, a `:`, and, for strings, the raw characters after their
// length. Every encoder here has a decoder that inverts it, and the inversion
// lemmas below are what the snapshot round-trip laws rest on.
// ---------- field encoders ----------
pub open spec fn enc_len(n: nat) -> Seq<char> {
    spec_digits(n).push(':')
}

pub open spec fn enc_u64(n: u64) -> Seq<char> {
    enc_len(n as nat)
}

pub open spec fn enc_i64(n: i64) -> Seq<char> {
    spec_digits_i64(n as int).push(':')
}

pub open spec fn enc_str(s: Seq<char>) -> Seq<char> {
    enc_len(s.len()) + s
}

pub open spec fn enc_bool(b: bool) -> Seq<char> {
    if b {
        seq!['t', ':']
    } else {
        seq!['f', ':']
    }
}

pub open spec fn enc_opt_i64(o: Option<i64>) -> Seq<char> {
    match o {
        Option::None => seq!['n', ':'],
        Option::Some(v) => seq!['y', ':'] + enc_i64(v),
    }
}

pub open spec fn enc_opt_bool(o: Option<bool>) -> Seq<char> {
    match o {
        Option::None => seq!['n', ':'],
        Option::Some(b) => seq!['y', ':'] + enc_bool(b),
    }
}

/// The concatenated encodings of the elements of `xs`.
pub open spec fn enc_each<T>(xs: Seq<T>, f: spec_fn(T) -> Seq<char>) -> Seq<char>
    decreases xs.len(),
{
    if xs.len() == 0 {
        Seq::empty()
    } else {
        f(xs[0]) + enc_each(xs.skip(1), f)
    }
}

/// A list: its length, then each element.
pub open spec fn enc_list<T>(xs: Seq<T>, f: spec_fn(T) -> Seq<char>) -> Seq<char> {
    enc_len(xs.len()) + enc_each(xs, f)
}

// ---------- field decoders ----------
/// The longest run of digits at the front of `s`.
pub open spec fn digits_prefix(s: Seq<char>) -> Seq<char>
    decreases s.len(),
{
    if s.len() > 0 && is_digit(s[0]) {
        seq![s[0]] + digits_prefix(s.skip(1))
    } else {
        Seq::empty()
    }
}

pub proof fn lemma_digits_prefix(s: Seq<char>)
    ensures
        digits_prefix(s).len() <= s.len(),
        digits_prefix(s) == s.take(digits_prefix(s).len() as int),
        all_digits(digits_prefix(s)),
        digits_prefix(s).len() == s.len() || !is_digit(s[digits_prefix(s).len() as int]),
    decreases s.len(),
{
    if s.len() > 0 && is_digit(s[0]) {
        lemma_digits_prefix(s.skip(1));
        let d = digits_prefix(s);
        let d1 = digits_prefix(s.skip(1));
        assert(d =~= seq![s[0]] + d1);
        assert(s.skip(1).take(d1.len() as int) =~= s.take(d.len() as int).skip(1));
        assert(d =~= s.take(d.len() as int));
        assert(all_digits(d)) by {
            assert(forall|i: int| 0 < i < d.len() ==> d[i] == #[trigger] d1[i - 1]);
        }
        if d.len() < s.len() {
            assert(s[d.len() as int] == s.skip(1)[d1.len() as int]);
        }
    }
}

/// Digits in front pass straight through `digits_prefix`.
pub proof fn lemma_digits_prefix_concat(d: Seq<char>, r: Seq<char>)
    requires
        all_digits(d),
        r.len() == 0 || !is_digit(r[0]),
    ensures
        digits_prefix(d + r) == d,
    decreases d.len(),
{
    if d.len() == 0 {
        assert(d + r =~= r);
        assert(digits_prefix(r) =~= Seq::<char>::empty());
        assert(d =~= Seq::<char>::empty());
    } else {
        assert(all_digits(d.skip(1))) by {
            assert(forall|i: int| 0 <= i < d.len() - 1 ==> d.skip(1)[i] == #[trigger] d[i + 1]);
        }
        lemma_digits_prefix_concat(d.skip(1), r);
        assert((d + r).skip(1) =~= d.skip(1) + r);
        assert((d + r)[0] == d[0]);
        assert(digits_prefix(d + r) =~= seq![d[0]] + d.skip(1));
        assert(seq![d[0]] + d.skip(1) =~= d);
    }
}

/// A length field: the value of the digit run before a `:`, and what follows.
pub open spec fn dec_len(s: Seq<char>) -> Option<(nat, Seq<char>)> {
    let d = digits_prefix(s);
    if d.len() >= 1 && d.len() < s.len() && s[d.len() as int] == ':' {
        Option::Some((seq_val(d), s.skip(d.len() as int + 1)))
    } else {
        Option::None
    }
}

pub open spec fn dec_u64(s: Seq<char>) -> Option<(u64, Seq<char>)> {
    match dec_len(s) {
        Option::None => Option::None,
        Option::Some((n, r)) => {
            if n < 0x1_0000_0000_0000_0000 {
                Option::Some((n as u64, r))
            } else {
                Option::None
            }
        },
    }
}

pub open spec fn dec_i64(s: Seq<char>) -> Option<(i64, Seq<char>)> {
    if s.len() > 0 && s[0] == '-' {
        match dec_len(s.skip(1)) {
            Option::None => Option::None,
            Option::Some((n, r)) => {
                if 1 <= n <= 0x8000_0000_0000_0000 {
                    Option::Some(((-(n as int)) as i64, r))
                } else {
                    Option::None
                }
            },
        }
    } else {
        match dec_len(s) {
            Option::None => Option::None,
            Option::Some((n, r)) => {
                if n < 0x8000_0000_0000_0000 {
                    Option::Some((n as i64, r))
                } else {
                    Option::None
                }
            },
        }
    }
}

pub open spec fn dec_str(s: Seq<char>) -> Option<(Seq<char>, Seq<char>)> {
    match dec_len(s) {
        Option::None => Option::None,
        Option::Some((n, r)) => {
            if n <= r.len() {
                Option::Some((r.take(n as int), r.skip(n as int)))
            } else {
                Option::None
            }
        },
    }
}

pub open spec fn dec_bool(s: Seq<char>) -> Option<(bool, Seq<char>)> {
    if s.len() >= 2 && s[1] == ':' && (s[0] == 't' || s[0] == 'f') {
        Option::Some((s[0] == 't', s.skip(2)))
    } else {
        Option::None
    }
}

pub open spec fn dec_opt_i64(s: Seq<char>) -> Option<(Option<i64>, Seq<char>)> {
    if s.len() >= 2 && s[1] == ':' && s[0] == 'n' {
        Option::Some((Option::None, s.skip(2)))
    } else if s.len() >= 2 && s[1] == ':' && s[0] == 'y' {
        match dec_i64(s.skip(2)) {
            Option::None => Option::None,
            Option::Some((v, r)) => Option::Some((Option::Some(v), r)),
        }
    } else {
        Option::None
    }
}

pub open spec fn dec_opt_bool(s: Seq<char>) -> Option<(Option<bool>, Seq<char>)> {
    if s.len() >= 2 && s[1] == ':' && s[0] == 'n' {
        Option::Some((Option::None, s.skip(2)))
    } else if s.len() >= 2 && s[1] == ':' && s[0] == 'y' {
        match dec_bool(s.skip(2)) {
            Option::None => Option::None,
            Option::Some((b, r)) => Option::Some((Option::Some(b), r)),
        }
    } else {
        Option::None
    }
}

/// `n` elements decoded one after another.
pub open spec fn dec_list<T>(
    s: Seq<char>,
    n: nat,
    f: spec_fn(Seq<char>) -> Option<(T, Seq<char>)>,
) -> Option<(Seq<T>, Seq<char>)>
    decreases n,
{
    if n == 0 {
        Option::Some((Seq::empty(), s))
    } else {
        match f(s) {
            Option::None => Option::None,
            Option::Some((x, r)) => {
                match dec_list(r, (n - 1) as nat, f) {
                    Option::None => Option::None,
                    Option::Some((xs, r2)) => Option::Some((seq![x] + xs, r2)),
                }
            },
        }
    }
}

// ---------- inversion lemmas ----------
pub proof fn lemma_dec_len(n: nat, rest: Seq<char>)
    ensures
        dec_len(enc_len(n) + rest) == Option::Some((n, rest)),
{
    lemma_spec_digits(n);
    let d = spec_digits(n);
    let s = enc_len(n) + rest;
    assert(s =~= d + (seq![':'] + rest));
    lemma_digits_prefix_concat(d, seq![':'] + rest);
    assert(s[d.len() as int] == ':');
    assert(s.skip(d.len() as int + 1) =~= rest);
}

pub proof fn lemma_dec_u64(n: u64, rest: Seq<char>)
    ensures
        dec_u64(enc_u64(n) + rest) == Option::Some((n, rest)),
{
    lemma_dec_len(n as nat, rest);
}

pub proof fn lemma_dec_i64(n: i64, rest: Seq<char>)
    ensures
        dec_i64(enc_i64(n) + rest) == Option::Some((n, rest)),
{
    let s = enc_i64(n) + rest;
    if n < 0 {
        let mag = (-(n as int)) as nat;
        assert(s[0] == '-');
        assert(s.skip(1) =~= enc_len(mag) + rest);
        lemma_dec_len(mag, rest);
    } else {
        assert(s =~= enc_len(n as nat) + rest);
        lemma_dec_len(n as nat, rest);
        lemma_spec_digits(n as nat);
        let d = digits_prefix(s);
        assert(d == digits_prefix(enc_len(n as nat) + rest));
        if n == 0 {
            assert(s[0] == '0');
            assert(!(s[0] == '-'));
        } else {
            assert(all_digits(spec_digits(n as nat)));
            assert(s[0] == spec_digits(n as nat)[0]);
            assert(is_digit(s[0]));
            assert(!(s[0] == '-'));
        }
    }
}

pub proof fn lemma_dec_str(x: Seq<char>, rest: Seq<char>)
    ensures
        dec_str(enc_str(x) + rest) == Option::Some((x, rest)),
{
    let s = enc_str(x) + rest;
    assert(s =~= enc_len(x.len()) + (x + rest));
    lemma_dec_len(x.len(), x + rest);
    assert((x + rest).take(x.len() as int) =~= x);
    assert((x + rest).skip(x.len() as int) =~= rest);
}

pub proof fn lemma_dec_bool(b: bool, rest: Seq<char>)
    ensures
        dec_bool(enc_bool(b) + rest) == Option::Some((b, rest)),
{
    let s = enc_bool(b) + rest;
    assert(s.skip(2) =~= rest);
}

pub proof fn lemma_dec_opt_i64(o: Option<i64>, rest: Seq<char>)
    ensures
        dec_opt_i64(enc_opt_i64(o) + rest) == Option::Some((o, rest)),
{
    let s = enc_opt_i64(o) + rest;
    match o {
        Option::None => {
            assert(s.skip(2) =~= rest);
        },
        Option::Some(v) => {
            assert(s.skip(2) =~= enc_i64(v) + rest);
            lemma_dec_i64(v, rest);
        },
    }
}

pub proof fn lemma_dec_opt_bool(o: Option<bool>, rest: Seq<char>)
    ensures
        dec_opt_bool(enc_opt_bool(o) + rest) == Option::Some((o, rest)),
{
    let s = enc_opt_bool(o) + rest;
    match o {
        Option::None => {
            assert(s.skip(2) =~= rest);
        },
        Option::Some(b) => {
            assert(s.skip(2) =~= enc_bool(b) + rest);
            lemma_dec_bool(b, rest);
        },
    }
}

pub proof fn lemma_dec_list<T>(
    xs: Seq<T>,
    rest: Seq<char>,
    fe: spec_fn(T) -> Seq<char>,
    fd: spec_fn(Seq<char>) -> Option<(T, Seq<char>)>,
)
    requires
        forall|x: T, r: Seq<char>| #[trigger] fd(fe(x) + r) == Option::Some((x, r)),
    ensures
        dec_list(enc_each(xs, fe) + rest, xs.len(), fd) == Option::Some((xs, rest)),
    decreases xs.len(),
{
    if xs.len() == 0 {
        assert(enc_each(xs, fe) + rest =~= rest);
    } else {
        let tail = xs.skip(1);
        lemma_dec_list(tail, rest, fe, fd);
        let s = enc_each(xs, fe) + rest;
        assert(s =~= fe(xs[0]) + (enc_each(tail, fe) + rest));
        assert(fd(s) == Option::Some((xs[0], enc_each(tail, fe) + rest)));
        assert(seq![xs[0]] + tail =~= xs);
    }
}

/// When each successful element decode consumes at least one character, a
/// count larger than the input cannot decode.
pub proof fn lemma_dec_list_too_long<T>(
    s: Seq<char>,
    n: nat,
    fd: spec_fn(Seq<char>) -> Option<(T, Seq<char>)>,
)
    requires
        n > s.len(),
        forall|s2: Seq<char>|
            (#[trigger] fd(s2)) is Some ==> fd(s2).unwrap().1.len() < s2.len(),
    ensures
        dec_list(s, n, fd) is None,
    decreases n,
{
    match fd(s) {
        Option::None => {},
        Option::Some((x, r)) => {
            lemma_dec_list_too_long(r, (n - 1) as nat, fd);
        },
    }
}

// ---------- exec encoders ----------
pub fn push_enc_u64(out: &mut Vec<char>, n: u64)
    ensures
        final(out)@ == old(out)@ + enc_u64(n),
{
    let mut d = format_u64(n);
    out.append(&mut d);
    out.push(':');
    proof {
        assert(out@ =~= old(out)@ + enc_u64(n));
    }
}

pub fn push_enc_i64(out: &mut Vec<char>, n: i64)
    ensures
        final(out)@ == old(out)@ + enc_i64(n),
{
    let mut d = format_i64(n);
    out.append(&mut d);
    out.push(':');
    proof {
        assert(out@ =~= old(out)@ + enc_i64(n));
    }
}

pub fn push_enc_str(out: &mut Vec<char>, s: &str)
    ensures
        final(out)@ == old(out)@ + enc_str(s@),
{
    let mut cs = crate::text::string_to_chars(s);
    push_enc_u64(out, cs.len() as u64);
    out.append(&mut cs);
    proof {
        assert(out@ =~= old(out)@ + enc_str(s@));
    }
}

pub fn push_enc_bool(out: &mut Vec<char>, b: bool)
    ensures
        final(out)@ == old(out)@ + enc_bool(b),
{
    if b {
        out.push('t');
    } else {
        out.push('f');
    }
    out.push(':');
    proof {
        assert(out@ =~= old(out)@ + enc_bool(b));
    }
}

pub fn push_enc_opt_i64(out: &mut Vec<char>, o: &Option<i64>)
    ensures
        final(out)@ == old(out)@ + enc_opt_i64(*o),
{
    match o {
        Option::None => {
            out.push('n');
            out.push(':');
        },
        Option::Some(v) => {
            out.push('y');
            out.push(':');
            push_enc_i64(out, *v);
        },
    }
    proof {
        assert(out@ =~= old(out)@ + enc_opt_i64(*o));
    }
}

pub fn push_enc_opt_bool(out: &mut Vec<char>, o: &Option<bool>)
    ensures
        final(out)@ == old(out)@ + enc_opt_bool(*o),
{
    match o {
        Option::None => {
            out.push('n');
            out.push(':');
        },
        Option::Some(b) => {
            out.push('y');
            out.push(':');
            push_enc_bool(out, *b);
        },
    }
    proof {
        assert(out@ =~= old(out)@ + enc_opt_bool(*o));
    }
}

// ---------- exec decoders ----------
fn digit_exec(c: char) -> (r: bool)
    ensures
        r == is_digit(c),
{
    let cu = c as u32;
    48 <= cu && cu <= 57
}

pub fn dec_u64_at(v: &Vec<char>, pos: usize) -> (r: Option<(u64, usize)>)
    requires
        pos <= v@.len(),
    ensures
        match r {
            Option::Some((n, p)) => pos <= p <= v@.len() && dec_u64(v@.skip(pos as int))
                == Option::Some((n, v@.skip(p as int))),
            Option::None => dec_u64(v@.skip(pos as int)) is None,
        },
{
    let ghost s = v@.skip(pos as int);
    proof {
        lemma_digits_prefix(s);
    }
    let mut end: usize = pos;
    while end < v.len() && digit_exec(v[end])
        invariant
            pos <= end <= v@.len(),
            s == v@.skip(pos as int),
            forall|j: int| pos <= j < end ==> is_digit(#[trigger] v@[j]),
        decreases v@.len() - end,
    {
        end = end + 1;
    }
    proof {
        assert(forall|j: int| 0 <= j < end - pos ==> is_digit(#[trigger] s[j]));
        if end < v@.len() {
            assert(s[end - pos] == v@[end as int]);
            assert(!is_digit(s[end - pos]));
        }
        // the scan found exactly the digit prefix
        assert(digits_prefix(s).len() == end - pos) by {
            let dl = digits_prefix(s).len() as int;
            if dl < end - pos {
                assert(is_digit(s[dl]));
                assert(false);
            }
            if dl > end - pos {
                assert(digits_prefix(s)[end - pos] == s.take(dl)[end - pos]);
                assert(all_digits(digits_prefix(s)));
                assert(is_digit(digits_prefix(s)[end - pos]));
                assert(false);
            }
        }
        assert(digits_prefix(s) =~= v@.subrange(pos as int, end as int));
    }
    if end == pos {
        return None;
    }
    if end == v.len() {
        return None;
    }
    if v[end] != ':' {
        proof {
            assert(s[end - pos] == v@[end as int]);
        }
        return None;
    }
    let mut field: Vec<char> = Vec::new();
    let mut i: usize = pos;
    while i < end
        invariant
            pos <= i <= end <= v@.len(),
            field@ == v@.subrange(pos as int, i as int),
        decreases end - i,
    {
        field.push(v[i]);
        i = i + 1;
        proof {
            assert(field@ =~= v@.subrange(pos as int, i as int));
        }
    }
    proof {
        assert(field@ == digits_prefix(s));
        assert(s[end - pos] == v@[end as int]);
    }
    match parse_u64_field(&field) {
        Option::Some(n) => {
            proof {
                assert(s.skip(end - pos + 1) =~= v@.skip(end as int + 1));
            }
            Some((n, end + 1))
        },
        Option::None => {
            proof {
                // the digit run is nonempty, so its value must be out of range
                assert(seq_val(digits_prefix(s)) >= 0x1_0000_0000_0000_0000);
            }
            None
        },
    }
}

pub fn dec_i64_at(v: &Vec<char>, pos: usize) -> (r: Option<(i64, usize)>)
    requires
        pos <= v@.len(),
    ensures
        match r {
            Option::Some((n, p)) => pos <= p <= v@.len() && dec_i64(v@.skip(pos as int))
                == Option::Some((n, v@.skip(p as int))),
            Option::None => dec_i64(v@.skip(pos as int)) is None,
        },
{
    let ghost s = v@.skip(pos as int);
    if pos < v.len() && v[pos] == '-' {
        proof {
            assert(s[0] == '-');
            assert(s.skip(1) =~= v@.skip(pos as int + 1));
        }
        match dec_u64_at(v, pos + 1) {
            Option::Some((n, p)) => {
                if 1 <= n && n <= 0x8000_0000_0000_0000u64 {
                    proof {
                        assert(dec_len(s.skip(1)) == Option::Some((n as nat, v@.skip(p as int))));
                    }
                    Some(((-((n - 1) as i64)) - 1, p))
                } else {
                    None
                }
            },
            Option::None => {
                proof {
                    // overflow: the length value is at least 2^64, beyond i64
                    match dec_len(s.skip(1)) {
                        Option::None => {},
                        Option::Some((n, r)) => {
                            assert(n >= 0x1_0000_0000_0000_0000);
                        },
                    }
                }
                None
            },
        }
    } else {
        proof {
            if s.len() > 0 {
                assert(s[0] == v@[pos as int]);
            }
        }
        match dec_u64_at(v, pos) {
            Option::Some((n, p)) => {
                if n < 0x8000_0000_0000_0000u64 {
                    Some((n as i64, p))
                } else {
                    None
                }
            },
            Option::None => {
                proof {
                    match dec_len(s) {
                        Option::None => {},
                        Option::Some((n, r)) => {
                            assert(n >= 0x1_0000_0000_0000_0000);
                        },
                    }
                }
                None
            },
        }
    }
}

pub fn dec_str_at(v: &Vec<char>, pos: usize) -> (r: Option<(String, usize)>)
    requires
        pos <= v@.len(),
    ensures
        match r {
            Option::Some((x, p)) => pos <= p <= v@.len() && dec_str(v@.skip(pos as int))
                == Option::Some((x@, v@.skip(p as int))),
            Option::None => dec_str(v@.skip(pos as int)) is None,
        },
{
    let ghost s = v@.skip(pos as int);
    let vl = v.len();
    match dec_u64_at(v, pos) {
        Option::None => {
            proof {
                assert(s.len() <= vl);
                match dec_len(s) {
                    Option::None => {},
                    Option::Some((n, r)) => {
                        // overflow: the length is at least 2^64, longer than any input
                        assert(n >= 0x1_0000_0000_0000_0000);
                        assert(r.len() <= s.len());
                    },
                }
            }
            None
        },
        Option::Some((n, p)) => {
            let remaining = v.len() - p;
            if n > remaining as u64 {
                proof {
                    assert(v@.skip(p as int).len() == v@.len() - p);
                }
                return None;
            }
            let n_us = n as usize;
            proof {
                assert(n <= remaining as u64);
                assert(n_us as u64 == n);
                assert(p + n_us <= v@.len());
            }
            let endp = p + n_us;
            let mut field: Vec<char> = Vec::new();
            let mut i: usize = p;
            while i < endp
                invariant
                    pos <= p <= i <= endp <= v@.len(),
                    field@ == v@.subrange(p as int, i as int),
                decreases endp - i,
            {
                field.push(v[i]);
                i = i + 1;
                proof {
                    assert(field@ =~= v@.subrange(p as int, i as int));
                }
            }
            let out = chars_to_string(&field);
            proof {
                let rest = v@.skip(p as int);
                assert(rest.take(n as int) =~= v@.subrange(p as int, endp as int));
                assert(rest.skip(n as int) =~= v@.skip(endp as int));
                assert(dec_str(s) == Option::Some((rest.take(n as int), rest.skip(n as int))));
            }
            Some((out, endp))
        },
    }
}

pub fn dec_bool_at(v: &Vec<char>, pos: usize) -> (r: Option<(bool, usize)>)
    requires
        pos <= v@.len(),
    ensures
        match r {
            Option::Some((b, p)) => pos <= p <= v@.len() && dec_bool(v@.skip(pos as int))
                == Option::Some((b, v@.skip(p as int))),
            Option::None => dec_bool(v@.skip(pos as int)) is None,
        },
{
    let ghost s = v@.skip(pos as int);
    if v.len() - pos < 2 {
        return None;
    }
    let c0 = v[pos];
    let c1 = v[pos + 1];
    proof {
        assert(s[0] == c0);
        assert(s[1] == c1);
        assert(s.skip(2) =~= v@.skip(pos as int + 2));
    }
    if c1 == ':' && (c0 == 't' || c0 == 'f') {
        Some((c0 == 't', pos + 2))
    } else {
        None
    }
}

pub fn dec_opt_i64_at(v: &Vec<char>, pos: usize) -> (r: Option<(Option<i64>, usize)>)
    requires
        pos <= v@.len(),
    ensures
        match r {
            Option::Some((o, p)) => pos <= p <= v@.len() && dec_opt_i64(v@.skip(pos as int))
                == Option::Some((o, v@.skip(p as int))),
            Option::None => dec_opt_i64(v@.skip(pos as int)) is None,
        },
{
    let ghost s = v@.skip(pos as int);
    if v.len() - pos < 2 {
        return None;
    }
    let c0 = v[pos];
    let c1 = v[pos + 1];
    proof {
        assert(s[0] == c0);
        assert(s[1] == c1);
        assert(s.skip(2) =~= v@.skip(pos as int + 2));
    }
    if c1 == ':' && c0 == 'n' {
        Some((None, pos + 2))
    } else if c1 == ':' && c0 == 'y' {
        match dec_i64_at(v, pos + 2) {
            Option::Some((n, p)) => Some((Some(n), p)),
            Option::None => None,
        }
    } else {
        None
    }
}

pub fn dec_opt_bool_at(v: &Vec<char>, pos: usize) -> (r: Option<(Option<bool>, usize)>)
    requires
        pos <= v@.len(),
    ensures
        match r {
            Option::Some((o, p)) => pos <= p <= v@.len() && dec_opt_bool(v@.skip(pos as int))
                == Option::Some((o, v@.skip(p as int))),
            Option::None => dec_opt_bool(v@.skip(pos as int)) is None,
        },
{
    let ghost s = v@.skip(pos as int);
    if v.len() - pos < 2 {
        return None;
    }
    let c0 = v[pos];
    let c1 = v[pos + 1];
    proof {
        assert(s[0] == c0);
        assert(s[1] == c1);
        assert(s.skip(2) =~= v@.skip(pos as int + 2));
    }
    if c1 == ':' && c0 == 'n' {
        Some((None, pos + 2))
    } else if c1 == ':' && c0 == 'y' {
        match dec_bool_at(v, pos + 2) {
            Option::Some((b, p)) => Some((Some(b), p)),
            Option::None => None,
        }
    } else {
        None
    }
}

} // verus!
