use vstd::prelude::*;

verus! {

// Characters of a string, one per `char`, as a vector that verified code can
// index freely. `str::get_char` decodes on every call, so this is quadratic in
// the string length; queries and cache records are short, so clarity wins.
pub fn string_to_chars(s: &str) -> (r: Vec<char>)
    ensures
        r@ == s@,
{
    let n = s.unicode_len();
    let mut out: Vec<char> = Vec::new();
    let mut i: usize = 0;
    while i < n
        invariant
            n == s@.len(),
            i <= n,
            out@ == s@.take(i as int),
        decreases n - i,
    {
        out.push(s.get_char(i));
        i = i + 1;
        proof {
            assert(out@ =~= s@.take(i as int));
        }
    }
    proof {
        assert(out@ =~= s@);
    }
    out
}

/// Relies on std's `FromIterator<char> for String`: collecting characters
/// yields the string made of exactly those characters, in order.
#[verifier::external_body]
pub(crate) fn chars_to_string(v: &Vec<char>) -> (s: String)
    ensures
        s@ == v@,
{
    v.iter().collect()
}

/// What `str::to_lowercase` returns; it depends on the characters alone.
pub uninterp spec fn lower_of(s: Seq<char>) -> Seq<char>;

/// Relies on `str::to_lowercase`: the lowercase form of a string is a function
/// of its characters alone.
#[verifier::external_body]
pub(crate) fn lowercase(s: &str) -> (r: String)
    ensures
        r@ == lower_of(s@),
{
    s.to_lowercase()
}

/// `needle` occurs contiguously somewhere in `hay`.
pub open spec fn seq_contains_sub(hay: Seq<char>, needle: Seq<char>) -> bool {
    exists|i: int|
        0 <= i && i + needle.len() <= hay.len() && #[trigger] hay.subrange(i, i + needle.len())
            == needle
}

// Substring search over character vectors.
pub fn chars_contain(hay: &Vec<char>, needle: &Vec<char>) -> (r: bool)
    ensures
        r == seq_contains_sub(hay@, needle@),
{
    let nlen = needle.len();
    let hlen = hay.len();
    if nlen == 0 {
        proof {
            assert(hay@.subrange(0, 0 + needle@.len() as int) =~= needle@);
        }
        return true;
    }
    if nlen > hlen {
        return false;
    }
    let mut start: usize = 0;
    while start <= hlen - nlen
        invariant
            nlen == needle@.len(),
            hlen == hay@.len(),
            1 <= nlen <= hlen,
            start <= hlen - nlen + 1,
            forall|i: int|
                0 <= i < start ==> #[trigger] hay@.subrange(i, i + needle@.len()) != needle@,
        decreases hlen - nlen - start + 1,
    {
        let mut j: usize = 0;
        let mut matches: bool = true;
        while j < nlen
            invariant
                nlen == needle@.len(),
                hlen == hay@.len(),
                start + nlen <= hlen,
                j <= nlen,
                matches ==> forall|k: int| 0 <= k < j ==> hay@[start + k] == needle@[k],
                !matches ==> hay@.subrange(start as int, start + needle@.len()) != needle@,
            decreases nlen - j,
        {
            if hay[start + j] != needle[j] {
                proof {
                    assert(hay@.subrange(start as int, start + needle@.len())[j as int]
                        != needle@[j as int]);
                }
                matches = false;
                j = nlen;
            } else {
                j = j + 1;
            }
        }
        if matches {
            proof {
                assert(hay@.subrange(start as int, start + needle@.len()) =~= needle@);
            }
            return true;
        }
        start = start + 1;
    }
    proof {
        assert forall|i: int| 0 <= i && i + needle@.len() <= hay@.len() implies #[trigger] hay@
            .subrange(i, i + needle@.len()) != needle@ by {
            assert(i < start);
        }
    }
    false
}

/// Case-insensitive containment: the lowercase form of `needle` occurs in the
/// lowercase form of `hay`.
pub open spec fn spec_contains_ci(hay: Seq<char>, needle: Seq<char>) -> bool {
    seq_contains_sub(lower_of(hay), lower_of(needle))
}

pub fn contains_ci(hay: &str, needle: &str) -> (r: bool)
    ensures
        r == spec_contains_ci(hay@, needle@),
{
    let hl = lowercase(hay);
    let nl = lowercase(needle);
    let hv = string_to_chars(hl.as_str());
    let nv = string_to_chars(nl.as_str());
    chars_contain(&hv, &nv)
}

/// ASCII whitespace, the separators recognised in queries and log lines.
pub open spec fn is_space(c: char) -> bool {
    c == ' ' || c == '\t' || c == '\r' || c == '\n'
}

pub fn space_char(c: char) -> (r: bool)
    ensures
        r == is_space(c),
{
    c == ' ' || c == '\t' || c == '\r' || c == '\n'
}

/// The segments of `s` between occurrences of the delimiter `d`, delimiters
/// removed; `n` consecutive delimiters yield `n - 1` empty segments between
/// them, and the result always has one more segment than there are delimiters.
pub open spec fn spec_split(s: Seq<char>, d: char) -> Seq<Seq<char>> {
    spec_split_rec(s, d, Seq::empty())
}

pub open spec fn spec_split_rec(s: Seq<char>, d: char, cur: Seq<char>) -> Seq<Seq<char>>
    decreases s.len(),
{
    if s.len() == 0 {
        seq![cur]
    } else if s[0] == d {
        seq![cur] + spec_split_rec(s.skip(1), d, Seq::empty())
    } else {
        spec_split_rec(s.skip(1), d, cur.push(s[0]))
    }
}

pub fn split_chars(s: &Vec<char>, d: char) -> (r: Vec<Vec<char>>)
    ensures
        r.deep_view() == spec_split(s@, d),
{
    let mut segs: Vec<Vec<char>> = Vec::new();
    let mut cur: Vec<char> = Vec::new();
    let mut i: usize = 0;
    proof {
        assert(s@.skip(0) =~= s@);
    }
    while i < s.len()
        invariant
            i <= s@.len(),
            spec_split(s@, d) == segs.deep_view() + spec_split_rec(s@.skip(i as int), d, cur@),
        decreases s@.len() - i,
    {
        let ghost pre = s@.skip(i as int);
        let ghost old_segs = segs.deep_view();
        let ghost old_cur = cur@;
        let c = s[i];
        proof {
            assert(pre[0] == c);
            assert(pre.skip(1) =~= s@.skip(i as int + 1));
        }
        if c == d {
            segs.push(cur);
            cur = Vec::new();
            proof {
                assert(segs.deep_view() =~~= old_segs + seq![old_cur]);
                assert(segs.deep_view() + spec_split_rec(s@.skip(i as int + 1), d, cur@)
                    =~~= spec_split(s@, d));
            }
        } else {
            cur.push(c);
        }
        i = i + 1;
    }
    proof {
        assert(s@.skip(i as int) =~= Seq::<char>::empty());
        assert(spec_split_rec(Seq::<char>::empty(), d, cur@) == seq![cur@]);
    }
    let ghost old_segs = segs.deep_view();
    let ghost old_cur = cur@;
    segs.push(cur);
    proof {
        assert(segs.deep_view() =~~= old_segs + seq![old_cur]);
        assert(segs.deep_view() =~~= spec_split(s@, d));
    }
    segs
}

/// Leading whitespace removed.
pub open spec fn spec_trim_front(s: Seq<char>) -> Seq<char>
    decreases s.len(),
{
    if s.len() > 0 && is_space(s[0]) {
        spec_trim_front(s.skip(1))
    } else {
        s
    }
}

/// Trailing whitespace removed.
pub open spec fn spec_trim_back(s: Seq<char>) -> Seq<char>
    decreases s.len(),
{
    if s.len() > 0 && is_space(s.last()) {
        spec_trim_back(s.drop_last())
    } else {
        s
    }
}

/// Leading and trailing ASCII whitespace removed.
pub open spec fn spec_trim(s: Seq<char>) -> Seq<char> {
    spec_trim_back(spec_trim_front(s))
}

pub fn trim_chars(s: &Vec<char>) -> (r: Vec<char>)
    ensures
        r@ == spec_trim(s@),
{
    let mut lo: usize = 0;
    proof {
        assert(s@.skip(0) =~= s@);
    }
    while lo < s.len() && space_char(s[lo])
        invariant
            lo <= s@.len(),
            spec_trim_front(s@) == spec_trim_front(s@.skip(lo as int)),
        decreases s@.len() - lo,
    {
        proof {
            assert(s@.skip(lo as int).skip(1) =~= s@.skip(lo as int + 1));
        }
        lo = lo + 1;
    }
    let ghost front = s@.skip(lo as int);
    proof {
        if lo < s@.len() {
            assert(!is_space(front[0]));
        }
        assert(spec_trim_front(front) == front);
    }
    let mut hi: usize = s.len();
    while hi > lo && space_char(s[hi - 1])
        invariant
            lo <= hi <= s@.len(),
            spec_trim_back(front) == spec_trim_back(s@.subrange(lo as int, hi as int)),
        decreases hi,
    {
        proof {
            let cur = s@.subrange(lo as int, hi as int);
            assert(cur.last() == s@[hi - 1]);
            assert(cur.drop_last() =~= s@.subrange(lo as int, hi as int - 1));
        }
        hi = hi - 1;
    }
    proof {
        let cur = s@.subrange(lo as int, hi as int);
        if hi > lo {
            assert(!is_space(cur.last()));
        }
        assert(spec_trim_back(cur) == cur);
    }
    let mut out: Vec<char> = Vec::new();
    let mut i: usize = lo;
    while i < hi
        invariant
            lo <= i <= hi <= s@.len(),
            out@ == s@.subrange(lo as int, i as int),
        decreases hi - i,
    {
        out.push(s[i]);
        i = i + 1;
        proof {
            assert(out@ =~= s@.subrange(lo as int, i as int));
        }
    }
    proof {
        assert(front =~= s@.subrange(lo as int, s@.len() as int));
        assert(out@ == spec_trim(s@));
    }
    out
}

/// Lexicographic order on character sequences, by code point; this is the
/// order std gives strings.
pub open spec fn spec_str_le(a: Seq<char>, b: Seq<char>) -> bool
    decreases a.len(),
{
    if a.len() == 0 {
        true
    } else if b.len() == 0 {
        false
    } else if (a[0] as u32) < (b[0] as u32) {
        true
    } else if (a[0] as u32) > (b[0] as u32) {
        false
    } else {
        spec_str_le(a.skip(1), b.skip(1))
    }
}

pub fn str_le(a: &String, b: &String) -> (r: bool)
    ensures
        r == spec_str_le(a@, b@),
{
    let av = string_to_chars(a.as_str());
    let bv = string_to_chars(b.as_str());
    let mut i: usize = 0;
    proof {
        assert(av@.skip(0) =~= av@);
        assert(bv@.skip(0) =~= bv@);
    }
    loop
        invariant
            av@ == a@,
            bv@ == b@,
            i <= av@.len(),
            i <= bv@.len(),
            spec_str_le(a@, b@) == spec_str_le(av@.skip(i as int), bv@.skip(i as int)),
        decreases av@.len() - i,
    {
        if i == av.len() {
            return true;
        }
        if i == bv.len() {
            return false;
        }
        let ca = av[i] as u32;
        let cb = bv[i] as u32;
        proof {
            assert(av@.skip(i as int)[0] == av@[i as int]);
            assert(bv@.skip(i as int)[0] == bv@[i as int]);
            assert(av@.skip(i as int).skip(1) =~= av@.skip(i as int + 1));
            assert(bv@.skip(i as int).skip(1) =~= bv@.skip(i as int + 1));
        }
        if ca < cb {
            return true;
        }
        if ca > cb {
            return false;
        }
        i = i + 1;
    }
}

/// The string equals the literal, character for character.
pub fn string_eq_lit(s: &String, lit: &str) -> (r: bool)
    ensures
        r == (s@ == lit@),
{
    let l: String = lit.to_owned();
    *s == l
}

} // verus!
