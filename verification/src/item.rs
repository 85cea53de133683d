use crate::codec::{
    dec_len, dec_list, dec_opt_i64, dec_opt_i64_at, dec_str, dec_str_at, dec_u64_at, enc_each,
    enc_len, enc_list, enc_opt_i64, enc_str, lemma_dec_len, lemma_dec_list, lemma_dec_list_too_long,
    lemma_dec_opt_i64, lemma_dec_str, push_enc_opt_i64, push_enc_str, push_enc_u64,
};
use crate::error::CacheError;
use crate::text::string_to_chars;
use vstd::prelude::*;

verus! {

/// One cached item: a stable identifier, a display title, its tags, and the
/// time it was last updated at the source, when the source reports one.
#[derive(Debug, Clone, PartialEq)]
pub struct CacheItem {
    pub id: String,
    pub title: String,
    pub tags: Vec<String>,
    pub updated_at: Option<i64>,
}

/// The mathematical shape of a `CacheItem`: its strings as character
/// sequences.
#[verifier::ext_equal]
pub struct CacheItemView {
    pub id: Seq<char>,
    pub title: Seq<char>,
    pub tags: Seq<Seq<char>>,
    pub updated_at: Option<i64>,
}

impl View for CacheItem {
    type V = CacheItemView;

    open spec fn view(&self) -> CacheItemView {
        CacheItemView {
            id: self.id@,
            title: self.title@,
            tags: self.tags.deep_view(),
            updated_at: self.updated_at,
        }
    }
}

impl CacheItem {
    pub fn new(id: String, title: String, tags: Vec<String>, updated_at: Option<i64>) -> (r:
        CacheItem)
        ensures
            r@ == (CacheItemView {
                id: id@,
                title: title@,
                tags: tags.deep_view(),
                updated_at: updated_at,
            }),
    {
        CacheItem { id, title, tags, updated_at }
    }
}

pub open spec fn views_of_items(items: Seq<CacheItem>) -> Seq<CacheItemView> {
    items.map_values(|it: CacheItem| it@)
}

// ---------- encoding ----------
pub open spec fn str_enc_fn() -> spec_fn(Seq<char>) -> Seq<char> {
    |t: Seq<char>| enc_str(t)
}

pub open spec fn str_dec_fn() -> spec_fn(Seq<char>) -> Option<(Seq<char>, Seq<char>)> {
    |s: Seq<char>| dec_str(s)
}

/// A list of strings: its length, then each string.
pub open spec fn enc_str_list(ts: Seq<Seq<char>>) -> Seq<char> {
    enc_list(ts, str_enc_fn())
}

pub open spec fn dec_str_list(s: Seq<char>) -> Option<(Seq<Seq<char>>, Seq<char>)> {
    match dec_len(s) {
        Option::None => Option::None,
        Option::Some((n, r)) => dec_list(r, n, str_dec_fn()),
    }
}

pub open spec fn enc_item(it: CacheItemView) -> Seq<char> {
    enc_str(it.id) + enc_str(it.title) + enc_str_list(it.tags) + enc_opt_i64(it.updated_at)
}

pub open spec fn dec_item(s: Seq<char>) -> Option<(CacheItemView, Seq<char>)> {
    match dec_str(s) {
        Option::None => Option::None,
        Option::Some((id, r1)) => match dec_str(r1) {
            Option::None => Option::None,
            Option::Some((title, r2)) => match dec_str_list(r2) {
                Option::None => Option::None,
                Option::Some((tags, r3)) => match dec_opt_i64(r3) {
                    Option::None => Option::None,
                    Option::Some((u, r4)) => Option::Some(
                        (CacheItemView { id, title, tags, updated_at: u }, r4),
                    ),
                },
            },
        },
    }
}

pub open spec fn item_enc_fn() -> spec_fn(CacheItemView) -> Seq<char> {
    |it: CacheItemView| enc_item(it)
}

pub open spec fn item_dec_fn() -> spec_fn(Seq<char>) -> Option<(CacheItemView, Seq<char>)> {
    |s: Seq<char>| dec_item(s)
}

/// A whole item snapshot: the item count, each item, nothing after.
pub open spec fn enc_items(items: Seq<CacheItemView>) -> Seq<char> {
    enc_list(items, item_enc_fn())
}

pub open spec fn dec_items(s: Seq<char>) -> Option<Seq<CacheItemView>> {
    match dec_len(s) {
        Option::None => Option::None,
        Option::Some((n, r)) => match dec_list(r, n, item_dec_fn()) {
            Option::None => Option::None,
            Option::Some((items, rest)) => if rest.len() == 0 {
                Option::Some(items)
            } else {
                Option::None
            },
        },
    }
}

// ---------- inversion ----------
pub proof fn lemma_dec_str_list(ts: Seq<Seq<char>>, rest: Seq<char>)
    ensures
        dec_str_list(enc_str_list(ts) + rest) == Option::Some((ts, rest)),
{
    let body = enc_each(ts, str_enc_fn());
    assert(enc_str_list(ts) + rest =~= enc_len(ts.len()) + (body + rest));
    lemma_dec_len(ts.len(), body + rest);
    assert(forall|x: Seq<char>, r: Seq<char>| #[trigger]
        str_dec_fn()(str_enc_fn()(x) + r) == Option::Some((x, r))) by {
        assert forall|x: Seq<char>, r: Seq<char>| #[trigger]
            str_dec_fn()(str_enc_fn()(x) + r) == Option::Some((x, r)) by {
            lemma_dec_str(x, r);
        }
    }
    lemma_dec_list(ts, rest, str_enc_fn(), str_dec_fn());
}

pub proof fn lemma_dec_item(it: CacheItemView, rest: Seq<char>)
    ensures
        dec_item(enc_item(it) + rest) == Option::Some((it, rest)),
{
    let s = enc_item(it) + rest;
    let r1 = enc_str(it.title) + (enc_str_list(it.tags) + (enc_opt_i64(it.updated_at) + rest));
    assert(s =~= enc_str(it.id) + r1);
    lemma_dec_str(it.id, r1);
    let r2 = enc_str_list(it.tags) + (enc_opt_i64(it.updated_at) + rest);
    lemma_dec_str(it.title, r2);
    let r3 = enc_opt_i64(it.updated_at) + rest;
    lemma_dec_str_list(it.tags, r3);
    lemma_dec_opt_i64(it.updated_at, rest);
    assert(dec_item(s).unwrap().0 =~= it);
}

/// Reading back a written item snapshot yields the same items: the round-trip
/// law of the snapshot encoding.
pub proof fn lemma_items_round_trip(items: Seq<CacheItemView>)
    ensures
        dec_items(enc_items(items)) == Option::Some(items),
{
    let body = enc_each(items, item_enc_fn());
    assert(enc_items(items) =~= enc_len(items.len()) + (body + Seq::<char>::empty()));
    lemma_dec_len(items.len(), body + Seq::<char>::empty());
    assert(forall|x: CacheItemView, r: Seq<char>| #[trigger]
        item_dec_fn()(item_enc_fn()(x) + r) == Option::Some((x, r))) by {
        assert forall|x: CacheItemView, r: Seq<char>| #[trigger]
            item_dec_fn()(item_enc_fn()(x) + r) == Option::Some((x, r)) by {
            lemma_dec_item(x, r);
        }
    }
    lemma_dec_list(items, Seq::<char>::empty(), item_enc_fn(), item_dec_fn());
    assert(body + Seq::<char>::empty() =~= body);
}

// ---------- consumption (a failed decode of an oversized count) ----------
pub proof fn lemma_dec_str_consumes(s: Seq<char>)
    ensures
        dec_str(s) is Some ==> dec_str(s).unwrap().1.len() < s.len(),
{
    match dec_len(s) {
        Option::None => {},
        Option::Some((n, r)) => {},
    }
}

pub proof fn lemma_dec_str_list_len(s: Seq<char>)
    ensures
        dec_str_list(s) is Some ==> dec_str_list(s).unwrap().1.len() < s.len(),
{
    match dec_len(s) {
        Option::None => {},
        Option::Some((n, r)) => {
            if dec_list(r, n, str_dec_fn()) is Some {
                assert(forall|s2: Seq<char>|
                    (#[trigger] str_dec_fn()(s2)) is Some ==> str_dec_fn()(s2).unwrap().1.len()
                        < s2.len()) by {
                    assert forall|s2: Seq<char>|
                        (#[trigger] str_dec_fn()(s2)) is Some implies str_dec_fn()(
                        s2,
                    ).unwrap().1.len() < s2.len() by {
                        lemma_dec_str_consumes(s2);
                    }
                }
                lemma_dec_list_shrinks(r, n, str_dec_fn());
            }
        },
    }
}

pub proof fn lemma_dec_item_consumes(s: Seq<char>)
    ensures
        dec_item(s) is Some ==> dec_item(s).unwrap().1.len() < s.len(),
{
    if dec_item(s) is Some {
        lemma_dec_str_consumes(s);
        let r1 = dec_str(s).unwrap().1;
        lemma_dec_str_consumes(r1);
        let r2 = dec_str(r1).unwrap().1;
        lemma_dec_str_list_len(r2);
        let r3 = dec_str_list(r2).unwrap().1;
        match dec_opt_i64(r3) {
            Option::None => {},
            Option::Some((o, r4)) => {
                if r3.len() >= 2 && r3[1] == ':' && r3[0] == 'y' {
                    match crate::codec::dec_i64(r3.skip(2)) {
                        Option::None => {},
                        Option::Some((x, r5)) => {},
                    }
                }
            },
        }
    }
}

pub proof fn lemma_dec_list_shrinks<T>(
    s: Seq<char>,
    n: nat,
    fd: spec_fn(Seq<char>) -> Option<(T, Seq<char>)>,
)
    requires
        forall|s2: Seq<char>| (#[trigger] fd(s2)) is Some ==> fd(s2).unwrap().1.len() < s2.len(),
        dec_list(s, n, fd) is Some,
    ensures
        dec_list(s, n, fd).unwrap().1.len() <= s.len(),
    decreases n,
{
    if n > 0 {
        match fd(s) {
            Option::None => {},
            Option::Some((x, r)) => {
                lemma_dec_list_shrinks(r, (n - 1) as nat, fd);
            },
        }
    }
}

// ---------- exec encode / decode ----------
pub fn push_enc_str_list(out: &mut Vec<char>, ts: &Vec<String>)
    ensures
        final(out)@ == old(out)@ + enc_str_list(ts.deep_view()),
{
    push_enc_u64(out, ts.len() as u64);
    let ghost views = ts.deep_view();
    let mut j: usize = 0;
    proof {
        assert(views.take(0) =~= Seq::<Seq<char>>::empty());
        assert(out@ =~= old(out)@ + enc_len(views.len()) + enc_each(views.take(0), str_enc_fn()));
    }
    while j < ts.len()
        invariant
            views == ts.deep_view(),
            j <= views.len(),
            out@ == old(out)@ + enc_len(views.len()) + enc_each(views.take(j as int), str_enc_fn()),
        decreases views.len() - j,
    {
        push_enc_str(out, ts[j].as_str());
        proof {
            lemma_enc_each_snoc(views.take(j as int), str_enc_fn(), views[j as int]);
            assert(views.take(j as int).push(views[j as int]) =~= views.take(j as int + 1));
            assert(ts[j as int]@ == views[j as int]);
            assert(out@ =~= old(out)@ + enc_len(views.len()) + enc_each(
                views.take(j as int + 1),
                str_enc_fn(),
            ));
        }
        j = j + 1;
    }
    proof {
        assert(views.take(views.len() as int) =~= views);
        assert(out@ =~= old(out)@ + enc_str_list(views));
    }
}

pub proof fn lemma_enc_each_snoc<T>(xs: Seq<T>, f: spec_fn(T) -> Seq<char>, x: T)
    ensures
        enc_each(xs.push(x), f) == enc_each(xs, f) + f(x),
    decreases xs.len(),
{
    if xs.len() == 0 {
        assert(xs.push(x)[0] == x);
        assert(xs.push(x).skip(1) =~= Seq::<T>::empty());
        assert(enc_each(Seq::<T>::empty(), f) == Seq::<char>::empty());
        assert(enc_each(xs.push(x), f) == f(x) + enc_each(xs.push(x).skip(1), f));
        assert(f(x) + Seq::<char>::empty() =~= f(x));
        assert(enc_each(xs, f) == Seq::<char>::empty());
        assert(Seq::<char>::empty() + f(x) =~= f(x));
    } else {
        assert(xs.push(x).skip(1) =~= xs.skip(1).push(x));
        lemma_enc_each_snoc(xs.skip(1), f, x);
        assert(enc_each(xs.push(x), f) =~= enc_each(xs, f) + f(x));
    }
}

pub fn push_enc_item(out: &mut Vec<char>, it: &CacheItem)
    ensures
        final(out)@ == old(out)@ + enc_item(it@),
{
    push_enc_str(out, it.id.as_str());
    push_enc_str(out, it.title.as_str());
    push_enc_str_list(out, &it.tags);
    push_enc_opt_i64(out, &it.updated_at);
    proof {
        assert(out@ =~= old(out)@ + enc_item(it@));
    }
}

/// Writes an item snapshot: every item, whole, in order.
pub fn encode_items(items: &Vec<CacheItem>) -> (r: String)
    ensures
        r@ == enc_items(views_of_items(items@)),
{
    let ghost views = views_of_items(items@);
    let mut out: Vec<char> = Vec::new();
    push_enc_u64(&mut out, items.len() as u64);
    let mut i: usize = 0;
    proof {
        assert(views.take(0) =~= Seq::<CacheItemView>::empty());
        assert(out@ =~= enc_len(views.len()) + enc_each(views.take(0), item_enc_fn()));
    }
    while i < items.len()
        invariant
            views == views_of_items(items@),
            i <= views.len(),
            out@ == enc_len(views.len()) + enc_each(views.take(i as int), item_enc_fn()),
        decreases views.len() - i,
    {
        push_enc_item(&mut out, &items[i]);
        proof {
            lemma_enc_each_snoc(views.take(i as int), item_enc_fn(), views[i as int]);
            assert(views.take(i as int).push(views[i as int]) =~= views.take(i as int + 1));
            assert(out@ =~= enc_len(views.len()) + enc_each(views.take(i as int + 1), item_enc_fn()));
        }
        i = i + 1;
    }
    proof {
        assert(views.take(views.len() as int) =~= views);
        assert(out@ =~= enc_items(views));
    }
    crate::text::chars_to_string(&out)
}

pub fn dec_str_list_at(v: &Vec<char>, pos: usize) -> (r: Option<(Vec<String>, usize)>)
    requires
        pos <= v@.len(),
    ensures
        match r {
            Option::Some((ts, p)) => pos <= p <= v@.len() && dec_str_list(v@.skip(pos as int))
                == Option::Some((ts.deep_view(), v@.skip(p as int))),
            Option::None => dec_str_list(v@.skip(pos as int)) is None,
        },
{
    let ghost s = v@.skip(pos as int);
    let vl = v.len();
    let count_r = dec_u64_at(v, pos);
    match count_r {
        Option::None => {
            proof {
                assert(s.len() <= vl);
                match dec_len(s) {
                    Option::None => {},
                    Option::Some((n, r)) => {
                        assert(n >= 0x1_0000_0000_0000_0000);
                        assert(forall|s2: Seq<char>|
                            (#[trigger] str_dec_fn()(s2)) is Some ==> str_dec_fn()(
                                s2,
                            ).unwrap().1.len() < s2.len()) by {
                            assert forall|s2: Seq<char>|
                                (#[trigger] str_dec_fn()(s2)) is Some implies str_dec_fn()(
                                s2,
                            ).unwrap().1.len() < s2.len() by {
                                lemma_dec_str_consumes(s2);
                            }
                        }
                        lemma_dec_list_too_long(r, n, str_dec_fn());
                    },
                }
            }
            None
        },
        Option::Some((count, p0)) => {
            let ghost r0 = v@.skip(p0 as int);
            let ghost fd = str_dec_fn();
            let mut acc: Vec<String> = Vec::new();
            let mut cur: usize = p0;
            let mut k: u64 = 0;
            proof {
                assert(acc.deep_view() =~= Seq::<Seq<char>>::empty());
                assert(dec_str_list(s) == dec_list(r0, count as nat, fd));
            }
            while k < count
                invariant
                    k <= count,
                    pos <= cur <= v@.len(),
                    s == v@.skip(pos as int),
                    fd == str_dec_fn(),
                    dec_str_list(s) == match dec_list(
                        v@.skip(cur as int),
                        (count - k) as nat,
                        fd,
                    ) {
                        Option::None => Option::None::<(Seq<Seq<char>>, Seq<char>)>,
                        Option::Some((t, rr)) => Option::Some((acc.deep_view() + t, rr)),
                    },
                decreases count - k,
            {
                let ghost before = v@.skip(cur as int);
                let er = dec_str_at(v, cur);
                match er {
                    Option::None => {
                        proof {
                            assert(fd(before) is None);
                            assert((count - k) as nat != 0);
                            assert(dec_list(v@.skip(cur as int), (count - k) as nat, fd) is None);
                        }
                        return None;
                    },
                    Option::Some((x, p2)) => {
                        let ghost old_acc = acc.deep_view();
                        acc.push(x);
                        proof {
                            assert(acc.deep_view() =~~= old_acc.push(x@));
                        }
                        cur = p2;
                        k = k + 1;
                        proof {
                            assert(fd(before) == Option::Some((x@, v@.skip(cur as int))));
                            assert forall|t: Seq<Seq<char>>, rr: Seq<char>|
                                dec_list(v@.skip(cur as int), (count - k) as nat, fd)
                                    == Option::Some((t, rr)) implies old_acc + (seq![x@] + t)
                                =~~= acc.deep_view() + t by {
                                assert(old_acc.push(x@) =~~= old_acc + seq![x@]);
                            }
                            assert(dec_str_list(s) == match dec_list(
                                v@.skip(cur as int),
                                (count - k) as nat,
                                fd,
                            ) {
                                Option::None => Option::None::<(Seq<Seq<char>>, Seq<char>)>,
                                Option::Some((t, rr)) => Option::Some((acc.deep_view() + t, rr)),
                            });
                        }
                    },
                }
            }
            proof {
                assert(dec_list(v@.skip(cur as int), 0nat, fd) == Option::Some(
                    (Seq::<Seq<char>>::empty(), v@.skip(cur as int)),
                ));
                assert(acc.deep_view() + Seq::<Seq<char>>::empty() =~~= acc.deep_view());
            }
            Some((acc, cur))
        },
    }
}

fn dec_item_at(v: &Vec<char>, pos: usize) -> (r: Option<(CacheItem, usize)>)
    requires
        pos <= v@.len(),
    ensures
        match r {
            Option::Some((it, p)) => pos <= p <= v@.len() && dec_item(v@.skip(pos as int))
                == Option::Some((it@, v@.skip(p as int))),
            Option::None => dec_item(v@.skip(pos as int)) is None,
        },
{
    let id_r = dec_str_at(v, pos);
    match id_r {
        Option::None => None,
        Option::Some((id, p1)) => {
            let title_r = dec_str_at(v, p1);
            match title_r {
                Option::None => None,
                Option::Some((title, p2)) => {
                    let tags_r = dec_str_list_at(v, p2);
                    match tags_r {
                        Option::None => None,
                        Option::Some((tags, p3)) => {
                            let up_r = dec_opt_i64_at(v, p3);
                            match up_r {
                                Option::None => None,
                                Option::Some((updated_at, p4)) => {
                                    let it = CacheItem { id, title, tags, updated_at };
                                    proof {
                                        assert(dec_item(v@.skip(pos as int)).unwrap().0 =~= it@);
                                    }
                                    Some((it, p4))
                                },
                            }
                        },
                    }
                },
            }
        },
    }
}

/// Reads an item snapshot back; fails exactly when the text is not a whole,
/// well-formed snapshot encoding.
pub fn decode_items(s: &str) -> (r: Result<Vec<CacheItem>, CacheError>)
    ensures
        match r {
            Result::Ok(items) => dec_items(s@) == Option::Some(views_of_items(items@)),
            Result::Err(e) => dec_items(s@) is None && e == CacheError::SerializationError,
        },
{
    let v = string_to_chars(s);
    let vl = v.len();
    let ghost fd = item_dec_fn();
    proof {
        assert(v@.skip(0) =~= v@);
    }
    let count_r = dec_u64_at(&v, 0);
    match count_r {
        Option::None => {
            proof {
                match dec_len(s@) {
                    Option::None => {},
                    Option::Some((n, r)) => {
                        assert(n >= 0x1_0000_0000_0000_0000);
                        assert(forall|s2: Seq<char>|
                            (#[trigger] fd(s2)) is Some ==> fd(s2).unwrap().1.len() < s2.len())
                            by {
                            assert forall|s2: Seq<char>| (#[trigger] fd(s2)) is Some implies fd(
                                s2,
                            ).unwrap().1.len() < s2.len() by {
                                lemma_dec_item_consumes(s2);
                            }
                        }
                        lemma_dec_list_too_long(r, n, fd);
                    },
                }
            }
            Err(CacheError::SerializationError)
        },
        Option::Some((count, p0)) => {
            let mut acc: Vec<CacheItem> = Vec::new();
            let mut cur: usize = p0;
            let mut k: u64 = 0;
            proof {
                assert(views_of_items(acc@) =~= Seq::<CacheItemView>::empty());
                assert(dec_len(s@) == Option::Some((count as nat, v@.skip(p0 as int))));
            }
            while k < count
                invariant
                    k <= count,
                    cur <= v@.len(),
                    fd == item_dec_fn(),
                    v@ == s@,
                    dec_len(s@) is Some,
                    dec_len(s@).unwrap().0 == count as nat,
                    match dec_list(v@.skip(cur as int), (count - k) as nat, fd) {
                        Option::None => dec_list(
                            v@.skip(dec_len_skip(s@) as int),
                            count as nat,
                            fd,
                        ) is None,
                        Option::Some((t, rr)) => dec_list(
                            v@.skip(dec_len_skip(s@) as int),
                            count as nat,
                            fd,
                        ) == Option::Some((views_of_items(acc@) + t, rr)),
                    },
                    dec_len(s@).unwrap().1 == v@.skip(dec_len_skip(s@) as int),
                decreases count - k,
            {
                let ghost before = v@.skip(cur as int);
                let er = dec_item_at(&v, cur);
                match er {
                    Option::None => {
                        return Err(CacheError::SerializationError);
                    },
                    Option::Some((it, p2)) => {
                        let ghost old_acc = views_of_items(acc@);
                        acc.push(it);
                        proof {
                            assert(views_of_items(acc@) =~~= old_acc.push(it@));
                        }
                        cur = p2;
                        k = k + 1;
                        proof {
                            assert(fd(before) == Option::Some((it@, v@.skip(cur as int))));
                            assert forall|t: Seq<CacheItemView>, rr: Seq<char>|
                                dec_list(v@.skip(cur as int), (count - k) as nat, fd)
                                    == Option::Some((t, rr)) implies old_acc + (seq![it@] + t)
                                =~~= views_of_items(acc@) + t by {
                                assert(old_acc.push(it@) =~~= old_acc + seq![it@]);
                            }
                        }
                    },
                }
            }
            if cur != vl {
                proof {
                    assert(v@.skip(cur as int).len() > 0);
                }
                return Err(CacheError::SerializationError);
            }
            proof {
                assert(dec_list(v@.skip(cur as int), 0nat, fd) == Option::Some(
                    (Seq::<CacheItemView>::empty(), v@.skip(cur as int)),
                ));
                assert(views_of_items(acc@) + Seq::<CacheItemView>::empty() =~~= views_of_items(
                    acc@,
                ));
                assert(v@.skip(cur as int).len() == 0);
            }
            Ok(acc)
        },
    }
}

/// Where the body of a snapshot starts: just past the count field.
pub open spec fn dec_len_skip(s: Seq<char>) -> nat {
    (crate::codec::digits_prefix(s).len() + 1) as nat
}

} // verus!
