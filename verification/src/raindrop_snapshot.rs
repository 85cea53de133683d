use crate::codec::{
    dec_bool, dec_bool_at, dec_i64, dec_i64_at, dec_len, dec_list, dec_opt_bool, dec_opt_bool_at,
    dec_str, dec_str_at, dec_u64_at, enc_bool, enc_each, enc_i64, enc_len, enc_list, enc_opt_bool,
    enc_str, lemma_dec_bool, lemma_dec_i64, lemma_dec_len, lemma_dec_list, lemma_dec_list_too_long,
    lemma_dec_opt_bool, lemma_dec_str, push_enc_bool, push_enc_i64, push_enc_opt_bool,
    push_enc_str, push_enc_u64,
};
use crate::error::CacheError;
use crate::item::{dec_str_list, enc_str_list, lemma_dec_str_consumes, lemma_dec_str_list,
    lemma_dec_str_list_len, push_enc_str_list};
use crate::raindrop::{
    views_of_raindrop, CollectionRef, CollectionRefView, Item, Media, MediaView, RaindropItemView,
    UserRef, UserRefView,
};
use crate::text::string_to_chars;
use vstd::prelude::*;

verus! {

// The bookmark snapshot: every field of every item written with the shared
// field encoders, and read back exactly.
// ---------- small fields ----------
pub open spec fn enc_i32(n: i32) -> Seq<char> {
    enc_i64(n as i64)
}

pub open spec fn dec_i32(s: Seq<char>) -> Option<(i32, Seq<char>)> {
    match dec_i64(s) {
        Option::None => Option::None,
        Option::Some((n, r)) => {
            if -0x8000_0000 <= n as int <= 0x7fff_ffff {
                Option::Some((n as i32, r))
            } else {
                Option::None
            }
        },
    }
}

pub proof fn lemma_dec_i32(n: i32, rest: Seq<char>)
    ensures
        dec_i32(enc_i32(n) + rest) == Option::Some((n, rest)),
{
    lemma_dec_i64(n as i64, rest);
}

fn dec_i32_at(v: &Vec<char>, pos: usize) -> (r: Option<(i32, usize)>)
    requires
        pos <= v@.len(),
    ensures
        match r {
            Option::Some((n, p)) => pos <= p <= v@.len() && dec_i32(v@.skip(pos as int))
                == Option::Some((n, v@.skip(p as int))),
            Option::None => dec_i32(v@.skip(pos as int)) is None,
        },
{
    match dec_i64_at(v, pos) {
        Option::None => None,
        Option::Some((n, p)) => {
            if -0x8000_0000i64 <= n && n <= 0x7fff_ffffi64 {
                Some((n as i32, p))
            } else {
                None
            }
        },
    }
}

pub open spec fn enc_user(u: UserRefView) -> Seq<char> {
    enc_str(u.ref_field) + enc_i32(u.id)
}

pub open spec fn dec_user(s: Seq<char>) -> Option<(UserRefView, Seq<char>)> {
    match dec_str(s) {
        Option::None => Option::None,
        Option::Some((ref_field, r1)) => match dec_i32(r1) {
            Option::None => Option::None,
            Option::Some((id, r2)) => Option::Some((UserRefView { ref_field, id }, r2)),
        },
    }
}

pub proof fn lemma_dec_user(u: UserRefView, rest: Seq<char>)
    ensures
        dec_user(enc_user(u) + rest) == Option::Some((u, rest)),
{
    let s = enc_user(u) + rest;
    assert(s =~= enc_str(u.ref_field) + (enc_i32(u.id) + rest));
    lemma_dec_str(u.ref_field, enc_i32(u.id) + rest);
    lemma_dec_i32(u.id, rest);
    assert(dec_user(s).unwrap().0 =~= u);
}

fn dec_user_at(v: &Vec<char>, pos: usize) -> (r: Option<(UserRef, usize)>)
    requires
        pos <= v@.len(),
    ensures
        match r {
            Option::Some((u, p)) => pos <= p <= v@.len() && dec_user(v@.skip(pos as int))
                == Option::Some((u@, v@.skip(p as int))),
            Option::None => dec_user(v@.skip(pos as int)) is None,
        },
{
    match dec_str_at(v, pos) {
        Option::None => None,
        Option::Some((ref_field, p1)) => match dec_i32_at(v, p1) {
            Option::None => None,
            Option::Some((id, p2)) => {
                let u = UserRef { ref_field, id };
                proof {
                    assert(dec_user(v@.skip(pos as int)).unwrap().0 =~= u@);
                }
                Some((u, p2))
            },
        },
    }
}

pub open spec fn enc_media_one(m: MediaView) -> Seq<char> {
    enc_str(m.media_type) + enc_str(m.link)
}

pub open spec fn dec_media_one(s: Seq<char>) -> Option<(MediaView, Seq<char>)> {
    match dec_str(s) {
        Option::None => Option::None,
        Option::Some((media_type, r1)) => match dec_str(r1) {
            Option::None => Option::None,
            Option::Some((link, r2)) => Option::Some((MediaView { media_type, link }, r2)),
        },
    }
}

pub open spec fn media_enc_fn() -> spec_fn(MediaView) -> Seq<char> {
    |m: MediaView| enc_media_one(m)
}

pub open spec fn media_dec_fn() -> spec_fn(Seq<char>) -> Option<(MediaView, Seq<char>)> {
    |s: Seq<char>| dec_media_one(s)
}

pub open spec fn enc_media_list(ms: Seq<MediaView>) -> Seq<char> {
    enc_list(ms, media_enc_fn())
}

pub open spec fn dec_media_list(s: Seq<char>) -> Option<(Seq<MediaView>, Seq<char>)> {
    match dec_len(s) {
        Option::None => Option::None,
        Option::Some((n, r)) => dec_list(r, n, media_dec_fn()),
    }
}

pub proof fn lemma_dec_media_one(m: MediaView, rest: Seq<char>)
    ensures
        dec_media_one(enc_media_one(m) + rest) == Option::Some((m, rest)),
{
    let s = enc_media_one(m) + rest;
    assert(s =~= enc_str(m.media_type) + (enc_str(m.link) + rest));
    lemma_dec_str(m.media_type, enc_str(m.link) + rest);
    lemma_dec_str(m.link, rest);
    assert(dec_media_one(s).unwrap().0 =~= m);
}

pub proof fn lemma_dec_media_list(ms: Seq<MediaView>, rest: Seq<char>)
    ensures
        dec_media_list(enc_media_list(ms) + rest) == Option::Some((ms, rest)),
{
    let body = enc_each(ms, media_enc_fn());
    assert(enc_media_list(ms) + rest =~= enc_len(ms.len()) + (body + rest));
    lemma_dec_len(ms.len(), body + rest);
    assert(forall|x: MediaView, r: Seq<char>| #[trigger]
        media_dec_fn()(media_enc_fn()(x) + r) == Option::Some((x, r))) by {
        assert forall|x: MediaView, r: Seq<char>| #[trigger]
            media_dec_fn()(media_enc_fn()(x) + r) == Option::Some((x, r)) by {
            lemma_dec_media_one(x, r);
        }
    }
    lemma_dec_list(ms, rest, media_enc_fn(), media_dec_fn());
}

proof fn lemma_dec_media_one_consumes(s: Seq<char>)
    ensures
        dec_media_one(s) is Some ==> dec_media_one(s).unwrap().1.len() < s.len(),
{
    if dec_media_one(s) is Some {
        lemma_dec_str_consumes(s);
    }
}

proof fn lemma_dec_media_list_len(s: Seq<char>)
    ensures
        dec_media_list(s) is Some ==> dec_media_list(s).unwrap().1.len() < s.len(),
{
    match dec_len(s) {
        Option::None => {},
        Option::Some((n, r)) => {
            if dec_list(r, n, media_dec_fn()) is Some {
                assert(forall|s2: Seq<char>|
                    (#[trigger] media_dec_fn()(s2)) is Some ==> media_dec_fn()(
                        s2,
                    ).unwrap().1.len() < s2.len()) by {
                    assert forall|s2: Seq<char>|
                        (#[trigger] media_dec_fn()(s2)) is Some implies media_dec_fn()(
                        s2,
                    ).unwrap().1.len() < s2.len() by {
                        lemma_dec_media_one_consumes(s2);
                    }
                }
                crate::item::lemma_dec_list_shrinks(r, n, media_dec_fn());
            }
        },
    }
}

fn push_enc_media_one(out: &mut Vec<char>, m: &Media)
    ensures
        final(out)@ == old(out)@ + enc_media_one(m@),
{
    push_enc_str(out, m.media_type.as_str());
    push_enc_str(out, m.link.as_str());
    proof {
        assert(out@ =~= old(out)@ + enc_media_one(m@));
    }
}

fn push_enc_media_list(out: &mut Vec<char>, ms: &Vec<Media>)
    ensures
        final(out)@ == old(out)@ + enc_media_list(ms.deep_view()),
{
    push_enc_u64(out, ms.len() as u64);
    let ghost views = ms.deep_view();
    let mut j: usize = 0;
    proof {
        assert(views.take(0) =~= Seq::<MediaView>::empty());
        assert(out@ =~= old(out)@ + enc_len(views.len()) + enc_each(views.take(0), media_enc_fn()));
    }
    while j < ms.len()
        invariant
            views == ms.deep_view(),
            j <= views.len(),
            out@ == old(out)@ + enc_len(views.len()) + enc_each(
                views.take(j as int),
                media_enc_fn(),
            ),
        decreases views.len() - j,
    {
        push_enc_media_one(out, &ms[j]);
        proof {
            crate::item::lemma_enc_each_snoc(views.take(j as int), media_enc_fn(), views[j as int]);
            assert(views.take(j as int).push(views[j as int]) =~= views.take(j as int + 1));
            assert(ms@[j as int]@ == views[j as int]);
            assert(out@ =~= old(out)@ + enc_len(views.len()) + enc_each(
                views.take(j as int + 1),
                media_enc_fn(),
            ));
        }
        j = j + 1;
    }
    proof {
        assert(views.take(views.len() as int) =~= views);
        assert(out@ =~= old(out)@ + enc_media_list(views));
    }
}

fn dec_media_list_at(v: &Vec<char>, pos: usize) -> (r: Option<(Vec<Media>, usize)>)
    requires
        pos <= v@.len(),
    ensures
        match r {
            Option::Some((ms, p)) => pos <= p <= v@.len() && dec_media_list(v@.skip(pos as int))
                == Option::Some((ms.deep_view(), v@.skip(p as int))),
            Option::None => dec_media_list(v@.skip(pos as int)) is None,
        },
{
    let ghost s = v@.skip(pos as int);
    let vl = v.len();
    match dec_u64_at(v, pos) {
        Option::None => {
            proof {
                assert(s.len() <= vl);
                match dec_len(s) {
                    Option::None => {},
                    Option::Some((n, r)) => {
                        assert(n >= 0x1_0000_0000_0000_0000);
                        assert(forall|s2: Seq<char>|
                            (#[trigger] media_dec_fn()(s2)) is Some ==> media_dec_fn()(
                                s2,
                            ).unwrap().1.len() < s2.len()) by {
                            assert forall|s2: Seq<char>|
                                (#[trigger] media_dec_fn()(s2)) is Some implies media_dec_fn()(
                                s2,
                            ).unwrap().1.len() < s2.len() by {
                                lemma_dec_media_one_consumes(s2);
                            }
                        }
                        lemma_dec_list_too_long(r, n, media_dec_fn());
                    },
                }
            }
            None
        },
        Option::Some((count, p0)) => {
            let ghost fd = media_dec_fn();
            let mut acc: Vec<Media> = Vec::new();
            let mut cur: usize = p0;
            let mut k: u64 = 0;
            proof {
                assert(acc.deep_view() =~= Seq::<MediaView>::empty());
                assert(dec_media_list(s) == dec_list(v@.skip(p0 as int), count as nat, fd));
            }
            while k < count
                invariant
                    k <= count,
                    pos <= cur <= v@.len(),
                    s == v@.skip(pos as int),
                    fd == media_dec_fn(),
                    dec_media_list(s) == match dec_list(
                        v@.skip(cur as int),
                        (count - k) as nat,
                        fd,
                    ) {
                        Option::None => Option::None::<(Seq<MediaView>, Seq<char>)>,
                        Option::Some((t, rr)) => Option::Some((acc.deep_view() + t, rr)),
                    },
                decreases count - k,
            {
                let ghost before = v@.skip(cur as int);
                let mt = dec_str_at(v, cur);
                let er = match mt {
                    Option::None => None,
                    Option::Some((media_type, p1)) => match dec_str_at(v, p1) {
                        Option::None => None,
                        Option::Some((link, p2)) => Some((Media { media_type, link }, p2)),
                    },
                };
                match er {
                    Option::None => {
                        proof {
                            assert(fd(before) is None);
                            assert((count - k) as nat != 0);
                            assert(dec_list(v@.skip(cur as int), (count - k) as nat, fd) is None);
                        }
                        return None;
                    },
                    Option::Some((m, p2)) => {
                        proof {
                            assert(dec_media_one(before).unwrap().0 =~= m@);
                        }
                        let ghost old_acc = acc.deep_view();
                        acc.push(m);
                        proof {
                            assert(acc.deep_view() =~~= old_acc.push(acc@[acc@.len() - 1]@));
                        }
                        cur = p2;
                        k = k + 1;
                        proof {
                            assert(fd(before) == Option::Some(
                                (acc@[acc@.len() - 1]@, v@.skip(cur as int)),
                            ));
                            assert forall|t: Seq<MediaView>, rr: Seq<char>|
                                dec_list(v@.skip(cur as int), (count - k) as nat, fd)
                                    == Option::Some((t, rr)) implies old_acc + (seq![
                                acc@[acc@.len() - 1]@,
                            ] + t) =~~= acc.deep_view() + t by {
                                assert(old_acc.push(acc@[acc@.len() - 1]@) =~~= old_acc + seq![
                                    acc@[acc@.len() - 1]@,
                                ]);
                            }
                        }
                    },
                }
            }
            proof {
                assert(dec_list(v@.skip(cur as int), 0nat, fd) == Option::Some(
                    (Seq::<MediaView>::empty(), v@.skip(cur as int)),
                ));
                assert(acc.deep_view() + Seq::<MediaView>::empty() =~~= acc.deep_view());
            }
            Some((acc, cur))
        },
    }
}

pub open spec fn enc_coll(c: CollectionRefView) -> Seq<char> {
    enc_str(c.ref_field) + enc_i32(c.id) + enc_i32(c.oid)
}

pub open spec fn dec_coll(s: Seq<char>) -> Option<(CollectionRefView, Seq<char>)> {
    match dec_str(s) {
        Option::None => Option::None,
        Option::Some((ref_field, r1)) => match dec_i32(r1) {
            Option::None => Option::None,
            Option::Some((id, r2)) => match dec_i32(r2) {
                Option::None => Option::None,
                Option::Some((oid, r3)) => Option::Some(
                    (CollectionRefView { ref_field, id, oid }, r3),
                ),
            },
        },
    }
}

pub proof fn lemma_dec_coll(c: CollectionRefView, rest: Seq<char>)
    ensures
        dec_coll(enc_coll(c) + rest) == Option::Some((c, rest)),
{
    let s = enc_coll(c) + rest;
    assert(s =~= enc_str(c.ref_field) + (enc_i32(c.id) + (enc_i32(c.oid) + rest)));
    lemma_dec_str(c.ref_field, enc_i32(c.id) + (enc_i32(c.oid) + rest));
    lemma_dec_i32(c.id, enc_i32(c.oid) + rest);
    lemma_dec_i32(c.oid, rest);
    assert(dec_coll(s).unwrap().0 =~= c);
}

fn dec_coll_at(v: &Vec<char>, pos: usize) -> (r: Option<(CollectionRef, usize)>)
    requires
        pos <= v@.len(),
    ensures
        match r {
            Option::Some((c, p)) => pos <= p <= v@.len() && dec_coll(v@.skip(pos as int))
                == Option::Some((c@, v@.skip(p as int))),
            Option::None => dec_coll(v@.skip(pos as int)) is None,
        },
{
    match dec_str_at(v, pos) {
        Option::None => None,
        Option::Some((ref_field, p1)) => match dec_i32_at(v, p1) {
            Option::None => None,
            Option::Some((id, p2)) => match dec_i32_at(v, p2) {
                Option::None => None,
                Option::Some((oid, p3)) => {
                    let c = CollectionRef { ref_field, id, oid };
                    proof {
                        assert(dec_coll(v@.skip(pos as int)).unwrap().0 =~= c@);
                    }
                    Some((c, p3))
                },
            },
        },
    }
}

#[verifier::ext_equal]
pub struct RdFront {
    pub id: i32,
    pub link: Seq<char>,
    pub title: Seq<char>,
    pub excerpt: Seq<char>,
    pub note: Seq<char>,
    pub item_type: Seq<char>,
    pub user: UserRefView,
    pub cover: Seq<char>,
}

pub struct RdFrontData {
    pub id: i32,
    pub link: String,
    pub title: String,
    pub excerpt: String,
    pub note: String,
    pub item_type: String,
    pub user: UserRef,
    pub cover: String,
}

impl View for RdFrontData {
    type V = RdFront;

    open spec fn view(&self) -> RdFront {
        RdFront {
            id: self.id,
            link: self.link@,
            title: self.title@,
            excerpt: self.excerpt@,
            note: self.note@,
            item_type: self.item_type@,
            user: self.user@,
            cover: self.cover@,
        }
    }
}

pub open spec fn rd_front_of(v: RaindropItemView) -> RdFront {
    RdFront { id: v.id, link: v.link, title: v.title, excerpt: v.excerpt, note: v.note, item_type: v.item_type, user: v.user, cover: v.cover }
}

pub open spec fn enc_rd_front(x: RdFront) -> Seq<char> {
    enc_i32(x.id) + enc_str(x.link) + enc_str(x.title) + enc_str(x.excerpt) + enc_str(x.note) + enc_str(x.item_type) + enc_user(x.user) + enc_str(x.cover)
}

pub open spec fn dec_rd_front(s: Seq<char>) -> Option<(RdFront, Seq<char>)> {
    match dec_i32(s) {
        Option::None => Option::None,
        Option::Some((id, r1)) => match dec_str(r1) {
        Option::None => Option::None,
        Option::Some((link, r2)) => match dec_str(r2) {
        Option::None => Option::None,
        Option::Some((title, r3)) => match dec_str(r3) {
        Option::None => Option::None,
        Option::Some((excerpt, r4)) => match dec_str(r4) {
        Option::None => Option::None,
        Option::Some((note, r5)) => match dec_str(r5) {
        Option::None => Option::None,
        Option::Some((item_type, r6)) => match dec_user(r6) {
        Option::None => Option::None,
        Option::Some((user, r7)) => match dec_str(r7) {
        Option::None => Option::None,
        Option::Some((cover, r8)) => Option::Some((RdFront { id, link, title, excerpt, note, item_type, user, cover }, r8)),
    },
    },
    },
    },
    },
    },
    },
    }
}

#[verifier::rlimit(100)]
#[verifier::spinoff_prover]
pub proof fn lemma_dec_rd_front(x: RdFront, rest: Seq<char>)
    ensures
        dec_rd_front(enc_rd_front(x) + rest) == Option::Some((x, rest)),
{
    let s = enc_rd_front(x) + rest;
    let p1 = enc_i32(x.id);
    let p2 = enc_str(x.link);
    let p3 = enc_str(x.title);
    let p4 = enc_str(x.excerpt);
    let p5 = enc_str(x.note);
    let p6 = enc_str(x.item_type);
    let p7 = enc_user(x.user);
    let p8 = enc_str(x.cover);
    let t8 = rest;
    let t7 = p8 + t8;
    let t6 = p7 + t7;
    let t5 = p6 + t6;
    let t4 = p5 + t5;
    let t3 = p4 + t4;
    let t2 = p3 + t3;
    let t1 = p2 + t2;
    let t0 = p1 + t1;
    let u0 = Seq::<char>::empty();
    let u1 = u0 + p1;
    let u2 = u1 + p2;
    let u3 = u2 + p3;
    let u4 = u3 + p4;
    let u5 = u4 + p5;
    let u6 = u5 + p6;
    let u7 = u6 + p7;
    let u8 = u7 + p8;
    assert(t0 =~= u0 + t0);
    assert(u0 + t0 =~= u1 + t1);
    assert(u1 + t1 =~= u2 + t2);
    assert(u2 + t2 =~= u3 + t3);
    assert(u3 + t3 =~= u4 + t4);
    assert(u4 + t4 =~= u5 + t5);
    assert(u5 + t5 =~= u6 + t6);
    assert(u6 + t6 =~= u7 + t7);
    assert(u7 + t7 =~= u8 + t8);
    assert(u8 =~= enc_rd_front(x));
    assert(s =~= t0);
    lemma_dec_i32(x.id, t1);
    lemma_dec_str(x.link, t2);
    lemma_dec_str(x.title, t3);
    lemma_dec_str(x.excerpt, t4);
    lemma_dec_str(x.note, t5);
    lemma_dec_str(x.item_type, t6);
    lemma_dec_user(x.user, t7);
    lemma_dec_str(x.cover, t8);
    assert(dec_rd_front(s).unwrap().0 =~= x);
}

#[verifier::rlimit(100)]
fn push_enc_rd_front(out: &mut Vec<char>, d: &RdFrontData)
    ensures
        final(out)@ == old(out)@ + enc_rd_front(d@),
{
    push_enc_i64(out, d.id as i64);
    push_enc_str(out, d.link.as_str());
    push_enc_str(out, d.title.as_str());
    push_enc_str(out, d.excerpt.as_str());
    push_enc_str(out, d.note.as_str());
    push_enc_str(out, d.item_type.as_str());
    push_enc_str(out, d.user.ref_field.as_str());
    push_enc_i64(out, d.user.id as i64);
    push_enc_str(out, d.cover.as_str());
    proof {
        assert(out@ =~= old(out)@ + enc_rd_front(d@));
    }
}

#[verifier::rlimit(100)]
fn dec_rd_front_at(v: &Vec<char>, pos: usize) -> (r: Option<(RdFrontData, usize)>)
    requires
        pos <= v@.len(),
    ensures
        match r {
            Option::Some((d, p)) => pos <= p <= v@.len() && dec_rd_front(v@.skip(pos as int))
                == Option::Some((d@, v@.skip(p as int))),
            Option::None => dec_rd_front(v@.skip(pos as int)) is None,
        },
{
    match dec_i32_at(v, pos) {
        Option::None => None,
        Option::Some((id, p1)) => match dec_str_at(v, p1) {
        Option::None => None,
        Option::Some((link, p2)) => match dec_str_at(v, p2) {
        Option::None => None,
        Option::Some((title, p3)) => match dec_str_at(v, p3) {
        Option::None => None,
        Option::Some((excerpt, p4)) => match dec_str_at(v, p4) {
        Option::None => None,
        Option::Some((note, p5)) => match dec_str_at(v, p5) {
        Option::None => None,
        Option::Some((item_type, p6)) => match dec_user_at(v, p6) {
        Option::None => None,
        Option::Some((user, p7)) => match dec_str_at(v, p7) {
        Option::None => None,
        Option::Some((cover, p8)) => {
                            let d = RdFrontData { id, link, title, excerpt, note, item_type, user, cover };
                            proof {
                                assert(dec_rd_front(v@.skip(pos as int)).unwrap().0 =~= d@);
                            }
                            Some((d, p8))
                        },
    },
    },
    },
    },
    },
    },
    },
    }
}

#[verifier::ext_equal]
pub struct RdBack {
    pub media: Seq<MediaView>,
    pub tags: Seq<Seq<char>>,
    pub important: Option<bool>,
    pub removed: bool,
    pub created: Seq<char>,
    pub collection: CollectionRefView,
    pub last_update: Seq<char>,
    pub domain: Seq<char>,
    pub sort: i32,
    pub collection_id: i32,
}

pub struct RdBackData {
    pub media: Vec<Media>,
    pub tags: Vec<String>,
    pub important: Option<bool>,
    pub removed: bool,
    pub created: String,
    pub collection: CollectionRef,
    pub last_update: String,
    pub domain: String,
    pub sort: i32,
    pub collection_id: i32,
}

impl View for RdBackData {
    type V = RdBack;

    open spec fn view(&self) -> RdBack {
        RdBack {
            media: self.media.deep_view(),
            tags: self.tags.deep_view(),
            important: self.important,
            removed: self.removed,
            created: self.created@,
            collection: self.collection@,
            last_update: self.last_update@,
            domain: self.domain@,
            sort: self.sort,
            collection_id: self.collection_id,
        }
    }
}

pub open spec fn rd_back_of(v: RaindropItemView) -> RdBack {
    RdBack { media: v.media, tags: v.tags, important: v.important, removed: v.removed, created: v.created, collection: v.collection, last_update: v.last_update, domain: v.domain, sort: v.sort, collection_id: v.collection_id }
}

pub open spec fn enc_rd_back(x: RdBack) -> Seq<char> {
    enc_media_list(x.media) + enc_str_list(x.tags) + enc_opt_bool(x.important) + enc_bool(x.removed) + enc_str(x.created) + enc_coll(x.collection) + enc_str(x.last_update) + enc_str(x.domain) + enc_i32(x.sort) + enc_i32(x.collection_id)
}

pub open spec fn dec_rd_back(s: Seq<char>) -> Option<(RdBack, Seq<char>)> {
    match dec_media_list(s) {
        Option::None => Option::None,
        Option::Some((media, r1)) => match dec_str_list(r1) {
        Option::None => Option::None,
        Option::Some((tags, r2)) => match dec_opt_bool(r2) {
        Option::None => Option::None,
        Option::Some((important, r3)) => match dec_bool(r3) {
        Option::None => Option::None,
        Option::Some((removed, r4)) => match dec_str(r4) {
        Option::None => Option::None,
        Option::Some((created, r5)) => match dec_coll(r5) {
        Option::None => Option::None,
        Option::Some((collection, r6)) => match dec_str(r6) {
        Option::None => Option::None,
        Option::Some((last_update, r7)) => match dec_str(r7) {
        Option::None => Option::None,
        Option::Some((domain, r8)) => match dec_i32(r8) {
        Option::None => Option::None,
        Option::Some((sort, r9)) => match dec_i32(r9) {
        Option::None => Option::None,
        Option::Some((collection_id, r10)) => Option::Some((RdBack { media, tags, important, removed, created, collection, last_update, domain, sort, collection_id }, r10)),
    },
    },
    },
    },
    },
    },
    },
    },
    },
    }
}

#[verifier::rlimit(100)]
#[verifier::spinoff_prover]
pub proof fn lemma_dec_rd_back(x: RdBack, rest: Seq<char>)
    ensures
        dec_rd_back(enc_rd_back(x) + rest) == Option::Some((x, rest)),
{
    let s = enc_rd_back(x) + rest;
    let p1 = enc_media_list(x.media);
    let p2 = enc_str_list(x.tags);
    let p3 = enc_opt_bool(x.important);
    let p4 = enc_bool(x.removed);
    let p5 = enc_str(x.created);
    let p6 = enc_coll(x.collection);
    let p7 = enc_str(x.last_update);
    let p8 = enc_str(x.domain);
    let p9 = enc_i32(x.sort);
    let p10 = enc_i32(x.collection_id);
    let t10 = rest;
    let t9 = p10 + t10;
    let t8 = p9 + t9;
    let t7 = p8 + t8;
    let t6 = p7 + t7;
    let t5 = p6 + t6;
    let t4 = p5 + t5;
    let t3 = p4 + t4;
    let t2 = p3 + t3;
    let t1 = p2 + t2;
    let t0 = p1 + t1;
    let u0 = Seq::<char>::empty();
    let u1 = u0 + p1;
    let u2 = u1 + p2;
    let u3 = u2 + p3;
    let u4 = u3 + p4;
    let u5 = u4 + p5;
    let u6 = u5 + p6;
    let u7 = u6 + p7;
    let u8 = u7 + p8;
    let u9 = u8 + p9;
    let u10 = u9 + p10;
    assert(t0 =~= u0 + t0);
    assert(u0 + t0 =~= u1 + t1);
    assert(u1 + t1 =~= u2 + t2);
    assert(u2 + t2 =~= u3 + t3);
    assert(u3 + t3 =~= u4 + t4);
    assert(u4 + t4 =~= u5 + t5);
    assert(u5 + t5 =~= u6 + t6);
    assert(u6 + t6 =~= u7 + t7);
    assert(u7 + t7 =~= u8 + t8);
    assert(u8 + t8 =~= u9 + t9);
    assert(u9 + t9 =~= u10 + t10);
    assert(u10 =~= enc_rd_back(x));
    assert(s =~= t0);
    lemma_dec_media_list(x.media, t1);
    lemma_dec_str_list(x.tags, t2);
    lemma_dec_opt_bool(x.important, t3);
    lemma_dec_bool(x.removed, t4);
    lemma_dec_str(x.created, t5);
    lemma_dec_coll(x.collection, t6);
    lemma_dec_str(x.last_update, t7);
    lemma_dec_str(x.domain, t8);
    lemma_dec_i32(x.sort, t9);
    lemma_dec_i32(x.collection_id, t10);
    assert(dec_rd_back(s).unwrap().0 =~= x);
}

#[verifier::rlimit(100)]
fn push_enc_rd_back(out: &mut Vec<char>, d: &RdBackData)
    ensures
        final(out)@ == old(out)@ + enc_rd_back(d@),
{
    push_enc_media_list(out, &d.media);
    push_enc_str_list(out, &d.tags);
    push_enc_opt_bool(out, &d.important);
    push_enc_bool(out, d.removed);
    push_enc_str(out, d.created.as_str());
    push_enc_str(out, d.collection.ref_field.as_str());
    push_enc_i64(out, d.collection.id as i64);
    push_enc_i64(out, d.collection.oid as i64);
    push_enc_str(out, d.last_update.as_str());
    push_enc_str(out, d.domain.as_str());
    push_enc_i64(out, d.sort as i64);
    push_enc_i64(out, d.collection_id as i64);
    proof {
        assert(out@ =~= old(out)@ + enc_rd_back(d@));
    }
}

#[verifier::rlimit(100)]
fn dec_rd_back_at(v: &Vec<char>, pos: usize) -> (r: Option<(RdBackData, usize)>)
    requires
        pos <= v@.len(),
    ensures
        match r {
            Option::Some((d, p)) => pos <= p <= v@.len() && dec_rd_back(v@.skip(pos as int))
                == Option::Some((d@, v@.skip(p as int))),
            Option::None => dec_rd_back(v@.skip(pos as int)) is None,
        },
{
    match dec_media_list_at(v, pos) {
        Option::None => None,
        Option::Some((media, p1)) => match crate::item::dec_str_list_at(v, p1) {
        Option::None => None,
        Option::Some((tags, p2)) => match dec_opt_bool_at(v, p2) {
        Option::None => None,
        Option::Some((important, p3)) => match dec_bool_at(v, p3) {
        Option::None => None,
        Option::Some((removed, p4)) => match dec_str_at(v, p4) {
        Option::None => None,
        Option::Some((created, p5)) => match dec_coll_at(v, p5) {
        Option::None => None,
        Option::Some((collection, p6)) => match dec_str_at(v, p6) {
        Option::None => None,
        Option::Some((last_update, p7)) => match dec_str_at(v, p7) {
        Option::None => None,
        Option::Some((domain, p8)) => match dec_i32_at(v, p8) {
        Option::None => None,
        Option::Some((sort, p9)) => match dec_i32_at(v, p9) {
        Option::None => None,
        Option::Some((collection_id, p10)) => {
                            let d = RdBackData { media, tags, important, removed, created, collection, last_update, domain, sort, collection_id };
                            proof {
                                assert(dec_rd_back(v@.skip(pos as int)).unwrap().0 =~= d@);
                            }
                            Some((d, p10))
                        },
    },
    },
    },
    },
    },
    },
    },
    },
    },
    }
}

/// One whole bookmark record: its leading fields, then the rest, every field
/// in declaration order.
pub open spec fn enc_rd_item(v: RaindropItemView) -> Seq<char> {
    enc_rd_front(rd_front_of(v)) + enc_rd_back(rd_back_of(v))
}

pub open spec fn assemble_rd(f: RdFront, b: RdBack) -> RaindropItemView {
    RaindropItemView {
        id: f.id,
        link: f.link,
        title: f.title,
        excerpt: f.excerpt,
        note: f.note,
        item_type: f.item_type,
        user: f.user,
        cover: f.cover,
        media: b.media,
        tags: b.tags,
        important: b.important,
        removed: b.removed,
        created: b.created,
        collection: b.collection,
        last_update: b.last_update,
        domain: b.domain,
        sort: b.sort,
        collection_id: b.collection_id,
    }
}

pub open spec fn dec_rd_item(s: Seq<char>) -> Option<(RaindropItemView, Seq<char>)> {
    match dec_rd_front(s) {
        Option::None => Option::None,
        Option::Some((f, r)) => match dec_rd_back(r) {
            Option::None => Option::None,
            Option::Some((b, r2)) => Option::Some((assemble_rd(f, b), r2)),
        },
    }
}

pub proof fn lemma_dec_rd_item(v: RaindropItemView, rest: Seq<char>)
    ensures
        dec_rd_item(enc_rd_item(v) + rest) == Option::Some((v, rest)),
{
    let s = enc_rd_item(v) + rest;
    assert(s =~= enc_rd_front(rd_front_of(v)) + (enc_rd_back(rd_back_of(v)) + rest));
    lemma_dec_rd_front(rd_front_of(v), enc_rd_back(rd_back_of(v)) + rest);
    lemma_dec_rd_back(rd_back_of(v), rest);
    assert(assemble_rd(rd_front_of(v), rd_back_of(v)) =~= v);
}

#[verifier::rlimit(100)]
fn push_enc_rd_item(out: &mut Vec<char>, it: &Item)
    ensures
        final(out)@ == old(out)@ + enc_rd_item(it@),
{
    let front = RdFrontData {
        id: it.id,
        link: it.link.clone(),
        title: it.title.clone(),
        excerpt: it.excerpt.clone(),
        note: it.note.clone(),
        item_type: it.item_type.clone(),
        user: UserRef { ref_field: it.user.ref_field.clone(), id: it.user.id },
        cover: it.cover.clone(),
    };
    proof {
        assert(front@ =~= rd_front_of(it@));
    }
    push_enc_rd_front(out, &front);
    let back = RdBackData {
        media: clone_media_list(&it.media),
        tags: clone_strings(&it.tags),
        important: it.important,
        removed: it.removed,
        created: it.created.clone(),
        collection: CollectionRef {
            ref_field: it.collection.ref_field.clone(),
            id: it.collection.id,
            oid: it.collection.oid,
        },
        last_update: it.last_update.clone(),
        domain: it.domain.clone(),
        sort: it.sort,
        collection_id: it.collection_id,
    };
    proof {
        assert(back@ =~= rd_back_of(it@));
    }
    push_enc_rd_back(out, &back);
    proof {
        assert(out@ =~= old(out)@ + enc_rd_item(it@));
    }
}

fn clone_media_list(v: &Vec<Media>) -> (r: Vec<Media>)
    ensures
        r.deep_view() == v.deep_view(),
{
    let mut out: Vec<Media> = Vec::new();
    let mut i: usize = 0;
    while i < v.len()
        invariant
            i <= v@.len(),
            out.deep_view() == v.deep_view().take(i as int),
        decreases v@.len() - i,
    {
        let ghost old_out = out.deep_view();
        out.push(Media { media_type: v[i].media_type.clone(), link: v[i].link.clone() });
        i = i + 1;
        proof {
            assert(v.deep_view()[i - 1] =~~= v@[i - 1]@);
            assert(out.deep_view() =~~= old_out.push(v@[i - 1]@));
            assert(out.deep_view() =~~= v.deep_view().take(i as int));
        }
    }
    proof {
        assert(out.deep_view() =~~= v.deep_view());
    }
    out
}

fn clone_strings(v: &Vec<String>) -> (r: Vec<String>)
    ensures
        r@ == v@,
{
    let mut out: Vec<String> = Vec::new();
    let mut i: usize = 0;
    while i < v.len()
        invariant
            i <= v@.len(),
            out@ == v@.take(i as int),
        decreases v@.len() - i,
    {
        out.push(v[i].clone());
        i = i + 1;
        proof {
            assert(out@ =~= v@.take(i as int));
        }
    }
    proof {
        assert(out@ =~= v@);
    }
    out
}

#[verifier::rlimit(100)]
fn dec_rd_item_at(v: &Vec<char>, pos: usize) -> (r: Option<(Item, usize)>)
    requires
        pos <= v@.len(),
    ensures
        match r {
            Option::Some((it, p)) => pos <= p <= v@.len() && dec_rd_item(v@.skip(pos as int))
                == Option::Some((it@, v@.skip(p as int))),
            Option::None => dec_rd_item(v@.skip(pos as int)) is None,
        },
{
    match dec_rd_front_at(v, pos) {
        Option::None => None,
        Option::Some((f, p1)) => match dec_rd_back_at(v, p1) {
            Option::None => None,
            Option::Some((b, p2)) => {
                let it = Item {
                    id: f.id,
                    link: f.link,
                    title: f.title,
                    excerpt: f.excerpt,
                    note: f.note,
                    item_type: f.item_type,
                    user: f.user,
                    cover: f.cover,
                    media: b.media,
                    tags: b.tags,
                    important: b.important,
                    removed: b.removed,
                    created: b.created,
                    collection: b.collection,
                    last_update: b.last_update,
                    domain: b.domain,
                    sort: b.sort,
                    collection_id: b.collection_id,
                };
                proof {
                    assert(dec_rd_item(v@.skip(pos as int)).unwrap().0 =~= it@);
                }
                Some((it, p2))
            },
        },
    }
}

pub open spec fn rd_item_enc_fn() -> spec_fn(RaindropItemView) -> Seq<char> {
    |it: RaindropItemView| enc_rd_item(it)
}

pub open spec fn rd_item_dec_fn() -> spec_fn(Seq<char>) -> Option<(RaindropItemView, Seq<char>)> {
    |s: Seq<char>| dec_rd_item(s)
}

/// A whole bookmark snapshot: the record count, each record, nothing after.
pub open spec fn enc_rd_items(items: Seq<RaindropItemView>) -> Seq<char> {
    enc_list(items, rd_item_enc_fn())
}

pub open spec fn dec_rd_items(s: Seq<char>) -> Option<Seq<RaindropItemView>> {
    match dec_len(s) {
        Option::None => Option::None,
        Option::Some((n, r)) => match dec_list(r, n, rd_item_dec_fn()) {
            Option::None => Option::None,
            Option::Some((items, rest)) => if rest.len() == 0 {
                Option::Some(items)
            } else {
                Option::None
            },
        },
    }
}

/// Reading back a written bookmark snapshot yields the same records.
pub proof fn lemma_rd_items_round_trip(items: Seq<RaindropItemView>)
    ensures
        dec_rd_items(enc_rd_items(items)) == Option::Some(items),
{
    let body = enc_each(items, rd_item_enc_fn());
    assert(enc_rd_items(items) =~= enc_len(items.len()) + (body + Seq::<char>::empty()));
    lemma_dec_len(items.len(), body + Seq::<char>::empty());
    assert(forall|x: RaindropItemView, r: Seq<char>| #[trigger]
        rd_item_dec_fn()(rd_item_enc_fn()(x) + r) == Option::Some((x, r))) by {
        assert forall|x: RaindropItemView, r: Seq<char>| #[trigger]
            rd_item_dec_fn()(rd_item_enc_fn()(x) + r) == Option::Some((x, r)) by {
            lemma_dec_rd_item(x, r);
        }
    }
    lemma_dec_list(items, Seq::<char>::empty(), rd_item_enc_fn(), rd_item_dec_fn());
    assert(body + Seq::<char>::empty() =~= body);
}

proof fn lemma_dec_i64_len(s: Seq<char>)
    ensures
        dec_i64(s) is Some ==> dec_i64(s).unwrap().1.len() < s.len(),
{
    if s.len() > 0 && s[0] == '-' {
        match dec_len(s.skip(1)) {
            Option::None => {},
            Option::Some((n, r)) => {},
        }
    } else {
        match dec_len(s) {
            Option::None => {},
            Option::Some((n, r)) => {},
        }
    }
}

proof fn lemma_dec_i32_len(s: Seq<char>)
    ensures
        dec_i32(s) is Some ==> dec_i32(s).unwrap().1.len() < s.len(),
{
    lemma_dec_i64_len(s);
}

proof fn lemma_dec_user_len(s: Seq<char>)
    ensures
        dec_user(s) is Some ==> dec_user(s).unwrap().1.len() < s.len(),
{
    if dec_user(s) is Some {
        lemma_dec_str_consumes(s);
        lemma_dec_i32_len(dec_str(s).unwrap().1);
    }
}

proof fn lemma_dec_coll_len(s: Seq<char>)
    ensures
        dec_coll(s) is Some ==> dec_coll(s).unwrap().1.len() < s.len(),
{
    if dec_coll(s) is Some {
        lemma_dec_str_consumes(s);
        let r1 = dec_str(s).unwrap().1;
        lemma_dec_i32_len(r1);
        lemma_dec_i32_len(dec_i32(r1).unwrap().1);
    }
}

proof fn lemma_dec_bool_len(s: Seq<char>)
    ensures
        dec_bool(s) is Some ==> dec_bool(s).unwrap().1.len() < s.len(),
{
}

proof fn lemma_dec_opt_bool_len(s: Seq<char>)
    ensures
        dec_opt_bool(s) is Some ==> dec_opt_bool(s).unwrap().1.len() < s.len(),
{
    if dec_opt_bool(s) is Some {
        if s.len() >= 2 && s[1] == ':' && s[0] == 'y' {
            lemma_dec_bool_len(s.skip(2));
        }
    }
}

proof fn lemma_dec_rd_front_len(s: Seq<char>)
    ensures
        dec_rd_front(s) is Some ==> dec_rd_front(s).unwrap().1.len() < s.len(),
{
    if dec_rd_front(s) is Some {
        lemma_dec_i32_len(s);
        let r1 = dec_i32(s).unwrap().1;
        lemma_dec_str_consumes(r1);
        let r2 = dec_str(r1).unwrap().1;
        lemma_dec_str_consumes(r2);
        let r3 = dec_str(r2).unwrap().1;
        lemma_dec_str_consumes(r3);
        let r4 = dec_str(r3).unwrap().1;
        lemma_dec_str_consumes(r4);
        let r5 = dec_str(r4).unwrap().1;
        lemma_dec_str_consumes(r5);
        let r6 = dec_str(r5).unwrap().1;
        lemma_dec_user_len(r6);
        let r7 = dec_user(r6).unwrap().1;
        lemma_dec_str_consumes(r7);
    }
}

proof fn lemma_dec_rd_back_len(s: Seq<char>)
    ensures
        dec_rd_back(s) is Some ==> dec_rd_back(s).unwrap().1.len() < s.len(),
{
    if dec_rd_back(s) is Some {
        lemma_dec_media_list_len(s);
        let r1 = dec_media_list(s).unwrap().1;
        lemma_dec_str_list_len(r1);
        let r2 = dec_str_list(r1).unwrap().1;
        lemma_dec_opt_bool_len(r2);
        let r3 = dec_opt_bool(r2).unwrap().1;
        lemma_dec_bool_len(r3);
        let r4 = dec_bool(r3).unwrap().1;
        lemma_dec_str_consumes(r4);
        let r5 = dec_str(r4).unwrap().1;
        lemma_dec_coll_len(r5);
        let r6 = dec_coll(r5).unwrap().1;
        lemma_dec_str_consumes(r6);
        let r7 = dec_str(r6).unwrap().1;
        lemma_dec_str_consumes(r7);
        let r8 = dec_str(r7).unwrap().1;
        lemma_dec_i32_len(r8);
        let r9 = dec_i32(r8).unwrap().1;
        lemma_dec_i32_len(r9);
    }
}

proof fn lemma_dec_rd_item_consumes(s: Seq<char>)
    ensures
        dec_rd_item(s) is Some ==> dec_rd_item(s).unwrap().1.len() < s.len(),
{
    if dec_rd_item(s) is Some {
        lemma_dec_rd_front_len(s);
        lemma_dec_rd_back_len(dec_rd_front(s).unwrap().1);
    }
}

/// Writes a bookmark snapshot: every record, whole, in order.
#[verifier::rlimit(100)]
pub fn encode_raindrop_items(items: &Vec<Item>) -> (r: String)
    ensures
        r@ == enc_rd_items(views_of_raindrop(items@)),
{
    let ghost views = views_of_raindrop(items@);
    let mut out: Vec<char> = Vec::new();
    push_enc_u64(&mut out, items.len() as u64);
    let mut i: usize = 0;
    proof {
        assert(views.take(0) =~= Seq::<RaindropItemView>::empty());
        assert(out@ =~= enc_len(views.len()) + enc_each(views.take(0), rd_item_enc_fn()));
    }
    while i < items.len()
        invariant
            views == views_of_raindrop(items@),
            i <= views.len(),
            out@ == enc_len(views.len()) + enc_each(views.take(i as int), rd_item_enc_fn()),
        decreases views.len() - i,
    {
        push_enc_rd_item(&mut out, &items[i]);
        proof {
            crate::item::lemma_enc_each_snoc(views.take(i as int), rd_item_enc_fn(), views[i as int]);
            assert(views.take(i as int).push(views[i as int]) =~= views.take(i as int + 1));
            assert(out@ =~= enc_len(views.len()) + enc_each(
                views.take(i as int + 1),
                rd_item_enc_fn(),
            ));
        }
        i = i + 1;
    }
    proof {
        assert(views.take(views.len() as int) =~= views);
        assert(out@ =~= enc_rd_items(views));
    }
    crate::text::chars_to_string(&out)
}

/// Reads a bookmark snapshot back; fails exactly when the text is not a
/// whole, well-formed snapshot encoding.
#[verifier::rlimit(100)]
pub fn decode_raindrop_items(s: &str) -> (r: Result<Vec<Item>, CacheError>)
    ensures
        match r {
            Result::Ok(items) => dec_rd_items(s@) == Option::Some(views_of_raindrop(items@)),
            Result::Err(e) => dec_rd_items(s@) is None && e == CacheError::SerializationError,
        },
{
    let v = string_to_chars(s);
    let vl = v.len();
    let ghost fd = rd_item_dec_fn();
    proof {
        assert(v@.skip(0) =~= v@);
    }
    let count_r = dec_u64_at(&v, 0);
    match count_r {
        Option::None => {
            proof {
                match dec_len(s@) {
                    Option::None => {},
                    Option::Some((n, r)) => {
                        assert(n >= 0x1_0000_0000_0000_0000);
                        assert(forall|s2: Seq<char>|
                            (#[trigger] fd(s2)) is Some ==> fd(s2).unwrap().1.len() < s2.len())
                            by {
                            assert forall|s2: Seq<char>| (#[trigger] fd(s2)) is Some implies fd(
                                s2,
                            ).unwrap().1.len() < s2.len() by {
                                lemma_dec_rd_item_consumes(s2);
                            }
                        }
                        lemma_dec_list_too_long(r, n, fd);
                    },
                }
            }
            Err(CacheError::SerializationError)
        },
        Option::Some((count, p0)) => {
            let ghost r0 = v@.skip(p0 as int);
            let mut acc: Vec<Item> = Vec::new();
            let mut cur: usize = p0;
            let mut k: u64 = 0;
            proof {
                assert(views_of_raindrop(acc@) =~= Seq::<RaindropItemView>::empty());
            }
            while k < count
                invariant
                    k <= count,
                    cur <= v@.len(),
                    fd == rd_item_dec_fn(),
                    v@ == s@,
                    dec_len(s@) == Option::Some((count as nat, r0)),
                    match dec_list(v@.skip(cur as int), (count - k) as nat, fd) {
                        Option::None => dec_list(r0, count as nat, fd) is None,
                        Option::Some((t, rr)) => dec_list(r0, count as nat, fd) == Option::Some(
                            (views_of_raindrop(acc@) + t, rr),
                        ),
                    },
                decreases count - k,
            {
                let ghost before = v@.skip(cur as int);
                let er = dec_rd_item_at(&v, cur);
                match er {
                    Option::None => {
                        proof {
                            assert(fd(before) is None);
                            assert((count - k) as nat != 0);
                            assert(dec_list(v@.skip(cur as int), (count - k) as nat, fd) is None);
                        }
                        return Err(CacheError::SerializationError);
                    },
                    Option::Some((x, p2)) => {
                        let ghost old_acc = views_of_raindrop(acc@);
                        let ghost xv = x@;
                        acc.push(x);
                        proof {
                            assert(views_of_raindrop(acc@) =~~= old_acc.push(xv));
                        }
                        cur = p2;
                        k = k + 1;
                        proof {
                            assert(fd(before) == Option::Some((xv, v@.skip(cur as int))));
                            assert forall|t: Seq<RaindropItemView>, rr: Seq<char>|
                                dec_list(v@.skip(cur as int), (count - k) as nat, fd)
                                    == Option::Some((t, rr)) implies old_acc + (seq![xv] + t)
                                =~~= views_of_raindrop(acc@) + t by {
                                assert(old_acc.push(xv) =~~= old_acc + seq![xv]);
                            }
                        }
                    },
                }
            }
            if cur != vl {
                proof {
                    assert(v@.skip(cur as int).len() > 0);
                }
                return Err(CacheError::SerializationError);
            }
            proof {
                assert(dec_list(v@.skip(cur as int), 0nat, fd) == Option::Some(
                    (Seq::<RaindropItemView>::empty(), v@.skip(cur as int)),
                ));
                assert(views_of_raindrop(acc@) + Seq::<RaindropItemView>::empty()
                    =~~= views_of_raindrop(acc@));
                assert(v@.skip(cur as int).len() == 0);
            }
            Ok(acc)
        },
    }
}

} // verus!
