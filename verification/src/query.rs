use crate::item::{views_of_items, CacheItem, CacheItemView};
use crate::scores::{views_of_scores, ItemScore, ItemScoreView};
use crate::text::{
    chars_to_string, contains_ci, is_space, spec_contains_ci, string_to_chars,
};
use vstd::prelude::*;
use vstd::string::StrSliceExecFns;

verus! {

// ---------- keywords ----------
/// The query's words: maximal runs of non-whitespace characters.
pub open spec fn spec_keywords(q: Seq<char>) -> Seq<Seq<char>> {
    spec_words_rec(q, Seq::empty())
}

pub open spec fn spec_words_rec(s: Seq<char>, cur: Seq<char>) -> Seq<Seq<char>>
    decreases s.len(),
{
    if s.len() == 0 {
        if cur.len() == 0 {
            Seq::empty()
        } else {
            seq![cur]
        }
    } else if is_space(s[0]) {
        if cur.len() == 0 {
            spec_words_rec(s.skip(1), Seq::empty())
        } else {
            seq![cur] + spec_words_rec(s.skip(1), Seq::empty())
        }
    } else {
        spec_words_rec(s.skip(1), cur.push(s[0]))
    }
}

/// Splits the query on whitespace; an empty or all-whitespace query yields no
/// keywords, so nothing is filtered out.
pub fn split_keywords(q: &str) -> (r: Vec<String>)
    ensures
        r.deep_view() == spec_keywords(q@),
{
    let chars = string_to_chars(q);
    let mut words: Vec<String> = Vec::new();
    let mut cur: Vec<char> = Vec::new();
    let mut i: usize = 0;
    proof {
        assert(chars@.skip(0) =~= chars@);
        assert(words.deep_view() =~= Seq::<Seq<char>>::empty());
        assert(spec_keywords(q@) == words.deep_view() + spec_words_rec(chars@.skip(0), cur@));
    }
    while i < chars.len()
        invariant
            i <= chars@.len(),
            chars@ == q@,
            spec_keywords(q@) == words.deep_view() + spec_words_rec(chars@.skip(i as int), cur@),
        decreases chars@.len() - i,
    {
        let ghost pre = chars@.skip(i as int);
        let ghost old_words = words.deep_view();
        let ghost old_cur = cur@;
        let c = chars[i];
        proof {
            assert(pre[0] == c);
            assert(pre.skip(1) =~= chars@.skip(i as int + 1));
        }
        if crate::text::space_char(c) {
            if cur.len() > 0 {
                words.push(chars_to_string(&cur));
                cur = Vec::new();
                proof {
                    assert(words.deep_view() =~~= old_words + seq![old_cur]);
                    assert(words.deep_view() + spec_words_rec(chars@.skip(i as int + 1), cur@)
                        =~~= spec_keywords(q@));
                }
            } else {
                proof {
                    assert(cur@ =~= Seq::<char>::empty());
                }
            }
        } else {
            cur.push(c);
        }
        i = i + 1;
    }
    proof {
        assert(chars@.skip(i as int) =~= Seq::<char>::empty());
    }
    if cur.len() > 0 {
        let ghost old_words = words.deep_view();
        let ghost old_cur = cur@;
        words.push(chars_to_string(&cur));
        proof {
            assert(words.deep_view() =~~= old_words + seq![old_cur]);
            assert(words.deep_view() =~~= spec_keywords(q@));
        }
    } else {
        proof {
            assert(words.deep_view() + Seq::<Seq<char>>::empty() =~~= words.deep_view());
        }
    }
    words
}

// ---------- keyword matching ----------
/// The tag marker: a keyword starting with it, and longer than it alone,
/// matches against tags instead of the title.
pub open spec fn is_tag_keyword(kw: Seq<char>) -> bool {
    kw.len() > 1 && kw[0] == '#'
}

/// One keyword admits an item: a tag keyword must occur in some tag, any
/// other keyword in the title; both matches are case-insensitive.
pub open spec fn keyword_admits(title: Seq<char>, tags: Seq<Seq<char>>, kw: Seq<char>) -> bool {
    if is_tag_keyword(kw) {
        exists|t: int| 0 <= t < tags.len() && spec_contains_ci(#[trigger] tags[t], kw.skip(1))
    } else {
        spec_contains_ci(title, kw)
    }
}

/// Keywords narrow in conjunction: an item survives only if every keyword
/// admits it.
pub open spec fn item_admitted(it: CacheItemView, kws: Seq<Seq<char>>) -> bool {
    forall|k: int| 0 <= k < kws.len() ==> keyword_admits(it.title, it.tags, #[trigger] kws[k])
}

pub fn keyword_admits_exec(title: &String, tags: &Vec<String>, kw: &String) -> (r: bool)
    ensures
        r == keyword_admits(title@, tags.deep_view(), kw@),
{
    let n = kw.as_str().unicode_len();
    let is_tag = n > 1 && kw.as_str().get_char(0) == '#';
    if is_tag {
        let rest = kw.as_str().substring_char(1, n);
        proof {
            assert(rest@ =~= kw@.skip(1));
        }
        let mut t: usize = 0;
        while t < tags.len()
            invariant
                t <= tags@.len(),
                rest@ == kw@.skip(1),
                is_tag_keyword(kw@),
                forall|j: int|
                    0 <= j < t ==> !spec_contains_ci(#[trigger] tags.deep_view()[j], kw@.skip(1)),
            decreases tags@.len() - t,
        {
            proof {
                assert(tags@[t as int]@ == tags.deep_view()[t as int]);
            }
            if contains_ci(tags[t].as_str(), rest) {
                return true;
            }
            t = t + 1;
        }
        false
    } else {
        proof {
            if kw@.len() > 1 {
                assert(kw@[0] != '#');
            }
        }
        contains_ci(title.as_str(), kw.as_str())
    }
}

fn item_admitted_exec(it: &CacheItem, kws: &Vec<String>) -> (r: bool)
    ensures
        r == item_admitted(it@, kws.deep_view()),
{
    let mut k: usize = 0;
    while k < kws.len()
        invariant
            k <= kws@.len(),
            forall|j: int|
                0 <= j < k ==> keyword_admits(it@.title, it@.tags, #[trigger] kws.deep_view()[j]),
        decreases kws@.len() - k,
    {
        proof {
            assert(kws@[k as int]@ == kws.deep_view()[k as int]);
        }
        if !keyword_admits_exec(&it.title, &it.tags, &kws[k]) {
            return false;
        }
        k = k + 1;
    }
    true
}

// ---------- filtering ----------
/// The items every keyword admits, in their given order.
pub open spec fn spec_filter_items(items: Seq<CacheItemView>, kws: Seq<Seq<char>>) -> Seq<
    CacheItemView,
>
    decreases items.len(),
{
    if items.len() == 0 {
        Seq::empty()
    } else {
        (if item_admitted(items[0], kws) {
            seq![items[0]]
        } else {
            Seq::empty()
        }) + spec_filter_items(items.skip(1), kws)
    }
}

/// Keeps the items every keyword admits; an empty keyword list keeps all.
pub fn filter_items(items: Vec<CacheItem>, kws: &Vec<String>) -> (r: Vec<CacheItem>)
    ensures
        views_of_items(r@) == spec_filter_items(views_of_items(items@), kws.deep_view()),
{
    let ghost all = views_of_items(items@);
    let mut rest = items;
    let mut out: Vec<CacheItem> = Vec::new();
    proof {
        assert(views_of_items(out@) =~= Seq::<CacheItemView>::empty());
    }
    while rest.len() > 0
        invariant
            spec_filter_items(all, kws.deep_view()) == views_of_items(out@) + spec_filter_items(
                views_of_items(rest@),
                kws.deep_view(),
            ),
        decreases rest@.len(),
    {
        let ghost before = views_of_items(rest@);
        let ghost old_out = views_of_items(out@);
        let it = rest.remove(0);
        proof {
            assert(it@ == before[0]);
            assert(views_of_items(rest@) =~~= before.skip(1));
        }
        if item_admitted_exec(&it, kws) {
            out.push(it);
            proof {
                assert(views_of_items(out@) =~~= old_out.push(before[0]));
                assert(old_out + (seq![before[0]] + spec_filter_items(
                    views_of_items(rest@),
                    kws.deep_view(),
                )) =~~= views_of_items(out@) + spec_filter_items(
                    views_of_items(rest@),
                    kws.deep_view(),
                ));
            }
        } else {
            proof {
                assert(old_out + (Seq::<CacheItemView>::empty() + spec_filter_items(
                    views_of_items(rest@),
                    kws.deep_view(),
                )) =~~= views_of_items(out@) + spec_filter_items(
                    views_of_items(rest@),
                    kws.deep_view(),
                ));
            }
        }
    }
    proof {
        assert(views_of_items(rest@) =~= Seq::<CacheItemView>::empty());
        assert(views_of_items(out@) + Seq::<CacheItemView>::empty() =~~= views_of_items(out@));
    }
    out
}

// ---------- base ordering: most recently updated first ----------
/// `a` comes no later than `b`: a newer update wins, and items without a
/// timestamp come after all items with one.
pub open spec fn recency_ge(a: CacheItemView, b: CacheItemView) -> bool {
    match (a.updated_at, b.updated_at) {
        (Option::Some(x), Option::Some(y)) => x >= y,
        (Option::Some(_), Option::None) => true,
        (Option::None, Option::Some(_)) => false,
        (Option::None, Option::None) => true,
    }
}

/// `x` placed before the first item it is at least as recent as; among equals
/// `x` comes first.
pub open spec fn insert_recent(x: CacheItemView, s: Seq<CacheItemView>) -> Seq<CacheItemView>
    decreases s.len(),
{
    if s.len() == 0 {
        seq![x]
    } else if recency_ge(x, s[0]) {
        seq![x] + s
    } else {
        seq![s[0]] + insert_recent(x, s.skip(1))
    }
}

/// The items sorted most recently updated first; items without a timestamp
/// after all others.
pub open spec fn sort_recent(s: Seq<CacheItemView>) -> Seq<CacheItemView>
    decreases s.len(),
{
    if s.len() == 0 {
        Seq::empty()
    } else {
        insert_recent(s[0], sort_recent(s.skip(1)))
    }
}

fn recency_ge_exec(a: &CacheItem, b: &CacheItem) -> (r: bool)
    ensures
        r == recency_ge(a@, b@),
{
    match (a.updated_at, b.updated_at) {
        (Option::Some(x), Option::Some(y)) => x >= y,
        (Option::Some(_), Option::None) => true,
        (Option::None, Option::Some(_)) => false,
        (Option::None, Option::None) => true,
    }
}

proof fn lemma_insert_recent_at(x: CacheItemView, s: Seq<CacheItemView>, p: int)
    requires
        0 <= p <= s.len(),
        forall|j: int| 0 <= j < p ==> !recency_ge(x, #[trigger] s[j]),
        p == s.len() || recency_ge(x, s[p]),
    ensures
        insert_recent(x, s) == s.take(p) + seq![x] + s.skip(p),
    decreases p,
{
    if p == 0 {
        assert(insert_recent(x, s) =~= s.take(0) + seq![x] + s.skip(0));
    } else {
        assert(forall|j: int| 0 <= j < p - 1 ==> !recency_ge(x, #[trigger] s.skip(1)[j])) by {
            assert(forall|j: int| 0 <= j < s.len() - 1 ==> s.skip(1)[j] == #[trigger] s[j + 1]);
        }
        if p < s.len() {
            assert(s.skip(1)[p - 1] == s[p]);
        }
        lemma_insert_recent_at(x, s.skip(1), p - 1);
        assert(s.skip(1).take(p - 1) =~= s.take(p).skip(1));
        assert(s.skip(1).skip(p - 1) =~= s.skip(p));
        assert(insert_recent(x, s) =~= s.take(p) + seq![x] + s.skip(p));
    }
}

fn insert_item_recent(out: &mut Vec<CacheItem>, x: CacheItem)
    ensures
        views_of_items(final(out)@) == insert_recent(x@, views_of_items(old(out)@)),
{
    let ghost sv = views_of_items(out@);
    let n = out.len();
    let mut p: usize = 0;
    while p < n && !recency_ge_exec(&x, &out[p])
        invariant
            n == out@.len(),
            p <= n,
            out@ == old(out)@,
            sv == views_of_items(out@),
            forall|j: int| 0 <= j < p ==> !recency_ge(x@, #[trigger] sv[j]),
        decreases n - p,
    {
        p = p + 1;
    }
    let ghost xv = x@;
    out.insert(p, x);
    proof {
        lemma_insert_recent_at(xv, sv, p as int);
        assert(views_of_items(out@) =~~= sv.take(p as int) + seq![xv] + sv.skip(p as int));
    }
}

/// Sorts the items most recently updated first; ties keep their order, items
/// without a timestamp come last.
pub fn sort_items_recent(items: Vec<CacheItem>) -> (r: Vec<CacheItem>)
    ensures
        views_of_items(r@) == sort_recent(views_of_items(items@)),
{
    let ghost all = views_of_items(items@);
    let mut rest = items;
    let mut out: Vec<CacheItem> = Vec::new();
    proof {
        assert(all.skip(all.len() as int) =~= Seq::<CacheItemView>::empty());
        assert(views_of_items(rest@) =~= all.take(all.len() as int));
    }
    while rest.len() > 0
        invariant
            rest@.len() <= all.len(),
            views_of_items(rest@) == all.take(rest@.len() as int),
            views_of_items(out@) == sort_recent(all.skip(rest@.len() as int)),
        decreases rest@.len(),
    {
        let ghost k = rest@.len() as int;
        let x = match rest.pop() {
            Option::Some(x) => x,
            Option::None => {
                proof {
                    assert(false);
                }
                unreached()
            },
        };
        proof {
            assert(x@ == all.take(k)[k - 1]);
            assert(all.take(k)[k - 1] == all[k - 1]);
            assert(views_of_items(rest@) =~~= all.take(k - 1));
            assert(all.skip(k - 1)[0] == all[k - 1]);
            assert(all.skip(k - 1).skip(1) =~= all.skip(k));
        }
        insert_item_recent(&mut out, x);
        proof {
            assert(views_of_items(out@) == sort_recent(all.skip(k - 1)));
        }
    }
    proof {
        assert(all.take(0) =~= Seq::<CacheItemView>::empty());
        assert(all.skip(0) =~= all);
    }
    out
}

// ---------- promotion by recent use ----------
/// The ids of the first `n` score records; the caller loads them sorted by
/// last use, newest first.
pub open spec fn score_ids(scores: Seq<ItemScoreView>, n: int) -> Seq<Seq<char>> {
    let m = if scores.len() <= n {
        scores.len() as int
    } else {
        n
    };
    scores.take(m).map_values(|x: ItemScoreView| x.id)
}

/// The first item carrying the id, if any does.
pub open spec fn first_with_id(items: Seq<CacheItemView>, id: Seq<char>) -> Option<CacheItemView>
    decreases items.len(),
{
    if items.len() == 0 {
        Option::None
    } else if items[0].id == id {
        Option::Some(items[0])
    } else {
        first_with_id(items.skip(1), id)
    }
}

/// For each id, in order, the first item carrying it; ids that no item
/// carries are skipped.
pub open spec fn promoted_list(items: Seq<CacheItemView>, ids: Seq<Seq<char>>) -> Seq<
    CacheItemView,
>
    decreases ids.len(),
{
    if ids.len() == 0 {
        Seq::empty()
    } else {
        (match first_with_id(items, ids[0]) {
            Option::None => Seq::<CacheItemView>::empty(),
            Option::Some(it) => seq![it],
        }) + promoted_list(items, ids.skip(1))
    }
}

pub open spec fn has_id(s: Seq<CacheItemView>, id: Seq<char>) -> bool {
    exists|j: int| 0 <= j < s.len() && (#[trigger] s[j]).id == id
}

/// The items whose id was not promoted, in their given order.
pub open spec fn remainder_of(items: Seq<CacheItemView>, promoted: Seq<CacheItemView>) -> Seq<
    CacheItemView,
>
    decreases items.len(),
{
    if items.len() == 0 {
        Seq::empty()
    } else {
        (if has_id(promoted, items[0].id) {
            Seq::<CacheItemView>::empty()
        } else {
            seq![items[0]]
        }) + remainder_of(items.skip(1), promoted)
    }
}

/// Promotion: the items carrying the given ids move to the front, in id
/// order; the rest follow in their given order; nothing is added or counted
/// twice by id.
pub open spec fn spec_promote(items: Seq<CacheItemView>, ids: Seq<Seq<char>>) -> Seq<
    CacheItemView,
> {
    promoted_list(items, ids) + remainder_of(items, promoted_list(items, ids))
}

proof fn lemma_first_with_id_found(items: Seq<CacheItemView>, id: Seq<char>, j: int)
    requires
        0 <= j < items.len(),
        items[j].id == id,
        forall|k: int| 0 <= k < j ==> (#[trigger] items[k]).id != id,
    ensures
        first_with_id(items, id) == Option::Some(items[j]),
    decreases j,
{
    if j > 0 {
        assert(forall|k: int| 0 <= k < j - 1 ==> (#[trigger] items.skip(1)[k]).id != id) by {
            assert(forall|k: int|
                0 <= k < items.len() - 1 ==> items.skip(1)[k] == #[trigger] items[k + 1]);
        }
        assert(items.skip(1)[j - 1] == items[j]);
        lemma_first_with_id_found(items.skip(1), id, j - 1);
    }
}

proof fn lemma_first_with_id_missing(items: Seq<CacheItemView>, id: Seq<char>)
    requires
        forall|k: int| 0 <= k < items.len() ==> (#[trigger] items[k]).id != id,
    ensures
        first_with_id(items, id) is None,
    decreases items.len(),
{
    if items.len() > 0 {
        assert(forall|k: int| 0 <= k < items.len() - 1 ==> (#[trigger] items.skip(1)[k]).id != id)
            by {
            assert(forall|k: int|
                0 <= k < items.len() - 1 ==> items.skip(1)[k] == #[trigger] items[k + 1]);
        }
        lemma_first_with_id_missing(items.skip(1), id);
    }
}

proof fn lemma_promoted_list_snoc(items: Seq<CacheItemView>, ids: Seq<Seq<char>>, x: Seq<char>)
    ensures
        promoted_list(items, ids.push(x)) == promoted_list(items, ids) + (match first_with_id(
            items,
            x,
        ) {
            Option::None => Seq::<CacheItemView>::empty(),
            Option::Some(it) => seq![it],
        }),
    decreases ids.len(),
{
    let tail = match first_with_id(items, x) {
        Option::None => Seq::<CacheItemView>::empty(),
        Option::Some(it) => seq![it],
    };
    if ids.len() == 0 {
        assert(ids.push(x)[0] == x);
        assert(ids.push(x).skip(1) =~= Seq::<Seq<char>>::empty());
        assert(promoted_list(items, Seq::<Seq<char>>::empty()) == Seq::<CacheItemView>::empty());
        assert(promoted_list(items, ids.push(x)) =~= tail);
        assert(promoted_list(items, ids) + tail =~= tail);
    } else {
        assert(ids.push(x).skip(1) =~= ids.skip(1).push(x));
        lemma_promoted_list_snoc(items, ids.skip(1), x);
        assert(ids.push(x)[0] == ids[0]);
        assert(promoted_list(items, ids.push(x)) =~= promoted_list(items, ids) + tail);
    }
}

fn clone_strings(v: &Vec<String>) -> (r: Vec<String>)
    ensures
        r@ == v@,
{
    let mut out: Vec<String> = Vec::new();
    let mut i: usize = 0;
    while i < v.len()
        invariant
            i <= v@.len(),
            out@ == v@.take(i as int),
        decreases v@.len() - i,
    {
        out.push(v[i].clone());
        i = i + 1;
        proof {
            assert(out@ =~= v@.take(i as int));
        }
    }
    proof {
        assert(out@ =~= v@);
    }
    out
}

fn clone_item(it: &CacheItem) -> (r: CacheItem)
    ensures
        r@ == it@,
{
    let r = CacheItem {
        id: it.id.clone(),
        title: it.title.clone(),
        tags: clone_strings(&it.tags),
        updated_at: it.updated_at,
    };
    proof {
        assert(r@ =~~= it@);
    }
    r
}

fn find_item_index(items: &Vec<CacheItem>, id: &String) -> (r: Option<usize>)
    ensures
        match r {
            Option::Some(j) => j < items@.len() && first_with_id(views_of_items(items@), id@)
                == Option::Some(views_of_items(items@)[j as int]),
            Option::None => first_with_id(views_of_items(items@), id@) is None,
        },
{
    let ghost views = views_of_items(items@);
    let mut j: usize = 0;
    while j < items.len()
        invariant
            j <= views.len(),
            views == views_of_items(items@),
            forall|k: int| 0 <= k < j ==> (#[trigger] views[k]).id != id@,
        decreases views.len() - j,
    {
        if items[j].id == *id {
            proof {
                lemma_first_with_id_found(views, id@, j as int);
            }
            return Some(j);
        }
        j = j + 1;
    }
    proof {
        lemma_first_with_id_missing(views, id@);
    }
    None
}

fn has_id_exec(s: &Vec<CacheItem>, id: &String) -> (r: bool)
    ensures
        r == has_id(views_of_items(s@), id@),
{
    let ghost views = views_of_items(s@);
    let mut j: usize = 0;
    while j < s.len()
        invariant
            j <= views.len(),
            views == views_of_items(s@),
            forall|k: int| 0 <= k < j ==> (#[trigger] views[k]).id != id@,
        decreases views.len() - j,
    {
        if s[j].id == *id {
            proof {
                assert((views[j as int]).id == id@);
            }
            return true;
        }
        j = j + 1;
    }
    false
}

/// Moves the items whose ids lead the score list (up to `top_n` of them) to
/// the front, newest use first; the remaining items follow in their given
/// order. A score id no item carries is skipped.
pub fn promote_scored(items: Vec<CacheItem>, scores: &Vec<ItemScore>, top_n: usize) -> (r: Vec<
    CacheItem,
>)
    ensures
        views_of_items(r@) == spec_promote(
            views_of_items(items@),
            score_ids(views_of_scores(scores@), top_n as int),
        ),
{
    let ghost iv = views_of_items(items@);
    let ghost ids = score_ids(views_of_scores(scores@), top_n as int);
    let limit: usize = if scores.len() < top_n {
        scores.len()
    } else {
        top_n
    };
    proof {
        assert(ids.len() == limit as int);
        assert(forall|k: int|
            0 <= k < limit ==> ids[k] == (#[trigger] views_of_scores(scores@)[k]).id);
    }
    let mut front: Vec<CacheItem> = Vec::new();
    let mut si: usize = 0;
    proof {
        assert(ids.take(0) =~= Seq::<Seq<char>>::empty());
        assert(views_of_items(front@) =~= promoted_list(iv, ids.take(0)));
    }
    while si < limit
        invariant
            si <= limit,
            limit <= scores@.len(),
            ids.len() == limit as int,
            iv == views_of_items(items@),
            ids == score_ids(views_of_scores(scores@), top_n as int),
            forall|k: int|
                0 <= k < limit ==> ids[k] == (#[trigger] views_of_scores(scores@)[k]).id,
            views_of_items(front@) == promoted_list(iv, ids.take(si as int)),
        decreases limit - si,
    {
        let ghost old_front = views_of_items(front@);
        proof {
            assert(scores@[si as int]@ == views_of_scores(scores@)[si as int]);
            assert(ids[si as int] == scores@[si as int]@.id);
        }
        match find_item_index(&items, &scores[si].id) {
            Option::Some(j) => {
                let picked = clone_item(&items[j]);
                proof {
                    assert(picked@ == iv[j as int]);
                }
                front.push(picked);
                proof {
                    assert(views_of_items(front@) =~~= old_front.push(iv[j as int]));
                }
            },
            Option::None => {},
        }
        proof {
            lemma_promoted_list_snoc(iv, ids.take(si as int), ids[si as int]);
            assert(ids.take(si as int).push(ids[si as int]) =~= ids.take(si as int + 1));
            assert(views_of_items(front@) =~~= promoted_list(iv, ids.take(si as int + 1)));
        }
        si = si + 1;
    }
    proof {
        assert(ids.take(ids.len() as int) =~= ids);
    }
    let ghost promoted = views_of_items(front@);
    // collect the unpromoted remainder in its given order, then append it
    let mut rest = items;
    let mut kept: Vec<CacheItem> = Vec::new();
    proof {
        assert(views_of_items(kept@) + remainder_of(views_of_items(rest@), promoted)
            =~~= remainder_of(iv, promoted));
    }
    while rest.len() > 0
        invariant
            views_of_items(kept@) + remainder_of(views_of_items(rest@), promoted) == remainder_of(
                iv,
                promoted,
            ),
            promoted == views_of_items(front@),
        decreases rest@.len(),
    {
        let ghost before = views_of_items(rest@);
        let ghost old_kept = views_of_items(kept@);
        let it = rest.remove(0);
        proof {
            assert(it@ == before[0]);
            assert(views_of_items(rest@) =~~= before.skip(1));
        }
        if !has_id_exec(&front, &it.id) {
            kept.push(it);
            proof {
                assert(views_of_items(kept@) =~~= old_kept.push(before[0]));
                assert(old_kept + (seq![before[0]] + remainder_of(views_of_items(rest@), promoted))
                    =~~= views_of_items(kept@) + remainder_of(views_of_items(rest@), promoted));
            }
        } else {
            proof {
                assert(old_kept + (Seq::<CacheItemView>::empty() + remainder_of(
                    views_of_items(rest@),
                    promoted,
                )) =~~= views_of_items(kept@) + remainder_of(views_of_items(rest@), promoted));
            }
        }
    }
    proof {
        assert(views_of_items(rest@) =~= Seq::<CacheItemView>::empty());
        assert(views_of_items(kept@) + Seq::<CacheItemView>::empty() =~~= views_of_items(kept@));
    }
    let mut out = front;
    let ghost out_before = views_of_items(out@);
    let ghost kept_views = views_of_items(kept@);
    out.append(&mut kept);
    proof {
        assert(views_of_items(out@) =~~= out_before + kept_views);
    }
    out
}

// ---------- bounding ----------
/// At most the first `n` entries.
pub open spec fn take_at_most<T>(s: Seq<T>, n: int) -> Seq<T> {
    if s.len() <= n {
        s
    } else {
        s.take(n)
    }
}

/// Truncates the result list to the configured bound.
pub fn bound_results(items: Vec<CacheItem>, max_results: usize) -> (r: Vec<CacheItem>)
    ensures
        views_of_items(r@) == take_at_most(views_of_items(items@), max_results as int),
{
    let ghost before = views_of_items(items@);
    let mut out = items;
    out.truncate(max_results);
    proof {
        if max_results as int <= before.len() {
            assert(views_of_items(out@) =~~= before.take(max_results as int));
            if before.len() <= max_results as int {
                assert(before.take(max_results as int) =~= before);
            }
        }
    }
    out
}

// ---------- the ranked query ----------
/// What a query returns: the snapshot sorted newest first, narrowed by every
/// keyword, recently used items promoted to the front, and the whole bounded.
pub open spec fn spec_rank(
    items: Seq<CacheItemView>,
    scores: Seq<ItemScoreView>,
    q: Seq<char>,
    top_n: int,
    max_results: int,
) -> Seq<CacheItemView> {
    take_at_most(
        spec_promote(
            spec_filter_items(sort_recent(items), spec_keywords(q)),
            score_ids(scores, top_n),
        ),
        max_results,
    )
}

/// Ranks one query against loaded snapshots. Pure: deterministic in its
/// arguments, no side effects.
pub fn rank(
    items: Vec<CacheItem>,
    scores: &Vec<ItemScore>,
    query: &str,
    top_n: usize,
    max_results: usize,
) -> (r: Vec<CacheItem>)
    ensures
        views_of_items(r@) == spec_rank(
            views_of_items(items@),
            views_of_scores(scores@),
            query@,
            top_n as int,
            max_results as int,
        ),
{
    let kws = split_keywords(query);
    let sorted = sort_items_recent(items);
    let filtered = filter_items(sorted, &kws);
    let merged = promote_scored(filtered, scores, top_n);
    bound_results(merged, max_results)
}

/// The query entry point over what was read from disk: a snapshot that could
/// not be read or decoded yields an empty result, never an error.
pub fn query_snapshot(
    items_load: Result<Vec<CacheItem>, crate::error::CacheError>,
    scores: &Vec<ItemScore>,
    query: &str,
    top_n: usize,
    max_results: usize,
) -> (r: Vec<CacheItem>)
    ensures
        match items_load {
            Result::Ok(items) => views_of_items(r@) == spec_rank(
                views_of_items(items@),
                views_of_scores(scores@),
                query@,
                top_n as int,
                max_results as int,
            ),
            Result::Err(_) => r@.len() == 0,
        },
{
    match items_load {
        Result::Ok(items) => rank(items, scores, query, top_n, max_results),
        Result::Err(_) => Vec::new(),
    }
}

// ---------- laws ----------
/// Keywords narrow by intersection: any order of the same keywords filters to
/// the same items.
pub proof fn lemma_filter_keyword_order(
    items: Seq<CacheItemView>,
    kws1: Seq<Seq<char>>,
    kws2: Seq<Seq<char>>,
)
    requires
        kws1.to_multiset() == kws2.to_multiset(),
    ensures
        spec_filter_items(items, kws1) == spec_filter_items(items, kws2),
    decreases items.len(),
{
    broadcast use vstd::seq_lib::group_to_multiset_ensures;

    assert forall|it: CacheItemView| item_admitted(it, kws1) == item_admitted(it, kws2) by {
        assert forall|k: int|
            (0 <= k < kws2.len() && item_admitted(it, kws1)) implies keyword_admits(
            it.title,
            it.tags,
            #[trigger] kws2[k],
        ) by {
            assert(kws2.contains(kws2[k]));
            assert(kws2.to_multiset().count(kws2[k]) > 0);
            assert(kws1.to_multiset().count(kws2[k]) > 0);
            assert(kws1.contains(kws2[k]));
            let j = choose|j: int| 0 <= j < kws1.len() && kws1[j] == kws2[k];
            assert(keyword_admits(it.title, it.tags, kws1[j]));
        }
        assert forall|k: int|
            (0 <= k < kws1.len() && item_admitted(it, kws2)) implies keyword_admits(
            it.title,
            it.tags,
            #[trigger] kws1[k],
        ) by {
            assert(kws1.contains(kws1[k]));
            assert(kws1.to_multiset().count(kws1[k]) > 0);
            assert(kws2.to_multiset().count(kws1[k]) > 0);
            assert(kws2.contains(kws1[k]));
            let j = choose|j: int| 0 <= j < kws2.len() && kws2[j] == kws1[k];
            assert(keyword_admits(it.title, it.tags, kws2[j]));
        }
    }
    if items.len() > 0 {
        lemma_filter_keyword_order(items.skip(1), kws1, kws2);
    }
}

proof fn lemma_promoted_list_remove(items: Seq<CacheItemView>, ids: Seq<Seq<char>>, k: int)
    requires
        0 <= k < ids.len(),
        first_with_id(items, ids[k]) is None,
    ensures
        promoted_list(items, ids) == promoted_list(items, ids.remove(k)),
    decreases k,
{
    if k == 0 {
        assert(ids.remove(0) =~= ids.skip(1));
    } else {
        assert(ids.remove(k).skip(1) =~= ids.skip(1).remove(k - 1));
        assert(ids.skip(1)[k - 1] == ids[k]);
        lemma_promoted_list_remove(items, ids.skip(1), k - 1);
        assert(ids.remove(k)[0] == ids[0]);
        assert(promoted_list(items, ids) =~= promoted_list(items, ids.remove(k)));
    }
}

/// A score entry whose id no current item carries is simply skipped during
/// promotion: the result is as if the entry were not there at all.
pub proof fn lemma_dangling_id_skipped(items: Seq<CacheItemView>, ids: Seq<Seq<char>>, k: int)
    requires
        0 <= k < ids.len(),
        first_with_id(items, ids[k]) is None,
    ensures
        spec_promote(items, ids) == spec_promote(items, ids.remove(k)),
{
    lemma_promoted_list_remove(items, ids, k);
}

/// The base ordering is sorted: each result comes no later than the next, a
/// missing timestamp counting as oldest.
pub proof fn lemma_sort_recent_sorted(s: Seq<CacheItemView>)
    ensures
        forall|i: int, j: int|
            0 <= i < j < sort_recent(s).len() ==> recency_ge(
                #[trigger] sort_recent(s)[i],
                #[trigger] sort_recent(s)[j],
            ),
        sort_recent(s).len() == s.len(),
    decreases s.len(),
{
    if s.len() > 0 {
        lemma_sort_recent_sorted(s.skip(1));
        lemma_insert_recent_sorted(s[0], sort_recent(s.skip(1)));
    }
}

proof fn lemma_insert_recent_sorted(x: CacheItemView, s: Seq<CacheItemView>)
    requires
        forall|i: int, j: int|
            0 <= i < j < s.len() ==> recency_ge(#[trigger] s[i], #[trigger] s[j]),
    ensures
        forall|i: int, j: int|
            0 <= i < j < insert_recent(x, s).len() ==> recency_ge(
                #[trigger] insert_recent(x, s)[i],
                #[trigger] insert_recent(x, s)[j],
            ),
        insert_recent(x, s).len() == s.len() + 1,
        forall|k: int|
            0 <= k < insert_recent(x, s).len() ==> (#[trigger] insert_recent(x, s)[k]) == x
                || exists|j: int| 0 <= j < s.len() && s[j] == insert_recent(x, s)[k],
    decreases s.len(),
{
    let r = insert_recent(x, s);
    if s.len() == 0 {
        assert(r[0] == x);
    } else if recency_ge(x, s[0]) {
        assert(forall|k: int| 1 <= k < r.len() ==> r[k] == #[trigger] s[k - 1]);
        assert(forall|i: int, j: int|
            0 <= i < j < r.len() ==> recency_ge(#[trigger] r[i], #[trigger] r[j]));
    } else {
        assert(forall|i: int, j: int|
            0 <= i < j < s.len() - 1 ==> recency_ge(
                #[trigger] s.skip(1)[i],
                #[trigger] s.skip(1)[j],
            )) by {
            assert(forall|j: int| 0 <= j < s.len() - 1 ==> s.skip(1)[j] == #[trigger] s[j + 1]);
        }
        lemma_insert_recent_sorted(x, s.skip(1));
        let r1 = insert_recent(x, s.skip(1));
        assert(forall|k: int| 1 <= k < r.len() ==> r[k] == #[trigger] r1[k - 1]);
        // the head comes no later than anything inserted behind it: the tail
        // holds x, which it beats, and old tail items, which it preceded
        assert forall|k: int| 1 <= k < r.len() implies recency_ge(r[0], #[trigger] r[k]) by {
            assert(r1[k - 1] == x || exists|j: int|
                0 <= j < s.skip(1).len() && s.skip(1)[j] == r1[k - 1]);
            if r1[k - 1] == x {
                assert(!recency_ge(x, s[0]));
                assert(recency_ge(s[0], x)) by {
                    match (s[0].updated_at, x.updated_at) {
                        (Option::Some(a), Option::Some(b)) => {},
                        (Option::Some(_), Option::None) => {},
                        (Option::None, Option::Some(_)) => {},
                        (Option::None, Option::None) => {},
                    }
                }
            } else {
                let j = choose|j: int| 0 <= j < s.skip(1).len() && s.skip(1)[j] == r1[k - 1];
                assert(s.skip(1)[j] == s[j + 1]);
                assert(recency_ge(s[0], s[j + 1]));
            }
        }
        assert forall|k: int| 0 <= k < r.len() implies (#[trigger] r[k]) == x || exists|j: int|
            0 <= j < s.len() && s[j] == r[k] by {
            if k == 0 {
                assert(s[0] == r[0]);
            } else if r1[k - 1] != x {
                let j = choose|j: int| 0 <= j < s.skip(1).len() && s.skip(1)[j] == r1[k - 1];
                assert(s[j + 1] == r[k]);
            }
        }
    }
}

/// The base ordering loses no item and invents none.
pub proof fn lemma_sort_recent_permutes(s: Seq<CacheItemView>)
    ensures
        sort_recent(s).to_multiset() == s.to_multiset(),
    decreases s.len(),
{
    broadcast use vstd::seq_lib::group_to_multiset_ensures;

    if s.len() > 0 {
        lemma_sort_recent_permutes(s.skip(1));
        lemma_insert_recent_multiset(s[0], sort_recent(s.skip(1)));
        assert(s =~= seq![s[0]] + s.skip(1));
        vstd::seq_lib::lemma_multiset_commutative(seq![s[0]], s.skip(1));
        assert(seq![s[0]].to_multiset() =~= vstd::multiset::Multiset::<
            CacheItemView,
        >::empty().insert(s[0])) by {
            assert(seq![s[0]] =~= Seq::<CacheItemView>::empty().push(s[0]));
        }
        assert(s.to_multiset() =~= s.skip(1).to_multiset().insert(s[0]));
    }
}

proof fn lemma_insert_recent_multiset(x: CacheItemView, s: Seq<CacheItemView>)
    ensures
        insert_recent(x, s).to_multiset() == s.to_multiset().insert(x),
    decreases s.len(),
{
    broadcast use vstd::seq_lib::group_to_multiset_ensures;

    if s.len() == 0 {
        assert(insert_recent(x, s) =~= Seq::<CacheItemView>::empty().push(x));
    } else if recency_ge(x, s[0]) {
        vstd::seq_lib::lemma_multiset_commutative(seq![x], s);
        assert(seq![x].to_multiset() =~= vstd::multiset::Multiset::<
            CacheItemView,
        >::empty().insert(x)) by {
            assert(seq![x] =~= Seq::<CacheItemView>::empty().push(x));
        }
        assert((seq![x] + s).to_multiset() =~= s.to_multiset().insert(x));
    } else {
        lemma_insert_recent_multiset(x, s.skip(1));
        let r1 = insert_recent(x, s.skip(1));
        vstd::seq_lib::lemma_multiset_commutative(seq![s[0]], r1);
        vstd::seq_lib::lemma_multiset_commutative(seq![s[0]], s.skip(1));
        assert(seq![s[0]].to_multiset() =~= vstd::multiset::Multiset::<
            CacheItemView,
        >::empty().insert(s[0])) by {
            assert(seq![s[0]] =~= Seq::<CacheItemView>::empty().push(s[0]));
        }
        assert(s =~= seq![s[0]] + s.skip(1));
        assert((seq![s[0]] + r1).to_multiset() =~= s.to_multiset().insert(x));
    }
}

// ---------- promotion is a permutation ----------
/// Each item carries its own identity: no two items share an id.
pub open spec fn unique_item_ids(items: Seq<CacheItemView>) -> bool {
    forall|i: int, j: int|
        0 <= i < j < items.len() ==> (#[trigger] items[i]).id != (#[trigger] items[j]).id
}

/// No id is promoted twice.
pub open spec fn distinct_ids(ids: Seq<Seq<char>>) -> bool {
    forall|i: int, j: int| 0 <= i < j < ids.len() ==> (#[trigger] ids[i]) != (#[trigger] ids[j])
}

/// How many items the promoted head hits by id.
pub open spec fn promoted_hits(items: Seq<CacheItemView>, promoted: Seq<CacheItemView>) -> int
    decreases items.len(),
{
    if items.len() == 0 {
        0
    } else {
        (if has_id(promoted, items[0].id) {
            1int
        } else {
            0int
        }) + promoted_hits(items.skip(1), promoted)
    }
}

proof fn lemma_remainder_len(items: Seq<CacheItemView>, promoted: Seq<CacheItemView>)
    ensures
        remainder_of(items, promoted).len() == items.len() - promoted_hits(items, promoted),
        0 <= promoted_hits(items, promoted) <= items.len(),
    decreases items.len(),
{
    if items.len() > 0 {
        lemma_remainder_len(items.skip(1), promoted);
    }
}

proof fn lemma_has_id_push(p: Seq<CacheItemView>, q: CacheItemView, x: Seq<char>)
    ensures
        has_id(p.push(q), x) == (has_id(p, x) || q.id == x),
{
    if has_id(p.push(q), x) {
        let j = choose|j: int| 0 <= j < p.push(q).len() && (#[trigger] p.push(q)[j]).id == x;
        if j < p.len() {
            assert(p[j] == p.push(q)[j]);
        }
    }
    if has_id(p, x) {
        let j = choose|j: int| 0 <= j < p.len() && (#[trigger] p[j]).id == x;
        assert(p.push(q)[j].id == x);
    }
    if q.id == x {
        assert(p.push(q)[p.len() as int].id == x);
    }
}

proof fn lemma_hits_push_absent(items: Seq<CacheItemView>, p: Seq<CacheItemView>, q: CacheItemView)
    requires
        forall|k: int| 0 <= k < items.len() ==> (#[trigger] items[k]).id != q.id,
    ensures
        promoted_hits(items, p.push(q)) == promoted_hits(items, p),
    decreases items.len(),
{
    if items.len() > 0 {
        lemma_has_id_push(p, q, items[0].id);
        assert(forall|k: int|
            0 <= k < items.len() - 1 ==> (#[trigger] items.skip(1)[k]).id != q.id) by {
            assert(forall|k: int|
                0 <= k < items.len() - 1 ==> items.skip(1)[k] == #[trigger] items[k + 1]);
        }
        lemma_hits_push_absent(items.skip(1), p, q);
    }
}

proof fn lemma_hits_push(items: Seq<CacheItemView>, p: Seq<CacheItemView>, q: CacheItemView)
    requires
        unique_item_ids(items),
        forall|i: int| 0 <= i < p.len() ==> (#[trigger] p[i]).id != q.id,
        exists|k: int| 0 <= k < items.len() && (#[trigger] items[k]).id == q.id,
    ensures
        promoted_hits(items, p.push(q)) == promoted_hits(items, p) + 1,
    decreases items.len(),
{
    let h = items[0];
    lemma_has_id_push(p, q, h.id);
    assert(unique_item_ids(items.skip(1))) by {
        assert(forall|k: int|
            0 <= k < items.len() - 1 ==> items.skip(1)[k] == #[trigger] items[k + 1]);
    }
    if h.id == q.id {
        // the head is the one hit; uniqueness keeps the id out of the tail
        assert(!has_id(p, h.id));
        assert(forall|k: int|
            0 <= k < items.len() - 1 ==> (#[trigger] items.skip(1)[k]).id != q.id) by {
            assert(forall|k: int|
                0 <= k < items.len() - 1 ==> items.skip(1)[k] == #[trigger] items[k + 1]);
        }
        lemma_hits_push_absent(items.skip(1), p, q);
    } else {
        // the hit item sits in the tail
        let k = choose|k: int| 0 <= k < items.len() && (#[trigger] items[k]).id == q.id;
        assert(items.skip(1)[k - 1] == items[k]);
        lemma_hits_push(items.skip(1), p, q);
    }
}

proof fn lemma_hits_empty(items: Seq<CacheItemView>)
    ensures
        promoted_hits(items, Seq::empty()) == 0,
    decreases items.len(),
{
    if items.len() > 0 {
        lemma_hits_empty(items.skip(1));
    }
}

proof fn lemma_hits_count(items: Seq<CacheItemView>, promoted: Seq<CacheItemView>)
    requires
        unique_item_ids(items),
        forall|i: int, j: int|
            0 <= i < j < promoted.len() ==> (#[trigger] promoted[i]).id != (
            #[trigger] promoted[j]).id,
        forall|i: int|
            0 <= i < promoted.len() ==> exists|k: int|
                0 <= k < items.len() && (#[trigger] items[k]).id == (#[trigger] promoted[i]).id,
    ensures
        promoted_hits(items, promoted) == promoted.len(),
    decreases promoted.len(),
{
    if promoted.len() == 0 {
        assert(promoted =~= Seq::<CacheItemView>::empty());
        lemma_hits_empty(items);
    } else {
        let rest = promoted.drop_last();
        let q = promoted.last();
        assert(promoted =~= rest.push(q));
        assert(forall|i: int| 0 <= i < rest.len() ==> rest[i] == #[trigger] promoted[i]);
        lemma_hits_count(items, rest);
        lemma_hits_push(items, rest, q);
    }
}

proof fn lemma_first_with_id_props(items: Seq<CacheItemView>, id: Seq<char>)
    ensures
        first_with_id(items, id) is Some ==> first_with_id(items, id).unwrap().id == id
            && exists|k: int| 0 <= k < items.len() && (#[trigger] items[k]).id == id,
    decreases items.len(),
{
    if items.len() > 0 && items[0].id != id {
        lemma_first_with_id_props(items.skip(1), id);
        if first_with_id(items, id) is Some {
            let k = choose|k: int|
                0 <= k < items.skip(1).len() && (#[trigger] items.skip(1)[k]).id == id;
            assert(items[k + 1].id == id);
        }
    }
}

proof fn lemma_promoted_props(items: Seq<CacheItemView>, ids: Seq<Seq<char>>)
    requires
        distinct_ids(ids),
    ensures
        forall|i: int, j: int|
            0 <= i < j < promoted_list(items, ids).len() ==> (#[trigger] promoted_list(
                items,
                ids,
            )[i]).id != (#[trigger] promoted_list(items, ids)[j]).id,
        forall|i: int|
            0 <= i < promoted_list(items, ids).len() ==> exists|j: int|
                0 <= j < ids.len() && (#[trigger] promoted_list(items, ids)[i]).id == (
                #[trigger] ids[j]),
        forall|i: int|
            0 <= i < promoted_list(items, ids).len() ==> exists|k: int|
                0 <= k < items.len() && (#[trigger] items[k]).id == (#[trigger] promoted_list(
                    items,
                    ids,
                )[i]).id,
    decreases ids.len(),
{
    if ids.len() > 0 {
        assert(distinct_ids(ids.skip(1))) by {
            assert(forall|j: int| 0 <= j < ids.len() - 1 ==> ids.skip(1)[j] == #[trigger] ids[j
                + 1]);
        }
        lemma_promoted_props(items, ids.skip(1));
        lemma_first_with_id_props(items, ids[0]);
        let p = promoted_list(items, ids);
        let p1 = promoted_list(items, ids.skip(1));
        match first_with_id(items, ids[0]) {
            Option::None => {
                assert(p =~= p1);
                assert forall|i: int| 0 <= i < p.len() implies exists|j: int|
                    0 <= j < ids.len() && (#[trigger] p[i]).id == (#[trigger] ids[j]) by {
                    let j1 = choose|j1: int|
                        0 <= j1 < ids.skip(1).len() && (#[trigger] p1[i]).id == ids.skip(1)[j1];
                    assert(ids[j1 + 1] == ids.skip(1)[j1]);
                }
            },
            Option::Some(it) => {
                assert(forall|i: int| 1 <= i < p.len() ==> p[i] == #[trigger] p1[i - 1]);
                assert(p[0] == it);
                assert(it.id == ids[0]);
                // every tail entry carries an id from the tail ids, which all
                // differ from the head id
                assert forall|i: int| 1 <= i < p.len() implies (#[trigger] p[i]).id != p[0].id by {
                    let j1 = choose|j1: int|
                        0 <= j1 < ids.skip(1).len() && (#[trigger] p1[i - 1]).id == ids.skip(1)[j1];
                    assert(ids[j1 + 1] == ids.skip(1)[j1]);
                    assert(ids[j1 + 1] != ids[0]);
                }
                assert forall|i: int| 0 <= i < p.len() implies exists|j: int|
                    0 <= j < ids.len() && (#[trigger] p[i]).id == (#[trigger] ids[j]) by {
                    if i == 0 {
                        assert(p[0].id == ids[0]);
                    } else {
                        let j1 = choose|j1: int|
                            0 <= j1 < ids.skip(1).len() && (#[trigger] p1[i - 1]).id == ids.skip(
                                1,
                            )[j1];
                        assert(ids[j1 + 1] == ids.skip(1)[j1]);
                    }
                }
                assert forall|i: int| 0 <= i < p.len() implies exists|k: int|
                    0 <= k < items.len() && (#[trigger] items[k]).id == (#[trigger] p[i]).id by {
                    if i == 0 {
                        assert(first_with_id(items, ids[0]) is Some);
                    }
                }
            },
        }
    }
}

/// Promotion is a permutation: when no two items share an id (each item its
/// own identity) and no id is promoted twice (the score snapshot invariant),
/// promotion drops nothing and doubles nothing — the merged list has exactly
/// the filtered items. With the bound, a query over `m` surviving items
/// returns exactly the first `min(max, m)` of the merged order.
pub proof fn lemma_promote_preserves_len(items: Seq<CacheItemView>, ids: Seq<Seq<char>>)
    requires
        unique_item_ids(items),
        distinct_ids(ids),
    ensures
        spec_promote(items, ids).len() == items.len(),
{
    let promoted = promoted_list(items, ids);
    lemma_promoted_props(items, ids);
    lemma_remainder_len(items, promoted);
    lemma_hits_count(items, promoted);
}

} // verus!
