use crate::num::{format_i64, spec_digits_i64};
use crate::query::{keyword_admits, score_ids, split_keywords, take_at_most};
use crate::scores::{views_of_scores, ItemScore, ItemScoreView};
use crate::text::{chars_to_string, spec_str_le};
use vstd::prelude::*;

verus! {

/// One bookmark as the remote source reports it.
#[derive(Debug, Clone, PartialEq)]
pub struct Item {
    pub id: i32,
    pub link: String,
    pub title: String,
    pub excerpt: String,
    pub note: String,
    pub item_type: String,
    pub user: UserRef,
    pub cover: String,
    pub media: Vec<Media>,
    pub tags: Vec<String>,
    pub important: Option<bool>,
    pub removed: bool,
    pub created: String,
    pub collection: CollectionRef,
    pub last_update: String,
    pub domain: String,
    pub sort: i32,
    pub collection_id: i32,
}

#[derive(Debug, Clone, PartialEq)]
pub struct UserRef {
    pub ref_field: String,
    pub id: i32,
}

#[derive(Debug, Clone, PartialEq)]
pub struct Media {
    pub media_type: String,
    pub link: String,
}

#[derive(Debug, Clone, PartialEq)]
pub struct CollectionRef {
    pub ref_field: String,
    pub id: i32,
    pub oid: i32,
}

#[derive(Debug, Clone, PartialEq)]
pub struct CreatorRef {
    pub id: i32,
    pub avatar: String,
    pub name: String,
    pub email: String,
}

/// One page of the remote source's answer.
#[derive(Debug, Clone, PartialEq)]
pub struct RainDropResponse {
    pub result: bool,
    pub items: Vec<Item>,
    pub count: u32,
    pub collection_id: Option<u64>,
}

#[verifier::ext_equal]
pub struct UserRefView {
    pub ref_field: Seq<char>,
    pub id: i32,
}

impl View for UserRef {
    type V = UserRefView;

    open spec fn view(&self) -> UserRefView {
        UserRefView { ref_field: self.ref_field@, id: self.id }
    }
}

#[verifier::ext_equal]
pub struct MediaView {
    pub media_type: Seq<char>,
    pub link: Seq<char>,
}

impl View for Media {
    type V = MediaView;

    open spec fn view(&self) -> MediaView {
        MediaView { media_type: self.media_type@, link: self.link@ }
    }
}

#[verifier::ext_equal]
pub struct CollectionRefView {
    pub ref_field: Seq<char>,
    pub id: i32,
    pub oid: i32,
}

impl View for CollectionRef {
    type V = CollectionRefView;

    open spec fn view(&self) -> CollectionRefView {
        CollectionRefView { ref_field: self.ref_field@, id: self.id, oid: self.oid }
    }
}

/// The whole item as the logic and the snapshot codec see it.
#[verifier::ext_equal]
pub struct RaindropItemView {
    pub id: i32,
    pub link: Seq<char>,
    pub title: Seq<char>,
    pub excerpt: Seq<char>,
    pub note: Seq<char>,
    pub item_type: Seq<char>,
    pub user: UserRefView,
    pub cover: Seq<char>,
    pub media: Seq<MediaView>,
    pub tags: Seq<Seq<char>>,
    pub important: Option<bool>,
    pub removed: bool,
    pub created: Seq<char>,
    pub collection: CollectionRefView,
    pub last_update: Seq<char>,
    pub domain: Seq<char>,
    pub sort: i32,
    pub collection_id: i32,
}

impl View for Item {
    type V = RaindropItemView;

    open spec fn view(&self) -> RaindropItemView {
        RaindropItemView {
            id: self.id,
            link: self.link@,
            title: self.title@,
            excerpt: self.excerpt@,
            note: self.note@,
            item_type: self.item_type@,
            user: self.user@,
            cover: self.cover@,
            media: self.media.deep_view(),
            tags: self.tags.deep_view(),
            important: self.important,
            removed: self.removed,
            created: self.created@,
            collection: self.collection@,
            last_update: self.last_update@,
            domain: self.domain@,
            sort: self.sort,
            collection_id: self.collection_id,
        }
    }
}

impl DeepView for Media {
    type V = MediaView;

    open spec fn deep_view(&self) -> MediaView {
        self@
    }
}

pub open spec fn views_of_raindrop(items: Seq<Item>) -> Seq<RaindropItemView> {
    items.map_values(|it: Item| it@)
}

// ---------- base ordering: latest update stamp first ----------
/// `a` comes no later than `b`: update stamps compare as strings, later
/// stamps first.
pub open spec fn update_ge(a: RaindropItemView, b: RaindropItemView) -> bool {
    spec_str_le(b.last_update, a.last_update)
}

pub open spec fn insert_by_update(x: RaindropItemView, s: Seq<RaindropItemView>) -> Seq<
    RaindropItemView,
>
    decreases s.len(),
{
    if s.len() == 0 {
        seq![x]
    } else if update_ge(x, s[0]) {
        seq![x] + s
    } else {
        seq![s[0]] + insert_by_update(x, s.skip(1))
    }
}

/// The items sorted by update stamp, latest first; ties keep their order.
pub open spec fn sort_by_update(s: Seq<RaindropItemView>) -> Seq<RaindropItemView>
    decreases s.len(),
{
    if s.len() == 0 {
        Seq::empty()
    } else {
        insert_by_update(s[0], sort_by_update(s.skip(1)))
    }
}

proof fn lemma_insert_by_update_at(x: RaindropItemView, s: Seq<RaindropItemView>, p: int)
    requires
        0 <= p <= s.len(),
        forall|j: int| 0 <= j < p ==> !update_ge(x, #[trigger] s[j]),
        p == s.len() || update_ge(x, s[p]),
    ensures
        insert_by_update(x, s) == s.take(p) + seq![x] + s.skip(p),
    decreases p,
{
    if p == 0 {
        assert(insert_by_update(x, s) =~= s.take(0) + seq![x] + s.skip(0));
    } else {
        assert(forall|j: int| 0 <= j < p - 1 ==> !update_ge(x, #[trigger] s.skip(1)[j])) by {
            assert(forall|j: int| 0 <= j < s.len() - 1 ==> s.skip(1)[j] == #[trigger] s[j + 1]);
        }
        if p < s.len() {
            assert(s.skip(1)[p - 1] == s[p]);
        }
        lemma_insert_by_update_at(x, s.skip(1), p - 1);
        assert(s.skip(1).take(p - 1) =~= s.take(p).skip(1));
        assert(s.skip(1).skip(p - 1) =~= s.skip(p));
        assert(insert_by_update(x, s) =~= s.take(p) + seq![x] + s.skip(p));
    }
}

fn insert_item_by_update(out: &mut Vec<Item>, x: Item)
    ensures
        views_of_raindrop(final(out)@) == insert_by_update(x@, views_of_raindrop(old(out)@)),
{
    let ghost sv = views_of_raindrop(out@);
    let n = out.len();
    let mut p: usize = 0;
    while p < n && !crate::text::str_le(&out[p].last_update, &x.last_update)
        invariant
            n == out@.len(),
            p <= n,
            out@ == old(out)@,
            sv == views_of_raindrop(out@),
            forall|j: int| 0 <= j < p ==> !update_ge(x@, #[trigger] sv[j]),
        decreases n - p,
    {
        p = p + 1;
    }
    let ghost xv = x@;
    out.insert(p, x);
    proof {
        lemma_insert_by_update_at(xv, sv, p as int);
        assert(views_of_raindrop(out@) =~~= sv.take(p as int) + seq![xv] + sv.skip(p as int));
    }
}

/// Sorts the items by update stamp, latest first; ties keep their order.
pub fn sort_items_by_update(items: Vec<Item>) -> (r: Vec<Item>)
    ensures
        views_of_raindrop(r@) == sort_by_update(views_of_raindrop(items@)),
{
    let ghost all = views_of_raindrop(items@);
    let mut rest = items;
    let mut out: Vec<Item> = Vec::new();
    proof {
        assert(all.skip(all.len() as int) =~= Seq::<RaindropItemView>::empty());
        assert(views_of_raindrop(rest@) =~= all.take(all.len() as int));
    }
    while rest.len() > 0
        invariant
            rest@.len() <= all.len(),
            views_of_raindrop(rest@) == all.take(rest@.len() as int),
            views_of_raindrop(out@) == sort_by_update(all.skip(rest@.len() as int)),
        decreases rest@.len(),
    {
        let ghost k = rest@.len() as int;
        let x = match rest.pop() {
            Option::Some(x) => x,
            Option::None => {
                proof {
                    assert(false);
                }
                unreached()
            },
        };
        proof {
            assert(x@ == all.take(k)[k - 1]);
            assert(all.take(k)[k - 1] == all[k - 1]);
            assert(views_of_raindrop(rest@) =~~= all.take(k - 1));
            assert(all.skip(k - 1)[0] == all[k - 1]);
            assert(all.skip(k - 1).skip(1) =~= all.skip(k));
        }
        insert_item_by_update(&mut out, x);
        proof {
            assert(views_of_raindrop(out@) == sort_by_update(all.skip(k - 1)));
        }
    }
    proof {
        assert(all.take(0) =~= Seq::<RaindropItemView>::empty());
        assert(all.skip(0) =~= all);
    }
    out
}

// ---------- filtering ----------
pub open spec fn raindrop_admitted(it: RaindropItemView, kws: Seq<Seq<char>>) -> bool {
    forall|k: int| 0 <= k < kws.len() ==> keyword_admits(it.title, it.tags, #[trigger] kws[k])
}

pub open spec fn spec_filter_raindrop(items: Seq<RaindropItemView>, kws: Seq<Seq<char>>) -> Seq<
    RaindropItemView,
>
    decreases items.len(),
{
    if items.len() == 0 {
        Seq::empty()
    } else {
        (if raindrop_admitted(items[0], kws) {
            seq![items[0]]
        } else {
            Seq::empty()
        }) + spec_filter_raindrop(items.skip(1), kws)
    }
}

fn raindrop_admitted_exec(it: &Item, kws: &Vec<String>) -> (r: bool)
    ensures
        r == raindrop_admitted(it@, kws.deep_view()),
{
    let mut k: usize = 0;
    while k < kws.len()
        invariant
            k <= kws@.len(),
            forall|j: int|
                0 <= j < k ==> keyword_admits(it@.title, it@.tags, #[trigger] kws.deep_view()[j]),
        decreases kws@.len() - k,
    {
        proof {
            assert(kws@[k as int]@ == kws.deep_view()[k as int]);
        }
        if !crate::query::keyword_admits_exec(&it.title, &it.tags, &kws[k]) {
            return false;
        }
        k = k + 1;
    }
    true
}

/// Keeps the items every keyword admits; an empty keyword list keeps all.
pub fn filter_raindrop_items(items: Vec<Item>, kws: &Vec<String>) -> (r: Vec<Item>)
    ensures
        views_of_raindrop(r@) == spec_filter_raindrop(views_of_raindrop(items@), kws.deep_view()),
{
    let ghost all = views_of_raindrop(items@);
    let mut rest = items;
    let mut out: Vec<Item> = Vec::new();
    proof {
        assert(views_of_raindrop(out@) =~= Seq::<RaindropItemView>::empty());
    }
    while rest.len() > 0
        invariant
            spec_filter_raindrop(all, kws.deep_view()) == views_of_raindrop(out@)
                + spec_filter_raindrop(views_of_raindrop(rest@), kws.deep_view()),
        decreases rest@.len(),
    {
        let ghost before = views_of_raindrop(rest@);
        let ghost old_out = views_of_raindrop(out@);
        let it = rest.remove(0);
        proof {
            assert(it@ == before[0]);
            assert(views_of_raindrop(rest@) =~~= before.skip(1));
        }
        if raindrop_admitted_exec(&it, kws) {
            out.push(it);
            proof {
                assert(views_of_raindrop(out@) =~~= old_out.push(before[0]));
                assert(old_out + (seq![before[0]] + spec_filter_raindrop(
                    views_of_raindrop(rest@),
                    kws.deep_view(),
                )) =~~= views_of_raindrop(out@) + spec_filter_raindrop(
                    views_of_raindrop(rest@),
                    kws.deep_view(),
                ));
            }
        } else {
            proof {
                assert(old_out + (Seq::<RaindropItemView>::empty() + spec_filter_raindrop(
                    views_of_raindrop(rest@),
                    kws.deep_view(),
                )) =~~= views_of_raindrop(out@) + spec_filter_raindrop(
                    views_of_raindrop(rest@),
                    kws.deep_view(),
                ));
            }
        }
    }
    proof {
        assert(views_of_raindrop(rest@) =~= Seq::<RaindropItemView>::empty());
        assert(views_of_raindrop(out@) + Seq::<RaindropItemView>::empty() =~~= views_of_raindrop(
            out@,
        ));
    }
    out
}

/// The latest-first, keyword-narrowed item list: the search step that runs
/// before promotion.
pub fn search(items: Vec<Item>, query: &str) -> (r: Vec<Item>)
    ensures
        views_of_raindrop(r@) == spec_filter_raindrop(
            sort_by_update(views_of_raindrop(items@)),
            crate::query::spec_keywords(query@),
        ),
{
    let kws = split_keywords(query);
    let sorted = sort_items_by_update(items);
    filter_raindrop_items(sorted, &kws)
}

// ---------- promotion ----------
/// A score record points at the item whose numeric id it renders in decimal:
/// the launcher logs ids as text.
pub open spec fn id_matches(it: RaindropItemView, id: Seq<char>) -> bool {
    spec_digits_i64(it.id as int) == id
}

pub open spec fn rd_first_with_id(items: Seq<RaindropItemView>, id: Seq<char>) -> Option<
    RaindropItemView,
>
    decreases items.len(),
{
    if items.len() == 0 {
        Option::None
    } else if id_matches(items[0], id) {
        Option::Some(items[0])
    } else {
        rd_first_with_id(items.skip(1), id)
    }
}

pub open spec fn rd_promoted_list(items: Seq<RaindropItemView>, ids: Seq<Seq<char>>) -> Seq<
    RaindropItemView,
>
    decreases ids.len(),
{
    if ids.len() == 0 {
        Seq::empty()
    } else {
        (match rd_first_with_id(items, ids[0]) {
            Option::None => Seq::<RaindropItemView>::empty(),
            Option::Some(it) => seq![it],
        }) + rd_promoted_list(items, ids.skip(1))
    }
}

pub open spec fn rd_has_same_id(s: Seq<RaindropItemView>, id: i32) -> bool {
    exists|j: int| 0 <= j < s.len() && (#[trigger] s[j]).id == id
}

pub open spec fn rd_remainder(items: Seq<RaindropItemView>, promoted: Seq<RaindropItemView>) -> Seq<
    RaindropItemView,
>
    decreases items.len(),
{
    if items.len() == 0 {
        Seq::empty()
    } else {
        (if rd_has_same_id(promoted, items[0].id) {
            Seq::<RaindropItemView>::empty()
        } else {
            seq![items[0]]
        }) + rd_remainder(items.skip(1), promoted)
    }
}

/// Promotion: items whose rendered id leads the score list move to the front
/// in score order, the rest follow in their order, nothing doubled by id.
pub open spec fn spec_promote_raindrop(items: Seq<RaindropItemView>, ids: Seq<Seq<char>>) -> Seq<
    RaindropItemView,
> {
    rd_promoted_list(items, ids) + rd_remainder(items, rd_promoted_list(items, ids))
}

proof fn lemma_rd_first_found(items: Seq<RaindropItemView>, id: Seq<char>, j: int)
    requires
        0 <= j < items.len(),
        id_matches(items[j], id),
        forall|k: int| 0 <= k < j ==> !id_matches(#[trigger] items[k], id),
    ensures
        rd_first_with_id(items, id) == Option::Some(items[j]),
    decreases j,
{
    if j > 0 {
        assert(forall|k: int| 0 <= k < j - 1 ==> !id_matches(#[trigger] items.skip(1)[k], id)) by {
            assert(forall|k: int|
                0 <= k < items.len() - 1 ==> items.skip(1)[k] == #[trigger] items[k + 1]);
        }
        assert(items.skip(1)[j - 1] == items[j]);
        lemma_rd_first_found(items.skip(1), id, j - 1);
    }
}

proof fn lemma_rd_first_missing(items: Seq<RaindropItemView>, id: Seq<char>)
    requires
        forall|k: int| 0 <= k < items.len() ==> !id_matches(#[trigger] items[k], id),
    ensures
        rd_first_with_id(items, id) is None,
    decreases items.len(),
{
    if items.len() > 0 {
        assert(forall|k: int|
            0 <= k < items.len() - 1 ==> !id_matches(#[trigger] items.skip(1)[k], id)) by {
            assert(forall|k: int|
                0 <= k < items.len() - 1 ==> items.skip(1)[k] == #[trigger] items[k + 1]);
        }
        lemma_rd_first_missing(items.skip(1), id);
    }
}

proof fn lemma_rd_promoted_snoc(items: Seq<RaindropItemView>, ids: Seq<Seq<char>>, x: Seq<char>)
    ensures
        rd_promoted_list(items, ids.push(x)) == rd_promoted_list(items, ids) + (
        match rd_first_with_id(items, x) {
            Option::None => Seq::<RaindropItemView>::empty(),
            Option::Some(it) => seq![it],
        }),
    decreases ids.len(),
{
    let tail = match rd_first_with_id(items, x) {
        Option::None => Seq::<RaindropItemView>::empty(),
        Option::Some(it) => seq![it],
    };
    if ids.len() == 0 {
        assert(ids.push(x)[0] == x);
        assert(ids.push(x).skip(1) =~= Seq::<Seq<char>>::empty());
        assert(rd_promoted_list(items, Seq::<Seq<char>>::empty())
            == Seq::<RaindropItemView>::empty());
        assert(rd_promoted_list(items, ids.push(x)) =~= tail);
        assert(rd_promoted_list(items, ids) + tail =~= tail);
    } else {
        assert(ids.push(x).skip(1) =~= ids.skip(1).push(x));
        lemma_rd_promoted_snoc(items, ids.skip(1), x);
        assert(ids.push(x)[0] == ids[0]);
        assert(rd_promoted_list(items, ids.push(x)) =~= rd_promoted_list(items, ids) + tail);
    }
}

fn clone_media(v: &Vec<Media>) -> (r: Vec<Media>)
    ensures
        r.deep_view() == v.deep_view(),
{
    let mut out: Vec<Media> = Vec::new();
    let mut i: usize = 0;
    while i < v.len()
        invariant
            i <= v@.len(),
            out.deep_view() == v.deep_view().take(i as int),
        decreases v@.len() - i,
    {
        let ghost old_out = out.deep_view();
        out.push(Media { media_type: v[i].media_type.clone(), link: v[i].link.clone() });
        i = i + 1;
        proof {
            assert(v.deep_view()[i - 1] =~~= v@[i - 1]@);
            assert(out.deep_view() =~~= old_out.push(v@[i - 1]@));
            assert(out.deep_view() =~~= v.deep_view().take(i as int));
        }
    }
    proof {
        assert(out.deep_view() =~~= v.deep_view());
    }
    out
}

fn clone_string_list(v: &Vec<String>) -> (r: Vec<String>)
    ensures
        r@ == v@,
{
    let mut out: Vec<String> = Vec::new();
    let mut i: usize = 0;
    while i < v.len()
        invariant
            i <= v@.len(),
            out@ == v@.take(i as int),
        decreases v@.len() - i,
    {
        out.push(v[i].clone());
        i = i + 1;
        proof {
            assert(out@ =~= v@.take(i as int));
        }
    }
    proof {
        assert(out@ =~= v@);
    }
    out
}

fn clone_raindrop_item(it: &Item) -> (r: Item)
    ensures
        r@ == it@,
{
    let r = Item {
        id: it.id,
        link: it.link.clone(),
        title: it.title.clone(),
        excerpt: it.excerpt.clone(),
        note: it.note.clone(),
        item_type: it.item_type.clone(),
        user: UserRef { ref_field: it.user.ref_field.clone(), id: it.user.id },
        cover: it.cover.clone(),
        media: clone_media(&it.media),
        tags: clone_string_list(&it.tags),
        important: it.important,
        removed: it.removed,
        created: it.created.clone(),
        collection: CollectionRef {
            ref_field: it.collection.ref_field.clone(),
            id: it.collection.id,
            oid: it.collection.oid,
        },
        last_update: it.last_update.clone(),
        domain: it.domain.clone(),
        sort: it.sort,
        collection_id: it.collection_id,
    };
    proof {
        assert(r@ =~~= it@);
    }
    r
}

fn rd_find_index(items: &Vec<Item>, id: &String) -> (r: Option<usize>)
    ensures
        match r {
            Option::Some(j) => j < items@.len() && rd_first_with_id(views_of_raindrop(items@), id@)
                == Option::Some(views_of_raindrop(items@)[j as int]),
            Option::None => rd_first_with_id(views_of_raindrop(items@), id@) is None,
        },
{
    let ghost views = views_of_raindrop(items@);
    let mut j: usize = 0;
    while j < items.len()
        invariant
            j <= views.len(),
            views == views_of_raindrop(items@),
            forall|k: int| 0 <= k < j ==> !id_matches(#[trigger] views[k], id@),
        decreases views.len() - j,
    {
        let rendered = chars_to_string(&format_i64(items[j].id as i64));
        if rendered == *id {
            proof {
                assert(id_matches(views[j as int], id@));
                lemma_rd_first_found(views, id@, j as int);
            }
            return Some(j);
        }
        j = j + 1;
    }
    proof {
        lemma_rd_first_missing(views, id@);
    }
    None
}

fn rd_has_id_exec(s: &Vec<Item>, id: i32) -> (r: bool)
    ensures
        r == rd_has_same_id(views_of_raindrop(s@), id),
{
    let ghost views = views_of_raindrop(s@);
    let mut j: usize = 0;
    while j < s.len()
        invariant
            j <= views.len(),
            views == views_of_raindrop(s@),
            forall|k: int| 0 <= k < j ==> (#[trigger] views[k]).id != id,
        decreases views.len() - j,
    {
        if s[j].id == id {
            proof {
                assert((views[j as int]).id == id);
            }
            return true;
        }
        j = j + 1;
    }
    false
}

/// Moves the items whose rendered ids lead the score list (up to `top_n`) to
/// the front, most recently used first; the rest follow in their order.
pub fn promote_raindrop(items: Vec<Item>, scores: &Vec<ItemScore>, top_n: usize) -> (r: Vec<Item>)
    ensures
        views_of_raindrop(r@) == spec_promote_raindrop(
            views_of_raindrop(items@),
            score_ids(views_of_scores(scores@), top_n as int),
        ),
{
    let ghost iv = views_of_raindrop(items@);
    let ghost ids = score_ids(views_of_scores(scores@), top_n as int);
    let limit: usize = if scores.len() < top_n {
        scores.len()
    } else {
        top_n
    };
    proof {
        assert(ids.len() == limit as int);
        assert(forall|k: int|
            0 <= k < limit ==> ids[k] == (#[trigger] views_of_scores(scores@)[k]).id);
    }
    let mut front: Vec<Item> = Vec::new();
    let mut si: usize = 0;
    proof {
        assert(ids.take(0) =~= Seq::<Seq<char>>::empty());
        assert(views_of_raindrop(front@) =~= rd_promoted_list(iv, ids.take(0)));
    }
    while si < limit
        invariant
            si <= limit,
            limit <= scores@.len(),
            ids.len() == limit as int,
            iv == views_of_raindrop(items@),
            ids == score_ids(views_of_scores(scores@), top_n as int),
            forall|k: int|
                0 <= k < limit ==> ids[k] == (#[trigger] views_of_scores(scores@)[k]).id,
            views_of_raindrop(front@) == rd_promoted_list(iv, ids.take(si as int)),
        decreases limit - si,
    {
        let ghost old_front = views_of_raindrop(front@);
        proof {
            assert(scores@[si as int]@ == views_of_scores(scores@)[si as int]);
            assert(ids[si as int] == scores@[si as int]@.id);
        }
        match rd_find_index(&items, &scores[si].id) {
            Option::Some(j) => {
                let picked = clone_raindrop_item(&items[j]);
                proof {
                    assert(picked@ == iv[j as int]);
                }
                front.push(picked);
                proof {
                    assert(views_of_raindrop(front@) =~~= old_front.push(iv[j as int]));
                }
            },
            Option::None => {},
        }
        proof {
            lemma_rd_promoted_snoc(iv, ids.take(si as int), ids[si as int]);
            assert(ids.take(si as int).push(ids[si as int]) =~= ids.take(si as int + 1));
            assert(views_of_raindrop(front@) =~~= rd_promoted_list(iv, ids.take(si as int + 1)));
        }
        si = si + 1;
    }
    proof {
        assert(ids.take(ids.len() as int) =~= ids);
    }
    let ghost promoted = views_of_raindrop(front@);
    let mut rest = items;
    let mut kept: Vec<Item> = Vec::new();
    proof {
        assert(views_of_raindrop(kept@) + rd_remainder(views_of_raindrop(rest@), promoted)
            =~~= rd_remainder(iv, promoted));
    }
    while rest.len() > 0
        invariant
            views_of_raindrop(kept@) + rd_remainder(views_of_raindrop(rest@), promoted)
                == rd_remainder(iv, promoted),
            promoted == views_of_raindrop(front@),
        decreases rest@.len(),
    {
        let ghost before = views_of_raindrop(rest@);
        let ghost old_kept = views_of_raindrop(kept@);
        let it = rest.remove(0);
        proof {
            assert(it@ == before[0]);
            assert(views_of_raindrop(rest@) =~~= before.skip(1));
        }
        if !rd_has_id_exec(&front, it.id) {
            kept.push(it);
            proof {
                assert(views_of_raindrop(kept@) =~~= old_kept.push(before[0]));
                assert(old_kept + (seq![before[0]] + rd_remainder(
                    views_of_raindrop(rest@),
                    promoted,
                )) =~~= views_of_raindrop(kept@) + rd_remainder(views_of_raindrop(rest@), promoted));
            }
        } else {
            proof {
                assert(old_kept + (Seq::<RaindropItemView>::empty() + rd_remainder(
                    views_of_raindrop(rest@),
                    promoted,
                )) =~~= views_of_raindrop(kept@) + rd_remainder(views_of_raindrop(rest@), promoted));
            }
        }
    }
    proof {
        assert(views_of_raindrop(rest@) =~= Seq::<RaindropItemView>::empty());
        assert(views_of_raindrop(kept@) + Seq::<RaindropItemView>::empty() =~~= views_of_raindrop(
            kept@,
        ));
    }
    let mut out = front;
    let ghost out_before = views_of_raindrop(out@);
    let ghost kept_views = views_of_raindrop(kept@);
    out.append(&mut kept);
    proof {
        assert(views_of_raindrop(out@) =~~= out_before + kept_views);
    }
    out
}

/// Truncates the result list to the configured bound.
pub fn bound_raindrop(items: Vec<Item>, max_results: usize) -> (r: Vec<Item>)
    ensures
        views_of_raindrop(r@) == take_at_most(views_of_raindrop(items@), max_results as int),
{
    let ghost before = views_of_raindrop(items@);
    let mut out = items;
    out.truncate(max_results);
    proof {
        if max_results as int <= before.len() {
            assert(views_of_raindrop(out@) =~~= before.take(max_results as int));
            if before.len() <= max_results as int {
                assert(before.take(max_results as int) =~= before);
            }
        }
    }
    out
}

/// What one bookmark query returns: the snapshot latest-update first,
/// narrowed by every keyword, recently used bookmarks promoted, the whole
/// bounded.
pub open spec fn spec_raindrop_query(
    items: Seq<RaindropItemView>,
    scores: Seq<ItemScoreView>,
    q: Seq<char>,
    top_n: int,
    max_results: int,
) -> Seq<RaindropItemView> {
    take_at_most(
        spec_promote_raindrop(
            spec_filter_raindrop(sort_by_update(items), crate::query::spec_keywords(q)),
            score_ids(scores, top_n),
        ),
        max_results,
    )
}

/// Ranks one bookmark query against the loaded snapshots: pure and
/// deterministic in its arguments.
pub fn raindrop_query(
    items: Vec<Item>,
    scores: &Vec<ItemScore>,
    query: &str,
    top_n: usize,
    max_results: usize,
) -> (r: Vec<Item>)
    ensures
        views_of_raindrop(r@) == spec_raindrop_query(
            views_of_raindrop(items@),
            views_of_scores(scores@),
            query@,
            top_n as int,
            max_results as int,
        ),
{
    let found = search(items, query);
    let merged = promote_raindrop(found, scores, top_n);
    bound_raindrop(merged, max_results)
}

} // verus!
