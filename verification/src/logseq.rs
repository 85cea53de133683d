use crate::item::{views_of_items, CacheItem, CacheItemView};
use crate::num::{format_i64, spec_digits_i64};
use crate::query::{sort_items_recent, sort_recent, take_at_most};
use crate::text::{chars_to_string, spec_contains_ci, string_eq_lit, string_to_chars};
use vstd::prelude::*;
use vstd::seq_lib::group_to_multiset_ensures;
use vstd::string::StringExecFns;

verus! {

broadcast use group_to_multiset_ensures;

/// One note page: its display title, the stable id the launcher opens it by,
/// its tags, and when it was last updated.
#[derive(Debug, Clone, PartialEq)]
pub struct LogseqPage {
    pub title: String,
    pub uuid: String,
    pub tags: Vec<String>,
    pub updated_at: Option<i64>,
}

#[verifier::ext_equal]
pub struct LogseqPageView {
    pub title: Seq<char>,
    pub uuid: Seq<char>,
    pub tags: Seq<Seq<char>>,
    pub updated_at: Option<i64>,
}

impl View for LogseqPage {
    type V = LogseqPageView;

    open spec fn view(&self) -> LogseqPageView {
        LogseqPageView {
            title: self.title@,
            uuid: self.uuid@,
            tags: self.tags.deep_view(),
            updated_at: self.updated_at,
        }
    }
}

pub open spec fn views_of_pages(pages: Seq<LogseqPage>) -> Seq<LogseqPageView> {
    pages.map_values(|p: LogseqPage| p@)
}

/// One raw block as the note tool reports it; every field may be missing.
#[derive(Debug, Clone, PartialEq)]
pub struct LogseqBlock {
    pub title: Option<String>,
    pub uuid: Option<String>,
    pub tags: Option<Vec<TagRef>>,
    pub updated_at: Option<i64>,
}

/// A reference to a tag entity, by numeric id.
#[derive(Debug, Clone, Copy, PartialEq, Eq, Structural)]
pub struct TagRef {
    pub id: Option<i64>,
}

/// A page is one item of the core cache model: the uuid is its identity.
pub open spec fn item_view_of_page(p: LogseqPageView) -> CacheItemView {
    CacheItemView { id: p.uuid, title: p.title, tags: p.tags, updated_at: p.updated_at }
}

pub fn page_to_item(p: LogseqPage) -> (r: CacheItem)
    ensures
        r@ == item_view_of_page(p@),
{
    let r = CacheItem { id: p.uuid, title: p.title, tags: p.tags, updated_at: p.updated_at };
    proof {
        assert(r@ =~~= item_view_of_page(p@));
    }
    r
}

pub fn item_to_page(it: CacheItem) -> (r: LogseqPage)
    ensures
        item_view_of_page(r@) == it@,
        r@ == page_view_of_item(it@),
{
    let r = LogseqPage { title: it.title, uuid: it.id, tags: it.tags, updated_at: it.updated_at };
    proof {
        assert(item_view_of_page(r@) =~~= it@);
        assert(r@ =~~= page_view_of_item(it@));
    }
    r
}

/// The page seen as a core item, and back: the two shapes carry the same
/// fields under different names.
pub open spec fn page_view_of_item(it: CacheItemView) -> LogseqPageView {
    LogseqPageView { title: it.title, uuid: it.id, tags: it.tags, updated_at: it.updated_at }
}

pub open spec fn items_of_pages(ps: Seq<LogseqPageView>) -> Seq<CacheItemView> {
    ps.map_values(|p: LogseqPageView| item_view_of_page(p))
}

pub open spec fn pages_of_items(s: Seq<CacheItemView>) -> Seq<LogseqPageView> {
    s.map_values(|it: CacheItemView| page_view_of_item(it))
}

pub fn pages_to_items(pages: Vec<LogseqPage>) -> (r: Vec<CacheItem>)
    ensures
        views_of_items(r@) == items_of_pages(views_of_pages(pages@)),
{
    let ghost all = views_of_pages(pages@);
    let mut rest = pages;
    let mut out: Vec<CacheItem> = Vec::new();
    proof {
        assert(views_of_pages(rest@) =~= all.skip(0));
        assert(views_of_items(out@) =~= items_of_pages(all).take(0));
    }
    while rest.len() > 0
        invariant
            rest@.len() <= all.len(),
            views_of_pages(rest@) == all.skip(all.len() - rest@.len()),
            views_of_items(out@) == items_of_pages(all).take(all.len() - rest@.len()),
        decreases rest@.len(),
    {
        let ghost k = all.len() - rest@.len();
        let ghost before = views_of_pages(rest@);
        let ghost old_out = views_of_items(out@);
        let p = rest.remove(0);
        proof {
            assert(p@ == before[0]);
            assert(before[0] == all[k as int]);
            assert(views_of_pages(rest@) =~~= before.skip(1));
            assert(before.skip(1) =~= all.skip(k + 1));
        }
        out.push(page_to_item(p));
        proof {
            assert(views_of_items(out@) =~~= old_out.push(item_view_of_page(all[k as int])));
            assert(items_of_pages(all)[k as int] == item_view_of_page(all[k as int]));
            assert(views_of_items(out@) =~~= items_of_pages(all).take(k + 1));
        }
    }
    proof {
        assert(items_of_pages(all).take(all.len() as int) =~= items_of_pages(all));
    }
    out
}

// ---------- block conversion ----------
#[verifier::ext_equal]
pub struct LogseqBlockView {
    pub title: Option<Seq<char>>,
    pub uuid: Option<Seq<char>>,
    pub tags: Option<Seq<TagRef>>,
    pub updated_at: Option<i64>,
}

impl View for LogseqBlock {
    type V = LogseqBlockView;

    open spec fn view(&self) -> LogseqBlockView {
        LogseqBlockView {
            title: match self.title {
                Option::None => Option::None,
                Option::Some(t) => Option::Some(t@),
            },
            uuid: match self.uuid {
                Option::None => Option::None,
                Option::Some(u) => Option::Some(u@),
            },
            tags: match self.tags {
                Option::None => Option::None,
                Option::Some(ts) => Option::Some(ts@),
            },
            updated_at: self.updated_at,
        }
    }
}

pub open spec fn views_of_blocks(bs: Seq<LogseqBlock>) -> Seq<LogseqBlockView> {
    bs.map_values(|b: LogseqBlock| b@)
}

/// The tag name a tag reference renders to: `tag-` and the entity id in
/// decimal; references without an id are dropped.
pub open spec fn tag_names_of_refs(rs: Seq<TagRef>) -> Seq<Seq<char>>
    decreases rs.len(),
{
    if rs.len() == 0 {
        Seq::empty()
    } else {
        (match rs[0].id {
            Option::None => Seq::<Seq<char>>::empty(),
            Option::Some(id) => seq![seq!['t', 'a', 'g', '-'] + spec_digits_i64(id as int)],
        }) + tag_names_of_refs(rs.skip(1))
    }
}

/// What a raw block becomes: missing titles read `Untitled`, a missing uuid
/// is empty, tag references render to names.
pub open spec fn page_of_block(b: LogseqBlockView) -> LogseqPageView {
    LogseqPageView {
        title: match b.title {
            Option::None => "Untitled"@,
            Option::Some(t) => t,
        },
        uuid: match b.uuid {
            Option::None => Seq::empty(),
            Option::Some(u) => u,
        },
        tags: match b.tags {
            Option::None => Seq::empty(),
            Option::Some(rs) => tag_names_of_refs(rs),
        },
        updated_at: b.updated_at,
    }
}

fn render_tag_refs(rs: &Vec<TagRef>) -> (r: Vec<String>)
    ensures
        r.deep_view() == tag_names_of_refs(rs@),
{
    let mut out: Vec<String> = Vec::new();
    let mut i: usize = 0;
    proof {
        assert(rs@.skip(0) =~= rs@);
        assert(out.deep_view() + tag_names_of_refs(rs@.skip(0)) =~~= tag_names_of_refs(rs@));
    }
    while i < rs.len()
        invariant
            i <= rs@.len(),
            tag_names_of_refs(rs@) == out.deep_view() + tag_names_of_refs(rs@.skip(i as int)),
        decreases rs@.len() - i,
    {
        let ghost pre = rs@.skip(i as int);
        let ghost old_out = out.deep_view();
        proof {
            assert(pre[0] == rs@[i as int]);
            assert(pre.skip(1) =~= rs@.skip(i as int + 1));
        }
        match rs[i].id {
            Option::Some(id) => {
                let mut name: Vec<char> = Vec::new();
                name.push('t');
                name.push('a');
                name.push('g');
                name.push('-');
                let mut digits = format_i64(id);
                name.append(&mut digits);
                proof {
                    assert(name@ =~= seq!['t', 'a', 'g', '-'] + spec_digits_i64(id as int));
                }
                out.push(chars_to_string(&name));
                proof {
                    assert(out.deep_view() =~~= old_out.push(name@));
                    assert(old_out.push(name@) =~~= old_out + seq![name@]);
                    assert(out.deep_view() + tag_names_of_refs(rs@.skip(i as int + 1))
                        =~~= tag_names_of_refs(rs@));
                }
            },
            Option::None => {
                proof {
                    assert(Seq::<Seq<char>>::empty() + tag_names_of_refs(rs@.skip(i as int + 1))
                        =~~= tag_names_of_refs(rs@.skip(i as int)));
                }
            },
        }
        i = i + 1;
    }
    proof {
        assert(rs@.skip(i as int) =~= Seq::<TagRef>::empty());
        assert(out.deep_view() + Seq::<Seq<char>>::empty() =~~= out.deep_view());
    }
    out
}

fn block_to_page(b: LogseqBlock) -> (r: LogseqPage)
    ensures
        r@ == page_of_block(b@),
{
    let title = match b.title {
        Option::Some(t) => t,
        Option::None => String::from_str("Untitled"),
    };
    let uuid = match b.uuid {
        Option::Some(u) => u,
        Option::None => String::new(),
    };
    let tags = match b.tags {
        Option::Some(rs) => render_tag_refs(&rs),
        Option::None => Vec::new(),
    };
    let r = LogseqPage { title, uuid, tags, updated_at: b.updated_at };
    proof {
        assert(r@ =~~= page_of_block(b@));
    }
    r
}

pub open spec fn pages_of_blocks(bs: Seq<LogseqBlockView>) -> Seq<LogseqPageView> {
    bs.map_values(|b: LogseqBlockView| page_of_block(b))
}

/// Turns the raw blocks into pages, one page per block, in order.
pub fn blocks_to_pages(blocks: Vec<LogseqBlock>) -> (r: Vec<LogseqPage>)
    ensures
        views_of_pages(r@) == pages_of_blocks(views_of_blocks(blocks@)),
{
    let ghost all = views_of_blocks(blocks@);
    let mut rest = blocks;
    let mut out: Vec<LogseqPage> = Vec::new();
    proof {
        assert(views_of_blocks(rest@) =~= all.skip(0));
        assert(views_of_pages(out@) =~= pages_of_blocks(all).take(0));
    }
    while rest.len() > 0
        invariant
            rest@.len() <= all.len(),
            views_of_blocks(rest@) == all.skip(all.len() - rest@.len()),
            views_of_pages(out@) == pages_of_blocks(all).take(all.len() - rest@.len()),
        decreases rest@.len(),
    {
        let ghost k = all.len() - rest@.len();
        let ghost before = views_of_blocks(rest@);
        let ghost old_out = views_of_pages(out@);
        let b = rest.remove(0);
        proof {
            assert(b@ == before[0]);
            assert(before[0] == all[k as int]);
            assert(views_of_blocks(rest@) =~~= before.skip(1));
            assert(before.skip(1) =~= all.skip(k + 1));
        }
        out.push(block_to_page(b));
        proof {
            assert(views_of_pages(out@) =~~= old_out.push(page_of_block(all[k as int])));
            assert(pages_of_blocks(all)[k as int] == page_of_block(all[k as int]));
            assert(views_of_pages(out@) =~~= pages_of_blocks(all).take(k + 1));
        }
    }
    proof {
        assert(pages_of_blocks(all).take(all.len() as int) =~= pages_of_blocks(all));
    }
    out
}

// ---------- randomized tail ----------
/// Relies on `rand::random_range`: a uniformly random index below `n`; the
/// call panics on an empty range, so `n` must be positive. Nothing more is
/// assumed of the result than its bound.
#[verifier::external_body]
fn random_index(n: usize) -> (r: usize)
    requires
        n > 0,
    ensures
        r < n,
{
    rand::random_range(0..n)
}

/// Puts the pages after the first `k` into a random order: the head stays
/// exactly as given, and the whole keeps the same pages.
pub fn shuffle_tail(pages: Vec<LogseqPage>, k: usize) -> (r: Vec<LogseqPage>)
    ensures
        views_of_pages(r@).to_multiset() == views_of_pages(pages@).to_multiset(),
        r@.len() == pages@.len(),
        views_of_pages(r@).take(min_int(k as int, pages@.len() as int)) == views_of_pages(
            pages@,
        ).take(min_int(k as int, pages@.len() as int)),
{
    let ghost all = views_of_pages(pages@);
    let split = if k < pages.len() {
        k
    } else {
        pages.len()
    };
    let mut head = pages;
    let mut tail = head.split_off(split);
    proof {
        assert(views_of_pages(head@) =~~= all.take(split as int));
        assert(views_of_pages(tail@) =~~= all.skip(split as int));
        assert(all =~= all.take(split as int) + all.skip(split as int));
        vstd::seq_lib::lemma_multiset_commutative(all.take(split as int), all.skip(split as int));
        assert(views_of_pages(head@).to_multiset().add(views_of_pages(tail@).to_multiset())
            == all.to_multiset());
    }
    while tail.len() > 0
        invariant
            views_of_pages(head@).to_multiset().add(views_of_pages(tail@).to_multiset())
                == all.to_multiset(),
            head@.len() + tail@.len() == all.len(),
            head@.len() >= split,
            views_of_pages(head@).take(split as int) == all.take(split as int),
        decreases tail@.len(),
    {
        let ghost tv = views_of_pages(tail@);
        let ghost hv = views_of_pages(head@);
        let j = random_index(tail.len());
        let picked = tail.remove(j);
        proof {
            assert(views_of_pages(tail@) =~~= tv.remove(j as int));
            assert(tv.remove(j as int).to_multiset() =~= tv.to_multiset().remove(tv[j as int]));
            assert(picked@ == tv[j as int]);
            assert(tv.to_multiset().count(tv[j as int]) > 0) by {
                assert(tv.contains(tv[j as int]));
            }
        }
        head.push(picked);
        proof {
            assert(views_of_pages(head@) =~~= hv.push(tv[j as int]));
            assert(hv.push(tv[j as int]).to_multiset() =~= hv.to_multiset().insert(tv[j as int]));
            assert(views_of_pages(head@).to_multiset().add(
                views_of_pages(tail@).to_multiset(),
            ) =~= all.to_multiset());
            assert(views_of_pages(head@).take(split as int) =~= hv.take(split as int));
        }
    }
    proof {
        assert(views_of_pages(tail@) =~= Seq::<LogseqPageView>::empty());
        assert(views_of_pages(head@).to_multiset().add(Seq::<LogseqPageView>::empty().to_multiset())
            =~= views_of_pages(head@).to_multiset());
        if k as int <= all.len() {
            assert(min_int(k as int, all.len() as int) == split as int);
        } else {
            assert(min_int(k as int, all.len() as int) == split as int);
        }
    }
    head
}

pub open spec fn min_int(a: int, b: int) -> int {
    if a <= b {
        a
    } else {
        b
    }
}

// ---------- the page query ----------
/// A page matches the search term when the term is empty, or occurs in the
/// title or in some tag, case-insensitively.
pub open spec fn page_matches(p: LogseqPageView, term: Seq<char>) -> bool {
    term.len() == 0 || spec_contains_ci(p.title, term) || exists|t: int|
        0 <= t < p.tags.len() && spec_contains_ci(#[trigger] p.tags[t], term)
}

pub open spec fn spec_filter_pages(ps: Seq<LogseqPageView>, term: Seq<char>) -> Seq<LogseqPageView>
    decreases ps.len(),
{
    if ps.len() == 0 {
        Seq::empty()
    } else {
        (if page_matches(ps[0], term) {
            seq![ps[0]]
        } else {
            Seq::empty()
        }) + spec_filter_pages(ps.skip(1), term)
    }
}

fn page_matches_exec(p: &LogseqPage, term: &str) -> (r: bool)
    ensures
        r == page_matches(p@, term@),
{
    if term.unicode_len() == 0 {
        return true;
    }
    if crate::text::contains_ci(p.title.as_str(), term) {
        return true;
    }
    let mut t: usize = 0;
    while t < p.tags.len()
        invariant
            t <= p.tags@.len(),
            forall|j: int|
                0 <= j < t ==> !spec_contains_ci(#[trigger] p.tags.deep_view()[j], term@),
        decreases p.tags@.len() - t,
    {
        proof {
            assert(p.tags@[t as int]@ == p.tags.deep_view()[t as int]);
        }
        if crate::text::contains_ci(p.tags[t].as_str(), term) {
            proof {
                assert(p@.tags == p.tags.deep_view());
            }
            return true;
        }
        t = t + 1;
    }
    proof {
        assert(p@.tags == p.tags.deep_view());
    }
    false
}

/// Keeps the pages the term matches, in their given order.
pub fn filter_pages(pages: Vec<LogseqPage>, term: &str) -> (r: Vec<LogseqPage>)
    ensures
        views_of_pages(r@) == spec_filter_pages(views_of_pages(pages@), term@),
{
    let ghost all = views_of_pages(pages@);
    let mut rest = pages;
    let mut out: Vec<LogseqPage> = Vec::new();
    proof {
        assert(views_of_pages(out@) =~= Seq::<LogseqPageView>::empty());
    }
    while rest.len() > 0
        invariant
            spec_filter_pages(all, term@) == views_of_pages(out@) + spec_filter_pages(
                views_of_pages(rest@),
                term@,
            ),
        decreases rest@.len(),
    {
        let ghost before = views_of_pages(rest@);
        let ghost old_out = views_of_pages(out@);
        let p = rest.remove(0);
        proof {
            assert(p@ == before[0]);
            assert(views_of_pages(rest@) =~~= before.skip(1));
        }
        if page_matches_exec(&p, term) {
            out.push(p);
            proof {
                assert(views_of_pages(out@) =~~= old_out.push(before[0]));
                assert(old_out + (seq![before[0]] + spec_filter_pages(
                    views_of_pages(rest@),
                    term@,
                )) =~~= views_of_pages(out@) + spec_filter_pages(views_of_pages(rest@), term@));
            }
        } else {
            proof {
                assert(old_out + (Seq::<LogseqPageView>::empty() + spec_filter_pages(
                    views_of_pages(rest@),
                    term@,
                )) =~~= views_of_pages(out@) + spec_filter_pages(views_of_pages(rest@), term@));
            }
        }
    }
    proof {
        assert(views_of_pages(rest@) =~= Seq::<LogseqPageView>::empty());
        assert(views_of_pages(out@) + Seq::<LogseqPageView>::empty() =~~= views_of_pages(out@));
    }
    out
}

/// The pages sorted most recently updated first, through the core item
/// ordering and back.
pub open spec fn spec_sort_pages(ps: Seq<LogseqPageView>) -> Seq<LogseqPageView> {
    pages_of_items(sort_recent(items_of_pages(ps)))
}

/// Sorts the pages most recently updated first (pages without a timestamp
/// last; ties keep their order), through the core item ordering.
pub fn sort_pages_recent(pages: Vec<LogseqPage>) -> (r: Vec<LogseqPage>)
    ensures
        views_of_pages(r@) == spec_sort_pages(views_of_pages(pages@)),
{
    let ghost all = views_of_pages(pages@);
    let items = pages_to_items(pages);
    let sorted = sort_items_recent(items);
    let ghost sorted_views = views_of_items(sorted@);
    let mut rest = sorted;
    let mut out: Vec<LogseqPage> = Vec::new();
    proof {
        assert(items_of_pages(views_of_pages(out@)) =~= sorted_views.take(0));
    }
    while rest.len() > 0
        invariant
            rest@.len() <= sorted_views.len(),
            sorted_views == views_of_items(sorted@),
            views_of_items(rest@) == sorted_views.skip(sorted_views.len() - rest@.len()),
            views_of_pages(out@) == pages_of_items(sorted_views.take(
                sorted_views.len() - rest@.len(),
            )),
        decreases rest@.len(),
    {
        let ghost k = sorted_views.len() - rest@.len();
        let ghost before = views_of_items(rest@);
        let ghost old_out = views_of_pages(out@);
        let it = rest.remove(0);
        proof {
            assert(it@ == before[0]);
            assert(before[0] == sorted_views[k as int]);
            assert(views_of_items(rest@) =~~= before.skip(1));
            assert(before.skip(1) =~= sorted_views.skip(k + 1));
        }
        let ghost itv = it@;
        let p = item_to_page(it);
        out.push(p);
        proof {
            assert(views_of_pages(out@) =~~= old_out.push(page_view_of_item(itv)));
            assert(pages_of_items(sorted_views.take(k + 1)) =~~= pages_of_items(
                sorted_views.take(k),
            ).push(page_view_of_item(sorted_views[k as int])));
            assert(views_of_pages(out@) =~~= pages_of_items(sorted_views.take(k + 1)));
        }
    }
    proof {
        assert(sorted_views.take(sorted_views.len() as int) =~= sorted_views);
        assert(views_of_pages(out@) =~~= spec_sort_pages(all));
    }
    out
}

/// What one page query returns, up to the random tail order: pages sorted
/// most recent first, the head of `recent_head` pages pinned, the rest in
/// some rearrangement, then narrowed by the term and bounded. The random
/// rearrangement is drawn inside; everything else is deterministic.
pub fn logseq_query(
    pages: Vec<LogseqPage>,
    term: &str,
    recent_head: usize,
    max_results: usize,
) -> (r: Vec<LogseqPage>)
    ensures
        exists|mid: Seq<LogseqPageView>|
            {
                let sorted = spec_sort_pages(views_of_pages(pages@));
                &&& (#[trigger] mid.to_multiset()) == sorted.to_multiset()
                &&& mid.take(min_int(recent_head as int, sorted.len() as int)) == sorted.take(
                    min_int(recent_head as int, sorted.len() as int),
                )
                &&& views_of_pages(r@) == take_at_most(
                    spec_filter_pages(mid, term@),
                    max_results as int,
                )
            },
{
    let sorted = sort_pages_recent(pages);
    let shuffled = shuffle_tail(sorted, recent_head);
    let ghost mid = views_of_pages(shuffled@);
    let found = filter_pages(shuffled, term);
    let mut out = found;
    let ghost before = views_of_pages(out@);
    out.truncate(max_results);
    proof {
        if max_results as int <= before.len() {
            assert(views_of_pages(out@) =~~= before.take(max_results as int));
            if before.len() <= max_results as int {
                assert(before.take(max_results as int) =~= before);
            }
        }
        let sorted = spec_sort_pages(views_of_pages(pages@));
        assert(mid.to_multiset() == sorted.to_multiset() && mid.take(
            min_int(recent_head as int, sorted.len() as int),
        ) == sorted.take(min_int(recent_head as int, sorted.len() as int)) && views_of_pages(out@)
            == take_at_most(spec_filter_pages(mid, term@), max_results as int));
    }
    out
}

// ---------- tag metadata: icon and description ----------
/// A tag's icon, as the note tool reports it.
#[derive(Debug, Clone, PartialEq)]
pub struct TagIcon {
    pub icon_type: String,
    pub id: String,
}

#[verifier::ext_equal]
pub struct TagIconView {
    pub icon_type: Seq<char>,
    pub id: Seq<char>,
}

impl View for TagIcon {
    type V = TagIconView;

    open spec fn view(&self) -> TagIconView {
        TagIconView { icon_type: self.icon_type@, id: self.id@ }
    }
}

/// A tag with its metadata: its name and, when the note tool knows one, its
/// icon.
#[derive(Debug, Clone, PartialEq)]
pub struct LogseqTag {
    pub name: String,
    pub icon: Option<TagIcon>,
}

#[verifier::ext_equal]
pub struct LogseqTagView {
    pub name: Seq<char>,
    pub icon: Option<TagIconView>,
}

impl View for LogseqTag {
    type V = LogseqTagView;

    open spec fn view(&self) -> LogseqTagView {
        LogseqTagView {
            name: self.name@,
            icon: match self.icon {
                Option::None => Option::None,
                Option::Some(ic) => Option::Some(ic@),
            },
        }
    }
}

pub open spec fn views_of_tags(ts: Seq<LogseqTag>) -> Seq<LogseqTagView> {
    ts.map_values(|t: LogseqTag| t@)
}

/// What `emojis::get_by_shortcode` returns for a shortcode; the crate's table
/// is fixed, so the result depends on the shortcode alone.
pub uninterp spec fn emoji_of_shortcode(s: Seq<char>) -> Option<Seq<char>>;

/// Relies on `emojis::get_by_shortcode`: a lookup in the crate's fixed emoji
/// table, by shortcode.
#[verifier::external_body]
fn emoji_by_shortcode(s: &str) -> (r: Option<String>)
    ensures
        match r {
            Option::Some(e) => emoji_of_shortcode(s@) == Option::Some(e@),
            Option::None => emoji_of_shortcode(s@) is None,
        },
{
    match emojis::get_by_shortcode(s) {
        Option::Some(e) => Option::Some(e.as_str().to_owned()),
        Option::None => Option::None,
    }
}

/// Workflow bookkeeping tags say nothing about what a page is about, so they
/// never pick its icon.
pub open spec fn bookkeeping_tag(name: Seq<char>) -> bool {
    ||| name == "Task"@
    ||| name == "Page"@
    ||| name == "DONE"@
    ||| name == "TODAY"@
    ||| name == "INBOX"@
    ||| name == "SOMEDAY"@
    ||| name == "DELEGATE"@
    ||| name == "GTD-PROJECT"@
}

fn bookkeeping_tag_exec(name: &String) -> (r: bool)
    ensures
        r == bookkeeping_tag(name@),
{
    string_eq_lit(name, "Task") || string_eq_lit(name, "Page") || string_eq_lit(name, "DONE")
        || string_eq_lit(name, "TODAY") || string_eq_lit(name, "INBOX") || string_eq_lit(
        name,
        "SOMEDAY",
    ) || string_eq_lit(name, "DELEGATE") || string_eq_lit(name, "GTD-PROJECT")
}

/// The first tag that is not bookkeeping, if any.
pub open spec fn first_informative_tag(ts: Seq<LogseqTagView>) -> Option<LogseqTagView>
    decreases ts.len(),
{
    if ts.len() == 0 {
        Option::None
    } else if !bookkeeping_tag(ts[0].name) {
        Option::Some(ts[0])
    } else {
        first_informative_tag(ts.skip(1))
    }
}

/// The page belongs to the task workflow.
pub open spec fn has_task_tag(ts: Seq<LogseqTagView>) -> bool {
    exists|i: int|
        0 <= i < ts.len() && ((#[trigger] ts[i]).name == "Task"@ || ts[i].name == "GTD"@
            || ts[i].name == "GTD-PROJECT"@)
}

/// The icon when no tag names an emoji: a to-do icon for task pages, a pencil
/// for everything else.
pub open spec fn fallback_icon(ts: Seq<LogseqTagView>) -> Seq<char> {
    if has_task_tag(ts) {
        "gnome-todo"@
    } else {
        "emoji:\u{1F4DD}"@
    }
}

/// The icon a page shows: the emoji of the first informative tag that names
/// one the emoji table knows, else the fallback.
pub open spec fn spec_icon_for_tags(ts: Seq<LogseqTagView>) -> Seq<char> {
    match first_informative_tag(ts) {
        Option::Some(tag) => match tag.icon {
            Option::Some(ic) => if ic.icon_type == "emoji"@ {
                match emoji_of_shortcode(ic.id) {
                    Option::Some(e) => "emoji:"@ + e,
                    Option::None => fallback_icon(ts),
                }
            } else {
                fallback_icon(ts)
            },
            Option::None => fallback_icon(ts),
        },
        Option::None => fallback_icon(ts),
    }
}

proof fn lemma_first_informative_found(ts: Seq<LogseqTagView>, j: int)
    requires
        0 <= j < ts.len(),
        !bookkeeping_tag(ts[j].name),
        forall|k: int| 0 <= k < j ==> bookkeeping_tag((#[trigger] ts[k]).name),
    ensures
        first_informative_tag(ts) == Option::Some(ts[j]),
    decreases j,
{
    if j > 0 {
        assert(forall|k: int| 0 <= k < j - 1 ==> bookkeeping_tag((#[trigger] ts.skip(1)[k]).name))
            by {
            assert(forall|k: int| 0 <= k < ts.len() - 1 ==> ts.skip(1)[k] == #[trigger] ts[k + 1]);
        }
        assert(ts.skip(1)[j - 1] == ts[j]);
        lemma_first_informative_found(ts.skip(1), j - 1);
    }
}

proof fn lemma_first_informative_missing(ts: Seq<LogseqTagView>)
    requires
        forall|k: int| 0 <= k < ts.len() ==> bookkeeping_tag((#[trigger] ts[k]).name),
    ensures
        first_informative_tag(ts) is None,
    decreases ts.len(),
{
    if ts.len() > 0 {
        assert(forall|k: int|
            0 <= k < ts.len() - 1 ==> bookkeeping_tag((#[trigger] ts.skip(1)[k]).name)) by {
            assert(forall|k: int| 0 <= k < ts.len() - 1 ==> ts.skip(1)[k] == #[trigger] ts[k + 1]);
        }
        lemma_first_informative_missing(ts.skip(1));
    }
}

fn fallback_icon_exec(tags: &Vec<LogseqTag>) -> (r: String)
    ensures
        r@ == fallback_icon(views_of_tags(tags@)),
{
    let ghost tv = views_of_tags(tags@);
    let mut i: usize = 0;
    while i < tags.len()
        invariant
            i <= tv.len(),
            tv == views_of_tags(tags@),
            forall|k: int|
                0 <= k < i ==> !((#[trigger] tv[k]).name == "Task"@ || tv[k].name == "GTD"@
                    || tv[k].name == "GTD-PROJECT"@),
        decreases tv.len() - i,
    {
        if string_eq_lit(&tags[i].name, "Task") || string_eq_lit(&tags[i].name, "GTD")
            || string_eq_lit(&tags[i].name, "GTD-PROJECT") {
            proof {
                assert(tv[i as int].name == tags@[i as int]@.name);
            }
            return String::from_str("gnome-todo");
        }
        i = i + 1;
    }
    String::from_str("emoji:\u{1F4DD}")
}

/// The icon for a page with these tags.
pub fn get_icon_for_tags(tags: &Vec<LogseqTag>) -> (r: String)
    ensures
        r@ == spec_icon_for_tags(views_of_tags(tags@)),
{
    let ghost tv = views_of_tags(tags@);
    let mut i: usize = 0;
    while i < tags.len()
        invariant
            i <= tv.len(),
            tv == views_of_tags(tags@),
            forall|k: int| 0 <= k < i ==> bookkeeping_tag((#[trigger] tv[k]).name),
        decreases tv.len() - i,
    {
        proof {
            assert(tv[i as int] == tags@[i as int]@);
        }
        if !bookkeeping_tag_exec(&tags[i].name) {
            proof {
                lemma_first_informative_found(tv, i as int);
            }
            match &tags[i].icon {
                Option::Some(ic) => {
                    if string_eq_lit(&ic.icon_type, "emoji") {
                        match emoji_by_shortcode(ic.id.as_str()) {
                            Option::Some(e) => {
                                let mut out = String::from_str("emoji:");
                                out.append(e.as_str());
                                return out;
                            },
                            Option::None => {
                                return fallback_icon_exec(tags);
                            },
                        }
                    } else {
                        return fallback_icon_exec(tags);
                    }
                },
                Option::None => {
                    return fallback_icon_exec(tags);
                },
            }
        }
        i = i + 1;
    }
    proof {
        lemma_first_informative_missing(tv);
    }
    fallback_icon_exec(tags)
}

// ---------- the tag line under a result ----------
/// Every tag but the plain page marker, written `#name`.
pub open spec fn hashed_tags(tags: Seq<Seq<char>>) -> Seq<Seq<char>>
    decreases tags.len(),
{
    if tags.len() == 0 {
        Seq::empty()
    } else {
        (if tags[0] == "Page"@ {
            Seq::<Seq<char>>::empty()
        } else {
            seq![seq!['#'] + tags[0]]
        }) + hashed_tags(tags.skip(1))
    }
}

/// The parts joined with single spaces.
pub open spec fn join_spaced(parts: Seq<Seq<char>>) -> Seq<char>
    decreases parts.len(),
{
    if parts.len() == 0 {
        Seq::empty()
    } else {
        parts[0] + rest_spaced(parts.skip(1))
    }
}

pub open spec fn rest_spaced(parts: Seq<Seq<char>>) -> Seq<char>
    decreases parts.len(),
{
    if parts.len() == 0 {
        Seq::empty()
    } else {
        seq![' '] + parts[0] + rest_spaced(parts.skip(1))
    }
}

proof fn lemma_rest_spaced_snoc(parts: Seq<Seq<char>>, x: Seq<char>)
    ensures
        rest_spaced(parts.push(x)) == rest_spaced(parts) + (seq![' '] + x),
    decreases parts.len(),
{
    if parts.len() == 0 {
        assert(parts =~= Seq::<Seq<char>>::empty());
        assert(rest_spaced(Seq::<Seq<char>>::empty()) == Seq::<char>::empty());
        assert(parts.push(x)[0] == x);
        assert(parts.push(x).skip(1) =~= Seq::<Seq<char>>::empty());
        assert(rest_spaced(parts.push(x)) =~= rest_spaced(parts) + (seq![' '] + x));
    } else {
        assert(parts.push(x).skip(1) =~= parts.skip(1).push(x));
        lemma_rest_spaced_snoc(parts.skip(1), x);
        assert(parts.push(x)[0] == parts[0]);
        assert(rest_spaced(parts.push(x)) =~= rest_spaced(parts) + (seq![' '] + x));
    }
}

proof fn lemma_join_spaced_snoc(parts: Seq<Seq<char>>, x: Seq<char>)
    ensures
        parts.len() == 0 ==> join_spaced(parts.push(x)) == x,
        parts.len() > 0 ==> join_spaced(parts.push(x)) == join_spaced(parts) + (seq![' '] + x),
{
    if parts.len() == 0 {
        assert(parts.push(x)[0] == x);
        assert(parts.push(x).skip(1) =~= Seq::<Seq<char>>::empty());
        assert(join_spaced(parts.push(x)) =~= x);
    } else {
        assert(parts.push(x).skip(1) =~= parts.skip(1).push(x));
        lemma_rest_spaced_snoc(parts.skip(1), x);
        assert(parts.push(x)[0] == parts[0]);
        assert(join_spaced(parts.push(x)) =~= join_spaced(parts) + (seq![' '] + x));
    }
}

/// The line shown under a page: its tags as `#name`, space-separated, the
/// plain page marker left out; no line at all for a page without tags.
pub open spec fn spec_page_description(tags: Seq<Seq<char>>) -> Option<Seq<char>> {
    if tags.len() == 0 {
        Option::None
    } else {
        Option::Some(join_spaced(hashed_tags(tags)))
    }
}

pub fn page_description(tags: &Vec<String>) -> (r: Option<String>)
    ensures
        match r {
            Option::Some(d) => spec_page_description(tags.deep_view()) == Option::Some(d@),
            Option::None => spec_page_description(tags.deep_view()) is None,
        },
{
    if tags.len() == 0 {
        return None;
    }
    let ghost tv = tags.deep_view();
    let mut out: Vec<char> = Vec::new();
    let mut emitted = false;
    let mut i: usize = 0;
    proof {
        assert(tv.take(0) =~= Seq::<Seq<char>>::empty());
        assert(hashed_tags(tv.take(0)) == Seq::<Seq<char>>::empty());
        assert(out@ =~= join_spaced(hashed_tags(tv.take(0))));
    }
    while i < tags.len()
        invariant
            i <= tv.len(),
            tv == tags.deep_view(),
            out@ == join_spaced(hashed_tags(tv.take(i as int))),
            emitted == (hashed_tags(tv.take(i as int)).len() > 0),
        decreases tv.len() - i,
    {
        let ghost parts = hashed_tags(tv.take(i as int));
        proof {
            assert(tags@[i as int]@ == tv[i as int]);
            lemma_hashed_tags_snoc(tv.take(i as int), tv[i as int]);
            assert(tv.take(i as int).push(tv[i as int]) =~= tv.take(i as int + 1));
        }
        if !string_eq_lit(&tags[i], "Page") {
            let ghost piece = seq!['#'] + tv[i as int];
            proof {
                lemma_join_spaced_snoc(parts, piece);
                assert(hashed_tags(tv.take(i as int + 1)) =~~= parts.push(piece));
            }
            if emitted {
                out.push(' ');
            }
            out.push('#');
            let mut name_chars = string_to_chars(tags[i].as_str());
            out.append(&mut name_chars);
            proof {
                if parts.len() == 0 {
                    assert(out@ =~= piece);
                } else {
                    assert(out@ =~= join_spaced(parts) + (seq![' '] + piece));
                }
                assert(out@ =~= join_spaced(hashed_tags(tv.take(i as int + 1))));
            }
            emitted = true;
        } else {
            proof {
                assert(hashed_tags(tv.take(i as int + 1)) =~~= parts);
            }
        }
        i = i + 1;
    }
    proof {
        assert(tv.take(tv.len() as int) =~= tv);
    }
    Some(chars_to_string(&out))
}

proof fn lemma_hashed_tags_snoc(tags: Seq<Seq<char>>, x: Seq<char>)
    ensures
        hashed_tags(tags.push(x)) == hashed_tags(tags) + (if x == "Page"@ {
            Seq::<Seq<char>>::empty()
        } else {
            seq![seq!['#'] + x]
        }),
    decreases tags.len(),
{
    let tail = if x == "Page"@ {
        Seq::<Seq<char>>::empty()
    } else {
        seq![seq!['#'] + x]
    };
    if tags.len() == 0 {
        assert(tags =~= Seq::<Seq<char>>::empty());
        assert(hashed_tags(Seq::<Seq<char>>::empty()) == Seq::<Seq<char>>::empty());
        assert(tags.push(x)[0] == x);
        assert(tags.push(x).skip(1) =~= Seq::<Seq<char>>::empty());
        assert(hashed_tags(tags.push(x)) =~~= tail);
        assert(hashed_tags(tags) + tail =~~= tail);
    } else {
        assert(tags.push(x).skip(1) =~= tags.skip(1).push(x));
        lemma_hashed_tags_snoc(tags.skip(1), x);
        assert(tags.push(x)[0] == tags[0]);
        assert(hashed_tags(tags.push(x)) =~~= hashed_tags(tags) + tail);
    }
}

} // verus!
