use crate::query::{keyword_admits, split_keywords, spec_keywords, take_at_most};
use crate::text::{spec_str_le, str_le, string_eq_lit};
use vstd::prelude::*;
use vstd::string::StringExecFns;

verus! {

/// One bibliography entry as the launcher shows it.
#[derive(Debug, Clone, PartialEq)]
pub struct ZoteroItem {
    pub title: String,
    pub tags: Vec<String>,
    pub select: String,
    pub icon: String,
    pub date_modified: String,
}

#[verifier::ext_equal]
pub struct ZoteroItemView {
    pub title: Seq<char>,
    pub tags: Seq<Seq<char>>,
    pub select: Seq<char>,
    pub icon: Seq<char>,
    pub date_modified: Seq<char>,
}

impl View for ZoteroItem {
    type V = ZoteroItemView;

    open spec fn view(&self) -> ZoteroItemView {
        ZoteroItemView {
            title: self.title@,
            tags: self.tags.deep_view(),
            select: self.select@,
            icon: self.icon@,
            date_modified: self.date_modified@,
        }
    }
}

pub open spec fn views_of_zotero(items: Seq<ZoteroItem>) -> Seq<ZoteroItemView> {
    items.map_values(|it: ZoteroItem| it@)
}

/// A tag on a library record.
#[derive(Debug, Clone, PartialEq)]
pub struct ZoteroTag {
    pub tag: String,
}

/// A child note of a library record.
#[derive(Debug, Clone, PartialEq)]
pub struct ZoteroNote {
    pub item_type: String,
    pub parent_item: String,
    pub note: String,
    pub tags: Vec<ZoteroTag>,
    pub date_added: String,
    pub date_modified: String,
}

/// One raw record of the exported library.
#[derive(Debug, Clone, PartialEq)]
pub struct ZoteroEntry {
    pub key: String,
    pub item_type: String,
    pub title: Option<String>,
    pub note: Option<String>,
    pub short_title: Option<String>,
    pub date: Option<String>,
    pub language: Option<String>,
    pub library_catalog: Option<String>,
    pub access_date: Option<String>,
    pub tags: Vec<ZoteroTag>,
    pub collections: Option<Vec<String>>,
    pub publication_title: Option<String>,
    pub date_added: String,
    pub date_modified: String,
    pub extra: Option<String>,
    pub select: String,
    pub notes: Option<Vec<ZoteroNote>>,
}

/// The library's header record.
#[derive(Debug, Clone, PartialEq)]
pub struct ZoteroConfig {
    pub id: String,
    pub label: String,
}

/// One collection of the library.
#[derive(Debug, Clone, PartialEq)]
pub struct ZoteroCollection {
    pub key: String,
    pub parent: String,
    pub name: String,
    pub items: Vec<i64>,
}

/// A whole exported library.
#[derive(Debug, Clone, PartialEq)]
pub struct ZoteroData {
    pub config: ZoteroConfig,
    pub collections: Vec<(String, ZoteroCollection)>,
    pub items: Vec<ZoteroEntry>,
}

// What the conversion reads of an entry.
#[verifier::ext_equal]
pub struct ZoteroEntryView {
    pub item_type: Seq<char>,
    pub title: Option<Seq<char>>,
    pub note: Option<Seq<char>>,
    pub short_title: Option<Seq<char>>,
    pub tags: Seq<Seq<char>>,
    pub publication_title: Option<Seq<char>>,
    pub date_modified: Seq<char>,
    pub select: Seq<char>,
    pub note_dates: Option<Seq<Seq<char>>>,
}

pub open spec fn opt_view(o: Option<String>) -> Option<Seq<char>> {
    match o {
        Option::None => Option::None,
        Option::Some(s) => Option::Some(s@),
    }
}

pub open spec fn tag_views(ts: Seq<ZoteroTag>) -> Seq<Seq<char>> {
    ts.map_values(|t: ZoteroTag| t.tag@)
}

pub open spec fn note_date_views(ns: Seq<ZoteroNote>) -> Seq<Seq<char>> {
    ns.map_values(|n: ZoteroNote| n.date_modified@)
}

impl View for ZoteroEntry {
    type V = ZoteroEntryView;

    open spec fn view(&self) -> ZoteroEntryView {
        ZoteroEntryView {
            item_type: self.item_type@,
            title: opt_view(self.title),
            note: opt_view(self.note),
            short_title: opt_view(self.short_title),
            tags: tag_views(self.tags@),
            publication_title: opt_view(self.publication_title),
            date_modified: self.date_modified@,
            select: self.select@,
            note_dates: match self.notes {
                Option::None => Option::None,
                Option::Some(ns) => Option::Some(note_date_views(ns@)),
            },
        }
    }
}

pub open spec fn views_of_entries(es: Seq<ZoteroEntry>) -> Seq<ZoteroEntryView> {
    es.map_values(|e: ZoteroEntry| e@)
}

// ---------- outside computations ----------
/// The first text node, in depth-first document order, of the parsed form of
/// `s`; nothing when the text does not parse as a document or holds no text
/// node.
pub open spec fn first_text_of(s: Seq<char>) -> Option<Seq<char>> {
    match crate::html::parsed_doc(s) {
        Option::None => Option::None,
        Option::Some(doc) => crate::html::first_text_in_list(doc),
    }
}

/// Parses the note's content and walks to its first text node, depth-first in
/// document order; malformed text yields nothing, never an error.
fn extract_first_tag_content(input: &str) -> (r: Option<String>)
    ensures
        match r {
            Option::Some(t) => first_text_of(input@) == Option::Some(t@),
            Option::None => first_text_of(input@) is None,
        },
{
    match crate::html::parse_document(input) {
        Option::None => None,
        Option::Some(nodes) => crate::html::first_text_in_document(&nodes),
    }
}

/// The kebab-case form of `s`.
pub uninterp spec fn kebab_of(s: Seq<char>) -> Seq<char>;

/// Relies on convert_case's `to_case` with the kebab case: the result depends
/// on the characters alone.
#[verifier::external_body]
fn item_type_to_icon(item_type: &str) -> (r: String)
    ensures
        r@ == kebab_of(item_type@),
{
    convert_case::Casing::to_case(&item_type, convert_case::Case::Kebab)
}

// ---------- the conversion ----------
/// The later of two date stamps, compared as strings.
pub open spec fn max_str(a: Seq<char>, b: Seq<char>) -> Seq<char> {
    if spec_str_le(a, b) {
        b
    } else {
        a
    }
}

/// The latest of the dates, folded left from `acc`.
pub open spec fn max_date_from(acc: Seq<char>, ds: Seq<Seq<char>>) -> Seq<char>
    decreases ds.len(),
{
    if ds.len() == 0 {
        acc
    } else {
        max_date_from(max_str(acc, ds[0]), ds.skip(1))
    }
}

/// When an entry was last touched: the latest of its own stamp and its notes'
/// stamps.
pub open spec fn date_modified_of_entry(e: ZoteroEntryView) -> Seq<char> {
    match e.note_dates {
        Option::Some(ds) => if ds.len() > 0 {
            max_str(max_date_from(ds[0], ds.skip(1)), e.date_modified)
        } else {
            e.date_modified
        },
        Option::None => e.date_modified,
    }
}

/// The display title: for a plain note, the note's first text; otherwise the
/// short title, or the full one; `<Unknown Title>` when none is there. The
/// publication, if any, and the record type follow, pipe-separated.
pub open spec fn title_of_entry(e: ZoteroEntryView) -> Seq<char> {
    let base = if e.item_type == "note"@ {
        match e.note {
            Option::Some(n) => match first_text_of(n) {
                Option::Some(t) => t,
                Option::None => "<Unknown Title>"@,
            },
            Option::None => "<Unknown Title>"@,
        }
    } else {
        match e.short_title {
            Option::Some(t) => t,
            Option::None => match e.title {
                Option::Some(t) => t,
                Option::None => "<Unknown Title>"@,
            },
        }
    };
    match e.publication_title {
        Option::Some(p) => base + " | "@ + p + " | "@ + e.item_type,
        Option::None => base + " | "@ + e.item_type,
    }
}

/// What one raw record becomes in the launcher.
pub open spec fn item_of_entry(e: ZoteroEntryView) -> ZoteroItemView {
    ZoteroItemView {
        title: title_of_entry(e),
        tags: e.tags,
        select: e.select,
        icon: kebab_of(e.item_type),
        date_modified: date_modified_of_entry(e),
    }
}

fn entry_tags(ts: Vec<ZoteroTag>) -> (r: Vec<String>)
    ensures
        r.deep_view() == tag_views(ts@),
{
    let ghost all = tag_views(ts@);
    let mut rest = ts;
    let mut out: Vec<String> = Vec::new();
    proof {
        assert(out.deep_view() =~~= all.take(0));
    }
    while rest.len() > 0
        invariant
            rest@.len() <= all.len(),
            tag_views(rest@) == all.skip(all.len() - rest@.len()),
            out.deep_view() == all.take(all.len() - rest@.len()),
        decreases rest@.len(),
    {
        let ghost k = all.len() - rest@.len();
        let ghost before = tag_views(rest@);
        let ghost old_out = out.deep_view();
        let t = rest.remove(0);
        proof {
            assert(t.tag@ == before[0]);
            assert(before[0] == all[k as int]);
            assert(tag_views(rest@) =~~= before.skip(1));
            assert(before.skip(1) =~= all.skip(k + 1));
        }
        out.push(t.tag);
        proof {
            assert(out.deep_view() =~~= old_out.push(all[k as int]));
            assert(out.deep_view() =~~= all.take(k + 1));
        }
    }
    proof {
        assert(all.take(all.len() as int) =~= all);
    }
    out
}

fn entry_date_modified(own: String, notes: &Option<Vec<ZoteroNote>>) -> (r: String)
    ensures
        r@ == date_modified_of_entry(
            ZoteroEntryView {
                item_type: Seq::empty(),
                title: Option::None,
                note: Option::None,
                short_title: Option::None,
                tags: Seq::empty(),
                publication_title: Option::None,
                date_modified: own@,
                select: Seq::empty(),
                note_dates: match notes {
                    Option::None => Option::None,
                    Option::Some(ns) => Option::Some(note_date_views(ns@)),
                },
            },
        ),
{
    match notes {
        Option::None => own,
        Option::Some(ns) => {
            if ns.len() == 0 {
                own
            } else {
                let ghost ds = note_date_views(ns@);
                let mut acc = ns[0].date_modified.clone();
                let mut i: usize = 1;
                proof {
                    assert(ds[0] == ns@[0].date_modified@);
                    assert(ds.skip(ds.len() as int) =~= Seq::<Seq<char>>::empty());
                    assert(max_date_from(ds[0], ds.skip(1)) == max_date_from(
                        acc@,
                        ds.skip(1),
                    ));
                }
                while i < ns.len()
                    invariant
                        1 <= i <= ds.len(),
                        ds == note_date_views(ns@),
                        max_date_from(ds[0], ds.skip(1)) == max_date_from(acc@, ds.skip(i as int)),
                    decreases ds.len() - i,
                {
                    proof {
                        assert(ds.skip(i as int)[0] == ds[i as int]);
                        assert(ds[i as int] == ns@[i as int].date_modified@);
                        assert(ds.skip(i as int).skip(1) =~= ds.skip(i as int + 1));
                    }
                    if str_le(&acc, &ns[i].date_modified) {
                        acc = ns[i].date_modified.clone();
                    }
                    i = i + 1;
                }
                proof {
                    assert(ds.skip(i as int) =~= Seq::<Seq<char>>::empty());
                }
                if str_le(&acc, &own) {
                    own
                } else {
                    acc
                }
            }
        },
    }
}

/// Turns one raw record into its launcher entry.
pub fn to_zotero_items(e: ZoteroEntry) -> (r: Vec<ZoteroItem>)
    ensures
        views_of_zotero(r@) == seq![item_of_entry(e@)],
{
    let ghost ev = e@;
    let base: String = if string_eq_lit(&e.item_type, "note") {
        match &e.note {
            Option::Some(n) => match extract_first_tag_content(n.as_str()) {
                Option::Some(t) => t,
                Option::None => String::from_str("<Unknown Title>"),
            },
            Option::None => String::from_str("<Unknown Title>"),
        }
    } else {
        match e.short_title {
            Option::Some(t) => t,
            Option::None => match e.title {
                Option::Some(t) => t,
                Option::None => String::from_str("<Unknown Title>"),
            },
        }
    };
    let mut title = base;
    title.append(" | ");
    match &e.publication_title {
        Option::Some(p) => {
            title.append(p.as_str());
            title.append(" | ");
            title.append(e.item_type.as_str());
        },
        Option::None => {
            title.append(e.item_type.as_str());
        },
    }
    let icon = item_type_to_icon(e.item_type.as_str());
    let date_modified = entry_date_modified(e.date_modified, &e.notes);
    let tags = entry_tags(e.tags);
    let item = ZoteroItem { title, tags, select: e.select, icon, date_modified };
    proof {
        assert(item@ =~~= item_of_entry(ev));
    }
    let mut out: Vec<ZoteroItem> = Vec::new();
    out.push(item);
    proof {
        assert(views_of_zotero(out@) =~~= seq![item_of_entry(ev)]);
    }
    out
}

/// The launcher entries of every record of the library, in order.
pub open spec fn items_of_entries(es: Seq<ZoteroEntryView>) -> Seq<ZoteroItemView>
    decreases es.len(),
{
    if es.len() == 0 {
        Seq::empty()
    } else {
        seq![item_of_entry(es[0])] + items_of_entries(es.skip(1))
    }
}

/// The launcher's bibliography model.
pub struct BibTexLoader {}

impl BibTexLoader {
    /// Every record of the library as a launcher entry, in library order.
    pub fn load_items(data: ZoteroData) -> (r: Vec<ZoteroItem>)
        ensures
            views_of_zotero(r@) == items_of_entries(views_of_entries(data.items@)),
    {
        let ghost all = views_of_entries(data.items@);
        let mut rest = data.items;
        let mut out: Vec<ZoteroItem> = Vec::new();
        proof {
            assert(views_of_entries(rest@) =~= all.skip(0));
            assert(views_of_zotero(out@) =~= items_of_entries(all).take(0));
            lemma_items_of_entries_len(all);
        }
        while rest.len() > 0
            invariant
                rest@.len() <= all.len(),
                views_of_entries(rest@) == all.skip(all.len() - rest@.len()),
                views_of_zotero(out@) == items_of_entries(all).take(all.len() - rest@.len()),
                items_of_entries(all).len() == all.len(),
            decreases rest@.len(),
        {
            let ghost k = all.len() - rest@.len();
            let ghost before = views_of_entries(rest@);
            let ghost old_out = views_of_zotero(out@);
            let e = rest.remove(0);
            proof {
                assert(e@ == before[0]);
                assert(before[0] == all[k as int]);
                assert(views_of_entries(rest@) =~~= before.skip(1));
                assert(before.skip(1) =~= all.skip(k + 1));
                lemma_items_of_entries_index(all, k);
            }
            let mut one = to_zotero_items(e);
            let ghost one_views = views_of_zotero(one@);
            out.append(&mut one);
            proof {
                assert(views_of_zotero(out@) =~~= old_out + one_views);
                assert(old_out + one_views =~~= old_out.push(item_of_entry(all[k as int])));
                assert(views_of_zotero(out@) =~~= items_of_entries(all).take(k + 1));
            }
        }
        proof {
            assert(items_of_entries(all).take(items_of_entries(all).len() as int)
                =~= items_of_entries(all));
        }
        out
    }
}

proof fn lemma_items_of_entries_len(es: Seq<ZoteroEntryView>)
    ensures
        items_of_entries(es).len() == es.len(),
    decreases es.len(),
{
    if es.len() > 0 {
        lemma_items_of_entries_len(es.skip(1));
    }
}

proof fn lemma_items_of_entries_index(es: Seq<ZoteroEntryView>, k: int)
    requires
        0 <= k < es.len(),
    ensures
        items_of_entries(es).len() == es.len(),
        items_of_entries(es)[k] == item_of_entry(es[k]),
    decreases k,
{
    lemma_items_of_entries_len(es);
    if k == 0 {
        lemma_items_of_entries_len(es.skip(1));
    } else {
        lemma_items_of_entries_index(es.skip(1), k - 1);
        assert(es.skip(1)[k - 1] == es[k]);
    }
}

// ---------- the bibliography query ----------
/// `a` comes no later than `b`: modification stamps compare as strings.
pub open spec fn zotero_ge(a: ZoteroItemView, b: ZoteroItemView) -> bool {
    spec_str_le(b.date_modified, a.date_modified)
}

pub open spec fn insert_by_modified(x: ZoteroItemView, s: Seq<ZoteroItemView>) -> Seq<
    ZoteroItemView,
>
    decreases s.len(),
{
    if s.len() == 0 {
        seq![x]
    } else if zotero_ge(x, s[0]) {
        seq![x] + s
    } else {
        seq![s[0]] + insert_by_modified(x, s.skip(1))
    }
}

/// The entries sorted last modified first; ties keep their order.
pub open spec fn sort_by_modified(s: Seq<ZoteroItemView>) -> Seq<ZoteroItemView>
    decreases s.len(),
{
    if s.len() == 0 {
        Seq::empty()
    } else {
        insert_by_modified(s[0], sort_by_modified(s.skip(1)))
    }
}

proof fn lemma_insert_by_modified_at(x: ZoteroItemView, s: Seq<ZoteroItemView>, p: int)
    requires
        0 <= p <= s.len(),
        forall|j: int| 0 <= j < p ==> !zotero_ge(x, #[trigger] s[j]),
        p == s.len() || zotero_ge(x, s[p]),
    ensures
        insert_by_modified(x, s) == s.take(p) + seq![x] + s.skip(p),
    decreases p,
{
    if p == 0 {
        assert(insert_by_modified(x, s) =~= s.take(0) + seq![x] + s.skip(0));
    } else {
        assert(forall|j: int| 0 <= j < p - 1 ==> !zotero_ge(x, #[trigger] s.skip(1)[j])) by {
            assert(forall|j: int| 0 <= j < s.len() - 1 ==> s.skip(1)[j] == #[trigger] s[j + 1]);
        }
        if p < s.len() {
            assert(s.skip(1)[p - 1] == s[p]);
        }
        lemma_insert_by_modified_at(x, s.skip(1), p - 1);
        assert(s.skip(1).take(p - 1) =~= s.take(p).skip(1));
        assert(s.skip(1).skip(p - 1) =~= s.skip(p));
        assert(insert_by_modified(x, s) =~= s.take(p) + seq![x] + s.skip(p));
    }
}

fn insert_zotero_by_modified(out: &mut Vec<ZoteroItem>, x: ZoteroItem)
    ensures
        views_of_zotero(final(out)@) == insert_by_modified(x@, views_of_zotero(old(out)@)),
{
    let ghost sv = views_of_zotero(out@);
    let n = out.len();
    let mut p: usize = 0;
    while p < n && !str_le(&out[p].date_modified, &x.date_modified)
        invariant
            n == out@.len(),
            p <= n,
            out@ == old(out)@,
            sv == views_of_zotero(out@),
            forall|j: int| 0 <= j < p ==> !zotero_ge(x@, #[trigger] sv[j]),
        decreases n - p,
    {
        p = p + 1;
    }
    let ghost xv = x@;
    out.insert(p, x);
    proof {
        lemma_insert_by_modified_at(xv, sv, p as int);
        assert(views_of_zotero(out@) =~~= sv.take(p as int) + seq![xv] + sv.skip(p as int));
    }
}

/// Sorts the entries last modified first; ties keep their order.
pub fn sort_zotero_by_modified(items: Vec<ZoteroItem>) -> (r: Vec<ZoteroItem>)
    ensures
        views_of_zotero(r@) == sort_by_modified(views_of_zotero(items@)),
{
    let ghost all = views_of_zotero(items@);
    let mut rest = items;
    let mut out: Vec<ZoteroItem> = Vec::new();
    proof {
        assert(all.skip(all.len() as int) =~= Seq::<ZoteroItemView>::empty());
        assert(views_of_zotero(rest@) =~= all.take(all.len() as int));
    }
    while rest.len() > 0
        invariant
            rest@.len() <= all.len(),
            views_of_zotero(rest@) == all.take(rest@.len() as int),
            views_of_zotero(out@) == sort_by_modified(all.skip(rest@.len() as int)),
        decreases rest@.len(),
    {
        let ghost k = rest@.len() as int;
        let x = match rest.pop() {
            Option::Some(x) => x,
            Option::None => {
                proof {
                    assert(false);
                }
                unreached()
            },
        };
        proof {
            assert(x@ == all.take(k)[k - 1]);
            assert(all.take(k)[k - 1] == all[k - 1]);
            assert(views_of_zotero(rest@) =~~= all.take(k - 1));
            assert(all.skip(k - 1)[0] == all[k - 1]);
            assert(all.skip(k - 1).skip(1) =~= all.skip(k));
        }
        insert_zotero_by_modified(&mut out, x);
        proof {
            assert(views_of_zotero(out@) == sort_by_modified(all.skip(k - 1)));
        }
    }
    proof {
        assert(all.take(0) =~= Seq::<ZoteroItemView>::empty());
        assert(all.skip(0) =~= all);
    }
    out
}

pub open spec fn zotero_admitted(it: ZoteroItemView, kws: Seq<Seq<char>>) -> bool {
    forall|k: int| 0 <= k < kws.len() ==> keyword_admits(it.title, it.tags, #[trigger] kws[k])
}

pub open spec fn spec_filter_zotero(items: Seq<ZoteroItemView>, kws: Seq<Seq<char>>) -> Seq<
    ZoteroItemView,
>
    decreases items.len(),
{
    if items.len() == 0 {
        Seq::empty()
    } else {
        (if zotero_admitted(items[0], kws) {
            seq![items[0]]
        } else {
            Seq::empty()
        }) + spec_filter_zotero(items.skip(1), kws)
    }
}

fn zotero_admitted_exec(it: &ZoteroItem, kws: &Vec<String>) -> (r: bool)
    ensures
        r == zotero_admitted(it@, kws.deep_view()),
{
    let mut k: usize = 0;
    while k < kws.len()
        invariant
            k <= kws@.len(),
            forall|j: int|
                0 <= j < k ==> keyword_admits(it@.title, it@.tags, #[trigger] kws.deep_view()[j]),
        decreases kws@.len() - k,
    {
        proof {
            assert(kws@[k as int]@ == kws.deep_view()[k as int]);
        }
        if !crate::query::keyword_admits_exec(&it.title, &it.tags, &kws[k]) {
            return false;
        }
        k = k + 1;
    }
    true
}

fn filter_zotero(items: Vec<ZoteroItem>, kws: &Vec<String>) -> (r: Vec<ZoteroItem>)
    ensures
        views_of_zotero(r@) == spec_filter_zotero(views_of_zotero(items@), kws.deep_view()),
{
    let ghost all = views_of_zotero(items@);
    let mut rest = items;
    let mut out: Vec<ZoteroItem> = Vec::new();
    proof {
        assert(views_of_zotero(out@) =~= Seq::<ZoteroItemView>::empty());
    }
    while rest.len() > 0
        invariant
            spec_filter_zotero(all, kws.deep_view()) == views_of_zotero(out@) + spec_filter_zotero(
                views_of_zotero(rest@),
                kws.deep_view(),
            ),
        decreases rest@.len(),
    {
        let ghost before = views_of_zotero(rest@);
        let ghost old_out = views_of_zotero(out@);
        let it = rest.remove(0);
        proof {
            assert(it@ == before[0]);
            assert(views_of_zotero(rest@) =~~= before.skip(1));
        }
        if zotero_admitted_exec(&it, kws) {
            out.push(it);
            proof {
                assert(views_of_zotero(out@) =~~= old_out.push(before[0]));
                assert(old_out + (seq![before[0]] + spec_filter_zotero(
                    views_of_zotero(rest@),
                    kws.deep_view(),
                )) =~~= views_of_zotero(out@) + spec_filter_zotero(
                    views_of_zotero(rest@),
                    kws.deep_view(),
                ));
            }
        } else {
            proof {
                assert(old_out + (Seq::<ZoteroItemView>::empty() + spec_filter_zotero(
                    views_of_zotero(rest@),
                    kws.deep_view(),
                )) =~~= views_of_zotero(out@) + spec_filter_zotero(
                    views_of_zotero(rest@),
                    kws.deep_view(),
                ));
            }
        }
    }
    proof {
        assert(views_of_zotero(rest@) =~= Seq::<ZoteroItemView>::empty());
        assert(views_of_zotero(out@) + Seq::<ZoteroItemView>::empty() =~~= views_of_zotero(out@));
    }
    out
}

/// What a bibliography search returns: all entries, last modified first, when
/// the query is blank; otherwise the keyword-narrowed entries, at most
/// `max_results` of them.
pub open spec fn spec_zotero_search(
    items: Seq<ZoteroItemView>,
    q: Seq<char>,
    max_results: int,
) -> Seq<ZoteroItemView> {
    let kws = spec_keywords(q);
    if kws.len() == 0 {
        sort_by_modified(items)
    } else {
        take_at_most(spec_filter_zotero(sort_by_modified(items), kws), max_results)
    }
}

/// The bibliography search: sorted, narrowed by every keyword, and bounded:
/// except that a blank query lists everything.
pub fn search(items: Vec<ZoteroItem>, query: &str, max_results: usize) -> (r: Vec<ZoteroItem>)
    ensures
        views_of_zotero(r@) == spec_zotero_search(
            views_of_zotero(items@),
            query@,
            max_results as int,
        ),
{
    let kws = split_keywords(query);
    let sorted = sort_zotero_by_modified(items);
    if kws.len() == 0 {
        return sorted;
    }
    let found = filter_zotero(sorted, &kws);
    let mut out = found;
    let ghost before = views_of_zotero(out@);
    out.truncate(max_results);
    proof {
        if max_results as int <= before.len() {
            assert(views_of_zotero(out@) =~~= before.take(max_results as int));
            if before.len() <= max_results as int {
                assert(before.take(max_results as int) =~= before);
            }
        }
    }
    out
}

} // verus!
