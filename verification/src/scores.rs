use crate::codec::{
    dec_len, dec_list, dec_str, dec_str_at, dec_u64, dec_u64_at, enc_each, enc_len, enc_list,
    enc_str, enc_u64, lemma_dec_len, lemma_dec_list, lemma_dec_list_too_long, lemma_dec_str,
    lemma_dec_u64, push_enc_str, push_enc_u64,
};
use crate::error::CacheError;
use crate::item::lemma_dec_str_consumes;
use crate::num::spec_parse_u64;
use crate::text::{chars_to_string, spec_split, spec_trim, split_chars, string_to_chars, trim_chars};
use vstd::prelude::*;

verus! {

/// An access event read from the append-only access log: the id of the item
/// that was used and the time at which it was used.
#[derive(Debug, Clone, PartialEq)]
pub struct AccessEvent {
    pub id: String,
    pub access_time: u64,
}

#[verifier::ext_equal]
pub struct AccessEventView {
    pub id: Seq<char>,
    pub access_time: u64,
}

impl View for AccessEvent {
    type V = AccessEventView;

    open spec fn view(&self) -> AccessEventView {
        AccessEventView { id: self.id@, access_time: self.access_time }
    }
}

impl AccessEvent {
    pub fn new(id: String, access_time: u64) -> (e: AccessEvent)
        ensures
            e@ == (AccessEventView { id: id@, access_time }),
    {
        AccessEvent { id, access_time }
    }
}

/// One usage record: how often an item was used and when it was last used.
#[derive(Debug, Clone, PartialEq)]
pub struct ItemScore {
    pub score: u64,
    pub last_accessed_time: u64,
    pub id: String,
}

#[verifier::ext_equal]
pub struct ItemScoreView {
    pub score: u64,
    pub last_accessed_time: u64,
    pub id: Seq<char>,
}

impl View for ItemScore {
    type V = ItemScoreView;

    open spec fn view(&self) -> ItemScoreView {
        ItemScoreView {
            score: self.score,
            last_accessed_time: self.last_accessed_time,
            id: self.id@,
        }
    }
}

impl ItemScore {
    pub fn new(score: u64, last_accessed_time: u64, id: String) -> (r: ItemScore)
        ensures
            r@ == (ItemScoreView { score, last_accessed_time, id: id@ }),
    {
        ItemScore { score, last_accessed_time, id }
    }
}

pub open spec fn views_of_scores(s: Seq<ItemScore>) -> Seq<ItemScoreView> {
    s.map_values(|x: ItemScore| x@)
}

/// No two records carry the same id: the score snapshot's invariant.
pub open spec fn unique_ids(s: Seq<ItemScoreView>) -> bool {
    forall|i: int, j: int| 0 <= i < j < s.len() ==> (#[trigger] s[i]).id != (#[trigger] s[j]).id
}

// ---------- snapshot encoding ----------
pub open spec fn enc_score(x: ItemScoreView) -> Seq<char> {
    enc_str(x.id) + enc_u64(x.score) + enc_u64(x.last_accessed_time)
}

pub open spec fn dec_score(s: Seq<char>) -> Option<(ItemScoreView, Seq<char>)> {
    match dec_str(s) {
        Option::None => Option::None,
        Option::Some((id, r1)) => match dec_u64(r1) {
            Option::None => Option::None,
            Option::Some((score, r2)) => match dec_u64(r2) {
                Option::None => Option::None,
                Option::Some((last, r3)) => Option::Some(
                    (ItemScoreView { score, last_accessed_time: last, id }, r3),
                ),
            },
        },
    }
}

pub open spec fn score_enc_fn() -> spec_fn(ItemScoreView) -> Seq<char> {
    |x: ItemScoreView| enc_score(x)
}

pub open spec fn score_dec_fn() -> spec_fn(Seq<char>) -> Option<(ItemScoreView, Seq<char>)> {
    |s: Seq<char>| dec_score(s)
}

/// A whole score snapshot: the record count, each record, nothing after.
pub open spec fn enc_scores(s: Seq<ItemScoreView>) -> Seq<char> {
    enc_list(s, score_enc_fn())
}

pub open spec fn dec_scores(s: Seq<char>) -> Option<Seq<ItemScoreView>> {
    match dec_len(s) {
        Option::None => Option::None,
        Option::Some((n, r)) => match dec_list(r, n, score_dec_fn()) {
            Option::None => Option::None,
            Option::Some((xs, rest)) => if rest.len() == 0 {
                Option::Some(xs)
            } else {
                Option::None
            },
        },
    }
}

pub proof fn lemma_dec_score(x: ItemScoreView, rest: Seq<char>)
    ensures
        dec_score(enc_score(x) + rest) == Option::Some((x, rest)),
{
    let s = enc_score(x) + rest;
    let r1 = enc_u64(x.score) + (enc_u64(x.last_accessed_time) + rest);
    assert(s =~= enc_str(x.id) + r1);
    lemma_dec_str(x.id, r1);
    let r2 = enc_u64(x.last_accessed_time) + rest;
    lemma_dec_u64(x.score, r2);
    lemma_dec_u64(x.last_accessed_time, rest);
    assert(dec_score(s).unwrap().0 =~= x);
}

/// Reading back a written score snapshot yields the same records.
pub proof fn lemma_scores_round_trip(s: Seq<ItemScoreView>)
    ensures
        dec_scores(enc_scores(s)) == Option::Some(s),
{
    let body = enc_each(s, score_enc_fn());
    assert(enc_scores(s) =~= enc_len(s.len()) + (body + Seq::<char>::empty()));
    lemma_dec_len(s.len(), body + Seq::<char>::empty());
    assert(forall|x: ItemScoreView, r: Seq<char>| #[trigger]
        score_dec_fn()(score_enc_fn()(x) + r) == Option::Some((x, r))) by {
        assert forall|x: ItemScoreView, r: Seq<char>| #[trigger]
            score_dec_fn()(score_enc_fn()(x) + r) == Option::Some((x, r)) by {
            lemma_dec_score(x, r);
        }
    }
    lemma_dec_list(s, Seq::<char>::empty(), score_enc_fn(), score_dec_fn());
    assert(body + Seq::<char>::empty() =~= body);
}

pub proof fn lemma_dec_score_consumes(s: Seq<char>)
    ensures
        dec_score(s) is Some ==> dec_score(s).unwrap().1.len() < s.len(),
{
    if dec_score(s) is Some {
        lemma_dec_str_consumes(s);
    }
}

// ---------- exec encode / decode ----------
pub fn push_enc_score(out: &mut Vec<char>, x: &ItemScore)
    ensures
        final(out)@ == old(out)@ + enc_score(x@),
{
    push_enc_str(out, x.id.as_str());
    push_enc_u64(out, x.score);
    push_enc_u64(out, x.last_accessed_time);
    proof {
        assert(out@ =~= old(out)@ + enc_score(x@));
    }
}

/// Writes a score snapshot: every record, whole, in order.
pub fn encode_scores(s: &Vec<ItemScore>) -> (r: String)
    ensures
        r@ == enc_scores(views_of_scores(s@)),
{
    let ghost views = views_of_scores(s@);
    let mut out: Vec<char> = Vec::new();
    push_enc_u64(&mut out, s.len() as u64);
    let mut i: usize = 0;
    proof {
        assert(views.take(0) =~= Seq::<ItemScoreView>::empty());
        assert(out@ =~= enc_len(views.len()) + enc_each(views.take(0), score_enc_fn()));
    }
    while i < s.len()
        invariant
            views == views_of_scores(s@),
            i <= views.len(),
            out@ == enc_len(views.len()) + enc_each(views.take(i as int), score_enc_fn()),
        decreases views.len() - i,
    {
        push_enc_score(&mut out, &s[i]);
        proof {
            crate::item::lemma_enc_each_snoc(views.take(i as int), score_enc_fn(), views[i as int]);
            assert(views.take(i as int).push(views[i as int]) =~= views.take(i as int + 1));
            assert(out@ =~= enc_len(views.len()) + enc_each(
                views.take(i as int + 1),
                score_enc_fn(),
            ));
        }
        i = i + 1;
    }
    proof {
        assert(views.take(views.len() as int) =~= views);
        assert(out@ =~= enc_scores(views));
    }
    chars_to_string(&out)
}

fn dec_score_at(v: &Vec<char>, pos: usize) -> (r: Option<(ItemScore, usize)>)
    requires
        pos <= v@.len(),
    ensures
        match r {
            Option::Some((x, p)) => pos <= p <= v@.len() && dec_score(v@.skip(pos as int))
                == Option::Some((x@, v@.skip(p as int))),
            Option::None => dec_score(v@.skip(pos as int)) is None,
        },
{
    match dec_str_at(v, pos) {
        Option::None => None,
        Option::Some((id, p1)) => {
            match dec_u64_at(v, p1) {
                Option::None => None,
                Option::Some((score, p2)) => {
                    match dec_u64_at(v, p2) {
                        Option::None => None,
                        Option::Some((last, p3)) => {
                            let x = ItemScore { score, last_accessed_time: last, id };
                            proof {
                                assert(dec_score(v@.skip(pos as int)).unwrap().0 =~= x@);
                            }
                            Some((x, p3))
                        },
                    }
                },
            }
        },
    }
}

/// Reads a score snapshot back; fails exactly when the text is not a whole,
/// well-formed snapshot encoding.
pub fn decode_scores(s: &str) -> (r: Result<Vec<ItemScore>, CacheError>)
    ensures
        match r {
            Result::Ok(xs) => dec_scores(s@) == Option::Some(views_of_scores(xs@)),
            Result::Err(e) => dec_scores(s@) is None && e == CacheError::SerializationError,
        },
{
    let v = string_to_chars(s);
    let vl = v.len();
    let ghost fd = score_dec_fn();
    proof {
        assert(v@.skip(0) =~= v@);
    }
    let count_r = dec_u64_at(&v, 0);
    match count_r {
        Option::None => {
            proof {
                match dec_len(s@) {
                    Option::None => {},
                    Option::Some((n, r)) => {
                        assert(n >= 0x1_0000_0000_0000_0000);
                        assert(forall|s2: Seq<char>|
                            (#[trigger] fd(s2)) is Some ==> fd(s2).unwrap().1.len() < s2.len())
                            by {
                            assert forall|s2: Seq<char>| (#[trigger] fd(s2)) is Some implies fd(
                                s2,
                            ).unwrap().1.len() < s2.len() by {
                                lemma_dec_score_consumes(s2);
                            }
                        }
                        lemma_dec_list_too_long(r, n, fd);
                    },
                }
            }
            Err(CacheError::SerializationError)
        },
        Option::Some((count, p0)) => {
            let ghost r0 = v@.skip(p0 as int);
            let mut acc: Vec<ItemScore> = Vec::new();
            let mut cur: usize = p0;
            let mut k: u64 = 0;
            proof {
                assert(views_of_scores(acc@) =~= Seq::<ItemScoreView>::empty());
            }
            while k < count
                invariant
                    k <= count,
                    cur <= v@.len(),
                    fd == score_dec_fn(),
                    v@ == s@,
                    dec_len(s@) == Option::Some((count as nat, r0)),
                    match dec_list(v@.skip(cur as int), (count - k) as nat, fd) {
                        Option::None => dec_list(r0, count as nat, fd) is None,
                        Option::Some((t, rr)) => dec_list(r0, count as nat, fd) == Option::Some(
                            (views_of_scores(acc@) + t, rr),
                        ),
                    },
                decreases count - k,
            {
                let ghost before = v@.skip(cur as int);
                let er = dec_score_at(&v, cur);
                match er {
                    Option::None => {
                        proof {
                            assert(fd(before) is None);
                            assert((count - k) as nat != 0);
                            assert(dec_list(v@.skip(cur as int), (count - k) as nat, fd) is None);
                        }
                        return Err(CacheError::SerializationError);
                    },
                    Option::Some((x, p2)) => {
                        let ghost old_acc = views_of_scores(acc@);
                        acc.push(x);
                        proof {
                            assert(views_of_scores(acc@) =~~= old_acc.push(x@));
                        }
                        cur = p2;
                        k = k + 1;
                        proof {
                            assert(fd(before) == Option::Some((x@, v@.skip(cur as int))));
                            assert forall|t: Seq<ItemScoreView>, rr: Seq<char>|
                                dec_list(v@.skip(cur as int), (count - k) as nat, fd)
                                    == Option::Some((t, rr)) implies old_acc + (seq![x@] + t)
                                =~~= views_of_scores(acc@) + t by {
                                assert(old_acc.push(x@) =~~= old_acc + seq![x@]);
                            }
                        }
                    },
                }
            }
            if cur != vl {
                proof {
                    assert(v@.skip(cur as int).len() > 0);
                }
                return Err(CacheError::SerializationError);
            }
            proof {
                assert(dec_list(v@.skip(cur as int), 0nat, fd) == Option::Some(
                    (Seq::<ItemScoreView>::empty(), v@.skip(cur as int)),
                ));
                assert(views_of_scores(acc@) + Seq::<ItemScoreView>::empty() =~~= views_of_scores(
                    acc@,
                ));
                assert(v@.skip(cur as int).len() == 0);
            }
            Ok(acc)
        },
    }
}

// ---------- access log parsing ----------
pub open spec fn views_of_events(s: Seq<AccessEvent>) -> Seq<AccessEventView> {
    s.map_values(|x: AccessEvent| x@)
}

/// One log line: fields split on `|` and trimmed of ASCII whitespace; the
/// first field is the id, the second must read as a decimal time; any further
/// fields are ignored, and a line without both fields is skipped.
pub open spec fn parse_line(line: Seq<char>) -> Option<AccessEventView> {
    let fields = spec_split(line, '|');
    if fields.len() < 2 {
        Option::None
    } else {
        match spec_parse_u64(spec_trim(fields[1])) {
            Option::None => Option::None,
            Option::Some(t) => Option::Some(
                AccessEventView { id: spec_trim(fields[0]), access_time: t },
            ),
        }
    }
}

pub open spec fn parse_lines(lines: Seq<Seq<char>>) -> Seq<AccessEventView>
    decreases lines.len(),
{
    if lines.len() == 0 {
        Seq::empty()
    } else {
        match parse_line(lines[0]) {
            Option::None => parse_lines(lines.skip(1)),
            Option::Some(e) => seq![e] + parse_lines(lines.skip(1)),
        }
    }
}

/// Every well-formed event in the log, in log order; malformed lines skipped.
pub open spec fn parse_log(content: Seq<char>) -> Seq<AccessEventView> {
    parse_lines(spec_split(content, '\n'))
}

proof fn lemma_parse_lines_snoc(lines: Seq<Seq<char>>, x: Seq<char>)
    ensures
        parse_lines(lines.push(x)) == parse_lines(lines) + (match parse_line(x) {
            Option::None => Seq::<AccessEventView>::empty(),
            Option::Some(e) => seq![e],
        }),
    decreases lines.len(),
{
    let tail = match parse_line(x) {
        Option::None => Seq::<AccessEventView>::empty(),
        Option::Some(e) => seq![e],
    };
    if lines.len() == 0 {
        assert(lines.push(x)[0] == x);
        assert(lines.push(x).skip(1) =~= Seq::<Seq<char>>::empty());
        assert(parse_lines(Seq::<Seq<char>>::empty()) == Seq::<AccessEventView>::empty());
        match parse_line(x) {
            Option::None => {
                assert(parse_lines(lines.push(x)) =~= tail);
            },
            Option::Some(e) => {
                assert(parse_lines(lines.push(x)) == seq![e] + Seq::<AccessEventView>::empty());
                assert(seq![e] + Seq::<AccessEventView>::empty() =~= tail);
            },
        }
        assert(parse_lines(lines) + tail =~= tail);
    } else {
        assert(lines.push(x).skip(1) =~= lines.skip(1).push(x));
        lemma_parse_lines_snoc(lines.skip(1), x);
        assert(lines.push(x)[0] == lines[0]);
        assert(parse_lines(lines.push(x)) =~= parse_lines(lines) + tail);
    }
}

fn parse_line_exec(line: &Vec<char>) -> (r: Option<AccessEvent>)
    ensures
        match r {
            Option::Some(e) => parse_line(line@) == Option::Some(e@),
            Option::None => parse_line(line@) is None,
        },
{
    let fields = split_chars(line, '|');
    proof {
        assert(fields.deep_view().len() == fields@.len());
    }
    if fields.len() < 2 {
        return None;
    }
    let id_field = trim_chars(&fields[0]);
    let time_field = trim_chars(&fields[1]);
    proof {
        assert(fields@[0]@ == fields.deep_view()[0]);
        assert(fields@[1]@ == fields.deep_view()[1]);
    }
    match crate::num::parse_u64_field(&time_field) {
        Option::None => None,
        Option::Some(t) => {
            let id = chars_to_string(&id_field);
            Some(AccessEvent { id, access_time: t })
        },
    }
}

/// Reads the access log: every well-formed `id|time` line becomes an event,
/// in order; malformed lines are skipped, never an error.
pub fn parse_access_log(content: &str) -> (r: Vec<AccessEvent>)
    ensures
        views_of_events(r@) == parse_log(content@),
{
    let chars = string_to_chars(content);
    let lines = split_chars(&chars, '\n');
    let ghost lviews = lines.deep_view();
    let mut out: Vec<AccessEvent> = Vec::new();
    let mut i: usize = 0;
    proof {
        assert(lviews.take(0) =~= Seq::<Seq<char>>::empty());
        assert(views_of_events(out@) =~= parse_lines(lviews.take(0)));
    }
    while i < lines.len()
        invariant
            lviews == lines.deep_view(),
            lviews == spec_split(content@, '\n'),
            i <= lviews.len(),
            views_of_events(out@) == parse_lines(lviews.take(i as int)),
        decreases lviews.len() - i,
    {
        let ghost old_out = views_of_events(out@);
        proof {
            assert(lines@[i as int]@ == lviews[i as int]);
        }
        match parse_line_exec(&lines[i]) {
            Option::None => {},
            Option::Some(e) => {
                out.push(e);
                proof {
                    assert(views_of_events(out@) =~~= old_out.push(e@));
                }
            },
        }
        proof {
            lemma_parse_lines_snoc(lviews.take(i as int), lviews[i as int]);
            assert(lviews.take(i as int).push(lviews[i as int]) =~= lviews.take(i as int + 1));
            assert(views_of_events(out@) =~= parse_lines(lviews.take(i as int + 1)));
        }
        i = i + 1;
    }
    proof {
        assert(lviews.take(lviews.len() as int) =~= lviews);
    }
    out
}

// ---------- folding events into scores ----------
/// One more use: the count grows by one (it cannot pass the largest `u64`).
pub open spec fn bump(s: u64) -> u64 {
    if s == 0xffff_ffff_ffff_ffff {
        s
    } else {
        (s + 1) as u64
    }
}

/// One event folded in: the first record with the event's id gets one more
/// use and the event's time; if there is none, a fresh record with score 1 is
/// appended.
pub open spec fn apply_event(s: Seq<ItemScoreView>, e: AccessEventView) -> Seq<ItemScoreView>
    decreases s.len(),
{
    if s.len() == 0 {
        seq![ItemScoreView { score: 1, last_accessed_time: e.access_time, id: e.id }]
    } else if s[0].id == e.id {
        seq![
            ItemScoreView { score: bump(s[0].score), last_accessed_time: e.access_time, id: s[0].id },
        ] + s.skip(1)
    } else {
        seq![s[0]] + apply_event(s.skip(1), e)
    }
}

/// Every event folded in, in log order.
pub open spec fn fold_events(s: Seq<ItemScoreView>, events: Seq<AccessEventView>) -> Seq<
    ItemScoreView,
>
    decreases events.len(),
{
    if events.len() == 0 {
        s
    } else {
        fold_events(apply_event(s, events[0]), events.skip(1))
    }
}

proof fn lemma_apply_event_found(s: Seq<ItemScoreView>, e: AccessEventView, idx: int)
    requires
        0 <= idx < s.len(),
        s[idx].id == e.id,
        forall|j: int| 0 <= j < idx ==> (#[trigger] s[j]).id != e.id,
    ensures
        apply_event(s, e) == s.update(
            idx,
            ItemScoreView { score: bump(s[idx].score), last_accessed_time: e.access_time, id: s[idx].id },
        ),
    decreases idx,
{
    if idx == 0 {
        assert(apply_event(s, e) =~= s.update(
            0,
            ItemScoreView { score: bump(s[0].score), last_accessed_time: e.access_time, id: s[0].id },
        ));
    } else {
        assert(forall|j: int| 0 <= j < idx - 1 ==> (#[trigger] s.skip(1)[j]).id != e.id) by {
            assert(forall|j: int| 0 <= j < idx - 1 ==> s.skip(1)[j] == #[trigger] s[j + 1]);
        }
        lemma_apply_event_found(s.skip(1), e, idx - 1);
        assert(apply_event(s, e) =~= s.update(
            idx,
            ItemScoreView { score: bump(s[idx].score), last_accessed_time: e.access_time, id: s[idx].id },
        ));
    }
}

proof fn lemma_apply_event_missing(s: Seq<ItemScoreView>, e: AccessEventView)
    requires
        forall|j: int| 0 <= j < s.len() ==> (#[trigger] s[j]).id != e.id,
    ensures
        apply_event(s, e) == s.push(
            ItemScoreView { score: 1, last_accessed_time: e.access_time, id: e.id },
        ),
    decreases s.len(),
{
    let fresh = ItemScoreView { score: 1, last_accessed_time: e.access_time, id: e.id };
    if s.len() == 0 {
        assert(apply_event(s, e) =~= s.push(fresh));
    } else {
        assert(forall|j: int| 0 <= j < s.len() - 1 ==> (#[trigger] s.skip(1)[j]).id != e.id) by {
            assert(forall|j: int| 0 <= j < s.len() - 1 ==> s.skip(1)[j] == #[trigger] s[j + 1]);
        }
        lemma_apply_event_missing(s.skip(1), e);
        assert(apply_event(s, e) =~= s.push(fresh));
    }
}

fn apply_event_exec(scores: &mut Vec<ItemScore>, e: AccessEvent)
    ensures
        views_of_scores(final(scores)@) == apply_event(views_of_scores(old(scores)@), e@),
{
    let ghost sv = views_of_scores(scores@);
    let n = scores.len();
    let mut i: usize = 0;
    while i < n
        invariant
            n == scores@.len(),
            i <= n,
            scores@ == old(scores)@,
            sv == views_of_scores(scores@),
            forall|j: int| 0 <= j < i ==> (#[trigger] sv[j]).id != e@.id,
        decreases n - i,
    {
        if scores[i].id == e.id {
            let old_entry = scores.remove(i);
            let bumped: u64 = if old_entry.score == 0xffff_ffff_ffff_ffffu64 {
                old_entry.score
            } else {
                old_entry.score + 1
            };
            let new_entry = ItemScore {
                score: bumped,
                last_accessed_time: e.access_time,
                id: old_entry.id,
            };
            scores.insert(i, new_entry);
            proof {
                lemma_apply_event_found(sv, e@, i as int);
                assert(views_of_scores(scores@) =~~= sv.update(
                    i as int,
                    ItemScoreView {
                        score: bump(sv[i as int].score),
                        last_accessed_time: e@.access_time,
                        id: sv[i as int].id,
                    },
                ));
            }
            return ;
        }
        i = i + 1;
    }
    let fresh = ItemScore { score: 1, last_accessed_time: e.access_time, id: e.id };
    let ghost fv = fresh@;
    scores.push(fresh);
    proof {
        lemma_apply_event_missing(sv, e@);
        assert(views_of_scores(scores@) =~~= sv.push(fv));
    }
}

/// Folds the whole access log into the score records, oldest line first.
pub fn fold_events_exec(scores: Vec<ItemScore>, events: Vec<AccessEvent>) -> (r: Vec<ItemScore>)
    ensures
        views_of_scores(r@) == fold_events(views_of_scores(scores@), views_of_events(events@)),
{
    let ghost all = views_of_events(events@);
    let ghost orig = views_of_scores(scores@);
    let mut rest = events;
    let mut cur = scores;
    while rest.len() > 0
        invariant
            fold_events(views_of_scores(cur@), views_of_events(rest@)) == fold_events(orig, all),
        decreases rest@.len(),
    {
        let ghost before = views_of_events(rest@);
        let e = rest.remove(0);
        proof {
            assert(e@ == before[0]);
            assert(views_of_events(rest@) =~~= before.skip(1));
        }
        apply_event_exec(&mut cur, e);
    }
    proof {
        assert(views_of_events(rest@) =~= Seq::<AccessEventView>::empty());
    }
    cur
}

// ---------- loading: newest use first ----------
/// Records ordered by last use, newest first.
pub open spec fn sorted_desc(s: Seq<ItemScoreView>) -> bool {
    forall|i: int, j: int|
        0 <= i < j < s.len() ==> (#[trigger] s[i]).last_accessed_time
            >= (#[trigger] s[j]).last_accessed_time
}

/// `x` placed before the first record it was used no earlier than; among
/// records used at the same time, `x` comes first.
pub open spec fn insert_desc(x: ItemScoreView, s: Seq<ItemScoreView>) -> Seq<ItemScoreView>
    decreases s.len(),
{
    if s.len() == 0 {
        seq![x]
    } else if x.last_accessed_time >= s[0].last_accessed_time {
        seq![x] + s
    } else {
        seq![s[0]] + insert_desc(x, s.skip(1))
    }
}

/// The records sorted by last use, newest first; records used at the same
/// time keep their order.
pub open spec fn sort_desc(s: Seq<ItemScoreView>) -> Seq<ItemScoreView>
    decreases s.len(),
{
    if s.len() == 0 {
        Seq::empty()
    } else {
        insert_desc(s[0], sort_desc(s.skip(1)))
    }
}

proof fn lemma_insert_desc_sorted(x: ItemScoreView, s: Seq<ItemScoreView>)
    requires
        sorted_desc(s),
    ensures
        sorted_desc(insert_desc(x, s)),
        insert_desc(x, s).len() == s.len() + 1,
        forall|k: int|
            0 <= k < insert_desc(x, s).len() ==> (#[trigger] insert_desc(x, s)[k]) == x || exists|j: int|
                0 <= j < s.len() && s[j] == insert_desc(x, s)[k],
    decreases s.len(),
{
    let r = insert_desc(x, s);
    if s.len() == 0 {
        assert(r[0] == x);
    } else if x.last_accessed_time >= s[0].last_accessed_time {
        assert(forall|k: int| 1 <= k < r.len() ==> r[k] == #[trigger] s[k - 1]);
        assert(sorted_desc(r));
    } else {
        assert(sorted_desc(s.skip(1))) by {
            assert(forall|j: int| 0 <= j < s.len() - 1 ==> s.skip(1)[j] == #[trigger] s[j + 1]);
        }
        lemma_insert_desc_sorted(x, s.skip(1));
        let r1 = insert_desc(x, s.skip(1));
        assert(forall|k: int| 1 <= k < r.len() ==> r[k] == #[trigger] r1[k - 1]);
        // the head is no older than anything inserted behind it
        assert forall|k: int| 1 <= k < r.len() implies r[0].last_accessed_time
            >= (#[trigger] r[k]).last_accessed_time by {
            assert(r1[k - 1] == x || exists|j: int| 0 <= j < s.skip(1).len() && s.skip(1)[j] == r1[k
                - 1]);
            if r1[k - 1] != x {
                let j = choose|j: int| 0 <= j < s.skip(1).len() && s.skip(1)[j] == r1[k - 1];
                assert(s.skip(1)[j] == s[j + 1]);
            }
        }
        assert(sorted_desc(r));
        assert forall|k: int| 0 <= k < r.len() implies (#[trigger] r[k]) == x || exists|j: int|
            0 <= j < s.len() && s[j] == r[k] by {
            if k == 0 {
                assert(s[0] == r[0]);
            } else if r1[k - 1] != x {
                let j = choose|j: int| 0 <= j < s.skip(1).len() && s.skip(1)[j] == r1[k - 1];
                assert(s[j + 1] == r[k]);
            }
        }
    }
}

/// What `sort_desc` yields is sorted.
pub proof fn lemma_sort_desc_sorted(s: Seq<ItemScoreView>)
    ensures
        sorted_desc(sort_desc(s)),
        sort_desc(s).len() == s.len(),
    decreases s.len(),
{
    if s.len() > 0 {
        lemma_sort_desc_sorted(s.skip(1));
        lemma_insert_desc_sorted(s[0], sort_desc(s.skip(1)));
    }
}

proof fn lemma_insert_desc_at(x: ItemScoreView, s: Seq<ItemScoreView>, p: int)
    requires
        0 <= p <= s.len(),
        forall|j: int| 0 <= j < p ==> (#[trigger] s[j]).last_accessed_time > x.last_accessed_time,
        p == s.len() || s[p].last_accessed_time <= x.last_accessed_time,
    ensures
        insert_desc(x, s) == s.take(p) + seq![x] + s.skip(p),
    decreases p,
{
    if p == 0 {
        if s.len() == 0 {
            assert(insert_desc(x, s) =~= s.take(0) + seq![x] + s.skip(0));
        } else {
            assert(insert_desc(x, s) =~= s.take(0) + seq![x] + s.skip(0));
        }
    } else {
        assert(forall|j: int|
            0 <= j < p - 1 ==> (#[trigger] s.skip(1)[j]).last_accessed_time
                > x.last_accessed_time) by {
            assert(forall|j: int| 0 <= j < s.len() - 1 ==> s.skip(1)[j] == #[trigger] s[j + 1]);
        }
        if p < s.len() {
            assert(s.skip(1)[p - 1] == s[p]);
        }
        lemma_insert_desc_at(x, s.skip(1), p - 1);
        assert(s.skip(1).take(p - 1) =~= s.take(p).skip(1));
        assert(s.skip(1).skip(p - 1) =~= s.skip(p));
        assert(insert_desc(x, s) =~= s.take(p) + seq![x] + s.skip(p));
    }
}

fn insert_score_desc(out: &mut Vec<ItemScore>, x: ItemScore)
    ensures
        views_of_scores(final(out)@) == insert_desc(x@, views_of_scores(old(out)@)),
{
    let ghost sv = views_of_scores(out@);
    let n = out.len();
    let mut p: usize = 0;
    while p < n && out[p].last_accessed_time > x.last_accessed_time
        invariant
            n == out@.len(),
            p <= n,
            out@ == old(out)@,
            sv == views_of_scores(out@),
            forall|j: int|
                0 <= j < p ==> (#[trigger] sv[j]).last_accessed_time > x@.last_accessed_time,
        decreases n - p,
    {
        p = p + 1;
    }
    let ghost xv = x@;
    out.insert(p, x);
    proof {
        lemma_insert_desc_at(xv, sv, p as int);
        assert(views_of_scores(out@) =~~= sv.take(p as int) + seq![xv] + sv.skip(p as int));
    }
}

/// Sorts the records by last use, newest first; ties keep their order.
pub fn sort_scores_desc(s: Vec<ItemScore>) -> (r: Vec<ItemScore>)
    ensures
        views_of_scores(r@) == sort_desc(views_of_scores(s@)),
{
    let ghost all = views_of_scores(s@);
    let mut rest = s;
    let mut out: Vec<ItemScore> = Vec::new();
    proof {
        assert(all.skip(all.len() as int) =~= Seq::<ItemScoreView>::empty());
        assert(views_of_scores(rest@) =~= all.take(all.len() as int));
    }
    while rest.len() > 0
        invariant
            rest@.len() <= all.len(),
            views_of_scores(rest@) == all.take(rest@.len() as int),
            views_of_scores(out@) == sort_desc(all.skip(rest@.len() as int)),
        decreases rest@.len(),
    {
        let ghost k = rest@.len() as int;
        let x = match rest.pop() {
            Option::Some(x) => x,
            Option::None => {
                proof {
                    assert(false);
                }
                unreached()
            },
        };
        proof {
            assert(x@ == all.take(k)[k - 1]);
            assert(all.take(k)[k - 1] == all[k - 1]);
            assert(views_of_scores(rest@) =~~= all.take(k - 1));
            assert(all.skip(k - 1)[0] == all[k - 1]);
            assert(all.skip(k - 1).skip(1) =~= all.skip(k));
        }
        insert_score_desc(&mut out, x);
        proof {
            assert(views_of_scores(out@) == sort_desc(all.skip(k - 1)));
        }
    }
    proof {
        assert(all.take(0) =~= Seq::<ItemScoreView>::empty());
        assert(all.skip(0) =~= all);
    }
    out
}

// ---------- loading and compaction ----------
pub open spec fn opt_str_view(o: Option<String>) -> Option<Seq<char>> {
    match o {
        Option::None => Option::None,
        Option::Some(c) => Option::Some(c@),
    }
}

/// What loading the score snapshot yields: the decoded records sorted newest
/// use first; a missing or unreadable snapshot is a cold start, not an error.
pub open spec fn spec_load_scores(content: Option<Seq<char>>) -> Seq<ItemScoreView> {
    match content {
        Option::None => Seq::empty(),
        Option::Some(c) => match dec_scores(c) {
            Option::None => Seq::empty(),
            Option::Some(s) => sort_desc(s),
        },
    }
}

/// Loads the score snapshot from the file's content, if the file was there.
pub fn load_scores_from(content: Option<String>) -> (r: Vec<ItemScore>)
    ensures
        views_of_scores(r@) == spec_load_scores(opt_str_view(content)),
{
    match content {
        Option::None => Vec::new(),
        Option::Some(c) => match decode_scores(c.as_str()) {
            Result::Ok(s) => sort_scores_desc(s),
            Result::Err(_) => Vec::new(),
        },
    }
}

/// What one compaction writes: nothing when there is no log to fold, else the
/// previous records (sorted, cold start when missing or corrupt) with every
/// well-formed log event folded in, re-encoded.
pub open spec fn spec_compact(prev: Option<Seq<char>>, log: Option<Seq<char>>) -> Option<
    Seq<char>,
> {
    match log {
        Option::None => Option::None,
        Option::Some(c) => Option::Some(
            enc_scores(fold_events(spec_load_scores(prev), parse_log(c))),
        ),
    }
}

/// One compaction, as pure text: in comes what the score snapshot and the
/// access log hold (`None` for a file that is not there), out goes the new
/// snapshot content, or `None` when there is no log and nothing to do. The
/// caller writes the content first and deletes the log only after that write
/// succeeded: losing events is the failure this ordering rules out.
pub fn compact_content(prev: Option<String>, log: Option<String>) -> (r: Option<String>)
    ensures
        match r {
            Option::Some(out) => spec_compact(opt_str_view(prev), opt_str_view(log))
                == Option::Some(out@),
            Option::None => spec_compact(opt_str_view(prev), opt_str_view(log)) is None,
        },
{
    match log {
        Option::None => None,
        Option::Some(lc) => {
            let prev_scores = load_scores_from(prev);
            let events = parse_access_log(lc.as_str());
            let folded = fold_events_exec(prev_scores, events);
            Some(encode_scores(&folded))
        },
    }
}

// ---------- laws ----------
/// Folding no events changes nothing.
pub proof fn lemma_fold_no_events(s: Seq<ItemScoreView>)
    ensures
        fold_events(s, Seq::empty()) == s,
{
}

/// Compaction is idempotent across runs: the first run that wrote a snapshot
/// also truncated the log, so the next run, finding no log, rewrites nothing,
/// whatever the snapshot now holds.
pub proof fn lemma_compact_idempotent(prev: Option<Seq<char>>)
    ensures
        spec_compact(prev, Option::None) is None,
{
}

/// A log file that is present but empty changes nothing either: compacting a
/// sorted snapshot over it writes the snapshot back unchanged.
pub proof fn lemma_compact_empty_log(s: Seq<ItemScoreView>)
    requires
        s == sort_desc(s),
    ensures
        spec_compact(Option::Some(enc_scores(s)), Option::Some(Seq::empty())) == Option::Some(
            enc_scores(s),
        ),
{
    lemma_scores_round_trip(s);
    let lines = spec_split(Seq::<char>::empty(), '\n');
    assert(lines == seq![Seq::<char>::empty()]);
    let fields = spec_split(Seq::<char>::empty(), '|');
    assert(fields == seq![Seq::<char>::empty()]);
    assert(parse_line(Seq::<char>::empty()) is None);
    assert(lines.skip(1) =~= Seq::<Seq<char>>::empty());
    assert(parse_lines(Seq::<Seq<char>>::empty()) == Seq::<AccessEventView>::empty());
    assert(parse_lines(lines) == parse_lines(lines.skip(1)));
    assert(parse_log(Seq::<char>::empty()) == Seq::<AccessEventView>::empty());
    lemma_fold_no_events(s);
}

/// Folding keeps the snapshot invariant: at most one record per id.
pub proof fn lemma_apply_event_unique(s: Seq<ItemScoreView>, e: AccessEventView)
    requires
        unique_ids(s),
    ensures
        unique_ids(apply_event(s, e)),
        forall|k: int|
            0 <= k < apply_event(s, e).len() ==> (#[trigger] apply_event(s, e)[k]).id == e.id
                || exists|j: int| 0 <= j < s.len() && (#[trigger] s[j]).id == apply_event(s, e)[k].id,
    decreases s.len(),
{
    let r = apply_event(s, e);
    if s.len() == 0 {
        assert(r[0].id == e.id);
    } else if s[0].id == e.id {
        assert(forall|k: int| 1 <= k < r.len() ==> r[k] == #[trigger] s[k]);
        assert(r[0].id == s[0].id);
        assert(unique_ids(r));
        assert(forall|k: int|
            0 <= k < r.len() ==> 0 <= k < s.len() && (#[trigger] s[k]).id == r[k].id);
    } else {
        assert(unique_ids(s.skip(1))) by {
            assert(forall|j: int| 0 <= j < s.len() - 1 ==> s.skip(1)[j] == #[trigger] s[j + 1]);
        }
        lemma_apply_event_unique(s.skip(1), e);
        let r1 = apply_event(s.skip(1), e);
        assert(forall|k: int| 1 <= k < r.len() ==> r[k] == #[trigger] r1[k - 1]);
        assert(r[0] == s[0]);
        // the head id stays unique: everything behind it is either the event id
        // or an id from the tail, and both differ from the head id
        assert forall|k: int| 1 <= k < r.len() implies (#[trigger] r[k]).id != r[0].id by {
            if r1[k - 1].id != e.id {
                let j = choose|j: int|
                    0 <= j < s.skip(1).len() && (#[trigger] s.skip(1)[j]).id == r1[k - 1].id;
                assert(s.skip(1)[j] == s[j + 1]);
            }
        }
        assert(unique_ids(r));
        assert forall|k: int|
            0 <= k < r.len() implies (#[trigger] r[k]).id == e.id || exists|j: int|
            0 <= j < s.len() && (#[trigger] s[j]).id == r[k].id by {
            if k == 0 {
                assert(s[0].id == r[0].id);
            } else if r1[k - 1].id != e.id {
                let j = choose|j: int|
                    0 <= j < s.skip(1).len() && (#[trigger] s.skip(1)[j]).id == r1[k - 1].id;
                assert(s[j + 1].id == r[k].id);
            }
        }
    }
}

/// Compaction keeps the snapshot invariant over a whole log.
pub proof fn lemma_fold_keeps_unique(s: Seq<ItemScoreView>, events: Seq<AccessEventView>)
    requires
        unique_ids(s),
    ensures
        unique_ids(fold_events(s, events)),
    decreases events.len(),
{
    if events.len() > 0 {
        lemma_apply_event_unique(s, events[0]);
        lemma_fold_keeps_unique(apply_event(s, events[0]), events.skip(1));
    }
}

/// Sorting loses no record and invents none: the sorted records are the same
/// multiset.
pub proof fn lemma_sort_desc_permutes(s: Seq<ItemScoreView>)
    ensures
        sort_desc(s).to_multiset() == s.to_multiset(),
    decreases s.len(),
{
    broadcast use vstd::seq_lib::group_to_multiset_ensures;

    if s.len() > 0 {
        lemma_sort_desc_permutes(s.skip(1));
        lemma_insert_desc_multiset(s[0], sort_desc(s.skip(1)));
        assert(s =~= seq![s[0]] + s.skip(1));
        vstd::seq_lib::lemma_multiset_commutative(seq![s[0]], s.skip(1));
        assert(seq![s[0]].to_multiset() =~= vstd::multiset::Multiset::<ItemScoreView>::empty().insert(s[0])) by {
            assert(seq![s[0]] =~= Seq::<ItemScoreView>::empty().push(s[0]));
        }
        assert(s.to_multiset() =~= s.skip(1).to_multiset().insert(s[0]));
    }
}

proof fn lemma_insert_desc_multiset(x: ItemScoreView, s: Seq<ItemScoreView>)
    ensures
        insert_desc(x, s).to_multiset() == s.to_multiset().insert(x),
    decreases s.len(),
{
    broadcast use vstd::seq_lib::group_to_multiset_ensures;

    if s.len() == 0 {
        assert(insert_desc(x, s) =~= Seq::<ItemScoreView>::empty().push(x));
    } else if x.last_accessed_time >= s[0].last_accessed_time {
        vstd::seq_lib::lemma_multiset_commutative(seq![x], s);
        assert(seq![x].to_multiset() =~= vstd::multiset::Multiset::<ItemScoreView>::empty().insert(x)) by {
            assert(seq![x] =~= Seq::<ItemScoreView>::empty().push(x));
        }
        assert((seq![x] + s).to_multiset() =~= s.to_multiset().insert(x));
    } else {
        lemma_insert_desc_multiset(x, s.skip(1));
        let r1 = insert_desc(x, s.skip(1));
        vstd::seq_lib::lemma_multiset_commutative(seq![s[0]], r1);
        vstd::seq_lib::lemma_multiset_commutative(seq![s[0]], s.skip(1));
        assert(seq![s[0]].to_multiset() =~= vstd::multiset::Multiset::<ItemScoreView>::empty().insert(s[0])) by {
            assert(seq![s[0]] =~= Seq::<ItemScoreView>::empty().push(s[0]));
        }
        assert(s =~= seq![s[0]] + s.skip(1));
        assert((seq![s[0]] + r1).to_multiset() =~= s.to_multiset().insert(x));
    }
}

/// Some record carries this id.
pub open spec fn id_present(scores: Seq<ItemScoreView>, id: Seq<char>) -> bool {
    exists|k: int| 0 <= k < scores.len() && (#[trigger] scores[k]).id == id
}

/// Folding one event deletes no record: every id present before is present
/// after.
pub proof fn lemma_apply_event_keeps_ids(s: Seq<ItemScoreView>, e: AccessEventView)
    ensures
        apply_event(s, e).len() >= s.len(),
        forall|j: int| 0 <= j < s.len() ==> id_present(apply_event(s, e), (#[trigger] s[j]).id),
    decreases s.len(),
{
    let r = apply_event(s, e);
    if s.len() == 0 {
    } else if s[0].id == e.id {
        assert(forall|k: int| 1 <= k < r.len() ==> r[k] == #[trigger] s[k]);
        assert forall|j: int| 0 <= j < s.len() implies id_present(r, (#[trigger] s[j]).id) by {
            if j == 0 {
                assert(r[0].id == s[0].id);
            } else {
                assert(r[j].id == s[j].id);
            }
        }
    } else {
        lemma_apply_event_keeps_ids(s.skip(1), e);
        let r1 = apply_event(s.skip(1), e);
        assert(forall|k: int| 1 <= k < r.len() ==> r[k] == #[trigger] r1[k - 1]);
        assert forall|j: int| 0 <= j < s.len() implies id_present(r, (#[trigger] s[j]).id) by {
            if j == 0 {
                assert(r[0].id == s[0].id);
            } else {
                assert(s.skip(1)[j - 1] == s[j]);
                assert(id_present(r1, s[j].id));
                let k1 = choose|k1: int| 0 <= k1 < r1.len() && (#[trigger] r1[k1]).id == s[j].id;
                assert(r[k1 + 1].id == s[j].id);
            }
        }
    }
}

/// Compaction never deletes a record, over a whole log: dangling ids are
/// tolerated at query time, not cleaned up here.
pub proof fn lemma_fold_keeps_entries(s: Seq<ItemScoreView>, events: Seq<AccessEventView>)
    ensures
        forall|j: int|
            0 <= j < s.len() ==> id_present(fold_events(s, events), (#[trigger] s[j]).id),
    decreases events.len(),
{
    if events.len() == 0 {
        assert forall|j: int|
            0 <= j < s.len() implies id_present(fold_events(s, events), (#[trigger] s[j]).id) by {
            assert(fold_events(s, events)[j].id == s[j].id);
        }
    } else {
        let s1 = apply_event(s, events[0]);
        lemma_apply_event_keeps_ids(s, events[0]);
        lemma_fold_keeps_entries(s1, events.skip(1));
        assert forall|j: int|
            0 <= j < s.len() implies id_present(fold_events(s, events), (#[trigger] s[j]).id) by {
            assert(id_present(s1, s[j].id));
            let k1 = choose|k1: int| 0 <= k1 < s1.len() && (#[trigger] s1[k1]).id == s[j].id;
            assert(id_present(fold_events(s1, events.skip(1)), s1[k1].id));
            assert(fold_events(s, events) == fold_events(s1, events.skip(1)));
        }
    }
}

} // verus!
