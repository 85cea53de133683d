use crate::text::{chars_contain, chars_to_string, seq_contains_sub, split_chars, string_to_chars};
use vstd::prelude::*;

verus! {

/// One pickable symbol: the text that goes to the clipboard and a short
/// description to search by.
#[derive(Debug, Clone, PartialEq)]
pub struct Symbol {
    pub text: String,
    pub description: String,
}

#[verifier::ext_equal]
pub struct SymbolView {
    pub text: Seq<char>,
    pub description: Seq<char>,
}

impl View for Symbol {
    type V = SymbolView;

    open spec fn view(&self) -> SymbolView {
        SymbolView { text: self.text@, description: self.description@ }
    }
}

pub open spec fn views_of_symbols(s: Seq<Symbol>) -> Seq<SymbolView> {
    s.map_values(|x: Symbol| x@)
}

impl Symbol {
    pub fn new(text: &str, description: &str) -> (r: Symbol)
        ensures
            r@ == (SymbolView { text: text@, description: description@ }),
    {
        Symbol { text: text.to_owned(), description: description.to_owned() }
    }

    /// The fixed favorites table, entry by entry: what an empty query shows.
    pub open spec fn spec_favorite_symbols() -> Seq<SymbolView> {
        seq![
        SymbolView { text: "\u{00B7}"@, description: "middle dot"@ },
        SymbolView { text: "\u{2014}"@, description: "em dash"@ },
        SymbolView { text: "\u{22EF}"@, description: "middle dots"@ },
        SymbolView { text: "\u{22EF}\u{22EF}"@, description: "double middle dots"@ },
        SymbolView { text: "\u{300C}\u{300D}"@, description: "corner brackets"@ },
        SymbolView { text: "\u{300E}\u{300F}"@, description: "white corner brackets"@ },
        SymbolView { text: "\u{300A}\u{300B}"@, description: "double angle brackets"@ },
        SymbolView { text: "\u{3008}\u{3009}"@, description: "angle brackets"@ },
        SymbolView { text: "\u{3014}\u{3015}"@, description: "tortoise shell brackets"@ },
        SymbolView { text: "\u{3018}\u{3019}"@, description: "white curly brackets"@ },
        SymbolView { text: "\u{301A}\u{301B}"@, description: "white square brackets"@ },
        SymbolView { text: "\u{273E}"@, description: "floral heart"@ },
        SymbolView { text: "\u{273F}"@, description: "flower"@ },
        SymbolView { text: "\u{2740}"@, description: "white flower"@ },
        SymbolView { text: "\u{2741}"@, description: "outline flower"@ },
        SymbolView { text: "\u{2743}"@, description: "teardrop-spoked asterisk"@ },
        SymbolView { text: "\u{223D}"@, description: "similar to"@ },
        SymbolView { text: "\u{223E}"@, description: "inverted lazy S"@ },
        SymbolView { text: "\u{2053}"@, description: "swung dash"@ },
        SymbolView { text: "\u{2714}"@, description: "check mark"@ },
        SymbolView { text: "\u{2715}"@, description: "multiplication x"@ },
        SymbolView { text: "\u{13EA}"@, description: "cherokee letter wv"@ },
        SymbolView { text: "\u{1455}"@, description: "canadian syllabics sha"@ },
        SymbolView { text: "\u{222E}"@, description: "contour integral"@ },
        SymbolView { text: "\u{1762}"@, description: "hanunoo letter la"@ },
        SymbolView { text: "\u{14EC}"@, description: "canadian syllabics l"@ },
        SymbolView { text: "\u{17DC}"@, description: "khmer symbol lek too"@ },
        SymbolView { text: "\u{1A10}"@, description: "tai tham letter high ha"@ },
        SymbolView { text: "\u{1A0F}"@, description: "tai tham letter high da"@ },
        SymbolView { text: "\u{1BFC}"@, description: "buginese vowel sign e"@ },
        SymbolView { text: "\u{1BFD}"@, description: "buginese vowel sign o"@ },
        SymbolView { text: "\u{1BFE}"@, description: "buginese vowel sign ae"@ },
        SymbolView { text: "\u{2756}"@, description: "black diamond"@ },
        SymbolView { text: "\u{2E0E}"@, description: "left low paraphrase bracket"@ },
        SymbolView { text: "\u{2E3E}"@, description: "dashed overline"@ },
        ]
    }

    /// Builds the favorites table: exactly the entries of
    /// `spec_favorite_symbols`, in order.
    #[verifier::rlimit(100)]
    pub fn favorite_symbols() -> (r: Vec<Symbol>)
        ensures
            views_of_symbols(r@) == Symbol::spec_favorite_symbols(),
            r@.len() == 35,
    {
        let mut out: Vec<Symbol> = Vec::new();
        out.push(Symbol::new("\u{00B7}", "middle dot"));
        out.push(Symbol::new("\u{2014}", "em dash"));
        out.push(Symbol::new("\u{22EF}", "middle dots"));
        out.push(Symbol::new("\u{22EF}\u{22EF}", "double middle dots"));
        out.push(Symbol::new("\u{300C}\u{300D}", "corner brackets"));
        out.push(Symbol::new("\u{300E}\u{300F}", "white corner brackets"));
        out.push(Symbol::new("\u{300A}\u{300B}", "double angle brackets"));
        out.push(Symbol::new("\u{3008}\u{3009}", "angle brackets"));
        out.push(Symbol::new("\u{3014}\u{3015}", "tortoise shell brackets"));
        out.push(Symbol::new("\u{3018}\u{3019}", "white curly brackets"));
        out.push(Symbol::new("\u{301A}\u{301B}", "white square brackets"));
        out.push(Symbol::new("\u{273E}", "floral heart"));
        out.push(Symbol::new("\u{273F}", "flower"));
        out.push(Symbol::new("\u{2740}", "white flower"));
        out.push(Symbol::new("\u{2741}", "outline flower"));
        out.push(Symbol::new("\u{2743}", "teardrop-spoked asterisk"));
        out.push(Symbol::new("\u{223D}", "similar to"));
        out.push(Symbol::new("\u{223E}", "inverted lazy S"));
        out.push(Symbol::new("\u{2053}", "swung dash"));
        out.push(Symbol::new("\u{2714}", "check mark"));
        out.push(Symbol::new("\u{2715}", "multiplication x"));
        out.push(Symbol::new("\u{13EA}", "cherokee letter wv"));
        out.push(Symbol::new("\u{1455}", "canadian syllabics sha"));
        out.push(Symbol::new("\u{222E}", "contour integral"));
        out.push(Symbol::new("\u{1762}", "hanunoo letter la"));
        out.push(Symbol::new("\u{14EC}", "canadian syllabics l"));
        out.push(Symbol::new("\u{17DC}", "khmer symbol lek too"));
        out.push(Symbol::new("\u{1A10}", "tai tham letter high ha"));
        out.push(Symbol::new("\u{1A0F}", "tai tham letter high da"));
        out.push(Symbol::new("\u{1BFC}", "buginese vowel sign e"));
        out.push(Symbol::new("\u{1BFD}", "buginese vowel sign o"));
        out.push(Symbol::new("\u{1BFE}", "buginese vowel sign ae"));
        out.push(Symbol::new("\u{2756}", "black diamond"));
        out.push(Symbol::new("\u{2E0E}", "left low paraphrase bracket"));
        out.push(Symbol::new("\u{2E3E}", "dashed overline"));
        proof {
            assert(views_of_symbols(out@) =~~= Symbol::spec_favorite_symbols());
        }
        out
    }
}

/// The symbol a table line describes: its first character, and up to sixty
/// characters of description after it.
pub open spec fn symbol_of_line(line: Seq<char>) -> SymbolView
    recommends
        line.len() > 0,
{
    SymbolView {
        text: seq![line[0]],
        description: if line.len() - 1 <= 60 {
            line.skip(1)
        } else {
            line.skip(1).take(60)
        },
    }
}

/// Reads one line of the symbol table; the line must not be empty.
pub fn symbol_from_line(line: &Vec<char>) -> (r: Symbol)
    requires
        line@.len() > 0,
    ensures
        r@ == symbol_of_line(line@),
{
    let mut text: Vec<char> = Vec::new();
    text.push(line[0]);
    let hi: usize = if line.len() - 1 <= 60 {
        line.len()
    } else {
        61
    };
    let mut desc: Vec<char> = Vec::new();
    let mut i: usize = 1;
    while i < hi
        invariant
            1 <= i <= hi <= line@.len(),
            desc@ == line@.subrange(1, i as int),
        decreases hi - i,
    {
        desc.push(line[i]);
        i = i + 1;
        proof {
            assert(desc@ =~= line@.subrange(1, i as int));
        }
    }
    let r = Symbol { text: chars_to_string(&text), description: chars_to_string(&desc) };
    proof {
        assert(text@ =~= seq![line@[0]]);
        if line@.len() - 1 <= 60 {
            assert(line@.subrange(1, hi as int) =~= line@.skip(1));
        } else {
            assert(line@.subrange(1, hi as int) =~= line@.skip(1).take(60));
        }
        assert(r@ =~~= symbol_of_line(line@));
    }
    r
}

/// The symbols of the table lines the query occurs in, in table order: one
/// symbol per matching nonempty line. The match is on the raw line, character
/// for character.
pub open spec fn spec_matching_symbols(lines: Seq<Seq<char>>, q: Seq<char>) -> Seq<SymbolView>
    decreases lines.len(),
{
    if lines.len() == 0 {
        Seq::empty()
    } else {
        (if lines[0].len() > 0 && seq_contains_sub(lines[0], q) {
            seq![symbol_of_line(lines[0])]
        } else {
            Seq::<SymbolView>::empty()
        }) + spec_matching_symbols(lines.skip(1), q)
    }
}

/// Searches the symbol table: every nonempty line the query occurs in becomes
/// its symbol, in order.
pub fn search_symbol_table(table: &str, query: &str) -> (r: Vec<Symbol>)
    ensures
        views_of_symbols(r@) == spec_matching_symbols(
            crate::text::spec_split(table@, '\n'),
            query@,
        ),
{
    let chars = string_to_chars(table);
    let lines = split_chars(&chars, '\n');
    let qchars = string_to_chars(query);
    let ghost lviews = lines.deep_view();
    let mut out: Vec<Symbol> = Vec::new();
    let mut i: usize = 0;
    proof {
        assert(views_of_symbols(out@) =~= spec_matching_symbols(lviews, query@).take(0));
        lemma_matching_symbols_len(lviews, query@);
    }
    while i < lines.len()
        invariant
            i <= lviews.len(),
            lviews == lines.deep_view(),
            qchars@ == query@,
            views_of_symbols(out@) == matching_prefix(lviews, query@, i as int),
        decreases lviews.len() - i,
    {
        let ghost old_out = views_of_symbols(out@);
        proof {
            assert(lines@[i as int]@ == lviews[i as int]);
        }
        if lines[i].len() > 0 && chars_contain(&lines[i], &qchars) {
            let sym = symbol_from_line(&lines[i]);
            out.push(sym);
            proof {
                assert(views_of_symbols(out@) =~~= old_out.push(symbol_of_line(lviews[i as int])));
            }
        }
        proof {
            lemma_matching_prefix_step(lviews, query@, i as int);
        }
        i = i + 1;
    }
    proof {
        lemma_matching_prefix_all(lviews, query@, lviews.len() as int);
    }
    out
}

/// The matches among the first `i` lines.
pub open spec fn matching_prefix(lines: Seq<Seq<char>>, q: Seq<char>, i: int) -> Seq<SymbolView> {
    spec_matching_symbols(lines.take(i), q)
}

proof fn lemma_matching_symbols_len(lines: Seq<Seq<char>>, q: Seq<char>)
    ensures
        matching_prefix(lines, q, 0) == Seq::<SymbolView>::empty(),
{
    assert(lines.take(0) =~= Seq::<Seq<char>>::empty());
}

proof fn lemma_matching_snoc(lines: Seq<Seq<char>>, q: Seq<char>, x: Seq<char>)
    ensures
        spec_matching_symbols(lines.push(x), q) == spec_matching_symbols(lines, q) + (if x.len() > 0
            && seq_contains_sub(x, q) {
            seq![symbol_of_line(x)]
        } else {
            Seq::<SymbolView>::empty()
        }),
    decreases lines.len(),
{
    let tail = if x.len() > 0 && seq_contains_sub(x, q) {
        seq![symbol_of_line(x)]
    } else {
        Seq::<SymbolView>::empty()
    };
    if lines.len() == 0 {
        assert(lines =~= Seq::<Seq<char>>::empty());
        assert(spec_matching_symbols(Seq::<Seq<char>>::empty(), q) == Seq::<SymbolView>::empty());
        assert(lines.push(x)[0] == x);
        assert(lines.push(x).skip(1) =~= Seq::<Seq<char>>::empty());
        assert(spec_matching_symbols(lines.push(x), q) =~~= tail);
        assert(spec_matching_symbols(lines, q) + tail =~~= tail);
    } else {
        assert(lines.push(x).skip(1) =~= lines.skip(1).push(x));
        lemma_matching_snoc(lines.skip(1), q, x);
        assert(lines.push(x)[0] == lines[0]);
        assert(spec_matching_symbols(lines.push(x), q) =~~= spec_matching_symbols(lines, q) + tail);
    }
}

proof fn lemma_matching_prefix_step(lines: Seq<Seq<char>>, q: Seq<char>, i: int)
    requires
        0 <= i < lines.len(),
    ensures
        matching_prefix(lines, q, i + 1) == matching_prefix(lines, q, i) + (if lines[i].len() > 0
            && seq_contains_sub(lines[i], q) {
            seq![symbol_of_line(lines[i])]
        } else {
            Seq::<SymbolView>::empty()
        }),
{
    assert(lines.take(i).push(lines[i]) =~= lines.take(i + 1));
    lemma_matching_snoc(lines.take(i), q, lines[i]);
}

proof fn lemma_matching_prefix_all(lines: Seq<Seq<char>>, q: Seq<char>, n: int)
    requires
        n == lines.len(),
    ensures
        matching_prefix(lines, q, n) == spec_matching_symbols(lines, q),
{
    assert(lines.take(n) =~= lines);
}

/// Keeps the favorites whose description the query occurs in.
pub open spec fn spec_matching_favorites(favs: Seq<SymbolView>, q: Seq<char>) -> Seq<SymbolView>
    decreases favs.len(),
{
    if favs.len() == 0 {
        Seq::empty()
    } else {
        (if seq_contains_sub(favs[0].description, q) {
            seq![favs[0]]
        } else {
            Seq::<SymbolView>::empty()
        }) + spec_matching_favorites(favs.skip(1), q)
    }
}

pub fn filter_favorites(favs: Vec<Symbol>, query: &str) -> (r: Vec<Symbol>)
    ensures
        views_of_symbols(r@) == spec_matching_favorites(views_of_symbols(favs@), query@),
{
    let qchars = string_to_chars(query);
    let ghost all = views_of_symbols(favs@);
    let mut rest = favs;
    let mut out: Vec<Symbol> = Vec::new();
    proof {
        assert(views_of_symbols(out@) =~= Seq::<SymbolView>::empty());
    }
    while rest.len() > 0
        invariant
            qchars@ == query@,
            spec_matching_favorites(all, query@) == views_of_symbols(out@)
                + spec_matching_favorites(views_of_symbols(rest@), query@),
        decreases rest@.len(),
    {
        let ghost before = views_of_symbols(rest@);
        let ghost old_out = views_of_symbols(out@);
        let s = rest.remove(0);
        proof {
            assert(s@ == before[0]);
            assert(views_of_symbols(rest@) =~~= before.skip(1));
        }
        let dchars = string_to_chars(s.description.as_str());
        if chars_contain(&dchars, &qchars) {
            out.push(s);
            proof {
                assert(views_of_symbols(out@) =~~= old_out.push(before[0]));
                assert(old_out + (seq![before[0]] + spec_matching_favorites(
                    views_of_symbols(rest@),
                    query@,
                )) =~~= views_of_symbols(out@) + spec_matching_favorites(
                    views_of_symbols(rest@),
                    query@,
                ));
            }
        } else {
            proof {
                assert(old_out + (Seq::<SymbolView>::empty() + spec_matching_favorites(
                    views_of_symbols(rest@),
                    query@,
                )) =~~= views_of_symbols(out@) + spec_matching_favorites(
                    views_of_symbols(rest@),
                    query@,
                ));
            }
        }
    }
    proof {
        assert(views_of_symbols(rest@) =~= Seq::<SymbolView>::empty());
        assert(views_of_symbols(out@) + Seq::<SymbolView>::empty() =~~= views_of_symbols(out@));
    }
    out
}

/// One picker query: a blank query lists the given favorites; anything else
/// lists the table lines the query occurs in, then the favorites whose
/// description it occurs in.
pub fn picker_query(table: &str, query: &str, favorites: Vec<Symbol>) -> (r: Vec<Symbol>)
    ensures
        crate::query::spec_keywords(query@).len() == 0 ==> views_of_symbols(r@) == views_of_symbols(
            favorites@,
        ),
        crate::query::spec_keywords(query@).len() != 0 ==> views_of_symbols(r@)
            == spec_matching_symbols(crate::text::spec_split(table@, '\n'), query@)
            + spec_matching_favorites(views_of_symbols(favorites@), query@),
{
    let kws = crate::query::split_keywords(query);
    if kws.len() == 0 {
        return favorites;
    }
    let mut out = search_symbol_table(table, query);
    let mut more = filter_favorites(favorites, query);
    let ghost out_views = views_of_symbols(out@);
    let ghost more_views = views_of_symbols(more@);
    out.append(&mut more);
    proof {
        assert(views_of_symbols(out@) =~~= out_views + more_views);
    }
    out
}

} // verus!
