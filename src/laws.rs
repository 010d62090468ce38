//! Properties of the query engine that relate several of its functions.

use vstd::prelude::*;
use crate::matcher::{accepted_entries, entry_view};
use crate::order::{distinct_words, is_ranked, lemma_ranked_unique, lex_lt, rank_order, Ranked};
use crate::pattern::{
    alphabet, cipher_class, cipher_letter, has_lowered, slot_accepts, template_accepts, template_of, valid_query,
    wheel_letter, PatternMode, SlotSpec,
};
use crate::query::{combination_template, keeps, scan_lines, selection, text_lines};
use crate::text::{
    decimal_digits, is_digit, is_space, is_upper, lemma_decimal_round_trip, lemma_pieces_nonempty,
    lemma_tokens_nonempty_tail, lower, lower_seq, parse_u64, pieces, tokens,
};
use crate::artifacts::{render_line, render_list};
use crate::corpus::{dict_char, is_dict_word};

verus! {

/// Every word that a plan returns is one that the request selects: the
/// template accepts it and the post-filter keeps it.
pub proof fn lemma_returned_selected(
    v: Seq<Ranked>,
    entries: Seq<Ranked>,
    t: Seq<SlotSpec>,
    pattern: Seq<char>,
    mode: PatternMode,
    i: int,
)
    requires
        v.to_multiset() == selection(entries, t, pattern, mode).to_multiset(),
        0 <= i < v.len(),
    ensures
        template_accepts(t, v[i].0),
        keeps(pattern, mode, v[i].0),
        entries.contains(v[i]),
{
    broadcast use vstd::seq_lib::group_to_multiset_ensures;

    let f = |r: Ranked| template_accepts(t, r.0);
    let g = |r: Ranked| keeps(pattern, mode, r.0);
    let sel = selection(entries, t, pattern, mode);
    assert(v.contains(v[i]));
    assert(v.to_multiset().count(v[i]) > 0);
    assert(sel.to_multiset().count(v[i]) > 0);
    assert(sel.contains(v[i]));
    entries.filter(f).lemma_filter_contains_rev(g, v[i]);
    entries.lemma_filter_contains_rev(f, v[i]);
    let k = choose|k: int| 0 <= k < sel.len() && sel[k] == v[i];
    entries.filter(f).lemma_filter_pred(g, k);
    let m = choose|m: int| 0 <= m < entries.filter(f).len() && entries.filter(f)[m] == v[i];
    entries.lemma_filter_pred(f, m);
}

/// In a ranked list, frequencies never increase, and equal frequencies
/// list their words in ascending order, strictly when no word repeats.
pub proof fn lemma_ranked_order(s: Seq<Ranked>, i: int, j: int)
    requires
        is_ranked(s),
        0 <= i < j < s.len(),
    ensures
        s[i].1 >= s[j].1,
        s[i].1 == s[j].1 ==> s[i].0 == s[j].0 || lex_lt(s[i].0, s[j].0),
        distinct_words(s) && s[i].1 == s[j].1 ==> lex_lt(s[i].0, s[j].0),
{
    assert(rank_order()(s[i], s[j]));
}

proof fn lemma_class_member(pred: spec_fn(char) -> bool, c: char)
    requires
        alphabet().filter(pred).contains(c),
    ensures
        pred(c),
{
    broadcast use vstd::seq_lib::group_filter_ensures;

    let v = alphabet().filter(pred);
    let k = choose|k: int| 0 <= k < v.len() && v[k] == c;
    assert(pred(v[k]));
}

/// Wheel of Fortune: at a `?`, a returned word holds a letter that is
/// neither revealed in the pattern nor absent.
pub proof fn lemma_wheel_of_fortune_wildcards(pattern: Seq<char>, absent: Seq<char>, w: Seq<char>, i: int)
    requires
        valid_query(pattern, absent, PatternMode::WheelOfFortune),
        template_accepts(template_of(pattern, absent, PatternMode::WheelOfFortune), w),
        0 <= i < pattern.len(),
        pattern[i] == '?',
    ensures
        'a' <= w[i] && w[i] <= 'z',
        !has_lowered(pattern, w[i]),
        !has_lowered(absent, w[i]),
{
    let t = template_of(pattern, absent, PatternMode::WheelOfFortune);
    assert(slot_accepts(t[i], w[i]));
    let pred = |l: char| wheel_letter(pattern, absent, l);
    lemma_class_member(pred, w[i]);
    alphabet().lemma_filter_contains_rev(pred, w[i]);
    let k = choose|k: int| 0 <= k < 26 && alphabet()[k] == w[i];
}

/// Crossword: a `?` takes any letter, those of the pattern included, and
/// the other positions take the pattern's own characters.
pub proof fn lemma_crossword_reuse(pattern: Seq<char>, absent: Seq<char>, w: Seq<char>)
    requires
        valid_query(pattern, absent, PatternMode::Crossword),
        w.len() == pattern.len(),
        forall|i: int| 0 <= i < w.len() && pattern[i] == '?' ==> 'a' <= #[trigger] w[i] && w[i] <= 'z',
        forall|i: int| 0 <= i < w.len() && pattern[i] != '?' ==> #[trigger] w[i] == lower(pattern[i]),
    ensures
        template_accepts(template_of(pattern, absent, PatternMode::Crossword), w),
{
    let t = template_of(pattern, absent, PatternMode::Crossword);
    assert forall|i: int| 0 <= i < t.len() implies #[trigger] slot_accepts(t[i], w[i]) by {
        if pattern[i] == '?' {
            let k = w[i] as int - 97;
            assert(alphabet()[k] == w[i]);
            assert(alphabet().contains(w[i]));
        }
    }
}

/// Cryptogram: in a returned word, equal variables stand for equal
/// letters, and a variable never stands for its own letter, an absent
/// letter or a letter known in the pattern.
pub proof fn lemma_cryptogram_variables(pattern: Seq<char>, absent: Seq<char>, w: Seq<char>, i: int, j: int)
    requires
        valid_query(pattern, absent, PatternMode::Cryptogram),
        template_accepts(template_of(pattern, absent, PatternMode::Cryptogram), w),
        keeps(pattern, PatternMode::Cryptogram, w),
        0 <= i < pattern.len(),
        0 <= j < pattern.len(),
        is_upper(pattern[i]),
    ensures
        pattern[i] == pattern[j] ==> w[i] == w[j],
        w[i] != lower(pattern[i]),
        !has_lowered(absent, w[i]),
        !pattern.contains(w[i]),
{
    let t = template_of(pattern, absent, PatternMode::Cryptogram);
    assert(slot_accepts(t[i], w[i]));
    let v = pattern[i];
    let pred = |l: char| cipher_letter(pattern, absent, v, l);
    lemma_class_member(pred, w[i]);
    if pattern[i] == pattern[j] {
        assert(pattern[i] == pattern[j]);
    }
}

/// The entries of a text list whose every line is a word and a count.
pub open spec fn parsed_lines(lines: Seq<Seq<char>>) -> Option<Seq<Ranked>>
    decreases lines.len(),
{
    if lines.len() == 0 {
        Some(Seq::empty())
    } else {
        match parsed_lines(lines.drop_last()) {
            None => None,
            Some(found) => {
                let toks = tokens(lines.last());
                if toks.len() < 2 {
                    None
                } else {
                    match parse_u64(toks[1]) {
                        Some(n) => Some(found.push((toks[0], n))),
                        None => None,
                    }
                }
            },
        }
    }
}

proof fn lemma_scan_well_formed(lines: Seq<Seq<char>>, t: Seq<SlotSpec>)
    requires
        parsed_lines(lines) is Some,
    ensures
        scan_lines(lines, t) == Ok::<Seq<Ranked>, ()>(
            parsed_lines(lines)->Some_0.filter(|r: Ranked| template_accepts(t, r.0)),
        ),
    decreases lines.len(),
{
    broadcast use Seq::lemma_filter_push;

    if lines.len() == 0 {
        assert(Seq::<Ranked>::empty().filter(|r: Ranked| template_accepts(t, r.0)) =~= Seq::<Ranked>::empty());
    } else {
        lemma_scan_well_formed(lines.drop_last(), t);
    }
}

proof fn lemma_filter_to_multiset(s: Seq<Ranked>, f: spec_fn(Ranked) -> bool)
    ensures
        s.filter(f).to_multiset() =~= s.to_multiset().filter(f),
    decreases s.len(),
{
    broadcast use vstd::multiset::group_multiset_axioms;
    broadcast use vstd::seq_lib::group_to_multiset_ensures;
    broadcast use Seq::lemma_filter_push;

    if s.len() > 0 {
        let d = s.drop_last();
        lemma_filter_to_multiset(d, f);
        assert(s =~= d.push(s.last()));
    }
}

proof fn lemma_selection_multiset(a: Seq<Ranked>, b: Seq<Ranked>, t: Seq<SlotSpec>, pattern: Seq<char>, mode: PatternMode)
    requires
        a.to_multiset() == b.to_multiset(),
    ensures
        selection(a, t, pattern, mode).to_multiset() == selection(b, t, pattern, mode).to_multiset(),
{
    let f = |r: Ranked| template_accepts(t, r.0);
    let g = |r: Ranked| keeps(pattern, mode, r.0);
    lemma_filter_to_multiset(a, f);
    lemma_filter_to_multiset(b, f);
    lemma_filter_to_multiset(a.filter(f), g);
    lemma_filter_to_multiset(b.filter(f), g);
}

/// The two retrieval plans agree: when the text list and the FST map hold
/// the same entries, a result of the linear scan and a result of the FST
/// search for the same request are the same ranked list.
pub proof fn lemma_plan_equivalence(
    text: Seq<char>,
    fst: Seq<(Seq<u8>, u64)>,
    t: Seq<SlotSpec>,
    pattern: Seq<char>,
    mode: PatternMode,
    from_text: Seq<Ranked>,
    from_fst: Seq<Ranked>,
)
    requires
        parsed_lines(text_lines(text)) matches Some(entries) && entries.to_multiset() == fst.map_values(
            |e: (Seq<u8>, u64)| entry_view(e),
        ).to_multiset(),
        scan_lines(text_lines(text), t) matches Ok(found) && is_ranked(from_text)
            && from_text.to_multiset() == found.filter(|e: Ranked| keeps(pattern, mode, e.0)).to_multiset(),
        is_ranked(from_fst),
        from_fst.to_multiset() == selection(
            fst.map_values(|e: (Seq<u8>, u64)| entry_view(e)),
            t,
            pattern,
            mode,
        ).to_multiset(),
    ensures
        from_text == from_fst,
{
    let entries = parsed_lines(text_lines(text))->Some_0;
    lemma_scan_well_formed(text_lines(text), t);
    let found = entries.filter(|r: Ranked| template_accepts(t, r.0));
    assert(selection(entries, t, pattern, mode) == found.filter(|e: Ranked| keeps(pattern, mode, e.0)));
    lemma_selection_multiset(entries, fst.map_values(|e: (Seq<u8>, u64)| entry_view(e)), t, pattern, mode);
    lemma_ranked_unique(from_text, from_fst);
}

proof fn lemma_pieces_without_sep(s: Seq<char>, sep: char)
    requires
        !s.contains(sep),
    ensures
        pieces(s, sep) == seq![s],
    decreases s.len(),
{
    if s.len() > 0 {
        let d = s.drop_last();
        assert(!d.contains(sep)) by {
            if d.contains(sep) {
                let k = choose|k: int| 0 <= k < d.len() && d[k] == sep;
                assert(s[k] == sep);
            }
        }
        lemma_pieces_without_sep(d, sep);
        assert(s.last() != sep) by {
            assert(s[s.len() - 1] == s.last());
        }
        assert(d.push(s.last()) =~= s);
        assert(pieces(s, sep) =~= seq![s]);
    } else {
        assert(s =~= Seq::<char>::empty());
    }
}

proof fn lemma_pieces_append(x: Seq<char>, b: Seq<char>, sep: char)
    requires
        x.len() == 0 || x.last() == sep,
    ensures
        pieces(x + b, sep) == pieces(x, sep).drop_last() + pieces(b, sep),
    decreases b.len(),
{
    lemma_pieces_nonempty(x, sep);
    lemma_pieces_nonempty(b, sep);
    if b.len() == 0 {
        assert(x + b =~= x);
        if x.len() == 0 {
            assert(pieces(x, sep).drop_last() + pieces(b, sep) =~= pieces(x, sep));
        } else {
            assert(pieces(x, sep).drop_last() + pieces(b, sep) =~= pieces(x, sep));
        }
    } else {
        let bd = b.drop_last();
        lemma_pieces_append(x, bd, sep);
        lemma_pieces_nonempty(bd, sep);
        let y = x + b;
        assert(y.drop_last() =~= x + bd);
        assert(y.last() == b.last());
        let p = pieces(x, sep).drop_last();
        let r = pieces(bd, sep);
        if b.last() == sep {
            assert(pieces(y, sep) =~= p + r.push(Seq::empty()));
        } else {
            let q = p + r;
            assert(q.update(q.len() - 1, q.last().push(b.last())) =~= p + r.update(
                r.len() - 1,
                r.last().push(b.last()),
            ));
        }
    }
}

proof fn lemma_tokens_without_space(s: Seq<char>)
    requires
        s.len() > 0,
        forall|i: int| 0 <= i < s.len() ==> !is_space(#[trigger] s[i]),
    ensures
        tokens(s) == seq![s],
    decreases s.len(),
{
    let d = s.drop_last();
    assert(!is_space(s[s.len() - 1]));
    if s.len() == 1 {
        assert(d =~= Seq::<char>::empty());
        assert(tokens(d) =~= Seq::<Seq<char>>::empty());
        assert(tokens(s) == tokens(d).push(seq![s.last()]));
        assert(seq![s.last()] =~= s);
        assert(tokens(s) =~= seq![s]);
    } else {
        assert(!is_space(s[s.len() - 2]));
        lemma_tokens_without_space(d);
        assert(d.push(s.last()) =~= s);
        assert(tokens(s) =~= seq![s]);
    }
}

proof fn lemma_tokens_append(x: Seq<char>, b: Seq<char>)
    requires
        x.len() == 0 || is_space(x.last()),
    ensures
        tokens(x + b) == tokens(x) + tokens(b),
    decreases b.len(),
{
    if b.len() == 0 {
        assert(x + b =~= x);
        assert(tokens(x) + tokens(b) =~= tokens(x));
    } else {
        let bd = b.drop_last();
        lemma_tokens_append(x, bd);
        let y = x + b;
        let c = b.last();
        assert(y.drop_last() =~= x + bd);
        assert(y.last() == c);
        if is_space(c) {
        } else if b.len() >= 2 {
            assert(y[y.len() - 2] == b[b.len() - 2]);
            if !is_space(b[b.len() - 2]) {
                assert(bd.last() == b[b.len() - 2]);
                lemma_tokens_nonempty_tail(bd);
                let q = tokens(x) + tokens(bd);
                let r = tokens(bd);
                assert(q.update(q.len() - 1, q.last().push(c)) =~= tokens(x) + r.update(r.len() - 1, r.last().push(c)));
            } else {
                assert(tokens(x) + tokens(bd).push(seq![c]) =~= (tokens(x) + tokens(bd)).push(seq![c]));
            }
        } else {
            assert(bd =~= Seq::<char>::empty());
            assert(tokens(bd) =~= Seq::<Seq<char>>::empty());
            if x.len() > 0 {
                assert(y[y.len() - 2] == x.last());
            }
            assert(tokens(x + bd) =~= tokens(x));
            assert(tokens(x) + tokens(b) =~= tokens(x).push(seq![c]));
        }
    }
}

proof fn lemma_digits_no_space(n: nat)
    ensures
        decimal_digits(n).len() > 0,
        forall|i: int| 0 <= i < decimal_digits(n).len() ==> #[trigger] is_digit(decimal_digits(n)[i]),
    decreases n,
{
    let d = decimal_digits(n);
    let b = (48 + n % 10) as u8;
    assert(b == 48 + n % 10);
    if n >= 10 {
        lemma_digits_no_space(n / 10);
        assert forall|i: int| 0 <= i < d.len() implies #[trigger] is_digit(d[i]) by {
            if i < d.len() - 1 {
                assert(d[i] == decimal_digits(n / 10)[i]);
            }
        }
    }
}

/// An entry that can stand on a text-list line: its word is a dictionary word.
pub open spec fn listable(e: Ranked) -> bool {
    is_dict_word(e.0)
}

proof fn lemma_line_tokens(e: Ranked)
    requires
        listable(e),
    ensures
        tokens(render_line(e)) == seq![e.0, decimal_digits(e.1 as nat)],
        !render_line(e).contains('\n'),
{
    let w = e.0;
    let d = decimal_digits(e.1 as nat);
    lemma_digits_no_space(e.1 as nat);
    assert forall|i: int| 0 <= i < w.len() implies !is_space(#[trigger] w[i]) by {
        assert(dict_char(w[i]));
    }
    assert forall|i: int| 0 <= i < d.len() implies !is_space(#[trigger] d[i]) by {
        assert(is_digit(d[i]));
    }
    lemma_tokens_without_space(w);
    lemma_tokens_without_space(d);
    let x = w + seq![' '];
    assert(x.drop_last() =~= w);
    lemma_tokens_append(x, d);
    assert(render_line(e) =~= x + d);
    assert(tokens(x) + tokens(d) =~= seq![w, d]);
    assert(!render_line(e).contains('\n')) by {
        if render_line(e).contains('\n') {
            let k = choose|k: int| 0 <= k < render_line(e).len() && render_line(e)[k] == '\n';
            if k < w.len() {
                assert(dict_char(w[k]));
            } else if k > w.len() {
                assert(is_digit(d[k - w.len() - 1]));
            }
        }
    }
}

proof fn lemma_render_pieces(s: Seq<Ranked>)
    requires
        forall|i: int| 0 <= i < s.len() ==> listable(#[trigger] s[i]),
    ensures
        pieces(render_list(s), '\n') == s.map_values(|e: Ranked| render_line(e)).push(Seq::empty()),
    decreases s.len(),
{
    if s.len() == 0 {
        assert(s.map_values(|e: Ranked| render_line(e)).push(Seq::empty()) =~= seq![Seq::<char>::empty()]);
    } else {
        let d = s.drop_last();
        lemma_render_pieces(d);
        let x = render_list(d);
        let line = render_line(s.last());
        lemma_line_tokens(s.last());
        let b = line + seq!['\n'];
        assert(render_list(s) =~= x + b);
        if d.len() > 0 {
            assert(x.last() == '\n');
        }
        lemma_pieces_append(x, b, '\n');
        assert(b.drop_last() =~= line);
        lemma_pieces_without_sep(line, '\n');
        assert(pieces(b, '\n') =~= seq![line, Seq::empty()]);
        assert(s.map_values(|e: Ranked| render_line(e)) =~= d.map_values(|e: Ranked| render_line(e)).push(line));
        assert(pieces(render_list(s), '\n') =~= s.map_values(|e: Ranked| render_line(e)).push(Seq::empty()));
    }
}

proof fn lemma_parse_rendered(s: Seq<Ranked>)
    requires
        forall|i: int| 0 <= i < s.len() ==> listable(#[trigger] s[i]),
    ensures
        parsed_lines(s.map_values(|e: Ranked| render_line(e))) == Some(s),
    decreases s.len(),
{
    let lines = s.map_values(|e: Ranked| render_line(e));
    if s.len() == 0 {
        assert(s =~= Seq::<Ranked>::empty());
    } else {
        let d = s.drop_last();
        lemma_parse_rendered(d);
        assert(lines.drop_last() =~= d.map_values(|e: Ranked| render_line(e)));
        lemma_line_tokens(s.last());
        lemma_decimal_round_trip(s.last().1);
        assert(d.push(s.last()) =~= s);
    }
}

/// The two dictionary artifacts hold the same entries: the text list of
/// (a ranking of) the entries reads back, line by line, as word and count
/// pairs that are exactly the entries of the FST map, counted with
/// multiplicity. The words are dictionary words, as the frequency table keeps them.
pub proof fn lemma_artifacts_agree(entries: Seq<Ranked>, ranked: Seq<Ranked>, fst: Seq<(Seq<u8>, u64)>)
    requires
        forall|i: int| 0 <= i < entries.len() ==> listable(#[trigger] entries[i]),
        ranked.to_multiset() == entries.to_multiset(),
        fst.map_values(|e: (Seq<u8>, u64)| entry_view(e)) == entries,
    ensures
        parsed_lines(text_lines(render_list(ranked))) == Some(ranked),
        ranked.to_multiset() == fst.map_values(|e: (Seq<u8>, u64)| entry_view(e)).to_multiset(),
{
    broadcast use vstd::seq_lib::group_to_multiset_ensures;

    assert forall|i: int| 0 <= i < ranked.len() implies listable(#[trigger] ranked[i]) by {
        assert(ranked.contains(ranked[i]));
        assert(ranked.to_multiset().count(ranked[i]) > 0);
        assert(entries.contains(ranked[i]));
        let k = choose|k: int| 0 <= k < entries.len() && entries[k] == ranked[i];
        assert(listable(entries[k]));
    }
    lemma_render_pieces(ranked);
    let p = pieces(render_list(ranked), '\n');
    assert(text_lines(render_list(ranked)) =~= ranked.map_values(|e: Ranked| render_line(e)));
    lemma_parse_rendered(ranked);
}

/// Searching the two artifacts written from one list of dictionary entries
/// gives one answer: a linear-scan result over the text list and an FST
/// result over the map, for the same request, are the same ranked list.
pub proof fn lemma_artifact_searches_agree(
    entries: Seq<Ranked>,
    ranked: Seq<Ranked>,
    fst: Seq<(Seq<u8>, u64)>,
    t: Seq<SlotSpec>,
    pattern: Seq<char>,
    mode: PatternMode,
    from_text: Seq<Ranked>,
    from_fst: Seq<Ranked>,
)
    requires
        forall|i: int| 0 <= i < entries.len() ==> listable(#[trigger] entries[i]),
        ranked.to_multiset() == entries.to_multiset(),
        fst.map_values(|e: (Seq<u8>, u64)| entry_view(e)) == entries,
        scan_lines(text_lines(render_list(ranked)), t) matches Ok(found) && is_ranked(from_text)
            && from_text.to_multiset() == found.filter(|e: Ranked| keeps(pattern, mode, e.0)).to_multiset(),
        is_ranked(from_fst),
        from_fst.to_multiset() == selection(entries, t, pattern, mode).to_multiset(),
    ensures
        from_text == from_fst,
{
    lemma_artifacts_agree(entries, ranked, fst);
    lemma_plan_equivalence(render_list(ranked), fst, t, pattern, mode, from_text, from_fst);
}

/// Absent letters that differ only in case or repeats compile a pattern to
/// the same template, so they select the same words.
pub proof fn lemma_absent_letters_fold(pattern: Seq<char>, a1: Seq<char>, a2: Seq<char>, mode: PatternMode)
    requires
        forall|l: char| #[trigger] has_lowered(a1, l) == has_lowered(a2, l),
    ensures
        template_of(pattern, a1, mode) == template_of(pattern, a2, mode),
{
    let w1 = |l: char| wheel_letter(pattern, a1, l);
    let w2 = |l: char| wheel_letter(pattern, a2, l);
    assert(w1 =~= w2);
    assert forall|v: char| true implies #[trigger] cipher_class(pattern, a1, v) == cipher_class(pattern, a2, v) by {
        let c1 = |l: char| cipher_letter(pattern, a1, v, l);
        let c2 = |l: char| cipher_letter(pattern, a2, v, l);
        assert(c1 =~= c2);
    }
    assert(template_of(pattern, a1, mode) =~= template_of(pattern, a2, mode));
}

/// A combination search ignores the case of its letters: parts that agree
/// once lowercased give the same ranked list.
pub proof fn lemma_combination_case(
    p1: Seq<Seq<char>>,
    p2: Seq<Seq<char>>,
    fst: Seq<(Seq<u8>, u64)>,
    v1: Seq<Ranked>,
    v2: Seq<Ranked>,
)
    requires
        p1.len() == p2.len(),
        forall|i: int| 0 <= i < p1.len() ==> lower_seq(#[trigger] p1[i]) == lower_seq(p2[i]),
        is_ranked(v1),
        is_ranked(v2),
        v1.to_multiset() == accepted_entries(fst, combination_template(p1)).to_multiset(),
        v2.to_multiset() == accepted_entries(fst, combination_template(p2)).to_multiset(),
    ensures
        v1 == v2,
{
    assert(combination_template(p1) =~= combination_template(p2));
    lemma_ranked_unique(v1, v2);
}

} // verus!
