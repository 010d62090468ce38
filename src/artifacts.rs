//! The dictionary artifacts: the entries that pass the frequency cutoff,
//! rendered as a text list of `word count` lines and built into an FST map.

use vstd::prelude::*;
use crate::corpus::{dict_char, is_dict_word, WordFrequency, FREQUENCY_CUTOFF};
use crate::matcher::{entry_view, fst_entries, key_chars};
use crate::order::{is_ranked, lemma_lex_transitive, lex_lt, rank_results, results_view, strictly_sorted, Ranked};
use crate::text::{chars_of, decimal_digits, render_decimal, string_of};

verus! {

/// fst's map builder, carried opaque; `builder_entries` names what it holds.
#[verifier::external_type_specification]
#[verifier::external_body]
#[verifier::reject_recursive_types(W)]
pub struct ExMapBuilder<W>(fst::MapBuilder<W>);

/// The entries inserted so far into an FST map builder, in order.
pub uninterp spec fn builder_entries(b: fst::MapBuilder<Vec<u8>>) -> Seq<(Seq<u8>, u64)>;

/// Relies on fst::MapBuilder::memory: a builder that writes to memory and
/// holds no entries yet.
#[verifier::external_body]
fn new_builder() -> (r: fst::MapBuilder<Vec<u8>>)
    ensures
        builder_entries(r) == Seq::<(Seq<u8>, u64)>::empty(),
{
    fst::MapBuilder::memory()
}

/// Relies on fst::MapBuilder::insert: it fails only on a key that is not
/// above the previous one (`check_last_key`) or when the writer fails, which
/// an in-memory writer never does. On success the entry follows the ones
/// inserted before. Keys are compared as bytes; `key_chars` maps each byte to
/// a character of the same order, so the order on `key_chars` is the byte order.
#[verifier::external_body]
fn builder_insert(b: &mut fst::MapBuilder<Vec<u8>>, key: &Vec<u8>, val: u64) -> (r: Result<(), fst::Error>)
    ensures
        builder_entries(*old(b)).len() == 0 || lex_lt(
            key_chars(builder_entries(*old(b)).last().0),
            key_chars(key@),
        ) ==> r is Ok,
        r is Ok ==> builder_entries(*final(b)) == builder_entries(*old(b)).push((key@, val)),
{
    b.insert(key, val)
}

/// Relies on fst::MapBuilder::into_map: the finished map holds the
/// inserted entries, which went in in ascending key order.
#[verifier::external_body]
fn builder_into_map(b: fst::MapBuilder<Vec<u8>>) -> (r: fst::Map<Vec<u8>>)
    ensures
        fst_entries(r) == builder_entries(b),
{
    b.into_map()
}

/// Why an artifact could not be built.
#[derive(Clone, Copy, PartialEq, Eq, Structural, Debug)]
pub enum BuildError {
    /// The FST builder refused an entry.
    Fst,
}

/// The entries that go into the dictionary: those at or above the cutoff.
pub open spec fn kept_entries(s: Seq<Ranked>) -> Seq<Ranked> {
    s.filter(|e: Ranked| e.1 >= FREQUENCY_CUTOFF)
}

proof fn lemma_kept_entry(freq: &WordFrequency, r: Seq<(String, u64)>, i: int)
    requires
        freq.wf(),
        results_view(r) == kept_entries(freq.entries_view()),
        0 <= i < r.len(),
    ensures
        r[i].1 >= FREQUENCY_CUTOFF,
        is_dict_word(r[i].0@),
{
    broadcast use vstd::seq_lib::group_filter_ensures;

    let s = freq.entries_view();
    let pred = |e: Ranked| e.1 >= FREQUENCY_CUTOFF;
    let v = results_view(r);
    assert(v[i] == (r[i].0@, r[i].1));
    assert(pred(v[i]));
    assert(s.filter(pred).contains(v[i]));
    s.lemma_filter_contains_rev(pred, v[i]);
    let k = choose|k: int| 0 <= k < s.len() && s[k] == v[i];
    assert(is_dict_word(freq.entries_view()[k].0));
}

/// The dictionary entries of a frequency table, in ascending word order.
pub fn dictionary_entries(freq: &WordFrequency) -> (r: Vec<(String, u64)>)
    requires
        freq.wf(),
    ensures
        results_view(r@) == kept_entries(freq.entries_view()),
        forall|i: int| 0 <= i < r@.len() ==> #[trigger] r@[i].1 >= FREQUENCY_CUTOFF,
        forall|i: int| 0 <= i < r@.len() ==> is_dict_word(#[trigger] r@[i].0@),
        strictly_sorted(results_view(r@)),
{
    broadcast use Seq::lemma_filter_push;
    broadcast use vstd::seq_lib::group_filter_ensures;

    let all = freq.entries();
    let ghost s = results_view(all@);
    let ghost pred = |e: Ranked| e.1 >= FREQUENCY_CUTOFF;
    let mut r: Vec<(String, u64)> = Vec::new();
    let mut i: usize = 0;
    assert(s.take(0).filter(pred) =~= Seq::<Ranked>::empty());
    while i < all.len()
        invariant
            i <= all.len(),
            s == results_view(all@),
            s == freq.entries_view(),
            pred == (|e: Ranked| e.1 >= FREQUENCY_CUTOFF),
            results_view(r@) == s.take(i as int).filter(pred),
            strictly_sorted(s),
            strictly_sorted(results_view(r@)),
            results_view(r@).len() > 0 ==> exists|k: int| 0 <= k < i && s[k] == results_view(r@).last(),
        decreases all.len() - i,
    {
        proof {
            assert(s.take(i + 1) =~= s.take(i as int).push(s[i as int]));
            s.take(i as int).lemma_filter_push(s[i as int], pred);
        }
        if all[i].1 >= FREQUENCY_CUTOFF {
            let ghost old_r = r@;
            r.push((all[i].0.clone(), all[i].1));
            assert(results_view(r@) =~= results_view(old_r).push(s[i as int]));
            proof {
                let ov = results_view(old_r);
                let nv = results_view(r@);
                if ov.len() > 0 {
                    let k = choose|k: int| 0 <= k < i && s[k] == ov.last();
                    assert(lex_lt(s[k].0, s[i as int].0));
                    assert forall|a: int, b: int| 0 <= a < b < nv.len() implies lex_lt(
                        #[trigger] nv[a].0,
                        #[trigger] nv[b].0,
                    ) by {
                        if b == nv.len() - 1 && a < ov.len() - 1 {
                            assert(lex_lt(ov[a].0, ov[ov.len() - 1].0));
                            lemma_lex_transitive(ov[a].0, ov.last().0, s[i as int].0);
                        } else if b < nv.len() - 1 {
                            assert(lex_lt(ov[a].0, ov[b].0));
                        }
                    }
                } else {
                    assert(nv.len() == 1);
                }
            }
        }
        i = i + 1;
    }
    assert(s.take(all.len() as int) =~= s);
    assert(results_view(r@) == s.filter(pred));
    proof {
        assert forall|i: int| 0 <= i < r@.len() implies #[trigger] r@[i].1 >= FREQUENCY_CUTOFF && is_dict_word(
            r@[i].0@,
        ) by {
            lemma_kept_entry(freq, r@, i);
        }
        assert forall|i: int| 0 <= i < r@.len() implies is_dict_word(#[trigger] r@[i].0@) by {
            lemma_kept_entry(freq, r@, i);
        }
    }
    r
}

/// One line of the text list, without its newline.
pub open spec fn render_line(e: Ranked) -> Seq<char> {
    e.0 + seq![' '] + decimal_digits(e.1 as nat)
}

/// The text list: one `word count` line per entry, each ending in a newline.
pub open spec fn render_list(s: Seq<Ranked>) -> Seq<char>
    decreases s.len(),
{
    if s.len() == 0 {
        Seq::empty()
    } else {
        render_list(s.drop_last()) + render_line(s.last()) + seq!['\n']
    }
}

/// Renders entries as the text list, in the given order.
pub fn render_text_list(entries: &Vec<(String, u64)>) -> (r: String)
    ensures
        r@ == render_list(results_view(entries@)),
{
    let ghost s = results_view(entries@);
    let mut out: Vec<char> = Vec::new();
    let mut i: usize = 0;
    assert(s.take(0) =~= Seq::<Ranked>::empty());
    while i < entries.len()
        invariant
            i <= entries.len(),
            s == results_view(entries@),
            out@ == render_list(s.take(i as int)),
        decreases entries.len() - i,
    {
        let ghost before = out@;
        let word = chars_of(entries[i].0.as_str());
        let mut j: usize = 0;
        while j < word.len()
            invariant
                j <= word.len(),
                out@ == before + word@.take(j as int),
            decreases word.len() - j,
        {
            out.push(word[j]);
            assert(word@.take(j + 1) =~= word@.take(j as int).push(word@[j as int]));
            j = j + 1;
        }
        out.push(' ');
        let digits = render_decimal(entries[i].1);
        let mut k: usize = 0;
        let ghost mid = out@;
        while k < digits.len()
            invariant
                k <= digits.len(),
                out@ == mid + digits@.take(k as int),
            decreases digits.len() - k,
        {
            out.push(digits[k]);
            assert(digits@.take(k + 1) =~= digits@.take(k as int).push(digits@[k as int]));
            k = k + 1;
        }
        out.push('\n');
        proof {
            assert(word@.take(word.len() as int) =~= word@);
            assert(digits@.take(digits.len() as int) =~= digits@);
            assert(s.take(i + 1).drop_last() =~= s.take(i as int));
            assert(s.take(i + 1).last() == s[i as int]);
            assert(out@ =~= render_list(s.take(i as int)) + render_line(s[i as int]) + seq!['\n']);
        }
        i = i + 1;
    }
    assert(s.take(entries.len() as int) =~= s);
    string_of(&out)
}

/// The text list of the dictionary entries, ranked by frequency (the
/// readers do not rely on the order).
pub fn text_list(entries: &Vec<(String, u64)>) -> (r: String)
    ensures
        exists|ranked: Seq<Ranked>|
            is_ranked(ranked) && ranked.to_multiset() == results_view(entries@).to_multiset() && r@
                == render_list(ranked),
{
    let mut copy: Vec<(String, u64)> = Vec::new();
    let mut i: usize = 0;
    while i < entries.len()
        invariant
            i <= entries.len(),
            results_view(copy@) == results_view(entries@).take(i as int),
        decreases entries.len() - i,
    {
        let ghost old_copy = copy@;
        copy.push((entries[i].0.clone(), entries[i].1));
        assert(results_view(copy@) =~= results_view(old_copy).push(results_view(entries@)[i as int]));
        assert(results_view(entries@).take(i + 1) =~= results_view(entries@).take(i as int).push(
            results_view(entries@)[i as int],
        ));
        i = i + 1;
    }
    assert(results_view(entries@).take(entries.len() as int) =~= results_view(entries@));
    let ranked = rank_results(copy);
    render_text_list(&ranked)
}

/// The FST key of a dictionary word: one byte per character.
fn word_key(word: &String) -> (r: Vec<u8>)
    requires
        is_dict_word(word@),
    ensures
        key_chars(r@) == word@,
{
    let w = chars_of(word.as_str());
    let mut r: Vec<u8> = Vec::new();
    let mut i: usize = 0;
    while i < w.len()
        invariant
            i <= w.len(),
            w@ == word@,
            is_dict_word(w@),
            key_chars(r@) == w@.take(i as int),
        decreases w.len() - i,
    {
        let c = w[i];
        assert(dict_char(c));
        let b = c as u8;
        assert(b as char == c);
        let ghost old_r = r@;
        r.push(b);
        assert(key_chars(r@) =~= key_chars(old_r).push(c));
        assert(w@.take(i + 1) =~= w@.take(i as int).push(c));
        i = i + 1;
    }
    assert(w@.take(w.len() as int) =~= w@);
    r
}

/// Builds the FST map of the dictionary entries, which must come in
/// ascending word order.
pub fn build_fst(entries: &Vec<(String, u64)>) -> (r: Result<fst::Map<Vec<u8>>, BuildError>)
    requires
        forall|i: int| 0 <= i < entries@.len() ==> is_dict_word(#[trigger] entries@[i].0@),
    ensures
        r matches Ok(m) ==> fst_entries(m).map_values(|e: (Seq<u8>, u64)| entry_view(e)) == results_view(
            entries@,
        ),
        strictly_sorted(results_view(entries@)) ==> r is Ok,
{
    let mut b = new_builder();
    let mut i: usize = 0;
    let ghost s = results_view(entries@);
    while i < entries.len()
        invariant
            i <= entries.len(),
            s == results_view(entries@),
            forall|j: int| 0 <= j < entries@.len() ==> is_dict_word(#[trigger] entries@[j].0@),
            builder_entries(b).map_values(|e: (Seq<u8>, u64)| entry_view(e)) == s.take(i as int),
            builder_entries(b).len() == i,
        decreases entries.len() - i,
    {
        let key = word_key(&entries[i].0);
        let ghost old_b = builder_entries(b);
        proof {
            if i > 0 && strictly_sorted(s) {
                let f = |e: (Seq<u8>, u64)| entry_view(e);
                assert(old_b.map_values(f)[i - 1] == s.take(i as int)[i - 1]);
                assert(key_chars(old_b.last().0) == s[i - 1].0);
                assert(lex_lt(s[i - 1].0, s[i as int].0));
            }
        }
        match builder_insert(&mut b, &key, entries[i].1) {
            Ok(_) => {},
            Err(_) => return Err(BuildError::Fst),
        }
        proof {
            let f = |e: (Seq<u8>, u64)| entry_view(e);
            assert(builder_entries(b).map_values(f) =~= old_b.map_values(f).push(entry_view((key@, entries@[i as int].1))));
            assert(s.take(i + 1) =~= s.take(i as int).push(s[i as int]));
        }
        i = i + 1;
    }
    assert(s.take(entries.len() as int) =~= s);
    Ok(builder_into_map(b))
}

} // verus!
