//! The corpus preprocessor: parsing n-gram records, aggregating word
//! frequencies, and producing the two dictionary artifacts.

use vstd::prelude::*;
use crate::order::{
    lemma_lex_asymmetric, lemma_lex_connected, lemma_lex_irreflexive, lemma_lex_transitive, lex_lt, results_view,
    strictly_sorted, word_lt, Ranked,
};
use crate::text::{
    chars_of, contains_char, is_ascii_letter, is_letter, lower, lower_seq, parse_decimal,
    parse_u64, pieces, seqs_view, split_pieces, split_tokens, string_of, to_lower, tokens,
};

verus! {

/// Words whose total count is below this are left out of the dictionary.
pub const FREQUENCY_CUTOFF: u64 = 10000;

/// The number of part-of-speech suffixes that are recognised.
pub const SUFFIX_COUNT: usize = 9;

/// Characters that may stand in the head token of a record.
pub open spec fn corpus_char_allowed(c: char) -> bool {
    is_letter(c) || c == '\'' || c == '_' || c == '-'
}

/// The recognised part-of-speech suffixes, in the order they are tried.
pub open spec fn pos_suffix(i: int) -> Seq<char> {
    if i == 0 {
        "_NOUN"@
    } else if i == 1 {
        "_VERB"@
    } else if i == 2 {
        "_ADJ"@
    } else if i == 3 {
        "_ADV"@
    } else if i == 4 {
        "_ADP"@
    } else if i == 5 {
        "_PRON"@
    } else if i == 6 {
        "_DET"@
    } else if i == 7 {
        "_CONJ"@
    } else {
        "_PRT"@
    }
}

pub open spec fn ends_with(w: Seq<char>, s: Seq<char>) -> bool {
    s.len() <= w.len() && w.subrange(w.len() - s.len(), w.len() as int) == s
}

/// `w` without the first recognised suffix, from suffix `i` on, that it ends with.
pub open spec fn trim_from(w: Seq<char>, i: int) -> Seq<char>
    decreases SUFFIX_COUNT - i,
{
    if i < 0 || i >= SUFFIX_COUNT {
        w
    } else if ends_with(w, pos_suffix(i)) {
        w.take(w.len() - pos_suffix(i).len())
    } else {
        trim_from(w, i + 1)
    }
}

/// `w` without its part-of-speech suffix, if it has one.
pub open spec fn trimmed(w: Seq<char>) -> Seq<char> {
    trim_from(w, 0)
}

/// The dictionary word that a head token stands for, if any: a token with a
/// character outside letters, `'`, `_`, `-`, an underscore left after the
/// suffix is removed, or nothing left, stands for none.
pub open spec fn normalized_word(w: Seq<char>) -> Option<Seq<char>> {
    if exists|i: int| 0 <= i < w.len() && !corpus_char_allowed(#[trigger] w[i]) {
        None
    } else if w.contains('_') {
        if trimmed(w).contains('_') || trimmed(w).len() == 0 {
            None
        } else {
            Some(lower_seq(trimmed(w)))
        }
    } else {
        if w.len() == 0 {
            None
        } else {
            Some(lower_seq(w))
        }
    }
}

/// Characters of a dictionary word: lowercase letters, apostrophes and hyphens.
pub open spec fn dict_char(c: char) -> bool {
    ('a' <= c && c <= 'z') || c == '\'' || c == '-'
}

/// A dictionary word: non-empty, made of dictionary characters.
pub open spec fn is_dict_word(w: Seq<char>) -> bool {
    &&& w.len() > 0
    &&& forall|i: int| 0 <= i < w.len() ==> #[trigger] dict_char(w[i])
}

proof fn lemma_trim_prefix(w: Seq<char>, i: int)
    ensures
        exists|k: int| 0 <= k <= w.len() && trim_from(w, i) == w.take(k),
    decreases SUFFIX_COUNT - i,
{
    if i < 0 || i >= SUFFIX_COUNT {
        assert(trim_from(w, i) == w.take(w.len() as int));
    } else if ends_with(w, pos_suffix(i)) {
        let k = w.len() - pos_suffix(i).len();
        assert(trim_from(w, i) == w.take(k));
    } else {
        lemma_trim_prefix(w, i + 1);
    }
}

proof fn lemma_lower_dict(t: Seq<char>)
    requires
        t.len() > 0,
        forall|i: int| 0 <= i < t.len() ==> corpus_char_allowed(#[trigger] t[i]) && t[i] != '_',
    ensures
        is_dict_word(lower_seq(t)),
{
    assert forall|i: int| 0 <= i < lower_seq(t).len() implies #[trigger] dict_char(lower_seq(t)[i]) by {
        let c = t[i];
        assert(corpus_char_allowed(c) && c != '_');
        if crate::text::is_upper(c) {
            let b = c as u8;
            assert(65 <= b <= 90);
        }
    }
}

/// A normalized word is a dictionary word.
pub proof fn lemma_normalized_is_dict_word(w: Seq<char>)
    requires
        normalized_word(w) is Some,
    ensures
        is_dict_word(normalized_word(w)->Some_0),
{
    if w.contains('_') {
        let t = trimmed(w);
        lemma_trim_prefix(w, 0);
        let k = choose|k: int| 0 <= k <= w.len() && trim_from(w, 0) == w.take(k);
        assert forall|i: int| 0 <= i < t.len() implies corpus_char_allowed(#[trigger] t[i]) && t[i] != '_' by {
            assert(t[i] == w[i]);
            assert(t.contains(t[i]));
        }
        lemma_lower_dict(t);
    } else {
        assert forall|i: int| 0 <= i < w.len() implies corpus_char_allowed(#[trigger] w[i]) && w[i] != '_' by {
            assert(w.contains(w[i]) ==> w[i] != '_');
        }
        lemma_lower_dict(w);
    }
}

/// Whether `c` may stand in the head token of a record.
pub fn is_allowed_char(c: char) -> (r: bool)
    ensures
        r == corpus_char_allowed(c),
{
    is_ascii_letter(c) || c == '\'' || c == '_' || c == '-'
}

fn suffix_text(i: usize) -> (r: &'static str)
    requires
        i < SUFFIX_COUNT,
    ensures
        r@ == pos_suffix(i as int),
{
    match i {
        0 => "_NOUN",
        1 => "_VERB",
        2 => "_ADJ",
        3 => "_ADV",
        4 => "_ADP",
        5 => "_PRON",
        6 => "_DET",
        7 => "_CONJ",
        _ => "_PRT",
    }
}

fn chars_end_with(w: &Vec<char>, s: &Vec<char>) -> (r: bool)
    ensures
        r == ends_with(w@, s@),
{
    if s.len() > w.len() {
        return false;
    }
    let off = w.len() - s.len();
    let mut i: usize = 0;
    while i < s.len()
        invariant
            i <= s.len(),
            off + s.len() == w.len(),
            forall|j: int| 0 <= j < i ==> w@[off + j] == s@[j],
        decreases s.len() - i,
    {
        if w[off + i] != s[i] {
            assert(w@.subrange(off as int, w.len() as int)[i as int] != s@[i as int]);
            return false;
        }
        i = i + 1;
    }
    assert(w@.subrange(off as int, w.len() as int) =~= s@);
    true
}

fn trim_chars(w: &Vec<char>) -> (r: Vec<char>)
    ensures
        r@ == trimmed(w@),
{
    let mut i: usize = 0;
    while i < SUFFIX_COUNT
        invariant
            i <= SUFFIX_COUNT,
            trimmed(w@) == trim_from(w@, i as int),
        decreases SUFFIX_COUNT - i,
    {
        let suffix = chars_of(suffix_text(i));
        if chars_end_with(w, &suffix) {
            let n = w.len() - suffix.len();
            let mut r: Vec<char> = Vec::new();
            let mut j: usize = 0;
            while j < n
                invariant
                    j <= n <= w.len(),
                    r@ == w@.take(j as int),
                decreases n - j,
            {
                r.push(w[j]);
                assert(w@.take(j + 1) =~= w@.take(j as int).push(w@[j as int]));
                j = j + 1;
            }
            return r;
        }
        i = i + 1;
    }
    crate::text::copy_chars(w)
}

/// Removes a recognised part-of-speech suffix (`_NOUN`, `_VERB`, `_ADJ`,
/// `_ADV`, `_ADP`, `_PRON`, `_DET`, `_CONJ`, `_PRT`) from the end of `word`.
pub fn trim_part_of_speech(word: &str) -> (r: String)
    ensures
        r@ == trimmed(word@),
{
    let w = chars_of(word);
    let t = trim_chars(&w);
    string_of(&t)
}

fn lower_chars(w: &Vec<char>) -> (r: Vec<char>)
    ensures
        r@ == lower_seq(w@),
{
    let mut r: Vec<char> = Vec::new();
    let mut i: usize = 0;
    while i < w.len()
        invariant
            i <= w.len(),
            r@ == lower_seq(w@.take(i as int)),
        decreases w.len() - i,
    {
        r.push(to_lower(w[i]));
        assert(lower_seq(w@.take(i + 1)) =~= lower_seq(w@.take(i as int)).push(lower(w@[i as int])));
        i = i + 1;
    }
    assert(w@.take(w.len() as int) =~= w@);
    r
}

/// The dictionary word of a head token, or `None` when the record is dropped.
pub fn normalize_word(w: &Vec<char>) -> (r: Option<Vec<char>>)
    ensures
        match normalized_word(w@) {
            Some(n) => r matches Some(v) && v@ == n,
            None => r is None,
        },
{
    let mut i: usize = 0;
    while i < w.len()
        invariant
            i <= w.len(),
            forall|j: int| 0 <= j < i ==> #[trigger] corpus_char_allowed(w@[j]),
        decreases w.len() - i,
    {
        if !is_allowed_char(w[i]) {
            return None;
        }
        i = i + 1;
    }
    if contains_char(w, '_') {
        let t = trim_chars(w);
        if contains_char(&t, '_') || t.len() == 0 {
            return None;
        }
        Some(lower_chars(&t))
    } else if w.len() == 0 {
        None
    } else {
        Some(lower_chars(w))
    }
}

/// Why a record could not be read.
#[derive(Clone, Copy, PartialEq, Eq, Structural, Debug)]
pub enum LineError {
    /// An entry has no match count after its year.
    MissingCount,
    /// A match count is not an unsigned 64-bit decimal number.
    BadCount,
    /// A total does not fit in 64 bits.
    CountOverflow,
}

/// The match count of one `year,match_count,volume_count` entry.
pub open spec fn entry_count(tok: Seq<char>) -> Result<u64, LineError> {
    let f = pieces(tok, ',');
    if f.len() < 2 {
        Err(LineError::MissingCount)
    } else {
        match parse_u64(f[1]) {
            Some(n) => Ok(n),
            None => Err(LineError::BadCount),
        }
    }
}

/// The sum of the match counts of the entries, or the first failure.
pub open spec fn total_count(toks: Seq<Seq<char>>) -> Result<u64, LineError>
    decreases toks.len(),
{
    if toks.len() == 0 {
        Ok(0)
    } else {
        match total_count(toks.drop_last()) {
            Err(e) => Err(e),
            Ok(acc) => match entry_count(toks.last()) {
                Err(e) => Err(e),
                Ok(n) => if acc + n > u64::MAX {
                    Err(LineError::CountOverflow)
                } else {
                    Ok((acc + n) as u64)
                },
            },
        }
    }
}

/// What a record amounts to.
pub ghost enum LineParse {
    /// The record is dropped.
    Skip,
    /// The record adds a count to a word.
    Record(Seq<char>, u64),
    /// The record is malformed.
    Fail(LineError),
}

pub open spec fn line_outcome(line: Seq<char>) -> LineParse {
    let toks = tokens(line);
    if toks.len() == 0 {
        LineParse::Skip
    } else {
        match normalized_word(toks[0]) {
            None => LineParse::Skip,
            Some(w) => match total_count(toks.drop_first()) {
                Err(e) => LineParse::Fail(e),
                Ok(n) => LineParse::Record(w, n),
            },
        }
    }
}


pub open spec fn has_key(s: Seq<Ranked>, k: Seq<char>) -> bool {
    exists|i: int| 0 <= i < s.len() && #[trigger] s[i].0 == k
}

/// The map from word to count that a list of entries with distinct words holds.
pub open spec fn table_map(s: Seq<Ranked>) -> Map<Seq<char>, u64> {
    Map::new(
        |k: Seq<char>| has_key(s, k),
        |k: Seq<char>| s[choose|i: int| 0 <= i < s.len() && #[trigger] s[i].0 == k].1,
    )
}

proof fn lemma_sorted_distinct(s: Seq<Ranked>, i: int, j: int)
    requires
        strictly_sorted(s),
        0 <= i < s.len(),
        0 <= j < s.len(),
        s[i].0 == s[j].0,
    ensures
        i == j,
{
    if i < j {
        assert(lex_lt(s[i].0, s[j].0));
        lemma_lex_irreflexive(s[i].0);
    } else if j < i {
        assert(lex_lt(s[j].0, s[i].0));
        lemma_lex_irreflexive(s[i].0);
    }
}

proof fn lemma_table_map_index(s: Seq<Ranked>, i: int)
    requires
        strictly_sorted(s),
        0 <= i < s.len(),
    ensures
        table_map(s).contains_key(s[i].0),
        table_map(s)[s[i].0] == s[i].1,
{
    assert(has_key(s, s[i].0));
    let j = choose|j: int| 0 <= j < s.len() && #[trigger] s[j].0 == s[i].0;
    lemma_sorted_distinct(s, i, j);
}

proof fn lemma_table_map_update(s: Seq<Ranked>, i: int, v: u64)
    requires
        strictly_sorted(s),
        0 <= i < s.len(),
    ensures
        strictly_sorted(s.update(i, (s[i].0, v))),
        table_map(s.update(i, (s[i].0, v))) == table_map(s).insert(s[i].0, v),
{
    let t = s.update(i, (s[i].0, v));
    assert forall|a: int, b: int| 0 <= a < b < t.len() implies lex_lt(#[trigger] t[a].0, #[trigger] t[b].0) by {
        assert(lex_lt(s[a].0, s[b].0));
    }
    assert forall|k: Seq<char>| has_key(t, k) <==> has_key(s, k) by {
        if has_key(s, k) {
            let j = choose|j: int| 0 <= j < s.len() && #[trigger] s[j].0 == k;
            assert(t[j].0 == k);
        }
        if has_key(t, k) {
            let j = choose|j: int| 0 <= j < t.len() && #[trigger] t[j].0 == k;
            assert(s[j].0 == k);
        }
    }
    assert forall|k: Seq<char>| #[trigger] table_map(t).contains_key(k) implies table_map(t)[k]
        == table_map(s).insert(s[i].0, v)[k] by {
        let j = choose|j: int| 0 <= j < t.len() && #[trigger] t[j].0 == k;
        lemma_table_map_index(t, j);
        lemma_table_map_index(s, j);
        if k == s[i].0 {
            lemma_sorted_distinct(s, i, j);
        }
    }
    assert(table_map(t) =~= table_map(s).insert(s[i].0, v));
}

proof fn lemma_table_map_insert(s: Seq<Ranked>, p: int, k: Seq<char>, v: u64)
    requires
        strictly_sorted(s),
        0 <= p <= s.len(),
        forall|i: int| 0 <= i < p ==> lex_lt(#[trigger] s[i].0, k),
        forall|i: int| p <= i < s.len() ==> lex_lt(k, #[trigger] s[i].0),
    ensures
        strictly_sorted(s.insert(p, (k, v))),
        !table_map(s).contains_key(k),
        table_map(s.insert(p, (k, v))) == table_map(s).insert(k, v),
{
    let t = s.insert(p, (k, v));
    assert forall|a: int, b: int| 0 <= a < b < t.len() implies lex_lt(#[trigger] t[a].0, #[trigger] t[b].0) by {
        if b < p {
            assert(lex_lt(s[a].0, s[b].0));
        } else if b == p {
        } else if a < p {
            lemma_lex_transitive(s[a].0, k, s[b - 1].0);
        } else if a == p {
        } else {
            assert(lex_lt(s[a - 1].0, s[b - 1].0));
        }
    }
    assert(!has_key(s, k)) by {
        if has_key(s, k) {
            let j = choose|j: int| 0 <= j < s.len() && #[trigger] s[j].0 == k;
            lemma_lex_irreflexive(k);
        }
    }
    assert forall|q: Seq<char>| has_key(t, q) <==> (has_key(s, q) || q == k) by {
        if has_key(s, q) {
            let j = choose|j: int| 0 <= j < s.len() && #[trigger] s[j].0 == q;
            if j < p {
                assert(t[j].0 == q);
            } else {
                assert(t[j + 1].0 == q);
            }
        }
        if q == k {
            assert(t[p].0 == q);
        }
        if has_key(t, q) && q != k {
            let j = choose|j: int| 0 <= j < t.len() && #[trigger] t[j].0 == q;
            if j < p {
                assert(s[j].0 == q);
            } else {
                assert(s[j - 1].0 == q);
            }
        }
    }
    assert forall|q: Seq<char>| #[trigger] table_map(t).contains_key(q) implies table_map(t)[q]
        == table_map(s).insert(k, v)[q] by {
        let j = choose|j: int| 0 <= j < t.len() && #[trigger] t[j].0 == q;
        lemma_table_map_index(t, j);
        if j < p {
            lemma_table_map_index(s, j);
        } else if j > p {
            lemma_table_map_index(s, j - 1);
        }
    }
    assert(table_map(t) =~= table_map(s).insert(k, v));
}

proof fn lemma_total_error_persists(toks: Seq<Seq<char>>, k: int, e: LineError)
    requires
        0 <= k <= toks.len(),
        total_count(toks.take(k)) == Err::<u64, LineError>(e),
    ensures
        total_count(toks) == Err::<u64, LineError>(e),
    decreases toks.len() - k,
{
    if k < toks.len() {
        assert(toks.take(k + 1).drop_last() =~= toks.take(k));
        lemma_total_error_persists(toks, k + 1, e);
    } else {
        assert(toks.take(k) =~= toks);
    }
}

/// Whether adding `n` to the count of `w` fits in 64 bits.
pub open spec fn fits(m: Map<Seq<char>, u64>, w: Seq<char>, n: u64) -> bool {
    !(m.contains_key(w) && m[w] + n > u64::MAX)
}

/// The counts after adding `n` to the count of `w` (a new word starts at 0).
pub open spec fn added(m: Map<Seq<char>, u64>, w: Seq<char>, n: u64) -> Map<Seq<char>, u64> {
    m.insert(
        w,
        ((if m.contains_key(w) {
            m[w]
        } else {
            0
        }) + n) as u64,
    )
}

/// Word frequencies gathered from the corpus, kept in ascending word order.
pub struct WordFrequency {
    entries: Vec<(String, u64)>,
}

impl WordFrequency {
    /// The entries in ascending word order.
    pub closed spec fn entries_view(&self) -> Seq<Ranked> {
        results_view(self.entries@)
    }

    pub open spec fn wf(&self) -> bool {
        &&& strictly_sorted(self.entries_view())
        &&& forall|i: int| 0 <= i < self.entries_view().len() ==> is_dict_word(#[trigger] self.entries_view()[i].0)
    }

    /// The count of each word.
    pub open spec fn view(&self) -> Map<Seq<char>, u64> {
        table_map(self.entries_view())
    }

    pub fn new() -> (r: WordFrequency)
        ensures
            r.wf(),
            r@ == Map::<Seq<char>, u64>::empty(),
    {
        let r = WordFrequency { entries: Vec::new() };
        assert(r.entries_view() =~= Seq::<Ranked>::empty());
        assert(r@ =~= Map::<Seq<char>, u64>::empty());
        r
    }

    /// The number of distinct words.
    pub fn len(&self) -> (r: usize)
        requires
            self.wf(),
        ensures
            r == self@.len(),
    {
        proof {
            let s = self.entries_view();
            let keys = s.map_values(|e: Ranked| e.0);
            assert forall|i: int, j: int| 0 <= i < keys.len() && 0 <= j < keys.len() && i != j implies keys[i]
                != keys[j] by {
                if keys[i] == keys[j] {
                    lemma_sorted_distinct(s, i, j);
                }
            }
            assert(keys.no_duplicates());
            keys.unique_seq_to_set();
            assert forall|k: Seq<char>| self@.dom().contains(k) <==> keys.to_set().contains(k) by {
                if has_key(s, k) {
                    let j = choose|j: int| 0 <= j < s.len() && #[trigger] s[j].0 == k;
                    assert(keys[j] == k);
                }
                if keys.to_set().contains(k) {
                    let j = choose|j: int| 0 <= j < keys.len() && keys[j] == k;
                    assert(s[j].0 == k);
                }
            }
            assert(self@.dom() =~= keys.to_set());
        }
        self.entries.len()
    }

    /// The entries in ascending word order.
    pub fn entries(&self) -> (r: Vec<(String, u64)>)
        ensures
            results_view(r@) == self.entries_view(),
    {
        let mut r: Vec<(String, u64)> = Vec::new();
        let mut i: usize = 0;
        while i < self.entries.len()
            invariant
                i <= self.entries.len(),
                results_view(r@) == self.entries_view().take(i as int),
            decreases self.entries.len() - i,
        {
            let e = (self.entries[i].0.clone(), self.entries[i].1);
            let ghost old_r = r@;
            r.push(e);
            assert(results_view(r@) =~= results_view(old_r).push((e.0@, e.1)));
            assert(self.entries_view().take(i + 1) =~= self.entries_view().take(i as int).push(
                self.entries_view()[i as int],
            ));
            i = i + 1;
        }
        assert(self.entries_view().take(i as int) =~= self.entries_view());
        r
    }

    /// The first position whose word is not below `w`.
    fn position(&self, w: &Vec<char>) -> (p: usize)
        requires
            self.wf(),
        ensures
            p <= self.entries_view().len(),
            forall|i: int| 0 <= i < p ==> lex_lt(#[trigger] self.entries_view()[i].0, w@),
            forall|i: int| p <= i < self.entries_view().len() ==> !lex_lt(#[trigger] self.entries_view()[i].0, w@),
    {
        let ghost s = self.entries_view();
        let mut lo: usize = 0;
        let mut hi: usize = self.entries.len();
        while lo < hi
            invariant
                lo <= hi <= self.entries.len(),
                s == self.entries_view(),
                s.len() == self.entries.len(),
                strictly_sorted(s),
                forall|i: int| 0 <= i < lo ==> lex_lt(#[trigger] s[i].0, w@),
                forall|i: int| hi <= i < s.len() ==> !lex_lt(#[trigger] s[i].0, w@),
            decreases hi - lo,
        {
            let mid = lo + (hi - lo) / 2;
            let key = chars_of(self.entries[mid].0.as_str());
            assert(key@ == s[mid as int].0);
            if word_lt(&key, w) {
                assert forall|i: int| 0 <= i < mid + 1 implies lex_lt(#[trigger] s[i].0, w@) by {
                    if i < mid {
                        lemma_lex_transitive(s[i].0, s[mid as int].0, w@);
                    }
                }
                lo = mid + 1;
            } else {
                assert forall|i: int| mid <= i < s.len() implies !lex_lt(#[trigger] s[i].0, w@) by {
                    if i > mid && lex_lt(s[i].0, w@) {
                        assert(lex_lt(s[mid as int].0, s[i].0));
                        lemma_lex_transitive(s[mid as int].0, s[i].0, w@);
                    }
                }
                hi = mid;
            }
        }
        lo
    }

    /// Adds `count` to the total of `word`, inserting it on first sight.
    /// Fails, leaving the table unchanged, if the total would not fit.
    pub fn add(&mut self, word: Vec<char>, count: u64) -> (r: Result<(), LineError>)
        requires
            old(self).wf(),
            is_dict_word(word@),
        ensures
            final(self).wf(),
            !fits(old(self)@, word@, count) ==> r == Err::<(), LineError>(LineError::CountOverflow)
                && final(self)@ == old(self)@,
            fits(old(self)@, word@, count) ==> r is Ok && final(self)@ == added(old(self)@, word@, count),
    {
        let ghost s = self.entries_view();
        let p = self.position(&word);
        if p < self.entries.len() {
            let key = chars_of(self.entries[p].0.as_str());
            if !word_lt(&word, &key) {
                proof {
                    assert(!lex_lt(s[p as int].0, word@));
                    if key@ != word@ {
                        lemma_lex_connected(key@, word@);
                    }
                    lemma_table_map_index(s, p as int);
                }
                let old_count = self.entries[p].1;
                if old_count > u64::MAX - count {
                    return Err(LineError::CountOverflow);
                }
                let name = self.entries[p].0.clone();
                let ghost before = self.entries@;
                self.entries.set(p, (name, old_count + count));
                proof {
                    assert(self.entries_view() =~= s.update(p as int, (s[p as int].0, (old_count + count) as u64)));
                    lemma_table_map_update(s, p as int, (old_count + count) as u64);
                }
                return Ok(());
            }
            proof {
                assert(lex_lt(word@, s[p as int].0));
            }
        }
        proof {
            assert forall|i: int| p <= i < s.len() implies lex_lt(word@, #[trigger] s[i].0) by {
                if i > p {
                    assert(lex_lt(s[p as int].0, s[i].0));
                    lemma_lex_transitive(word@, s[p as int].0, s[i].0);
                }
            }
        }
        let ghost before = self.entries@;
        let name = string_of(&word);
        self.entries.insert(p, (name, count));
        proof {
            assert(self.entries_view() =~= s.insert(p as int, (word@, count)));
            lemma_table_map_insert(s, p as int, word@, count);
        }
        Ok(())
    }

    /// The count of `word`, if it was seen.
    pub fn get(&self, word: &str) -> (r: Option<u64>)
        requires
            self.wf(),
        ensures
            r == (if self@.contains_key(word@) {
                Some(self@[word@])
            } else {
                None::<u64>
            }),
    {
        let w = chars_of(word);
        let p = self.position(&w);
        if p < self.entries.len() {
            let key = chars_of(self.entries[p].0.as_str());
            if !word_lt(&w, &key) {
                proof {
                    if key@ != w@ {
                        lemma_lex_connected(key@, w@);
                    }
                    lemma_table_map_index(self.entries_view(), p as int);
                }
                return Some(self.entries[p].1);
            }
        }
        proof {
            let s = self.entries_view();
            if has_key(s, w@) {
                let j = choose|j: int| 0 <= j < s.len() && #[trigger] s[j].0 == w@;
                lemma_lex_irreflexive(w@);
                if j > p {
                    assert(lex_lt(s[p as int].0, s[j].0));
                    lemma_lex_asymmetric(s[p as int].0, w@);
                    lemma_lex_connected(s[p as int].0, w@);
                }
            }
        }
        None
    }
}

/// Reads one corpus record and adds its total to `freq`. A record without
/// tokens, or whose head token is not a dictionary word, is dropped; a
/// malformed entry is an error, and leaves `freq` unchanged.
pub fn parse_line(line: &str, freq: &mut WordFrequency) -> (r: Result<(), LineError>)
    requires
        old(freq).wf(),
    ensures
        final(freq).wf(),
        match line_outcome(line@) {
            LineParse::Skip => r is Ok && final(freq)@ == old(freq)@,
            LineParse::Fail(e) => r == Err::<(), LineError>(e) && final(freq)@ == old(freq)@,
            LineParse::Record(w, n) => if fits(old(freq)@, w, n) {
                r is Ok && final(freq)@ == added(old(freq)@, w, n)
            } else {
                r == Err::<(), LineError>(LineError::CountOverflow) && final(freq)@ == old(freq)@
            },
        },
{
    let chars = chars_of(line);
    let toks = split_tokens(&chars);
    let ghost tv = seqs_view(toks@);
    if toks.len() == 0 {
        return Ok(());
    }
    let word = match normalize_word(&toks[0]) {
        None => return Ok(()),
        Some(w) => w,
    };
    proof {
        lemma_normalized_is_dict_word(tv[0]);
    }
    let ghost rest = tv.drop_first();
    let mut count: u64 = 0;
    let mut i: usize = 1;
    assert(rest.take(0) =~= Seq::<Seq<char>>::empty());
    while i < toks.len()
        invariant
            1 <= i <= toks.len(),
            tv == seqs_view(toks@),
            tv == tokens(line@),
            normalized_word(tv[0]) == Some(word@),
            *freq == *old(freq),
            freq.wf(),
            rest == tv.drop_first(),
            total_count(rest.take(i - 1)) == Ok::<u64, LineError>(count),
        decreases toks.len() - i,
    {
        let ghost k = i - 1;
        proof {
            assert(rest.take(k + 1).drop_last() =~= rest.take(k));
            assert(rest.take(k + 1).last() == toks@[i as int]@);
        }
        let fields = split_pieces(&toks[i], ',');
        if fields.len() < 2 {
            proof {
                lemma_total_error_persists(rest, k + 1, LineError::MissingCount);
            }
            return Err(LineError::MissingCount);
        }
        let n = match parse_decimal(&fields[1]) {
            None => {
                proof {
                    lemma_total_error_persists(rest, k + 1, LineError::BadCount);
                }
                return Err(LineError::BadCount);
            },
            Some(n) => n,
        };
        if count > u64::MAX - n {
            proof {
                lemma_total_error_persists(rest, k + 1, LineError::CountOverflow);
            }
            return Err(LineError::CountOverflow);
        }
        count = count + n;
        i = i + 1;
    }
    assert(rest.take(toks.len() - 1) =~= rest);
    freq.add(word, count)
}

} // verus!
