//! Requests: decoding a form-encoded query, choosing a retrieval plan,
//! running it, filtering cryptogram candidates and ranking the results.

use vstd::prelude::*;
use crate::error::SearchError;
use crate::matcher::{
    class_nonempty, nonempty_classes, accepted_entries, build_automaton, compile_regex, entry_view, fst_entries, search_fst, word_matches,
    WordRegex,
};
use crate::order::{distinct_words, is_ranked, lemma_filter_distinct_words, rank_results, results_view, Ranked};
use crate::pattern::{
    all_letters, build_template, lemma_valid_template_plain, mode_named, pattern_verdict, plain_template,
    slot_accepts, template_accepts, template_of, template_view, valid_query, validate_absent_letters, validate_pattern,
    PatternMode, Slot, SlotSpec,
};
use crate::text::{
    chars_of, is_ascii_letter, is_ascii_upper, is_letter, is_upper, lemma_pieces_nonempty, lower, lower_seq,
    parse_decimal, parse_u64, pieces, seqs_view, split_pieces, split_tokens, str_eq, string_of, to_lower,
    tokens,
};

verus! {

/// Use the FST plan when a pattern has fewer wildcards than this.
pub const FST_WILDCARD_THRESHOLD: usize = 6;

/// The name/value pairs that form-decoding a query yields, in order.
pub uninterp spec fn form_pairs(query: Seq<char>) -> Seq<(Seq<char>, Seq<char>)>;

pub open spec fn pairs_view(v: Seq<(String, String)>) -> Seq<(Seq<char>, Seq<char>)> {
    v.map_values(|p: (String, String)| (p.0@, p.1@))
}

/// Relies on url::form_urlencoded::parse (with `into_owned`): it splits the
/// query at `&` and `=` and percent-decodes each name and value; the pairs
/// depend on the query alone.
#[verifier::external_body]
fn decode_form(query: &str) -> (r: Vec<(String, String)>)
    ensures
        pairs_view(r@) == form_pairs(query@),
{
    url::form_urlencoded::parse(query.as_bytes()).into_owned().collect()
}

/// The value of the last pair named `key`: a later pair wins.
pub open spec fn last_value(p: Seq<(Seq<char>, Seq<char>)>, key: Seq<char>) -> Option<Seq<char>>
    decreases p.len(),
{
    if p.len() == 0 {
        None
    } else if p.last().0 == key {
        Some(p.last().1)
    } else {
        last_value(p.drop_last(), key)
    }
}

/// A request that passed validation, with its compiled template.
pub struct CompiledQuery {
    pub mode: PatternMode,
    pub pattern: String,
    pub absent_letters: String,
    pub template: Vec<Slot>,
}

impl CompiledQuery {
    /// The template belongs to the validated pattern.
    pub open spec fn wf(&self) -> bool {
        &&& valid_query(self.pattern@, self.absent_letters@, self.mode)
        &&& template_view(self.template@) == template_of(self.pattern@, self.absent_letters@, self.mode)
    }
}

/// What a query's pairs ask for: the mode, the pattern and the absent
/// letters, or the first rule that they break.
pub open spec fn request_of(p: Seq<(Seq<char>, Seq<char>)>) -> Result<(PatternMode, Seq<char>, Seq<char>), SearchError> {
    match last_value(p, "mode"@) {
        None => Err(SearchError::MissingMode),
        Some(m) => match mode_named(m) {
            Err(_) => Err(SearchError::InvalidMode),
            Ok(mode) => match last_value(p, "pattern"@) {
                None => Err(SearchError::MissingPattern),
                Some(pattern) => match pattern_verdict(pattern, mode) {
                    Err(e) => Err(e),
                    Ok(_) => {
                        let absent = match last_value(p, "absent_letters"@) {
                            Some(a) => a,
                            None => Seq::empty(),
                        };
                        if all_letters(absent) {
                            Ok((mode, pattern, absent))
                        } else {
                            Err(SearchError::DisallowedAbsentLetters)
                        }
                    },
                },
            },
        },
    }
}

/// The value of the last pair named `key`.
pub fn lookup_last<'a>(pairs: &'a Vec<(String, String)>, key: &str) -> (r: Option<&'a String>)
    ensures
        match r {
            Some(v) => last_value(pairs_view(pairs@), key@) == Some(v@),
            None => last_value(pairs_view(pairs@), key@) is None,
        },
{
    let ghost pv = pairs_view(pairs@);
    let mut i: usize = pairs.len();
    assert(pv.take(i as int) =~= pv);
    while i > 0
        invariant
            i <= pairs.len(),
            pv == pairs_view(pairs@),
            last_value(pv, key@) == last_value(pv.take(i as int), key@),
        decreases i,
    {
        let ghost t = pv.take(i as int);
        assert(t.last() == pv[i - 1]);
        if str_eq(pairs[i - 1].0.as_str(), key) {
            return Some(&pairs[i - 1].1);
        }
        assert(t.drop_last() =~= pv.take(i - 1));
        i = i - 1;
    }
    None
}

/// Validates a request given as decoded pairs and compiles its template.
pub fn compile_pairs(pairs: &Vec<(String, String)>) -> (r: Result<CompiledQuery, SearchError>)
    ensures
        match request_of(pairs_view(pairs@)) {
            Ok((mode, pattern, absent)) => r matches Ok(q) && q.wf() && q.mode == mode && q.pattern@
                == pattern && q.absent_letters@ == absent,
            Err(e) => r == Err::<CompiledQuery, SearchError>(e),
        },
{
    let mode_name = match lookup_last(pairs, "mode") {
        None => return Err(SearchError::MissingMode),
        Some(m) => m,
    };
    let mode = match PatternMode::try_from(mode_name.as_str()) {
        Err(_) => return Err(SearchError::InvalidMode),
        Ok(m) => m,
    };
    let pattern = match lookup_last(pairs, "pattern") {
        None => return Err(SearchError::MissingPattern),
        Some(p) => p,
    };
    match validate_pattern(pattern.as_str(), &mode) {
        Err(e) => return Err(e),
        Ok(_) => {},
    }
    let absent_letters = match lookup_last(pairs, "absent_letters") {
        Some(a) => a.clone(),
        None => String::new(),
    };
    match validate_absent_letters(absent_letters.as_str()) {
        Err(e) => return Err(e),
        Ok(_) => {},
    }
    let template = build_template(pattern.as_str(), absent_letters.as_str(), &mode);
    Ok(CompiledQuery { mode, pattern: pattern.clone(), absent_letters, template })
}

/// Decodes a form-encoded query, validates it and compiles its template.
pub fn compile_query(query: &str) -> (r: Result<CompiledQuery, SearchError>)
    ensures
        match request_of(form_pairs(query@)) {
            Ok((mode, pattern, absent)) => r matches Ok(q) && q.wf() && q.mode == mode && q.pattern@
                == pattern && q.absent_letters@ == absent,
            Err(e) => r == Err::<CompiledQuery, SearchError>(e),
        },
{
    let pairs = decode_form(query);
    compile_pairs(&pairs)
}

/// The positions that stand for unknown letters: `?` in Wheel of Fortune
/// and Crossword, uppercase variables in Cryptogram.
pub open spec fn is_wildcard(c: char, mode: PatternMode) -> bool {
    if mode == PatternMode::Cryptogram {
        is_upper(c)
    } else {
        c == '?'
    }
}

pub open spec fn wildcard_count(pattern: Seq<char>, mode: PatternMode) -> nat {
    pattern.filter(|c: char| is_wildcard(c, mode)).len()
}

/// Counts the wildcards of a pattern.
pub fn count_wildcards(pattern: &str, mode: &PatternMode) -> (r: usize)
    ensures
        r == wildcard_count(pattern@, *mode),
{
    broadcast use Seq::lemma_filter_push;

    let p = chars_of(pattern);
    let ghost pred = |c: char| is_wildcard(c, *mode);
    let mut n: usize = 0;
    let mut i: usize = 0;
    assert(p@.take(0).filter(pred) =~= Seq::<char>::empty());
    while i < p.len()
        invariant
            i <= p.len(),
            p@ == pattern@,
            pred == (|c: char| is_wildcard(c, *mode)),
            n == p@.take(i as int).filter(pred).len(),
            n <= i,
        decreases p.len() - i,
    {
        proof {
            assert(p@.take(i + 1) =~= p@.take(i as int).push(p@[i as int]));
            p@.take(i as int).lemma_filter_push(p@[i as int], pred);
        }
        let wild = if *mode == PatternMode::Cryptogram {
            is_ascii_upper(p[i])
        } else {
            p[i] == '?'
        };
        if wild {
            n = n + 1;
        }
        i = i + 1;
    }
    assert(p@.take(p.len() as int) =~= p@);
    n
}

impl CompiledQuery {
    /// Whether the request uses the FST plan: its pattern has fewer
    /// wildcards than the threshold. Otherwise it scans the text list.
    pub fn uses_fst(&self) -> (r: bool)
        ensures
            r == (wildcard_count(self.pattern@, self.mode) < FST_WILDCARD_THRESHOLD),
    {
        count_wildcards(self.pattern.as_str(), &self.mode) < FST_WILDCARD_THRESHOLD
    }
}

/// Every uppercase variable of the pattern stands on a position of the
/// word, and equal variables stand on equal letters.
pub open spec fn variables_consistent(pattern: Seq<char>, w: Seq<char>) -> bool {
    &&& forall|i: int| 0 <= i < pattern.len() && #[trigger] is_upper(pattern[i]) ==> i < w.len()
    &&& forall|i: int, j: int|
        0 <= i < pattern.len() && 0 <= j < pattern.len() && is_upper(pattern[i]) && #[trigger] pattern[i]
            == #[trigger] pattern[j] ==> w[i] == w[j]
}

/// Whether the post-filter keeps `w`: in Cryptogram mode its letters must
/// follow the pattern's variables; other modes keep every word. Distinct
/// variables may stand for the same letter.
pub open spec fn keeps(pattern: Seq<char>, mode: PatternMode, w: Seq<char>) -> bool {
    mode != PatternMode::Cryptogram || variables_consistent(pattern, w)
}

/// The cryptogram post-filter: the same variable must stand for the same
/// letter wherever it occurs.
pub fn is_valid_string(s: &str, pattern: &str, mode: &PatternMode) -> (r: bool)
    ensures
        r == keeps(pattern@, *mode, s@),
{
    if *mode != PatternMode::Cryptogram {
        return true;
    }
    let p = chars_of(pattern);
    let w = chars_of(s);
    let mut i: usize = 0;
    while i < p.len()
        invariant
            i <= p.len(),
            p@ == pattern@,
            w@ == s@,
            *mode == PatternMode::Cryptogram,
            forall|a: int| 0 <= a < i && #[trigger] is_upper(p@[a]) ==> a < w.len(),
            forall|a: int, b: int|
                0 <= a < i && 0 <= b < i && is_upper(p@[a]) && #[trigger] p@[a] == #[trigger] p@[b]
                    ==> w@[a] == w@[b],
        decreases p.len() - i,
    {
        if is_ascii_upper(p[i]) {
            if i >= w.len() {
                assert(is_upper(pattern@[i as int]));
                return false;
            }
            let mut j: usize = 0;
            while j < i && p[j] != p[i]
                invariant
                    j <= i < p.len(),
                    forall|b: int| 0 <= b < j ==> p@[b] != p@[i as int],
                decreases i - j,
            {
                j = j + 1;
            }
            if j < i && w[j] != w[i] {
                assert(p@[j as int] == p@[i as int]);
                assert(is_upper(pattern@[j as int]) && pattern@[j as int] == pattern@[i as int]);
                assert(w@[j as int] != w@[i as int]);
                return false;
            }
            proof {
                assert forall|a: int, b: int|
                    0 <= a < i + 1 && 0 <= b < i + 1 && is_upper(p@[a]) && #[trigger] p@[a]
                        == #[trigger] p@[b] implies w@[a] == w@[b] by {
                    if a == i && b < i {
                        assert(p@[b] == p@[j as int]);
                    } else if b == i && a < i {
                        assert(p@[a] == p@[j as int]);
                    }
                }
            }
        }
        i = i + 1;
    }
    true
}

/// The entries of a dictionary that a request returns, before ranking.
pub open spec fn selection(entries: Seq<Ranked>, t: Seq<SlotSpec>, pattern: Seq<char>, mode: PatternMode) -> Seq<Ranked> {
    entries.filter(|r: Ranked| template_accepts(t, r.0)).filter(|r: Ranked| keeps(pattern, mode, r.0))
}

/// Keeps the candidates that pass the post-filter and ranks them.
pub fn rank_matches(pattern: &str, mode: &PatternMode, found: Vec<(String, u64)>) -> (r: Vec<(String, u64)>)
    ensures
        is_ranked(results_view(r@)),
        results_view(r@).to_multiset() == results_view(found@).filter(
            |e: Ranked| keeps(pattern@, *mode, e.0),
        ).to_multiset(),
        distinct_words(results_view(found@)) ==> distinct_words(results_view(r@)),
{
    broadcast use Seq::lemma_filter_push;

    let ghost pred = |e: Ranked| keeps(pattern@, *mode, e.0);
    let ghost fv = results_view(found@);
    let mut kept: Vec<(String, u64)> = Vec::new();
    let mut i: usize = 0;
    assert(fv.take(0).filter(pred) =~= Seq::<Ranked>::empty());
    while i < found.len()
        invariant
            i <= found.len(),
            pred == (|e: Ranked| keeps(pattern@, *mode, e.0)),
            fv == results_view(found@),
            results_view(kept@) == fv.take(i as int).filter(pred),
        decreases found.len() - i,
    {
        proof {
            assert(fv.take(i + 1) =~= fv.take(i as int).push(fv[i as int]));
            fv.take(i as int).lemma_filter_push(fv[i as int], pred);
            assert(fv[i as int].0 == found@[i as int].0@);
            assert(pred(fv[i as int]) == keeps(pattern@, *mode, found@[i as int].0@));
        }
        if is_valid_string(found[i].0.as_str(), pattern, mode) {
            let ghost old_kept = kept@;
            let e = (found[i].0.clone(), found[i].1);
            kept.push(e);
            assert(results_view(kept@) =~= results_view(old_kept).push(fv[i as int]));
        }
        i = i + 1;
    }
    assert(fv.take(fv.len() as int) =~= fv);
    proof {
        if distinct_words(fv) {
            lemma_filter_distinct_words(fv, pred);
        }
    }
    rank_results(kept)
}

/// Whether every class of a template has a letter.
pub fn classes_nonempty(t: &Vec<Slot>) -> (r: bool)
    ensures
        r == nonempty_classes(template_view(t@)),
{
    let mut i: usize = 0;
    while i < t.len()
        invariant
            i <= t.len(),
            forall|j: int| 0 <= j < i ==> #[trigger] class_nonempty(template_view(t@)[j]),
        decreases t.len() - i,
    {
        match &t[i] {
            Slot::Class(v) => {
                if v.len() == 0 {
                    assert(!class_nonempty(template_view(t@)[i as int]));
                    return false;
                }
            },
            Slot::Literal(_) => {},
        }
        i = i + 1;
    }
    true
}

/// A template with a class of no letters accepts no word.
pub proof fn lemma_empty_class_accepts_nothing(t: Seq<SlotSpec>, w: Seq<char>)
    requires
        !nonempty_classes(t),
    ensures
        !template_accepts(t, w),
{
    let i = choose|i: int| 0 <= i < t.len() && !#[trigger] class_nonempty(t[i]);
    if w.len() == t.len() {
        assert(!slot_accepts(t[i], w[i]));
    }
}

proof fn lemma_empty_class_selects_nothing(entries: Seq<Ranked>, t: Seq<SlotSpec>)
    requires
        !nonempty_classes(t),
    ensures
        entries.filter(|r: Ranked| template_accepts(t, r.0)) == Seq::<Ranked>::empty(),
{
    let f = |r: Ranked| template_accepts(t, r.0);
    assert forall|k: int| 0 <= k < entries.len() implies !f(#[trigger] entries[k]) by {
        lemma_empty_class_accepts_nothing(t, entries[k].0);
    }
    entries.lemma_all_neg_filter_empty(f);
    assert(entries.filter(f) =~= Seq::<Ranked>::empty());
}

/// Runs the FST plan: the words of the map that the template accepts,
/// post-filtered and ranked. A class without letters matches no word.
pub fn search_fst_plan(q: &CompiledQuery, map: &fst::Map<Vec<u8>>) -> (r: Vec<(String, u64)>)
    requires
        q.wf(),
    ensures
        is_ranked(results_view(r@)),
        results_view(r@).to_multiset() == selection(
            fst_entries(*map).map_values(|e: (Seq<u8>, u64)| entry_view(e)),
            template_view(q.template@),
            q.pattern@,
            q.mode,
        ).to_multiset(),
        distinct_words(results_view(r@)),
{
    proof {
        lemma_valid_template_plain(q.pattern@, q.absent_letters@, q.mode);
    }
    if !classes_nonempty(&q.template) {
        proof {
            let entries = fst_entries(*map).map_values(|e: (Seq<u8>, u64)| entry_view(e));
            lemma_empty_class_selects_nothing(entries, template_view(q.template@));
            let g = |r: Ranked| keeps(q.pattern@, q.mode, r.0);
            assert(Seq::<Ranked>::empty().filter(g) =~= Seq::<Ranked>::empty()) by {
                Seq::<Ranked>::empty().lemma_all_neg_filter_empty(g);
            }
        }
        let r: Vec<(String, u64)> = Vec::new();
        assert(results_view(r@) =~= Seq::<Ranked>::empty());
        return r;
    }
    let automaton = build_automaton(&q.template);
    let found = search_fst(map, &automaton);
    rank_matches(q.pattern.as_str(), &q.mode, found)
}

/// The lines of a text list: the pieces between newlines, without the
/// empty piece after a final newline.
pub open spec fn text_lines(text: Seq<char>) -> Seq<Seq<char>> {
    let p = pieces(text, '\n');
    if p.len() > 0 && p.last().len() == 0 {
        p.drop_last()
    } else {
        p
    }
}

/// Scanning lines of `word count` pairs: the entries whose word the
/// template accepts, in order. A line without tokens, or an accepted word
/// without a valid count, makes the list malformed.
pub open spec fn scan_lines(lines: Seq<Seq<char>>, t: Seq<SlotSpec>) -> Result<Seq<Ranked>, ()>
    decreases lines.len(),
{
    if lines.len() == 0 {
        Ok(Seq::empty())
    } else {
        match scan_lines(lines.drop_last(), t) {
            Err(_) => Err(()),
            Ok(found) => {
                let toks = tokens(lines.last());
                if toks.len() == 0 {
                    Err(())
                } else if !template_accepts(t, toks[0]) {
                    Ok(found)
                } else if toks.len() < 2 {
                    Err(())
                } else {
                    match parse_u64(toks[1]) {
                        Some(n) => Ok(found.push((toks[0], n))),
                        None => Err(()),
                    }
                }
            },
        }
    }
}

/// Whether `re` matches the words that template `t` accepts: it was compiled
/// from `t`, or it is absent because a class of `t` has no letter.
pub open spec fn matcher_for(re: Option<&WordRegex>, t: Seq<SlotSpec>) -> bool {
    match re {
        Some(w) => w.template() == t && plain_template(t),
        None => !nonempty_classes(t),
    }
}

/// Scans a text list for the words of template `t`, tested with `re`.
pub fn scan_text_list(re: Option<&WordRegex>, t: &Vec<Slot>, text: &str) -> (r: Result<Vec<(String, u64)>, SearchError>)
    requires
        matcher_for(re, template_view(t@)),
    ensures
        match scan_lines(text_lines(text@), template_view(t@)) {
            Ok(found) => r matches Ok(v) && results_view(v@) == found,
            Err(_) => r == Err::<Vec<(String, u64)>, SearchError>(SearchError::Dictionary),
        },
{
    let chars = chars_of(text);
    let mut lines = split_pieces(&chars, '\n');
    proof {
        lemma_pieces_nonempty(text@, '\n');
    }
    if lines.len() > 0 && lines[lines.len() - 1].len() == 0 {
        let ghost before = lines@;
        lines.pop();
        assert(seqs_view(lines@) =~= seqs_view(before).drop_last());
    }
    let ghost lv = seqs_view(lines@);
    assert(lv == text_lines(text@));
    let mut out: Vec<(String, u64)> = Vec::new();
    let mut i: usize = 0;
    assert(lv.take(0) =~= Seq::<Seq<char>>::empty());
    assert(results_view(out@) =~= Seq::<Ranked>::empty());
    while i < lines.len()
        invariant
            i <= lines.len(),
            lv == seqs_view(lines@),
            lv == text_lines(text@),
            matcher_for(re, template_view(t@)),
            scan_lines(lv.take(i as int), template_view(t@)) == Ok::<Seq<Ranked>, ()>(results_view(out@)),
        decreases lines.len() - i,
    {
        proof {
            assert(lv.take(i + 1).drop_last() =~= lv.take(i as int));
            assert(lv.take(i + 1).last() == lines@[i as int]@);
        }
        let toks = split_tokens(&lines[i]);
        if toks.len() == 0 {
            proof {
                lemma_scan_error_persists(lv, i as int + 1, template_view(t@));
            }
            return Err(SearchError::Dictionary);
        }
        let word = string_of(&toks[0]);
        let accepted = match re {
            Some(w) => word_matches(w, word.as_str()),
            None => {
                proof {
                    lemma_empty_class_accepts_nothing(template_view(t@), word@);
                }
                false
            },
        };
        if accepted {
            if toks.len() < 2 {
                proof {
                    lemma_scan_error_persists(lv, i as int + 1, template_view(t@));
                }
                return Err(SearchError::Dictionary);
            }
            match parse_decimal(&toks[1]) {
                Some(n) => {
                    let ghost old_out = out@;
                    out.push((word, n));
                    assert(results_view(out@) =~= results_view(old_out).push((toks@[0]@, n)));
                },
                None => {
                    proof {
                        lemma_scan_error_persists(lv, i as int + 1, template_view(t@));
                    }
                    return Err(SearchError::Dictionary);
                },
            }
        }
        i = i + 1;
    }
    assert(lv.take(lines.len() as int) =~= lv);
    Ok(out)
}

proof fn lemma_scan_error_persists(lines: Seq<Seq<char>>, k: int, t: Seq<SlotSpec>)
    requires
        0 <= k <= lines.len(),
        scan_lines(lines.take(k), t) is Err,
    ensures
        scan_lines(lines, t) is Err,
    decreases lines.len() - k,
{
    if k < lines.len() {
        assert(lines.take(k + 1).drop_last() =~= lines.take(k));
        lemma_scan_error_persists(lines, k + 1, t);
    } else {
        assert(lines.take(k) =~= lines);
    }
}

/// Runs the linear-scan plan over the text list: the accepted words,
/// post-filtered and ranked.
pub fn search_text_plan(q: &CompiledQuery, text: &str) -> (r: Result<Vec<(String, u64)>, SearchError>)
    requires
        q.wf(),
    ensures
        match scan_lines(text_lines(text@), template_view(q.template@)) {
            Ok(found) => r matches Ok(v) && is_ranked(results_view(v@)) && results_view(v@).to_multiset()
                == found.filter(|e: Ranked| keeps(q.pattern@, q.mode, e.0)).to_multiset(),
            Err(_) => r == Err::<Vec<(String, u64)>, SearchError>(SearchError::Dictionary),
        },
{
    proof {
        lemma_valid_template_plain(q.pattern@, q.absent_letters@, q.mode);
    }
    let compiled = if classes_nonempty(&q.template) {
        Some(compile_regex(&q.template))
    } else {
        None
    };
    let re = match &compiled {
        Some(w) => Some(w),
        None => None,
    };
    let found = scan_text_list(re, &q.template, text)?;
    Ok(rank_matches(q.pattern.as_str(), &q.mode, found))
}

/// The template of a combination search: slot `i` is any letter of
/// `parts[i]`, lowercased.
pub open spec fn combination_template(parts: Seq<Seq<char>>) -> Seq<SlotSpec> {
    parts.map_values(|s: Seq<char>| SlotSpec::Class(lower_seq(s)))
}

pub open spec fn combination_letters(parts: Seq<Seq<char>>) -> bool {
    forall|i: int| 0 <= i < parts.len() ==> all_letters(#[trigger] parts[i])
}

proof fn lemma_lower_letter(c: char)
    requires
        is_letter(c),
    ensures
        'a' <= lower(c) && lower(c) <= 'z',
{
    if is_upper(c) {
        let b = c as u8;
        assert(65 <= b <= 90);
        assert(((b + 32) as u8) as char == lower(c));
    }
}

/// Finds the dictionary words of length `parts.len()` whose letter `i` is
/// one of `parts[i]` (case-folded), ranked.
pub fn search_combinations(parts: &Vec<Vec<char>>, map: &fst::Map<Vec<u8>>) -> (r: Result<Vec<(String, u64)>, SearchError>)
    ensures
        !combination_letters(seqs_view(parts@)) <==> r == Err::<Vec<(String, u64)>, SearchError>(
            SearchError::DisallowedCombinationChars,
        ),
        r matches Ok(v) ==> is_ranked(results_view(v@)) && results_view(v@).to_multiset() == accepted_entries(
            fst_entries(*map),
            combination_template(seqs_view(parts@)),
        ).to_multiset(),
        combination_letters(seqs_view(parts@)) ==> r is Ok,
        r matches Ok(v) ==> distinct_words(results_view(v@)),
{
    let ghost pv = seqs_view(parts@);
    let ghost full = combination_template(pv);
    let mut template: Vec<Slot> = Vec::new();
    let mut i: usize = 0;
    while i < parts.len()
        invariant
            i <= parts.len(),
            pv == seqs_view(parts@),
            full == combination_template(pv),
            template_view(template@) == full.take(i as int),
            plain_template(template_view(template@)),
            forall|k: int| 0 <= k < i ==> all_letters(#[trigger] pv[k]),
        decreases parts.len() - i,
    {
        let part = &parts[i];
        let mut class: Vec<char> = Vec::new();
        let mut j: usize = 0;
        while j < part.len()
            invariant
                j <= part.len(),
                i < parts.len(),
                pv == seqs_view(parts@),
                part@ == pv[i as int],
                class@ == lower_seq(part@.take(j as int)),
                forall|k: int| 0 <= k < j ==> #[trigger] is_letter(part@[k]),
            decreases part.len() - j,
        {
            if !is_ascii_letter(part[j]) {
                proof {
                    assert(!is_letter(pv[i as int][j as int]));
                    assert(!all_letters(pv[i as int]));
                    assert(!combination_letters(pv));
                }
                return Err(SearchError::DisallowedCombinationChars);
            }
            class.push(to_lower(part[j]));
            assert(lower_seq(part@.take(j + 1)) =~= lower_seq(part@.take(j as int)).push(lower(part@[j as int])));
            j = j + 1;
        }
        assert(part@.take(part.len() as int) =~= part@);
        let ghost old_t = template@;
        let slot = Slot::Class(class);
        template.push(slot);
        proof {
            assert(template_view(template@) =~= template_view(old_t).push(slot@));
            assert(full.take(i + 1) =~= full.take(i as int).push(full[i as int]));
            assert forall|k: int| 0 <= k < template@.len() implies #[trigger] crate::pattern::plain_slot(
                template_view(template@)[k],
            ) by {
                if k == i {
                    assert forall|m: int| 0 <= m < lower_seq(part@).len() implies 'a' <= #[trigger] lower_seq(part@)[m]
                        && lower_seq(part@)[m] <= 'z' by {
                        lemma_lower_letter(part@[m]);
                    }
                }
            }
        }
        i = i + 1;
    }
    assert(full.take(parts.len() as int) =~= full);
    if !classes_nonempty(&template) {
        proof {
            let entries = fst_entries(*map).map_values(|e: (Seq<u8>, u64)| entry_view(e));
            lemma_empty_class_selects_nothing(entries, full);
        }
        let r: Vec<(String, u64)> = Vec::new();
        assert(results_view(r@) =~= Seq::<Ranked>::empty());
        return Ok(r);
    }
    let automaton = build_automaton(&template);
    let found = search_fst(map, &automaton);
    let ranked = rank_results(found);
    Ok(ranked)
}

} // verus!
