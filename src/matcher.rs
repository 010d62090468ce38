//! The two matchers of a template: a regular expression for scanning the
//! text list, and an anchored DFA for searching the FST map.

use vstd::prelude::*;
use fst::IntoStreamer;
use crate::order::{distinct_words, lemma_sorted_distinct_words, results_view, strictly_sorted, Ranked};
use crate::pattern::{body_text, MAX_PATTERN_LEN, plain_template, regex_body, template_accepts, template_view, Slot, SlotSpec};
use crate::text::string_of;

verus! {

/// regex's compiled expression, carried opaque.
#[verifier::external_type_specification]
#[verifier::external_body]
pub struct ExRegex(regex::Regex);

/// regex's compile error, carried opaque.
#[verifier::external_type_specification]
#[verifier::external_body]
pub struct ExRegexError(regex::Error);

/// A DFA of regex_automata, held opaque: Verus refuses a declaration of
/// `DenseDFA`, whose parameters carry bounds of that crate.
#[verifier::external_body]
pub struct AnchoredDfa {
    dfa: regex_automata::DenseDFA<Vec<usize>, usize>,
}

/// regex_automata's build error, carried opaque.
#[verifier::external_type_specification]
#[verifier::external_body]
pub struct ExAutomataError(regex_automata::Error);

/// fst's map, carried opaque; `fst_entries` names what it holds.
#[verifier::external_type_specification]
#[verifier::external_body]
#[verifier::reject_recursive_types(D)]
pub struct ExFstMap<D>(fst::Map<D>);

/// fst's error, carried opaque.
#[verifier::external_type_specification]
#[verifier::external_body]
pub struct ExFstError(fst::Error);

/// The entries of an FST map, in ascending key order.
pub uninterp spec fn fst_entries(m: fst::Map<Vec<u8>>) -> Seq<(Seq<u8>, u64)>;

/// The characters that the bytes of a key stand for, one per byte.
pub open spec fn key_chars(k: Seq<u8>) -> Seq<char> {
    k.map_values(|b: u8| b as char)
}

/// A map entry as a ranked pair.
pub open spec fn entry_view(e: (Seq<u8>, u64)) -> Ranked {
    (key_chars(e.0), e.1)
}

/// The entries whose word the template accepts, in the map's order.
pub open spec fn accepted_entries(entries: Seq<(Seq<u8>, u64)>, t: Seq<SlotSpec>) -> Seq<Ranked> {
    entries.map_values(|e: (Seq<u8>, u64)| entry_view(e)).filter(|r: Ranked| template_accepts(t, r.0))
}

/// A class slot has at least one letter; literal slots always do.
pub open spec fn class_nonempty(s: SlotSpec) -> bool {
    match s {
        SlotSpec::Class(v) => v.len() > 0,
        SlotSpec::Literal(_) => true,
    }
}

/// Every class of the template has a letter: only then can a regular
/// expression or a DFA be built from it (`[]` is no valid class).
pub open spec fn nonempty_classes(t: Seq<SlotSpec>) -> bool {
    forall|i: int| 0 <= i < t.len() ==> #[trigger] class_nonempty(t[i])
}

/// The anchored regular expression of a template.
pub open spec fn anchored_text(t: Seq<SlotSpec>) -> Seq<char> {
    "^(?-u)"@ + body_text(t) + seq!['$']
}

/// The text that the DFA is built from; anchoring is a builder option.
pub open spec fn dfa_text(t: Seq<SlotSpec>) -> Seq<char> {
    "(?-u)"@ + body_text(t)
}

/// A regular expression compiled from the anchored text of a plain
/// template. Only `compile_regex` makes one.
pub struct WordRegex {
    regex: regex::Regex,
    template: Ghost<Seq<SlotSpec>>,
}

impl WordRegex {
    /// The template that the expression was compiled from.
    pub closed spec fn template(&self) -> Seq<SlotSpec> {
        self.template@
    }
}

/// An anchored DFA built from the text of a plain template. Only
/// `build_automaton` makes one.
pub struct WordAutomaton {
    dfa: AnchoredDfa,
    template: Ghost<Seq<SlotSpec>>,
}

impl WordAutomaton {
    /// The template that the DFA was built from.
    pub closed spec fn template(&self) -> Seq<SlotSpec> {
        self.template@
    }
}

/// Relies on regex::Regex::new, which fails only on invalid syntax or a
/// program above its size limit. `text` is the anchored text of `t`: `^(?-u)`,
/// at most twenty slots, each an ASCII literal or a class `[...]` of one or
/// more lowercase letters, and `$`. That is valid syntax (and matches only
/// valid UTF-8), and far below the limit, so it compiles.
#[verifier::external_body]
fn new_regex(t: &Vec<Slot>, text: &str) -> (r: Result<regex::Regex, regex::Error>)
    requires
        text@ == anchored_text(template_view(t@)),
        plain_template(template_view(t@)),
        nonempty_classes(template_view(t@)),
        t@.len() <= MAX_PATTERN_LEN,
    ensures
        r is Ok,
{
    regex::Regex::new(text)
}

/// Relies on regex_automata::dense::Builder::build with `anchored(true)`,
/// which builds a DFA that matches only at the start of its input. It fails
/// only when the text does not parse (or nests too deep) or the DFA needs
/// more states than its state type counts. `text` is the DFA text of `t`:
/// `(?-u)` and a flat sequence of ASCII literals and classes of one or more
/// lowercase letters, which parses, and whose DFA has about one state per
/// slot, far within `usize`.
#[verifier::external_body]
fn new_anchored_dfa(t: &Vec<Slot>, text: &str) -> (r: Result<AnchoredDfa, regex_automata::Error>)
    requires
        text@ == dfa_text(template_view(t@)),
        plain_template(template_view(t@)),
        nonempty_classes(template_view(t@)),
    ensures
        r is Ok,
{
    match regex_automata::dense::Builder::new().anchored(true).build(text) {
        Ok(dfa) => Ok(AnchoredDfa { dfa }),
        Err(e) => Err(e),
    }
}

/// Relies on regex::Regex::is_match. The expression was compiled from
/// `^(?-u)`, the slots of a plain template and `$`: each literal slot matches
/// its character, each class `[...]` one of its letters, and the anchors
/// make the whole string match. So it matches exactly the strings with one
/// character per slot, each accepted by its slot.
#[verifier::external_body]
fn regex_matches(w: &WordRegex, s: &str) -> (r: bool)
    requires
        plain_template(w.template()),
    ensures
        r == template_accepts(w.template(), s@),
{
    w.regex.is_match(s)
}

/// Relies on fst::Map::search, streamed with `into_str_vec`: the stream
/// yields, in strictly ascending key order (a map's keys are distinct), the
/// entries whose key the automaton accepts (the DFA is in a match state
/// after the whole key). The DFA was built anchored from `(?-u)` and the
/// slots of a plain template, so it accepts exactly the keys with one byte
/// per slot, each accepted by its slot. Such keys are ASCII: each byte is one
/// character of the string, and the byte order is the character order.
/// `into_str_vec` fails only on a key that is not UTF-8, which ASCII keys
/// never are.
#[verifier::external_body]
fn search_map(map: &fst::Map<Vec<u8>>, a: &WordAutomaton) -> (r: Result<Vec<(String, u64)>, fst::Error>)
    requires
        plain_template(a.template()),
    ensures
        r is Ok,
        r is Ok ==> results_view(r->Ok_0@) == accepted_entries(fst_entries(*map), a.template()),
        r is Ok ==> strictly_sorted(results_view(r->Ok_0@)),
{
    map.search(&a.dfa.dfa).into_stream().into_str_vec()
}

fn prefixed(prefix: &str, body: &Vec<char>) -> (r: Vec<char>)
    ensures
        r@ == prefix@ + body@,
{
    let mut r = crate::text::chars_of(prefix);
    let mut i: usize = 0;
    let ghost start = r@;
    while i < body.len()
        invariant
            i <= body.len(),
            start == prefix@,
            r@ == start + body@.take(i as int),
        decreases body.len() - i,
    {
        r.push(body[i]);
        assert(body@.take(i + 1) =~= body@.take(i as int).push(body@[i as int]));
        i = i + 1;
    }
    assert(body@.take(body.len() as int) =~= body@);
    r
}

/// Compiles the anchored regular expression of a plain template whose
/// classes all have a letter.
pub fn compile_regex(t: &Vec<Slot>) -> (r: WordRegex)
    requires
        plain_template(template_view(t@)),
        nonempty_classes(template_view(t@)),
        t@.len() <= MAX_PATTERN_LEN,
    ensures
        r.template() == template_view(t@),
{
    let body = regex_body(t);
    let mut text = prefixed("^(?-u)", &body);
    text.push('$');
    assert(text@ =~= anchored_text(template_view(t@)));
    let s = string_of(&text);
    match new_regex(t, s.as_str()) {
        Ok(regex) => WordRegex { regex, template: Ghost(template_view(t@)) },
        Err(_) => unreached(),
    }
}

/// Builds the anchored DFA of a plain template whose classes all have a
/// letter.
pub fn build_automaton(t: &Vec<Slot>) -> (r: WordAutomaton)
    requires
        plain_template(template_view(t@)),
        nonempty_classes(template_view(t@)),
    ensures
        r.template() == template_view(t@),
{
    let body = regex_body(t);
    let text = prefixed("(?-u)", &body);
    assert(text@ =~= dfa_text(template_view(t@)));
    let s = string_of(&text);
    match new_anchored_dfa(t, s.as_str()) {
        Ok(dfa) => WordAutomaton { dfa, template: Ghost(template_view(t@)) },
        Err(_) => unreached(),
    }
}

/// The entries of the map whose word the automaton's template accepts, in
/// strictly ascending word order.
pub fn search_fst(map: &fst::Map<Vec<u8>>, a: &WordAutomaton) -> (r: Vec<(String, u64)>)
    requires
        plain_template(a.template()),
    ensures
        results_view(r@) == accepted_entries(fst_entries(*map), a.template()),
        strictly_sorted(results_view(r@)),
        distinct_words(results_view(r@)),
{
    match search_map(map, a) {
        Ok(v) => {
            proof {
                lemma_sorted_distinct_words(results_view(v@));
            }
            v
        },
        Err(_) => unreached(),
    }
}

/// Whether the expression's template accepts `word`.
pub fn word_matches(w: &WordRegex, word: &str) -> (r: bool)
    requires
        plain_template(w.template()),
    ensures
        r == template_accepts(w.template(), word@),
{
    regex_matches(w, word)
}

} // verus!
