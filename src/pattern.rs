//! Puzzle modes, validation of a pattern and its absent letters, and the
//! compilation of a pattern into a template: one slot per position, each a
//! literal character or a class of letters.

use vstd::prelude::*;
use crate::error::SearchError;
use crate::text::{
    chars_of, contains_char, contains_lowered, copy_chars, is_ascii_letter, is_ascii_upper, is_letter,
    is_upper, lower, str_eq, to_lower,
};

verus! {

/// The longest pattern accepted.
pub const MAX_PATTERN_LEN: usize = 20;

#[derive(Clone, Copy, PartialEq, Eq, Structural, Debug)]
pub enum PatternMode {
    WheelOfFortune,
    Crossword,
    Cryptogram,
}

/// One position of a compiled pattern.
#[derive(Debug)]
pub enum Slot {
    /// Exactly this character.
    Literal(char),
    /// Any of these characters.
    Class(Vec<char>),
}

/// The mathematical form of a slot.
pub ghost enum SlotSpec {
    Literal(char),
    Class(Seq<char>),
}

impl View for Slot {
    type V = SlotSpec;

    open spec fn view(&self) -> SlotSpec {
        match self {
            Slot::Literal(c) => SlotSpec::Literal(*c),
            Slot::Class(v) => SlotSpec::Class(v@),
        }
    }
}

pub open spec fn template_view(t: Seq<Slot>) -> Seq<SlotSpec> {
    t.map_values(|s: Slot| s@)
}

pub open spec fn slot_accepts(s: SlotSpec, c: char) -> bool {
    match s {
        SlotSpec::Literal(l) => c == l,
        SlotSpec::Class(v) => v.contains(c),
    }
}

/// A word matches a template when it has one character per slot and each
/// character is accepted by its slot.
pub open spec fn template_accepts(t: Seq<SlotSpec>, w: Seq<char>) -> bool {
    &&& w.len() == t.len()
    &&& forall|i: int| 0 <= i < t.len() ==> #[trigger] slot_accepts(t[i], w[i])
}

/// The letters `a` to `z`, in order.
pub open spec fn alphabet() -> Seq<char> {
    Seq::new(26, |i: int| ((97 + i) as u8) as char)
}

/// Whether some character of `s`, lowercased, is `l`.
pub open spec fn has_lowered(s: Seq<char>, l: char) -> bool {
    exists|i: int| 0 <= i < s.len() && lower(#[trigger] s[i]) == l
}

pub open spec fn pattern_char_allowed(c: char, mode: PatternMode) -> bool {
    is_letter(c) || c == '\'' || c == '-' || (mode != PatternMode::Cryptogram && c == '?')
}

pub open spec fn pattern_chars_allowed(p: Seq<char>, mode: PatternMode) -> bool {
    forall|i: int| 0 <= i < p.len() ==> #[trigger] pattern_char_allowed(p[i], mode)
}

pub open spec fn all_letters(s: Seq<char>) -> bool {
    forall|i: int| 0 <= i < s.len() ==> #[trigger] is_letter(s[i])
}

/// The pattern and absent letters that the engine accepts for a mode.
pub open spec fn valid_query(pattern: Seq<char>, absent: Seq<char>, mode: PatternMode) -> bool {
    &&& pattern_chars_allowed(pattern, mode)
    &&& pattern.len() <= MAX_PATTERN_LEN
    &&& all_letters(absent)
}

/// Letters allowed at a `?` in Wheel of Fortune: neither absent nor
/// already revealed in the pattern.
pub open spec fn wheel_letter(pattern: Seq<char>, absent: Seq<char>, l: char) -> bool {
    !has_lowered(absent, l) && !has_lowered(pattern, l)
}

/// Letters allowed for the cryptogram variable `v`: not a known letter of
/// the pattern, not absent, and not the variable's own letter.
pub open spec fn cipher_letter(pattern: Seq<char>, absent: Seq<char>, v: char, l: char) -> bool {
    !pattern.contains(l) && !has_lowered(absent, l) && l != lower(v)
}

pub open spec fn wheel_class(pattern: Seq<char>, absent: Seq<char>) -> Seq<char> {
    alphabet().filter(|l: char| wheel_letter(pattern, absent, l))
}

pub open spec fn cipher_class(pattern: Seq<char>, absent: Seq<char>, v: char) -> Seq<char> {
    alphabet().filter(|l: char| cipher_letter(pattern, absent, v, l))
}

/// The slot that pattern character `c` compiles to. A Crossword `?` takes
/// any letter: the absent letters do not restrict it.
pub open spec fn slot_for(pattern: Seq<char>, absent: Seq<char>, mode: PatternMode, c: char) -> SlotSpec {
    match mode {
        PatternMode::WheelOfFortune => if c == '?' {
            SlotSpec::Class(wheel_class(pattern, absent))
        } else {
            SlotSpec::Literal(lower(c))
        },
        PatternMode::Crossword => if c == '?' {
            SlotSpec::Class(alphabet())
        } else {
            SlotSpec::Literal(lower(c))
        },
        PatternMode::Cryptogram => if is_upper(c) {
            SlotSpec::Class(cipher_class(pattern, absent, c))
        } else {
            SlotSpec::Literal(c)
        },
    }
}

/// The template that a pattern compiles to.
pub open spec fn template_of(pattern: Seq<char>, absent: Seq<char>, mode: PatternMode) -> Seq<SlotSpec> {
    pattern.map_values(|c: char| slot_for(pattern, absent, mode, c))
}

/// The mode that a name denotes, if any.
pub open spec fn mode_named(s: Seq<char>) -> Result<PatternMode, ()> {
    if s == "WheelOfFortune"@ {
        Ok(PatternMode::WheelOfFortune)
    } else if s == "Crossword"@ {
        Ok(PatternMode::Crossword)
    } else if s == "Cryptogram"@ {
        Ok(PatternMode::Cryptogram)
    } else {
        Err(())
    }
}

/// What validating a pattern yields.
pub open spec fn pattern_verdict(pattern: Seq<char>, mode: PatternMode) -> Result<(), SearchError> {
    if !pattern_chars_allowed(pattern, mode) {
        Err(SearchError::DisallowedPatternChars)
    } else if pattern.len() > MAX_PATTERN_LEN {
        Err(SearchError::PatternTooLong)
    } else {
        Ok(())
    }
}

/// A template that the matchers take: literals are lowercase letters,
/// apostrophes or hyphens, and classes hold lowercase letters.
pub open spec fn plain_slot(s: SlotSpec) -> bool {
    match s {
        SlotSpec::Literal(c) => ('a' <= c && c <= 'z') || c == '\'' || c == '-',
        SlotSpec::Class(v) => forall|i: int| 0 <= i < v.len() ==> 'a' <= #[trigger] v[i] && v[i] <= 'z',
    }
}

pub open spec fn plain_template(t: Seq<SlotSpec>) -> bool {
    forall|i: int| 0 <= i < t.len() ==> #[trigger] plain_slot(t[i])
}

/// The regular-expression text of one slot.
pub open spec fn slot_text(s: SlotSpec) -> Seq<char> {
    match s {
        SlotSpec::Literal(c) => seq![c],
        SlotSpec::Class(v) => seq!['['] + v + seq![']'],
    }
}

/// The regular-expression text of a template, without anchors or flags.
pub open spec fn body_text(t: Seq<SlotSpec>) -> Seq<char>
    decreases t.len(),
{
    if t.len() == 0 {
        Seq::empty()
    } else {
        body_text(t.drop_last()) + slot_text(t.last())
    }
}

impl PatternMode {
    /// Reads a mode from its name.
    pub fn try_from(value: &str) -> (r: Result<PatternMode, ()>)
        ensures
            r == mode_named(value@),
    {
        if str_eq(value, "WheelOfFortune") {
            Ok(PatternMode::WheelOfFortune)
        } else if str_eq(value, "Crossword") {
            Ok(PatternMode::Crossword)
        } else if str_eq(value, "Cryptogram") {
            Ok(PatternMode::Cryptogram)
        } else {
            Err(())
        }
    }
}

/// Whether `c` may stand in a pattern of mode `mode`.
pub fn is_allowed_char(c: char, mode: &PatternMode) -> (r: bool)
    ensures
        r == pattern_char_allowed(c, *mode),
{
    if is_ascii_letter(c) || c == '\'' || c == '-' {
        return true;
    }
    *mode != PatternMode::Cryptogram && c == '?'
}

/// Checks the characters of a pattern, then its length.
pub fn validate_pattern(pattern: &str, mode: &PatternMode) -> (r: Result<(), SearchError>)
    ensures
        r == pattern_verdict(pattern@, *mode),
{
    let p = chars_of(pattern);
    let mut i: usize = 0;
    while i < p.len()
        invariant
            i <= p.len(),
            p@ == pattern@,
            forall|j: int| 0 <= j < i ==> #[trigger] pattern_char_allowed(p@[j], *mode),
        decreases p.len() - i,
    {
        if !is_allowed_char(p[i], mode) {
            return Err(SearchError::DisallowedPatternChars);
        }
        i = i + 1;
    }
    if p.len() > MAX_PATTERN_LEN {
        return Err(SearchError::PatternTooLong);
    }
    Ok(())
}

/// Checks that the absent letters are letters.
pub fn validate_absent_letters(absent_letters: &str) -> (r: Result<(), SearchError>)
    ensures
        r == (if all_letters(absent_letters@) {
            Ok(())
        } else {
            Err(SearchError::DisallowedAbsentLetters)
        }),
{
    let a = chars_of(absent_letters);
    let mut i: usize = 0;
    while i < a.len()
        invariant
            i <= a.len(),
            a@ == absent_letters@,
            forall|j: int| 0 <= j < i ==> #[trigger] is_letter(a@[j]),
        decreases a.len() - i,
    {
        if !is_ascii_letter(a[i]) {
            return Err(SearchError::DisallowedAbsentLetters);
        }
        i = i + 1;
    }
    Ok(())
}

proof fn lemma_alphabet_take(i: int)
    requires
        0 <= i < 26,
    ensures
        alphabet().take(i + 1) == alphabet().take(i).push(alphabet()[i]),
{
    assert(alphabet().take(i + 1) =~= alphabet().take(i).push(alphabet()[i]));
}

/// All letters `a` to `z`.
fn all_letter_class() -> (r: Vec<char>)
    ensures
        r@ == alphabet(),
{
    let mut r: Vec<char> = Vec::new();
    let mut i: u8 = 0;
    while i < 26
        invariant
            i <= 26,
            r@ == alphabet().take(i as int),
        decreases 26 - i,
    {
        proof {
            lemma_alphabet_take(i as int);
        }
        r.push((97 + i) as char);
        i = i + 1;
    }
    assert(alphabet().take(26) =~= alphabet());
    r
}

/// The letters allowed at a `?` of a Wheel of Fortune pattern.
fn wheel_letters(pattern: &Vec<char>, absent: &Vec<char>) -> (r: Vec<char>)
    ensures
        r@ == wheel_class(pattern@, absent@),
{
    broadcast use Seq::lemma_filter_push;

    let ghost pred = |l: char| wheel_letter(pattern@, absent@, l);
    let mut r: Vec<char> = Vec::new();
    let mut i: u8 = 0;
    assert(alphabet().take(0).filter(pred) =~= Seq::<char>::empty());
    while i < 26
        invariant
            i <= 26,
            pred == (|l: char| wheel_letter(pattern@, absent@, l)),
            r@ == alphabet().take(i as int).filter(pred),
        decreases 26 - i,
    {
        proof {
            lemma_alphabet_take(i as int);
        }
        let l = (97 + i) as char;
        proof {
            assert(l == alphabet()[i as int]);
            alphabet().take(i as int).lemma_filter_push(l, pred);
            assert(pred(l) == wheel_letter(pattern@, absent@, l));
        }
        if !contains_lowered(absent, l) && !contains_lowered(pattern, l) {
            r.push(l);
        }
        i = i + 1;
    }
    assert(alphabet().take(26) =~= alphabet());
    r
}

/// The letters allowed for the cryptogram variable `v`.
fn cipher_letters(pattern: &Vec<char>, absent: &Vec<char>, v: char) -> (r: Vec<char>)
    ensures
        r@ == cipher_class(pattern@, absent@, v),
{
    broadcast use Seq::lemma_filter_push;

    let ghost pred = |l: char| cipher_letter(pattern@, absent@, v, l);
    let mut r: Vec<char> = Vec::new();
    let mut i: u8 = 0;
    assert(alphabet().take(0).filter(pred) =~= Seq::<char>::empty());
    while i < 26
        invariant
            i <= 26,
            pred == (|l: char| cipher_letter(pattern@, absent@, v, l)),
            r@ == alphabet().take(i as int).filter(pred),
        decreases 26 - i,
    {
        proof {
            lemma_alphabet_take(i as int);
        }
        let l = (97 + i) as char;
        proof {
            assert(l == alphabet()[i as int]);
            alphabet().take(i as int).lemma_filter_push(l, pred);
            assert(pred(l) == cipher_letter(pattern@, absent@, v, l));
        }
        if !contains_char(pattern, l) && !contains_lowered(absent, l) && l != to_lower(v) {
            r.push(l);
        }
        i = i + 1;
    }
    assert(alphabet().take(26) =~= alphabet());
    r
}

proof fn lemma_template_view_push(t: Seq<Slot>, s: Slot)
    ensures
        template_view(t.push(s)) == template_view(t).push(s@),
{
    assert(template_view(t.push(s)) =~= template_view(t).push(s@));
}

/// Compiles a validated pattern into its template.
pub fn build_template(pattern: &str, absent_letters: &str, mode: &PatternMode) -> (r: Vec<Slot>)
    ensures
        template_view(r@) == template_of(pattern@, absent_letters@, *mode),
{
    let p = chars_of(pattern);
    let a = chars_of(absent_letters);
    let wheel = wheel_letters(&p, &a);
    let ghost full = template_of(pattern@, absent_letters@, *mode);
    let mut r: Vec<Slot> = Vec::new();
    let mut i: usize = 0;
    while i < p.len()
        invariant
            i <= p.len(),
            p@ == pattern@,
            a@ == absent_letters@,
            wheel@ == wheel_class(p@, a@),
            full == template_of(pattern@, absent_letters@, *mode),
            template_view(r@) == full.take(i as int),
        decreases p.len() - i,
    {
        let c = p[i];
        let slot = match mode {
            PatternMode::WheelOfFortune => if c == '?' {
                Slot::Class(copy_chars(&wheel))
            } else {
                Slot::Literal(to_lower(c))
            },
            PatternMode::Crossword => if c == '?' {
                Slot::Class(all_letter_class())
            } else {
                Slot::Literal(to_lower(c))
            },
            PatternMode::Cryptogram => if is_ascii_upper(c) {
                Slot::Class(cipher_letters(&p, &a, c))
            } else {
                Slot::Literal(c)
            },
        };
        proof {
            lemma_template_view_push(r@, slot);
            assert(slot@ == full[i as int]);
            assert(full.take(i + 1) =~= full.take(i as int).push(full[i as int]));
        }
        r.push(slot);
        i = i + 1;
    }
    assert(full.take(p.len() as int) =~= full);
    r
}

/// The template of a valid query is plain.
pub proof fn lemma_valid_template_plain(pattern: Seq<char>, absent: Seq<char>, mode: PatternMode)
    requires
        valid_query(pattern, absent, mode),
    ensures
        plain_template(template_of(pattern, absent, mode)),
{
    let t = template_of(pattern, absent, mode);
    assert forall|i: int| 0 <= i < t.len() implies #[trigger] plain_slot(t[i]) by {
        let c = pattern[i];
        assert(pattern_char_allowed(c, mode));
        match t[i] {
            SlotSpec::Literal(l) => {},
            SlotSpec::Class(v) => {
                let pw = |l: char| wheel_letter(pattern, absent, l);
                let pc = |l: char| cipher_letter(pattern, absent, c, l);
                assert forall|j: int| 0 <= j < v.len() implies 'a' <= #[trigger] v[j] && v[j] <= 'z' by {
                    assert(v.contains(v[j]));
                    if mode == PatternMode::WheelOfFortune {
                        alphabet().lemma_filter_contains_rev(pw, v[j]);
                    } else if mode == PatternMode::Cryptogram {
                        alphabet().lemma_filter_contains_rev(pc, v[j]);
                    }
                    assert(alphabet().contains(v[j]));
                    let k = choose|k: int| 0 <= k < 26 && alphabet()[k] == v[j];
                    assert(0 <= k < 26);
                }
            },
        }
    }
}

/// The regular-expression text of a template, without anchors or flags.
pub fn regex_body(t: &Vec<Slot>) -> (r: Vec<char>)
    ensures
        r@ == body_text(template_view(t@)),
{
    let ghost tv = template_view(t@);
    let mut r: Vec<char> = Vec::new();
    let mut i: usize = 0;
    while i < t.len()
        invariant
            i <= t.len(),
            tv == template_view(t@),
            r@ == body_text(tv.take(i as int)),
        decreases t.len() - i,
    {
        let ghost before = r@;
        match &t[i] {
            Slot::Literal(c) => {
                r.push(*c);
            },
            Slot::Class(v) => {
                r.push('[');
                let mut j: usize = 0;
                while j < v.len()
                    invariant
                        j <= v.len(),
                        r@ == before + seq!['['] + v@.take(j as int),
                    decreases v.len() - j,
                {
                    r.push(v[j]);
                    assert(v@.take(j + 1) =~= v@.take(j as int).push(v@[j as int]));
                    j = j + 1;
                }
                r.push(']');
                assert(v@.take(v.len() as int) =~= v@);
            },
        }
        proof {
            assert(tv.take(i + 1).drop_last() =~= tv.take(i as int));
            assert(r@ =~= before + slot_text(tv[i as int]));
        }
        i = i + 1;
    }
    assert(tv.take(t.len() as int) =~= tv);
    r
}

} // verus!
