//! Field descriptors: one named extraction rule per configuration line.
//!
//! A line has the fixed structure `name[target] selector`: a name of word
//! characters, a target code in brackets (an optional multiplicity marker -
//! `@` for every match, a leading number for the first so many - then one of
//! `html`, `text`, `strip_text`, `src`, `href` or `attr=<name>`,
//! case-insensitively), one whitespace character, and the selector text.
//! Lines of any other shape are commentary and are skipped; a line with the
//! right shape but an unrecognized target code is a configuration error.

use vstd::prelude::*;

use crate::error::ErrorKind;
use crate::error::ScrapeError;
use crate::dom::valid_selector;
use crate::dom::html_matches;
use crate::dom::text_matches;
use crate::dom::attr_matches;
use crate::codec::json_string_array;
use crate::selector::SelectorNode;
use crate::selector::parses_to;
use crate::selector::spec_describe;
use crate::selector::parse_selector;
use crate::selector::lemma_describe_inverts_parse;
use crate::text::is_whitespace_char;
use crate::text::is_whitespace;
use crate::text::chars_of;
use crate::text::string_of_range;
use crate::text::string_from_chars;

verus! {

/// How many matches an extraction rule takes.
#[derive(Clone, Copy, Debug, PartialEq, Eq, Structural)]
pub enum Prefix {
    /// Take the first match only; report the field absent when none matches.
    First,
    /// Take every match, encoded as a JSON array.
    All,
    /// Take the first so many matches, encoded as a JSON array; fewer is an
    /// extraction error.
    Num(usize),
}

/// What an extraction rule pulls out of each matched element.
#[derive(Debug, PartialEq, Eq)]
pub enum Target {
    /// The element's serialized markup.
    Html(Prefix),
    /// The element's concatenated text content.
    Text(Prefix),
    /// The text content, stripped of leading and trailing newlines and
    /// spaces, then trimmed of whitespace.
    StripText(Prefix),
    /// The named attribute, the empty string where the element lacks it.
    Attr(Prefix, String),
}

/// The mathematical value of a target: the attribute name as a character
/// sequence.
pub enum TargetV {
    Html(Prefix),
    Text(Prefix),
    StripText(Prefix),
    Attr(Prefix, Seq<char>),
}

impl View for Target {
    type V = TargetV;

    open spec fn view(&self) -> TargetV {
        match self {
            Target::Html(p) => TargetV::Html(*p),
            Target::Text(p) => TargetV::Text(*p),
            Target::StripText(p) => TargetV::StripText(*p),
            Target::Attr(p, name) => TargetV::Attr(*p, name@),
        }
    }
}

/// ASCII lowercasing of one character.
pub open spec fn spec_lower_char(c: char) -> char {
    match c {
        'A' => 'a',
        'B' => 'b',
        'C' => 'c',
        'D' => 'd',
        'E' => 'e',
        'F' => 'f',
        'G' => 'g',
        'H' => 'h',
        'I' => 'i',
        'J' => 'j',
        'K' => 'k',
        'L' => 'l',
        'M' => 'm',
        'N' => 'n',
        'O' => 'o',
        'P' => 'p',
        'Q' => 'q',
        'R' => 'r',
        'S' => 's',
        'T' => 't',
        'U' => 'u',
        'V' => 'v',
        'W' => 'w',
        'X' => 'x',
        'Y' => 'y',
        'Z' => 'z',
        _ => c,
    }
}

pub(crate) fn lower_char(c: char) -> (r: char)
    ensures
        r == spec_lower_char(c),
{
    match c {
        'A' => 'a',
        'B' => 'b',
        'C' => 'c',
        'D' => 'd',
        'E' => 'e',
        'F' => 'f',
        'G' => 'g',
        'H' => 'h',
        'I' => 'i',
        'J' => 'j',
        'K' => 'k',
        'L' => 'l',
        'M' => 'm',
        'N' => 'n',
        'O' => 'o',
        'P' => 'p',
        'Q' => 'q',
        'R' => 'r',
        'S' => 's',
        'T' => 't',
        'U' => 'u',
        'V' => 'v',
        'W' => 'w',
        'X' => 'x',
        'Y' => 'y',
        'Z' => 'z',
        _ => c,
    }
}

/// A decimal digit.
pub open spec fn is_digit_char(c: char) -> bool {
    c == '0' || c == '1' || c == '2' || c == '3' || c == '4' || c == '5' || c == '6' || c == '7'
        || c == '8' || c == '9'
}

/// The value of a decimal digit.
pub open spec fn digit_val(c: char) -> int {
    match c {
        '0' => 0,
        '1' => 1,
        '2' => 2,
        '3' => 3,
        '4' => 4,
        '5' => 5,
        '6' => 6,
        '7' => 7,
        '8' => 8,
        _ => 9,
    }
}

pub(crate) fn is_digit(c: char) -> (r: bool)
    ensures
        r == is_digit_char(c),
{
    c == '0' || c == '1' || c == '2' || c == '3' || c == '4' || c == '5' || c == '6' || c == '7'
        || c == '8' || c == '9'
}

pub(crate) fn exec_digit_val(c: char) -> (r: usize)
    requires
        is_digit_char(c),
    ensures
        r == digit_val(c),
{
    match c {
        '0' => 0,
        '1' => 1,
        '2' => 2,
        '3' => 3,
        '4' => 4,
        '5' => 5,
        '6' => 6,
        '7' => 7,
        '8' => 8,
        _ => 9,
    }
}

/// The end of the run of digits that starts at `i`.
pub open spec fn digits_end(s: Seq<char>, i: int) -> int
    decreases s.len() - i,
{
    if 0 <= i < s.len() && is_digit_char(s[i]) {
        digits_end(s, i + 1)
    } else {
        i
    }
}

/// The value of a text of decimal digits.
pub open spec fn num_val(s: Seq<char>) -> int
    decreases s.len(),
{
    if s.len() == 0 {
        0
    } else {
        num_val(s.drop_last()) * 10 + digit_val(s.last())
    }
}

pub(crate) proof fn lemma_num_val_nonneg(s: Seq<char>)
    ensures
        num_val(s) >= 0,
    decreases s.len(),
{
    if s.len() > 0 {
        lemma_num_val_nonneg(s.drop_last());
    }
}

/// A digit text's value never shrinks as the text grows to the right.
proof fn lemma_num_val_prefix_le(s: Seq<char>, j: int, e: int)
    requires
        0 <= j <= e <= s.len(),
    ensures
        num_val(s.take(j)) <= num_val(s.take(e)),
    decreases e - j,
{
    if j < e {
        lemma_num_val_prefix_le(s, j, e - 1);
        let t = s.take(e);
        assert(t.drop_last() =~= s.take(e - 1));
        lemma_num_val_nonneg(s.take(e - 1));
    }
}

/// Where the run of digits at `i` ends, per a scan's findings.
pub(crate) proof fn lemma_digits_end_is(s: Seq<char>, i: int, e: int)
    requires
        0 <= i <= e <= s.len(),
        forall|j: int| i <= j < e ==> is_digit_char(#[trigger] s[j]),
        e < s.len() ==> !is_digit_char(s[e]),
    ensures
        digits_end(s, i) == e,
    decreases e - i,
{
    if i < e {
        lemma_digits_end_is(s, i + 1, e);
    }
}

/// The digit run's end lies between its start and the text's end.
pub(crate) proof fn lemma_digits_end_bounds(s: Seq<char>, i: int)
    requires
        0 <= i <= s.len(),
    ensures
        i <= digits_end(s, i) <= s.len(),
    decreases s.len() - i,
{
    if i < s.len() && is_digit_char(s[i]) {
        lemma_digits_end_bounds(s, i + 1);
    }
}

/// The multiplicity marker and what is left of a lowercased target code after
/// it: `@` takes every match; a leading number, when it fits a `usize` and
/// does not run to the end of the code, takes the first so many; anything
/// else leaves the code alone and takes the first match.
pub open spec fn spec_split_prefix(lc: Seq<char>) -> (Prefix, Seq<char>) {
    if lc.len() > 0 && lc[0] == '@' {
        (Prefix::All, lc.skip(1))
    } else if lc.len() > 0 && is_digit_char(lc[0]) {
        let e = digits_end(lc, 0);
        if e < lc.len() && num_val(lc.take(e)) <= usize::MAX {
            (Prefix::Num(num_val(lc.take(e)) as usize), lc.skip(e))
        } else {
            (Prefix::First, lc)
        }
    } else {
        (Prefix::First, lc)
    }
}

/// What a target code decodes to: the multiplicity marker is split off, then
/// the remaining code picks the extraction kind, case-insensitively; `src`
/// and `href` abbreviate the attributes of those names, and `attr=<name>`
/// names an attribute explicitly. An unrecognized code decodes to nothing.
pub open spec fn spec_parse_target(code: Seq<char>) -> Option<TargetV> {
    let lc = code.map_values(|c: char| spec_lower_char(c));
    let pre = spec_split_prefix(lc).0;
    let rest = spec_split_prefix(lc).1;
    if rest =~= seq!['h', 't', 'm', 'l'] {
        Some(TargetV::Html(pre))
    } else if rest =~= seq!['t', 'e', 'x', 't'] {
        Some(TargetV::Text(pre))
    } else if rest =~= seq!['s', 't', 'r', 'i', 'p', '_', 't', 'e', 'x', 't'] {
        Some(TargetV::StripText(pre))
    } else if rest =~= seq!['s', 'r', 'c'] {
        Some(TargetV::Attr(pre, seq!['s', 'r', 'c']))
    } else if rest =~= seq!['h', 'r', 'e', 'f'] {
        Some(TargetV::Attr(pre, seq!['h', 'r', 'e', 'f']))
    } else if rest.len() >= 5 && rest.take(5) =~= seq!['a', 't', 't', 'r', '='] {
        Some(TargetV::Attr(pre, rest.skip(5)))
    } else {
        None
    }
}

/// ASCII lowercasing of a character vector.
pub(crate) fn lower_chars(v: &Vec<char>) -> (r: Vec<char>)
    ensures
        r@ == v@.map_values(|c: char| spec_lower_char(c)),
{
    let n = v.len();
    let mut lc: Vec<char> = Vec::new();
    let mut i: usize = 0;
    while i < n
        invariant
            0 <= i <= n,
            n == v@.len(),
            lc@ =~= v@.take(i as int).map_values(|c: char| spec_lower_char(c)),
        decreases n - i,
    {
        lc.push(lower_char(v[i]));
        proof {
            assert(lc@ =~= v@.take(i + 1 as int).map_values(|c: char| spec_lower_char(c)));
        }
        i = i + 1;
    }
    proof {
        assert(v@.take(n as int) =~= v@);
    }
    lc
}

/// Whether the characters of `v` from `a` on are exactly `kw`.
#[verifier::loop_isolation(false)]
fn tail_eq(v: &Vec<char>, a: usize, kw: &Vec<char>) -> (r: bool)
    requires
        a <= v@.len(),
    ensures
        r == (v@.skip(a as int) =~= kw@),
{
    let m = v.len();
    if m - a != kw.len() {
        return false;
    }
    let n = kw.len();
    let mut i: usize = 0;
    while i < n
        invariant
            0 <= i <= n,
            forall|j: int| 0 <= j < i ==> v@[a + j] == kw@[j],
        decreases n - i,
    {
        if v[a + i] != kw[i] {
            return false;
        }
        i = i + 1;
    }
    proof {
        assert(v@.skip(a as int) =~= kw@);
    }
    true
}

/// Decodes a target code, or reports it unrecognized.
#[verifier::loop_isolation(false)]
#[verifier::rlimit(100)]
fn parse_target(code: &Vec<char>) -> (r: Result<Target, ()>)
    ensures
        r matches Ok(t) ==> spec_parse_target(code@) == Some(t@),
        r is Err ==> spec_parse_target(code@) is None,
{
    let n = code.len();
    let mut lc: Vec<char> = Vec::new();
    let mut i: usize = 0;
    while i < n
        invariant
            0 <= i <= n,
            n == code@.len(),
            lc@ =~= code@.take(i as int).map_values(|c: char| spec_lower_char(c)),
        decreases n - i,
    {
        lc.push(lower_char(code[i]));
        proof {
            assert(lc@ =~= code@.take(i + 1 as int).map_values(|c: char| spec_lower_char(c)));
        }
        i = i + 1;
    }
    proof {
        assert(code@.take(n as int) =~= code@);
    }
    let ghost lcs = code@.map_values(|c: char| spec_lower_char(c));
    assert(lc@ =~= lcs);

    // Split the multiplicity marker off.
    let mut pre = Prefix::First;
    let mut a: usize = 0;
    if n > 0 && lc[0] == '@' {
        pre = Prefix::All;
        a = 1;
    } else if n > 0 && is_digit(lc[0]) {
        let mut e: usize = 0;
        while e < n && is_digit(lc[e])
            invariant
                0 <= e <= n,
                n == lc@.len(),
                forall|j: int| 0 <= j < e ==> is_digit_char(#[trigger] lc@[j]),
            decreases n - e,
        {
            e = e + 1;
        }
        proof {
            lemma_digits_end_is(lcs, 0, e as int);
        }
        let mut k: usize = 0;
        let mut overflow = false;
        let mut d: usize = 0;
        while d < e
            invariant
                0 <= d <= e <= n,
                n == lc@.len(),
                forall|j: int| 0 <= j < e ==> is_digit_char(#[trigger] lc@[j]),
                !overflow ==> k == num_val(lcs.take(d as int)),
                overflow ==> num_val(lcs.take(d as int)) > usize::MAX,
            decreases e - d,
        {
            proof {
                assert(lcs.take(d + 1 as int).drop_last() =~= lcs.take(d as int));
                lemma_num_val_nonneg(lcs.take(d as int));
            }
            if !overflow {
                let dv = exec_digit_val(lc[d]);
                match k.checked_mul(10) {
                    Some(k10) => {
                        match k10.checked_add(dv) {
                            Some(k11) => {
                                k = k11;
                            },
                            None => {
                                overflow = true;
                            },
                        }
                    },
                    None => {
                        overflow = true;
                    },
                }
            } else {
                proof {
                    lemma_num_val_prefix_le(lcs, d as int, d + 1 as int);
                }
            }
            d = d + 1;
        }
        if !overflow && e < n {
            pre = Prefix::Num(k);
            a = e;
        } else {
            pre = Prefix::First;
            a = 0;
        }
    }
    proof {
        assert(pre == spec_split_prefix(lcs).0);
        assert(lc@.skip(a as int) =~= spec_split_prefix(lcs).1);
    }

    // Decode the extraction kind.
    let kw_html: Vec<char> = vec!['h', 't', 'm', 'l'];
    let kw_text: Vec<char> = vec!['t', 'e', 'x', 't'];
    let kw_strip: Vec<char> = vec!['s', 't', 'r', 'i', 'p', '_', 't', 'e', 'x', 't'];
    let kw_src: Vec<char> = vec!['s', 'r', 'c'];
    let kw_href: Vec<char> = vec!['h', 'r', 'e', 'f'];
    if tail_eq(&lc, a, &kw_html) {
        Ok(Target::Html(pre))
    } else if tail_eq(&lc, a, &kw_text) {
        Ok(Target::Text(pre))
    } else if tail_eq(&lc, a, &kw_strip) {
        Ok(Target::StripText(pre))
    } else if tail_eq(&lc, a, &kw_src) {
        let name = crate::text::string_from_chars(&kw_src);
        Ok(Target::Attr(pre, name))
    } else if tail_eq(&lc, a, &kw_href) {
        let name = crate::text::string_from_chars(&kw_href);
        Ok(Target::Attr(pre, name))
    } else if n - a >= 5 && lc[a] == 'a' && lc[a + 1] == 't' && lc[a + 2] == 't' && lc[a + 3] == 'r'
        && lc[a + 4] == '=' {
        let name = crate::text::string_of_range(&lc, a + 5, n);
        proof {
            assert(spec_split_prefix(lcs).1.skip(5) =~= lc@.subrange(a + 5 as int, n as int));
            assert(spec_split_prefix(lcs).1.take(5) =~= seq!['a', 't', 't', 'r', '=']);
        }
        Ok(Target::Attr(pre, name))
    } else {
        proof {
            let rest = spec_split_prefix(lcs).1;
            if rest.len() >= 5 && rest.take(5) =~= seq!['a', 't', 't', 'r', '='] {
                assert(rest[0] == lc@[a as int]);
                assert(rest[1] == lc@[a + 1]);
                assert(rest[2] == lc@[a + 2]);
                assert(rest[3] == lc@[a + 3]);
                assert(rest[4] == lc@[a + 4]);
                assert(false);
            }
        }
        Err(())
    }
}

/// A word character: a letter, a digit or an underscore (the characters a
/// field's name may hold).
pub open spec fn is_word_char(c: char) -> bool {
    ||| is_digit_char(c)
    ||| (97 <= c as u32 && c as u32 <= 122)  // 'a' to 'z'
    ||| (65 <= c as u32 && c as u32 <= 90)  // 'A' to 'Z'
    ||| c == '_'
}

fn exec_is_word_char(c: char) -> (r: bool)
    ensures
        r == is_word_char(c),
{
    let u = c as u32;
    is_digit(c) || (97 <= u && u <= 122) || (65 <= u && u <= 90) || c == '_'
}

/// A character a target code may hold: a word character, `@`, `=` or `-`.
pub open spec fn is_target_char(c: char) -> bool {
    is_word_char(c) || c == '@' || c == '=' || c == '-'
}

fn exec_is_target_char(c: char) -> (r: bool)
    ensures
        r == is_target_char(c),
{
    exec_is_word_char(c) || c == '@' || c == '=' || c == '-'
}

/// The end of the run of word characters that starts at `i`.
pub open spec fn word_end(s: Seq<char>, i: int) -> int
    decreases s.len() - i,
{
    if 0 <= i < s.len() && is_word_char(s[i]) {
        word_end(s, i + 1)
    } else {
        i
    }
}

proof fn lemma_word_end_is(s: Seq<char>, i: int, e: int)
    requires
        0 <= i <= e <= s.len(),
        forall|j: int| i <= j < e ==> is_word_char(#[trigger] s[j]),
        e < s.len() ==> !is_word_char(s[e]),
    ensures
        word_end(s, i) == e,
    decreases e - i,
{
    if i < e {
        lemma_word_end_is(s, i + 1, e);
    }
}

/// The end of the run of target-code characters that starts at `i`.
pub open spec fn target_end(s: Seq<char>, i: int) -> int
    decreases s.len() - i,
{
    if 0 <= i < s.len() && is_target_char(s[i]) {
        target_end(s, i + 1)
    } else {
        i
    }
}

proof fn lemma_target_end_is(s: Seq<char>, i: int, e: int)
    requires
        0 <= i <= e <= s.len(),
        forall|j: int| i <= j < e ==> is_target_char(#[trigger] s[j]),
        e < s.len() ==> !is_target_char(s[e]),
    ensures
        target_end(s, i) == e,
    decreases e - i,
{
    if i < e {
        lemma_target_end_is(s, i + 1, e);
    }
}

/// The index of the first newline at or after `i`, or the length when there
/// is none.
pub open spec fn first_nl(s: Seq<char>, i: int) -> int
    decreases s.len() - i,
{
    if 0 <= i < s.len() && s[i] != '\n' {
        first_nl(s, i + 1)
    } else {
        i
    }
}

pub(crate) proof fn lemma_first_nl_is(s: Seq<char>, i: int, e: int)
    requires
        0 <= i <= e <= s.len(),
        forall|j: int| i <= j < e ==> #[trigger] s[j] != '\n',
        e < s.len() ==> s[e] == '\n',
    ensures
        first_nl(s, i) == e,
    decreases e - i,
{
    if i < e {
        lemma_first_nl_is(s, i + 1, e);
    }
}

/// The lines of a text: the runs between newline characters (a trailing
/// newline yields a final empty line).
pub open spec fn spec_split_lines(s: Seq<char>) -> Seq<Seq<char>>
    decreases s.len(),
{
    let d = first_nl(s, 0);
    if 0 <= d < s.len() {
        seq![s.take(d)] + spec_split_lines(s.skip(d + 1))
    } else {
        seq![s]
    }
}

/// The three parts of a well-shaped field-definition line: the name, the
/// target code and the selector text. A line of any other shape is commentary.
pub open spec fn spec_split_line(line: Seq<char>) -> Option<(Seq<char>, Seq<char>, Seq<char>)> {
    let i1 = word_end(line, 0);
    let i2 = target_end(line, i1 + 1);
    if i1 == 0 || i1 >= line.len() || line[i1] != '[' {
        None
    } else if i2 == i1 + 1 || i2 >= line.len() || line[i2] != ']' {
        None
    } else if i2 + 1 >= line.len() || !is_whitespace_char(line[i2 + 1]) {
        None
    } else if i2 + 2 >= line.len() {
        None
    } else {
        Some((line.take(i1), line.subrange(i1 + 1, i2), line.skip(i2 + 2)))
    }
}

/// The mathematical value of a field descriptor: its name, its decoded
/// target, and its selector text.
pub struct FieldV {
    pub name: Seq<char>,
    pub target: TargetV,
    pub selector: Seq<char>,
}

/// A named extraction rule: a target specification composed with a compiled
/// selector chain. Built once at service-load time, reused for every request.
#[derive(Debug)]
pub struct Field {
    name: String,
    target: Target,
    selector: SelectorNode,
}

impl Field {
    /// Every field holds a selector chain whose text the external selector
    /// engine accepts.
    #[verifier::type_invariant]
    pub closed spec fn wf(self) -> bool {
        valid_selector(spec_describe(self.selector))
    }

    /// The field's name.
    pub fn name(&self) -> (r: &String)
        ensures
            r@ == self@.name,
    {
        &self.name
    }

    /// The field's decoded target.
    pub fn target(&self) -> (r: &Target)
        ensures
            r@ == self@.target,
    {
        &self.target
    }

    /// The field's selector chain.
    pub fn selector(&self) -> (r: &SelectorNode)
        ensures
            spec_describe(*r) == self@.selector,
    {
        &self.selector
    }
}

impl View for Field {
    type V = FieldV;

    closed spec fn view(&self) -> FieldV {
        FieldV { name: self.name@, target: self.target@, selector: spec_describe(self.selector) }
    }
}

/// What one configuration line yields.
pub enum LineOutcome {
    /// The line is not a field definition and is skipped.
    Skip,
    /// The line names a target code that no rule recognizes.
    BadTarget,
    /// The line's selector text is refused, by the chain grammar or by the
    /// external selector engine.
    BadSelector,
    /// The line defines this field.
    Item(FieldV),
}

/// What a well-shaped line decodes to: a field when both the target code and
/// the selector are recognized; the errors otherwise.
pub open spec fn line_outcome(line: Seq<char>) -> LineOutcome {
    match spec_split_line(line) {
        Option::None => LineOutcome::Skip,
        Option::Some((name, code, sel)) => match spec_parse_target(code) {
            Option::None => LineOutcome::BadTarget,
            Option::Some(t) => {
                if valid_selector(sel) && (exists|n: SelectorNode| parses_to(sel, n)) {
                    LineOutcome::Item(FieldV { name, target: t, selector: sel })
                } else {
                    LineOutcome::BadSelector
                }
            },
        },
    }
}

/// What a sequence of configuration lines yields: the fields of its
/// well-formed lines in order, unless some line is in error - the first
/// erroneous line decides.
pub open spec fn fields_outcome(lines: Seq<Seq<char>>) -> Result<Seq<FieldV>, LineOutcome>
    decreases lines.len(),
{
    if lines.len() == 0 {
        Ok(Seq::empty())
    } else {
        match line_outcome(lines[0]) {
            LineOutcome::Skip => fields_outcome(lines.drop_first()),
            LineOutcome::BadTarget => Err(LineOutcome::BadTarget),
            LineOutcome::BadSelector => Err(LineOutcome::BadSelector),
            LineOutcome::Item(f) => match fields_outcome(lines.drop_first()) {
                Ok(rest) => Ok(seq![f] + rest),
                Err(e) => Err(e),
            },
        }
    }
}

/// The characters of `v` from `a` (inclusive) to `b` (exclusive).
fn vec_of_range(v: &Vec<char>, a: usize, b: usize) -> (r: Vec<char>)
    requires
        a <= b <= v@.len(),
    ensures
        r@ == v@.subrange(a as int, b as int),
{
    let mut r: Vec<char> = Vec::new();
    let mut i: usize = a;
    while i < b
        invariant
            a <= i <= b <= v@.len(),
            r@ == v@.subrange(a as int, i as int),
        decreases b - i,
    {
        r.push(v[i]);
        proof {
            assert(r@ =~= v@.subrange(a as int, i + 1 as int));
        }
        i = i + 1;
    }
    r
}

enum LineParse {
    Skip,
    BadTarget(String),
    BadSelector,
    Item(Field),
}

/// Decodes the configuration line `v[a..b]`.
#[verifier::loop_isolation(false)]
#[verifier::rlimit(100)]
fn parse_line(v: &Vec<char>, a: usize, b: usize) -> (r: LineParse)
    requires
        a <= b <= v@.len(),
    ensures
        (match r {
            LineParse::Skip => line_outcome(v@.subrange(a as int, b as int)) is Skip,
            LineParse::BadTarget(_) => line_outcome(v@.subrange(a as int, b as int)) is BadTarget,
            LineParse::BadSelector => line_outcome(v@.subrange(a as int, b as int)) is BadSelector,
            LineParse::Item(f) => line_outcome(v@.subrange(a as int, b as int)) == (
            LineOutcome::Item(f@)),
        }),
{
    let ghost line = v@.subrange(a as int, b as int);
    // The name: a nonempty run of word characters, then `[`.
    let mut i1: usize = a;
    while i1 < b && exec_is_word_char(v[i1])
        invariant
            a <= i1 <= b,
            forall|j: int| a <= j < i1 ==> is_word_char(#[trigger] v@[j]),
        decreases b - i1,
    {
        i1 = i1 + 1;
    }
    proof {
        assert forall|j: int| 0 <= j < i1 - a implies is_word_char(#[trigger] line[j]) by {
            assert(line[j] == v@[a + j]);
        }
        if i1 < b {
            assert(line[i1 - a] == v@[i1 as int]);
        }
        lemma_word_end_is(line, 0, i1 - a);
    }
    if i1 == a || i1 == b {
        return LineParse::Skip;
    }
    if v[i1] != '[' {
        return LineParse::Skip;
    }
    // The target code: a nonempty run of target characters, then `]`.
    let mut i2: usize = i1 + 1;
    while i2 < b && exec_is_target_char(v[i2])
        invariant
            i1 + 1 <= i2 <= b,
            forall|j: int| i1 + 1 <= j < i2 ==> is_target_char(#[trigger] v@[j]),
        decreases b - i2,
    {
        i2 = i2 + 1;
    }
    proof {
        assert forall|j: int| i1 + 1 - a <= j < i2 - a implies is_target_char(
            #[trigger] line[j],
        ) by {
            assert(line[j] == v@[a + j]);
        }
        if i2 < b {
            assert(line[i2 - a] == v@[i2 as int]);
        }
        lemma_target_end_is(line, i1 + 1 - a, i2 - a);
    }
    if i2 == i1 + 1 || i2 == b {
        return LineParse::Skip;
    }
    if v[i2] != ']' {
        return LineParse::Skip;
    }
    // One whitespace character, then a nonempty selector text.
    if b - i2 < 2 {
        return LineParse::Skip;
    }
    proof {
        assert(line[i2 + 1 - a] == v@[i2 + 1]);
    }
    if !is_whitespace(v[i2 + 1]) {
        return LineParse::Skip;
    }
    if b - i2 < 3 {
        return LineParse::Skip;
    }
    // The three parts.
    let code = vec_of_range(v, i1 + 1, i2);
    proof {
        assert(code@ =~= line.subrange(i1 + 1 - a, i2 - a));
    }
    let target = match parse_target(&code) {
        Ok(t) => t,
        Err(_) => {
            return LineParse::BadTarget(string_from_chars(&code));
        },
    };
    let sel_text = string_of_range(v, i2 + 2, b);
    proof {
        assert(sel_text@ =~= line.skip(i2 + 2 - a));
    }
    let chain = match parse_selector(sel_text.as_str()) {
        Ok(c) => c,
        Err(_) => {
            return LineParse::BadSelector;
        },
    };
    if !crate::dom::selector_is_valid(sel_text.as_str()) {
        return LineParse::BadSelector;
    }
    let name = string_of_range(v, a, i1);
    proof {
        assert(name@ =~= line.take(i1 - a));
        lemma_describe_inverts_parse(sel_text@, chain);
    }
    LineParse::Item(Field { name, target, selector: chain })
}

impl Field {
    /// Parses a field-definition block, one field per well-shaped line.
    ///
    /// Lines that do not have the shape `name[target] selector` are
    /// commentary and are skipped. A well-shaped line with an unrecognized
    /// target code is a configuration error naming the code; one whose
    /// selector is refused is a grammar error. The first erroneous line
    /// decides.
    #[verifier::loop_isolation(false)]
    #[verifier::rlimit(100)]
    pub fn parse(text: &str) -> (r: Result<Vec<Field>, ScrapeError>)
        ensures
            r matches Ok(fields) ==> fields_outcome(spec_split_lines(text@)) == Ok::<
                Seq<FieldV>,
                LineOutcome,
            >(fields@.map_values(|f: Field| f@)),
            r matches Err(e) ==> {
                &&& fields_outcome(spec_split_lines(text@)) is Err
                &&& (fields_outcome(spec_split_lines(text@)) == Err::<Seq<FieldV>, LineOutcome>(
                    LineOutcome::BadTarget,
                ) <==> e.kind == ErrorKind::Configuration)
                &&& (fields_outcome(spec_split_lines(text@)) == Err::<Seq<FieldV>, LineOutcome>(
                    LineOutcome::BadSelector,
                ) <==> e.kind == ErrorKind::Grammar)
            },
    {
        let v = chars_of(text);
        let n = v.len();
        let mut fields: Vec<Field> = Vec::new();
        let mut start: usize = 0;
        let mut done = false;
        proof {
            assert(v@.skip(0) =~= text@);
            assert(fields@.map_values(|ff: Field| ff@) =~= Seq::<FieldV>::empty());
            let fo = fields_outcome(spec_split_lines(text@));
            if fo is Ok {
                assert(fields@.map_values(|ff: Field| ff@) + fo->Ok_0 =~= fo->Ok_0);
            }
        }
        while !done
            invariant
                0 <= start <= n,
                !done ==> fields_outcome(spec_split_lines(text@)) == (match fields_outcome(
                    spec_split_lines(v@.skip(start as int)),
                ) {
                    Ok(rest) => Ok::<Seq<FieldV>, LineOutcome>(
                        fields@.map_values(|f: Field| f@) + rest,
                    ),
                    Err(e) => Err::<Seq<FieldV>, LineOutcome>(e),
                }),
                done ==> fields_outcome(spec_split_lines(text@)) == Ok::<Seq<FieldV>, LineOutcome>(
                    fields@.map_values(|f: Field| f@),
                ),
            decreases n - start, (if done { 0int } else { 1int }),
        {
            let ghost tail = v@.skip(start as int);
            // The end of this line.
            let mut d: usize = start;
            while d < n && v[d] != '\n'
                invariant
                    start <= d <= n,
                    forall|j: int| start <= j < d ==> #[trigger] v@[j] != '\n',
                decreases n - d,
            {
                d = d + 1;
            }
            proof {
                assert forall|j: int| 0 <= j < d - start implies #[trigger] tail[j] != '\n' by {
                    assert(tail[j] == v@[start + j]);
                }
                if d < n {
                    assert(tail[d - start] == v@[d as int]);
                }
                lemma_first_nl_is(tail, 0, d - start);
                assert(tail.take(d - start) =~= v@.subrange(start as int, d as int));
            }
            let outcome = parse_line(&v, start, d);
            let ghost lines = spec_split_lines(tail);
            proof {
                if d < n {
                    assert(lines == seq![tail.take(d - start)] + spec_split_lines(
                        tail.skip(d - start + 1),
                    ));
                    assert(lines[0] == v@.subrange(start as int, d as int));
                    assert(lines.drop_first() =~= spec_split_lines(v@.skip(d + 1 as int))) by {
                        assert(tail.skip(d - start + 1) =~= v@.skip(d + 1 as int));
                    }
                } else {
                    assert(lines == seq![tail]);
                    assert(lines[0] == v@.subrange(start as int, d as int));
                    assert(lines.drop_first() =~= Seq::<Seq<char>>::empty());
                }
            }
            match outcome {
                LineParse::Skip => {
                    proof {
                        assert(fields_outcome(lines) == fields_outcome(lines.drop_first()));
                    }
                },
                LineParse::BadTarget(code) => {
                    proof {
                        assert(fields_outcome(lines) == Err::<Seq<FieldV>, LineOutcome>(
                            LineOutcome::BadTarget,
                        ));
                    }
                    let msg = String::from_str("invalid target: ").concat(code.as_str());
                    return Err(ScrapeError::configuration_error(msg.as_str()));
                },
                LineParse::BadSelector => {
                    proof {
                        assert(fields_outcome(lines) == Err::<Seq<FieldV>, LineOutcome>(
                            LineOutcome::BadSelector,
                        ));
                    }
                    return Err(ScrapeError::grammar_error("invalid selector"));
                },
                LineParse::Item(f) => {
                    let ghost before = fields@;
                    let ghost fv = f@;
                    fields.push(f);
                    proof {
                        assert(fields@.map_values(|ff: Field| ff@) =~= before.map_values(
                            |ff: Field| ff@,
                        ) + seq![fv]);
                        let fo = fields_outcome(lines.drop_first());
                        if fo is Ok {
                            let rest = fo->Ok_0;
                            assert((before.map_values(|ff: Field| ff@) + seq![fv]) + rest
                                =~= before.map_values(|ff: Field| ff@) + (seq![fv] + rest));
                        }
                    }
                },
            }
            if d == n {
                proof {
                    assert(lines.drop_first() =~= Seq::<Seq<char>>::empty());
                    assert(fields_outcome(lines.drop_first()) == Ok::<Seq<FieldV>, LineOutcome>(
                        Seq::empty(),
                    ));
                    assert(fields@.map_values(|ff: Field| ff@) + Seq::<FieldV>::empty()
                        =~= fields@.map_values(|ff: Field| ff@));
                }
                done = true;
            } else {
                start = d + 1;
            }
        }
        Ok(fields)
    }
}

/// What evaluating one extraction rule against a document yields: a value, a
/// permitted absence, or a shortfall of matches.
pub enum EvalV {
    /// The extracted value (plain for the first-only multiplicity, a JSON
    /// array for the others).
    Val(Seq<char>),
    /// No node matched and the multiplicity takes the first match only: the
    /// field is absent, which is not an error.
    Missing,
    /// Fewer nodes matched than the multiplicity demands.
    Insufficient,
}

/// The multiplicity of a target.
pub open spec fn prefix_of(t: TargetV) -> Prefix {
    match t {
        TargetV::Html(p) => p,
        TargetV::Text(p) => p,
        TargetV::StripText(p) => p,
        TargetV::Attr(p, _) => p,
    }
}

/// The value a target pulls out of each matched element, in document order:
/// markup, raw text, stripped-and-trimmed text, or an attribute (the empty
/// string where the element lacks it).
pub open spec fn extracted(t: TargetV, doc: Seq<char>, sel: Seq<char>) -> Seq<Seq<char>> {
    match t {
        TargetV::Html(_) => html_matches(doc, sel),
        TargetV::Text(_) => text_matches(doc, sel),
        TargetV::StripText(_) => text_matches(doc, sel).map_values(
            |s: Seq<char>| crate::text::spec_trim(crate::text::spec_clean(s)),
        ),
        TargetV::Attr(_, name) => attr_matches(doc, sel, name).map_values(
            |o: Option<Seq<char>>|
                match o {
                    Option::Some(s) => s,
                    Option::None => Seq::<char>::empty(),
                },
        ),
    }
}

/// How a multiplicity folds the extracted values into one result.
pub open spec fn spec_apply(p: Prefix, vals: Seq<Seq<char>>) -> EvalV {
    match p {
        Prefix::First => if vals.len() == 0 {
            EvalV::Missing
        } else {
            EvalV::Val(vals[0])
        },
        Prefix::All => EvalV::Val(json_string_array(vals)),
        Prefix::Num(k) => if vals.len() < k {
            EvalV::Insufficient
        } else {
            EvalV::Val(json_string_array(vals.take(k as int)))
        },
    }
}

/// What evaluating a field against a document yields.
pub open spec fn spec_eval(t: TargetV, doc: Seq<char>, sel: Seq<char>) -> EvalV {
    spec_apply(prefix_of(t), extracted(t, doc, sel))
}

/// Folds extracted values per the multiplicity: the first value alone (absent
/// when nothing matched), all values as a JSON array, or the first `k` as a
/// JSON array - a shortfall is an extraction error.
fn apply_prefix(vals: Vec<String>, p: Prefix) -> (r: Result<Option<String>, ScrapeError>)
    ensures
        r matches Ok(o) ==> (match o {
            Option::Some(s) => spec_apply(p, vals.deep_view()) == EvalV::Val(s@),
            Option::None => spec_apply(p, vals.deep_view()) is Missing,
        }),
        r matches Err(e) ==> spec_apply(p, vals.deep_view()) is Insufficient && e.kind
            == ErrorKind::Extraction,
{
    match p {
        Prefix::First => {
            if vals.len() == 0 {
                Ok(None)
            } else {
                let s = vals[0].clone();
                proof {
                    assert(vals.deep_view()[0] == vals@[0]@);
                }
                Ok(Some(s))
            }
        },
        Prefix::All => Ok(Some(crate::codec::encode_string_array(&vals))),
        Prefix::Num(k) => {
            if vals.len() < k {
                Err(ScrapeError::extraction_error("not enough nodes matched"))
            } else {
                let mut vals = vals;
                let ghost whole = vals.deep_view();
                vals.truncate(k);
                proof {
                    assert(vals.deep_view() =~= whole.take(k as int));
                }
                Ok(Some(crate::codec::encode_string_array(&vals)))
            }
        },
    }
}

impl Field {
    /// Evaluates the rule against a document: runs the selector, extracts the
    /// target from each matched element, and folds the values per the
    /// multiplicity. The field is absent (`None`) exactly when the
    /// multiplicity takes the first match only and nothing matched; a
    /// shortfall under a counted multiplicity is an extraction error.
    pub fn get(&self, html: &str) -> (r: Result<Option<String>, ScrapeError>)
        ensures
            r matches Ok(o) ==> (match o {
                Option::Some(s) => spec_eval(self@.target, html@, self@.selector) == EvalV::Val(
                    s@,
                ),
                Option::None => spec_eval(self@.target, html@, self@.selector) is Missing,
            }),
            r matches Err(e) ==> spec_eval(self@.target, html@, self@.selector) is Insufficient
                && e.kind == ErrorKind::Extraction,
    {
        proof {
            use_type_invariant(self);
        }
        let sel = self.selector.describe();
        match &self.target {
            Target::Html(p) => {
                let vals = crate::dom::select_html(html, sel.as_str());
                apply_prefix(vals, *p)
            },
            Target::Text(p) => {
                let vals = crate::dom::select_text(html, sel.as_str());
                apply_prefix(vals, *p)
            },
            Target::StripText(p) => {
                let raw = crate::dom::select_text(html, sel.as_str());
                let ghost rawv = raw.deep_view();
                let n = raw.len();
                let mut vals: Vec<String> = Vec::new();
                let mut i: usize = 0;
                while i < n
                    invariant
                        0 <= i <= n,
                        n == raw@.len(),
                        rawv == raw.deep_view(),
                        vals@.len() == i,
                        forall|j: int|
                            0 <= j < i ==> #[trigger] vals@[j]@ == crate::text::spec_trim(
                                crate::text::spec_clean(rawv[j]),
                            ),
                    decreases n - i,
                {
                    proof {
                        assert(rawv[i as int] == raw@[i as int]@);
                    }
                    let cleaned = crate::text::clean_text(raw[i].clone());
                    let trimmed = crate::text::trim_str(cleaned.as_str());
                    vals.push(trimmed);
                    i = i + 1;
                }
                proof {
                    let f = |s: Seq<char>| crate::text::spec_trim(crate::text::spec_clean(s));
                    assert forall|j: int| 0 <= j < n implies vals.deep_view()[j] == rawv.map_values(
                        f,
                    )[j] by {
                        assert(vals.deep_view()[j] == vals@[j]@);
                    }
                    assert(vals.deep_view() =~~= rawv.map_values(f));
                }
                apply_prefix(vals, *p)
            },
            Target::Attr(p, name) => {
                let raw = crate::dom::select_attr(html, sel.as_str(), name.as_str());
                let ghost rawv = raw.deep_view();
                let n = raw.len();
                let mut vals: Vec<String> = Vec::new();
                let mut i: usize = 0;
                while i < n
                    invariant
                        0 <= i <= n,
                        n == raw@.len(),
                        rawv == raw.deep_view(),
                        vals@.len() == i,
                        forall|j: int|
                            0 <= j < i ==> #[trigger] vals@[j]@ == (match rawv[j] {
                                Option::Some(s) => s,
                                Option::None => Seq::<char>::empty(),
                            }),
                    decreases n - i,
                {
                    proof {
                        assert(rawv[i as int] == raw@[i as int].deep_view());
                    }
                    let value = match &raw[i] {
                        Some(s) => s.clone(),
                        None => String::new(),
                    };
                    vals.push(value);
                    i = i + 1;
                }
                proof {
                    let f = |o: Option<Seq<char>>|
                        match o {
                            Option::Some(s) => s,
                            Option::None => Seq::<char>::empty(),
                        };
                    assert forall|j: int| 0 <= j < n implies vals.deep_view()[j] == rawv.map_values(
                        f,
                    )[j] by {
                        assert(vals.deep_view()[j] == vals@[j]@);
                    }
                    assert(vals.deep_view() =~~= rawv.map_values(f));
                }
                apply_prefix(vals, *p)
            },
        }
    }
}

} // verus!
