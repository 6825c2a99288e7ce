//! The reconciliation engine: canonical episode numbers for scraped chapter
//! listings.
//!
//! Episode numbers are carried in hundredths (`1025` is episode `10.25`),
//! since two decimal digits are the comparison granularity of the whole
//! engine: entries whose numbers agree to the hundredth are duplicates. The
//! value `0` means "no number could be parsed for this entry".

use vstd::prelude::*;

use crate::error::ErrorKind;
use crate::error::ScrapeError;
use crate::field::digit_val;
use crate::field::digits_end;
use crate::field::is_digit_char;
use crate::field::num_val;
use crate::field::spec_lower_char;
use crate::text::chars_of;
use crate::text::is_whitespace;
use crate::text::is_whitespace_char;

verus! {

/// The largest episode number the engine carries, in hundredths.
pub const EPISODE_CENTI_MAX: u64 = 0xFFFF_FFFF_FFFF;

/// One scraped chapter/episode entry: where it lives, how it is titled, and
/// its episode number in hundredths (`0` when none could be parsed).
#[derive(Debug)]
pub struct Info {
    pub site: String,
    pub url: String,
    pub titles: Vec<String>,
    pub episode: u64,
    pub account: Option<i64>,
}

/// The mathematical value of an entry.
pub struct InfoV {
    pub site: Seq<char>,
    pub url: Seq<char>,
    pub titles: Seq<Seq<char>>,
    pub episode: u64,
    pub account: Option<i64>,
}

impl View for Info {
    type V = InfoV;

    open spec fn view(&self) -> InfoV {
        InfoV {
            site: self.site@,
            url: self.url@,
            titles: self.titles.deep_view(),
            episode: self.episode,
            account: self.account,
        }
    }
}

impl Info {
    /// Appends a title to the entry when one is given.
    pub fn add_title(self, title: &Option<String>) -> (r: Info)
        ensures
            r.site@ == self.site@,
            r.url@ == self.url@,
            r.episode == self.episode,
            r.account == self.account,
            match title {
                Option::Some(t) => r.titles.deep_view() == self.titles.deep_view() + seq![t@],
                Option::None => r.titles.deep_view() == self.titles.deep_view(),
            },
    {
        let mut this = self;
        match title {
            Some(t) => {
                let ghost before = this.titles.deep_view();
                this.titles.push(t.clone());
                proof {
                    assert(this.titles.deep_view() =~~= before + seq![t@]);
                }
            },
            None => {},
        }
        this
    }
}

/// The end of the run of white-space characters that starts at `i`.
pub open spec fn ws_end(s: Seq<char>, i: int) -> int
    decreases s.len() - i,
{
    if 0 <= i < s.len() && is_whitespace_char(s[i]) {
        ws_end(s, i + 1)
    } else {
        i
    }
}

proof fn lemma_ws_end_is(s: Seq<char>, i: int, e: int)
    requires
        0 <= i <= e <= s.len(),
        forall|j: int| i <= j < e ==> is_whitespace_char(#[trigger] s[j]),
        e < s.len() ==> !is_whitespace_char(s[e]),
    ensures
        ws_end(s, i) == e,
    decreases e - i,
{
    if i < e {
        lemma_ws_end_is(s, i + 1, e);
    }
}

/// Where the number token that starts at the digit `d0` ends: the maximal
/// digit run, extended by `.` and a second maximal digit run when a fraction
/// follows.
pub open spec fn number_end(s: Seq<char>, d0: int) -> int {
    let d1 = digits_end(s, d0);
    if d1 + 1 < s.len() && s[d1] == '.' && is_digit_char(s[d1 + 1]) {
        digits_end(s, d1 + 1)
    } else {
        d1
    }
}

/// The value, in hundredths, of the number token that starts at the digit
/// `d0`: the integer part times one hundred plus the first two fraction
/// digits (fraction digits past the second are truncated away).
pub open spec fn token_centi(s: Seq<char>, d0: int) -> int {
    let d1 = digits_end(s, d0);
    let frac = s.subrange(
        if number_end(s, d0) == d1 {
            d1
        } else {
            d1 + 1
        },
        number_end(s, d0),
    );
    num_val(s.subrange(d0, d1)) * 100 + (if frac.len() >= 1 {
        digit_val(frac[0]) * 10
    } else {
        0
    }) + (if frac.len() >= 2 {
        digit_val(frac[1])
    } else {
        0
    })
}

/// Whether the pattern `marker`, then white space (one or more characters,
/// when demanded), then a number, matches at position `i`.
pub open spec fn marker_match_at(s: Seq<char>, i: int, marker: Seq<char>, needs_ws: bool) -> bool {
    &&& 0 <= i
    &&& i + marker.len() <= s.len()
    &&& s.subrange(i, i + marker.len()) == marker
    &&& {
        let w = if needs_ws {
            ws_end(s, i + marker.len())
        } else {
            i + marker.len()
        };
        &&& (needs_ws ==> w > i + marker.len())
        &&& w < s.len()
        &&& is_digit_char(s[w])
    }
}

/// Where the number of a pattern match at `i` starts.
pub open spec fn digit_start(s: Seq<char>, i: int, marker: Seq<char>, needs_ws: bool) -> int {
    if needs_ws {
        ws_end(s, i + marker.len())
    } else {
        i + marker.len()
    }
}

/// The first position at or after `i` where the pattern matches.
pub open spec fn find_marker(s: Seq<char>, i: int, marker: Seq<char>, needs_ws: bool) -> Option<int>
    decreases s.len() - i,
{
    if i < 0 || i >= s.len() {
        Option::None
    } else if marker_match_at(s, i, marker, needs_ws) {
        Option::Some(i)
    } else {
        find_marker(s, i + 1, marker, needs_ws)
    }
}

proof fn lemma_find_marker_from(s: Seq<char>, i: int, e: int, marker: Seq<char>, needs_ws: bool)
    requires
        0 <= i <= e <= s.len(),
        forall|j: int| i <= j < e ==> !marker_match_at(s, j, marker, needs_ws),
    ensures
        find_marker(s, i, marker, needs_ws) == find_marker(s, e, marker, needs_ws),
    decreases e - i,
{
    if i < e {
        lemma_find_marker_from(s, i + 1, e, marker, needs_ws);
    }
}

/// The value, in hundredths, of the number of the first pattern match, when
/// the pattern matches at all.
pub open spec fn pattern_centi(s: Seq<char>, marker: Seq<char>, needs_ws: bool) -> Option<int> {
    match find_marker(s, 0, marker, needs_ws) {
        Option::Some(i) => Option::Some(token_centi(s, digit_start(s, i, marker, needs_ws))),
        Option::None => Option::None,
    }
}

/// Why an episode number could not be produced.
pub enum EpisodeErr {
    /// No pattern matched anywhere in the label.
    NoNumber,
    /// A pattern matched but its number exceeds what the engine carries.
    TooLarge,
}

/// What parsing an episode label yields: the patterns `chapter <number>` and
/// `ch. <number>` are tried on the lowercased label, then `第<number>` on the
/// label as written; the first that matches anywhere wins, earliest match
/// first.
pub open spec fn spec_parse_episode(s: Seq<char>) -> Result<int, EpisodeErr> {
    let lc = s.map_values(|c: char| spec_lower_char(c));
    let p1 = pattern_centi(lc, seq!['c', 'h', 'a', 'p', 't', 'e', 'r'], true);
    let p2 = pattern_centi(lc, seq!['c', 'h', '.'], true);
    let p3 = pattern_centi(s, seq!['\u{7B2C}'], false);
    let picked = if p1 is Some {
        p1
    } else if p2 is Some {
        p2
    } else {
        p3
    };
    match picked {
        Option::Some(c) => if c <= EPISODE_CENTI_MAX {
            Ok(c)
        } else {
            Err(EpisodeErr::TooLarge)
        },
        Option::None => Err(EpisodeErr::NoNumber),
    }
}

/// Checks the pattern at position `i` and hands back where its number starts.
#[verifier::loop_isolation(false)]
fn match_at(v: &Vec<char>, i: usize, marker: &Vec<char>, needs_ws: bool) -> (r: Option<usize>)
    requires
        i <= v@.len(),
    ensures
        r is Some <==> marker_match_at(v@, i as int, marker@, needs_ws),
        r matches Some(d) ==> d == digit_start(v@, i as int, marker@, needs_ws),
{
    let n = v.len();
    let m = marker.len();
    if n - i < m {
        return None;
    }
    let mut j: usize = 0;
    while j < m
        invariant
            0 <= j <= m,
            forall|k: int| 0 <= k < j ==> v@[i + k] == marker@[k],
        decreases m - j,
    {
        if v[i + j] != marker[j] {
            proof {
                if v@.subrange(i as int, i + m) == marker@ {
                    assert(v@.subrange(i as int, i + m)[j as int] == marker@[j as int]);
                    assert(false);
                }
            }
            return None;
        }
        j = j + 1;
    }
    proof {
        assert(v@.subrange(i as int, i + m) =~= marker@);
    }
    let mut w = i + m;
    if needs_ws {
        while w < n && is_whitespace(v[w])
            invariant
                i + m <= w <= n,
                forall|k: int| i + m <= k < w ==> is_whitespace_char(#[trigger] v@[k]),
            decreases n - w,
        {
            w = w + 1;
        }
        proof {
            lemma_ws_end_is(v@, i + m, w as int);
        }
        if w == i + m {
            return None;
        }
    }
    if w < n && crate::field::is_digit(v[w]) {
        Some(w)
    } else {
        None
    }
}

/// The start of the number of the first pattern match anywhere in `v`.
#[verifier::loop_isolation(false)]
fn find_pattern(v: &Vec<char>, marker: &Vec<char>, needs_ws: bool) -> (r: Option<usize>)
    ensures
        r is None ==> find_marker(v@, 0, marker@, needs_ws) is None,
        r matches Some(d) ==> {
            &&& find_marker(v@, 0, marker@, needs_ws) matches Some(i) && d == digit_start(
                v@,
                i,
                marker@,
                needs_ws,
            )
            &&& d < v@.len()
            &&& is_digit_char(v@[d as int])
        },
{
    let n = v.len();
    let mut i: usize = 0;
    while i < n
        invariant
            0 <= i <= n,
            forall|j: int| 0 <= j < i ==> !marker_match_at(v@, j, marker@, needs_ws),
        decreases n - i,
    {
        match match_at(v, i, marker, needs_ws) {
            Some(d) => {
                proof {
                    lemma_find_marker_from(v@, 0, i as int, marker@, needs_ws);
                }
                return Some(d);
            },
            None => {},
        }
        i = i + 1;
    }
    proof {
        lemma_find_marker_from(v@, 0, n as int, marker@, needs_ws);
    }
    None
}

/// The value, in hundredths, of the number token at the digit `d0`, or a
/// report that it exceeds what the engine carries.
#[verifier::loop_isolation(false)]
pub(crate) fn parse_token(v: &Vec<char>, d0: usize) -> (r: Result<u64, ()>)
    requires
        d0 < v@.len(),
        is_digit_char(v@[d0 as int]),
    ensures
        r matches Ok(c) ==> c == token_centi(v@, d0 as int) && c <= EPISODE_CENTI_MAX,
        r is Err ==> token_centi(v@, d0 as int) > EPISODE_CENTI_MAX,
{
    let n = v.len();
    // The integer part.
    let mut d1 = d0;
    while d1 < n && crate::field::is_digit(v[d1])
        invariant
            d0 <= d1 <= n,
            forall|j: int| d0 <= j < d1 ==> is_digit_char(#[trigger] v@[j]),
        decreases n - d1,
    {
        d1 = d1 + 1;
    }
    proof {
        crate::field::lemma_digits_end_is(v@, d0 as int, d1 as int);
    }
    let mut ip: u64 = 0;
    let mut over = false;
    let mut j = d0;
    while j < d1
        invariant
            d0 <= j <= d1 <= n,
            forall|k: int| d0 <= k < d1 ==> is_digit_char(#[trigger] v@[k]),
            !over ==> ip == num_val(v@.subrange(d0 as int, j as int)) && ip <= EPISODE_CENTI_MAX,
            over ==> num_val(v@.subrange(d0 as int, j as int)) > EPISODE_CENTI_MAX,
        decreases d1 - j,
    {
        proof {
            assert(v@.subrange(d0 as int, j + 1 as int).drop_last() =~= v@.subrange(
                d0 as int,
                j as int,
            ));
            crate::field::lemma_num_val_nonneg(v@.subrange(d0 as int, j as int));
        }
        if !over {
            let dv = crate::field::exec_digit_val(v[j]) as u64;
            let cand = ip * 10 + dv;
            if cand > EPISODE_CENTI_MAX {
                over = true;
            } else {
                ip = cand;
            }
        }
        j = j + 1;
    }
    if over {
        proof {
            let whole = v@.subrange(d0 as int, d1 as int);
            let nv = num_val(whole);
            crate::field::lemma_num_val_nonneg(whole);
            let e = number_end(v@, d0 as int);
            if e != d1 as int {
                crate::field::lemma_digits_end_bounds(v@, d1 + 1 as int);
            }
            assert(nv * 100 >= nv) by (nonlinear_arith)
                requires
                    nv >= 0,
            ;
            assert(token_centi(v@, d0 as int) >= nv * 100);
        }
        return Err(());
    }
    // The fraction.
    let mut f1: u64 = 0;
    let mut f2: u64 = 0;
    if n - d1 > 1 && v[d1] == '.' && crate::field::is_digit(v[d1 + 1]) {
        let mut d2 = d1 + 1;
        while d2 < n && crate::field::is_digit(v[d2])
            invariant
                d1 + 1 <= d2 <= n,
                forall|j2: int| d1 + 1 <= j2 < d2 ==> is_digit_char(#[trigger] v@[j2]),
            decreases n - d2,
        {
            d2 = d2 + 1;
        }
        proof {
            crate::field::lemma_digits_end_is(v@, d1 + 1 as int, d2 as int);
            let frac = v@.subrange(d1 + 1 as int, d2 as int);
            assert(frac[0] == v@[d1 + 1 as int]);
            if d2 > d1 + 2 {
                assert(frac[1] == v@[d1 + 2 as int]);
            }
        }
        f1 = crate::field::exec_digit_val(v[d1 + 1]) as u64;
        if d2 > d1 + 2 {
            f2 = crate::field::exec_digit_val(v[d1 + 2]) as u64;
        }
    }
    let centi = ip * 100 + f1 * 10 + f2;
    if centi > EPISODE_CENTI_MAX {
        Err(())
    } else {
        Ok(centi)
    }
}

/// The two error messages of episode parsing are distinct texts.
proof fn lemma_messages_differ()
    ensures
        !("episode number too large"@ == "couldnt find chapter number"@),
{
    reveal_strlit("episode number too large");
    reveal_strlit("couldnt find chapter number");
    assert("episode number too large"@.len() == 24);
    assert("couldnt find chapter number"@.len() == 27);
}

/// Maps a token to its episode value, with the too-large error.
fn token_result(v: &Vec<char>, d: usize) -> (r: Result<u64, ScrapeError>)
    requires
        d < v@.len(),
        is_digit_char(v@[d as int]),
    ensures
        r matches Ok(c) ==> c == token_centi(v@, d as int) && c <= EPISODE_CENTI_MAX,
        r matches Err(e) ==> {
            &&& token_centi(v@, d as int) > EPISODE_CENTI_MAX
            &&& e.kind == ErrorKind::Input
            &&& e.message@ == "episode number too large"@
        },
{
    match parse_token(v, d) {
        Ok(c) => Ok(c),
        Err(_) => Err(ScrapeError::input_error("episode number too large")),
    }
}

/// Parses the episode number of a chapter label, in hundredths.
///
/// The patterns `chapter <number>`, `ch. <number>` and `第<number>` are tried
/// in that order; the first that matches anywhere in the label wins. A label
/// that none matches is an input error, as is a number too large for the
/// engine.
pub fn parse_episode(s: &str) -> (r: Result<u64, ScrapeError>)
    ensures
        r matches Ok(c) ==> spec_parse_episode(s@) == Ok::<int, EpisodeErr>(c as int),
        r matches Err(e) ==> {
            &&& spec_parse_episode(s@) is Err
            &&& e.kind == ErrorKind::Input
            &&& (spec_parse_episode(s@) == Err::<int, EpisodeErr>(EpisodeErr::NoNumber) <==> (
            e.message@ == "couldnt find chapter number"@))
        },
{
    proof {
        reveal_strlit("episode number too large");
        reveal_strlit("couldnt find chapter number");
    }
    let v = chars_of(s);
    let lv = crate::field::lower_chars(&v);
    let ghost lc = s@.map_values(|c: char| spec_lower_char(c));
    proof {
        assert(lv@ == lc);
    }
    let m1: Vec<char> = vec!['c', 'h', 'a', 'p', 't', 'e', 'r'];
    let m2: Vec<char> = vec!['c', 'h', '.'];
    let m3: Vec<char> = vec!['\u{7B2C}'];
    proof {
        assert(m1@ =~= seq!['c', 'h', 'a', 'p', 't', 'e', 'r']);
        assert(m2@ =~= seq!['c', 'h', '.']);
        assert(m3@ =~= seq!['\u{7B2C}']);
    }
    match find_pattern(&lv, &m1, true) {
        Some(d) => {
            proof {
                assert(pattern_centi(lc, seq!['c', 'h', 'a', 'p', 't', 'e', 'r'], true)
                    == Option::Some(token_centi(lc, d as int)));
            }
            proof {
                lemma_messages_differ();
            }
            return token_result(&lv, d);
        },
        None => {},
    }
    match find_pattern(&lv, &m2, true) {
        Some(d) => {
            proof {
                assert(pattern_centi(lc, seq!['c', 'h', 'a', 'p', 't', 'e', 'r'], true)
                    is None);
                assert(pattern_centi(lc, seq!['c', 'h', '.'], true) == Option::Some(
                    token_centi(lc, d as int),
                ));
                lemma_messages_differ();
            }
            return token_result(&lv, d);
        },
        None => {},
    }
    match find_pattern(&v, &m3, false) {
        Some(d) => {
            proof {
                assert(pattern_centi(lc, seq!['c', 'h', 'a', 'p', 't', 'e', 'r'], true)
                    is None);
                assert(pattern_centi(lc, seq!['c', 'h', '.'], true) is None);
                assert(pattern_centi(s@, seq!['\u{7B2C}'], false) == Option::Some(
                    token_centi(s@, d as int),
                ));
                lemma_messages_differ();
            }
            return token_result(&v, d);
        },
        None => {},
    }
    Err(ScrapeError::input_error("couldnt find chapter number"))
}

/// Whether ambiguous episode data fails fast or is repaired.
#[derive(Clone, Copy, Debug, PartialEq, Eq, Structural)]
pub enum Policy {
    /// An entry without a parsed episode number fails the whole batch.
    Strict,
    /// An entry without a parsed episode number takes the preceding entry's
    /// number and steps past collisions a hundredth at a time.
    Permissive,
}

/// Why reconciliation failed.
pub enum RecErr {
    /// An entry carries no episode number and the policy does not repair it.
    ZeroEpisode,
    /// An entry's episode number collides with one already assigned.
    Duplicate,
}

/// The episode numbers of a batch of entries.
pub open spec fn episodes_of(infos: Seq<Info>) -> Seq<u64> {
    infos.map_values(|x: Info| x.episode)
}

/// The entry with its episode number replaced and all else kept.
pub open spec fn with_episode(v: InfoV, e: int) -> InfoV {
    InfoV { site: v.site, url: v.url, titles: v.titles, episode: e as u64, account: v.account }
}

/// The first number at or after `ep` that is not yet taken (searching no
/// further than `fuel` steps).
pub open spec fn first_free(ep: int, taken: Set<int>, fuel: nat) -> int
    decreases fuel,
{
    if fuel == 0 {
        ep
    } else if !taken.contains(ep) {
        ep
    } else {
        first_free(ep + 1, taken, (fuel - 1) as nat)
    }
}

proof fn lemma_first_free_is(ep: int, taken: Set<int>, fuel: nat, r: int)
    requires
        ep <= r <= ep + fuel,
        !taken.contains(r),
        forall|j: int| ep <= j < r ==> taken.contains(j),
    ensures
        first_free(ep, taken, fuel) == r,
    decreases fuel,
{
    if r > ep {
        lemma_first_free_is(ep + 1, taken, (fuel - 1) as nat, r);
    }
}

/// What assigning canonical numbers to the "now" entries yields: each entry's
/// resolved number, with the set of taken numbers and the last assignment.
/// An entry without a number (zero) fails under the strict policy and takes
/// the previous assignment under the permissive one, stepping past collisions;
/// an entry whose own number is already taken always fails.
pub open spec fn assign_now(eps: Seq<u64>, taken: Set<int>, last: int, permissive: bool) -> Result<
    (Seq<int>, Set<int>, int),
    RecErr,
>
    decreases eps.len(),
{
    if eps.len() == 0 {
        Ok((Seq::empty(), taken, last))
    } else {
        let raw = eps[0] as int;
        if raw == 0 && !permissive {
            Err(RecErr::ZeroEpisode)
        } else if raw != 0 && taken.contains(raw) {
            Err(RecErr::Duplicate)
        } else {
            let resolved = if raw == 0 {
                first_free(last, taken, taken.len() + 1)
            } else {
                raw
            };
            match assign_now(eps.drop_first(), taken.insert(resolved), resolved, permissive) {
                Ok((rest, t2, l2)) => Ok((seq![resolved] + rest, t2, l2)),
                Err(e) => Err(e),
            }
        }
    }
}

/// What checking the "later" entries against the taken numbers yields: a
/// missing number always fails, as does any collision; nothing is repaired.
pub open spec fn check_later(eps: Seq<u64>, taken: Set<int>) -> Result<Set<int>, RecErr>
    decreases eps.len(),
{
    if eps.len() == 0 {
        Ok(taken)
    } else {
        let raw = eps[0] as int;
        if raw == 0 {
            Err(RecErr::ZeroEpisode)
        } else if taken.contains(raw) {
            Err(RecErr::Duplicate)
        } else {
            check_later(eps.drop_first(), taken.insert(raw))
        }
    }
}

/// What reconciliation yields for a batch: the resolved numbers of the "now"
/// entries, after the "later" entries also prove collision-free.
pub open spec fn spec_reconcile(
    now_eps: Seq<u64>,
    later_eps: Seq<u64>,
    permissive: bool,
) -> Result<Seq<int>, RecErr> {
    match assign_now(now_eps, Set::empty(), 0, permissive) {
        Ok((resolved, taken, _)) => match check_later(later_eps, taken) {
            Ok(_) => Ok(resolved),
            Err(e) => Err(e),
        },
        Err(e) => Err(e),
    }
}

/// The set of numbers that a vector of taken numbers holds.
pub open spec fn taken_set(s: Seq<u64>) -> Set<int> {
    s.map_values(|x: u64| x as int).to_set()
}

/// Whether `x` is among the taken numbers.
fn seen_contains(seen: &Vec<u64>, x: u64) -> (r: bool)
    ensures
        r == taken_set(seen@).contains(x as int),
{
    let n = seen.len();
    let mut i: usize = 0;
    while i < n
        invariant
            0 <= i <= n,
            n == seen@.len(),
            forall|j: int| 0 <= j < i ==> seen@[j] != x,
        decreases n - i,
    {
        if seen[i] == x {
            proof {
                let m = seen@.map_values(|y: u64| y as int);
                assert(m[i as int] == x as int);
                assert(m.contains(x as int));
            }
            return true;
        }
        i = i + 1;
    }
    proof {
        let m = seen@.map_values(|y: u64| y as int);
        if m.contains(x as int) {
            let j = choose|j: int| 0 <= j < m.len() && m[j] == x as int;
            assert(seen@[j] as int == x as int);
            assert(seen@[j] == x);
            assert(false);
        }
    }
    false
}

/// The first free number at or after `base`: at most `seen`'s length many
/// steps away, by counting.
#[verifier::loop_isolation(false)]
fn find_free(base: u64, seen: &Vec<u64>) -> (r: u64)
    requires
        base + seen@.len() + 1 <= u64::MAX,
    ensures
        r == first_free(base as int, taken_set(seen@), (taken_set(seen@).len() + 1) as nat),
        !taken_set(seen@).contains(r as int),
        base <= r <= base + taken_set(seen@).len(),
        forall|j: int| base <= j < r ==> taken_set(seen@).contains(j),
{
    let ghost taken = taken_set(seen@);
    proof {
        broadcast use vstd::seq_lib::seq_to_set_is_finite;

        seen@.map_values(|y: u64| y as int).lemma_cardinality_of_set();
    }
    let n = seen.len();
    let mut k: u64 = 0;
    while k <= n as u64
        invariant
            0 <= k <= n + 1,
            forall|j: int| base <= j < base + k ==> taken.contains(j),
        decreases n + 1 - k,
    {
        let candidate = base + k;
        if !seen_contains(seen, candidate) {
            proof {
                let run = vstd::set_lib::set_int_range(base as int, base + k);
                vstd::set_lib::lemma_int_range(base as int, base + k);
                assert(run.subset_of(taken));
                vstd::set_lib::lemma_len_subset(run, taken);
                lemma_first_free_is(base as int, taken, (taken.len() + 1) as nat, candidate as int);
            }
            return candidate;
        }
        k = k + 1;
    }
    proof {
        let full = vstd::set_lib::set_int_range(base as int, base + n + 1);
        vstd::set_lib::lemma_int_range(base as int, base + n + 1);
        assert(full.subset_of(taken));
        vstd::set_lib::lemma_len_subset(full, taken);
        assert(taken.len() <= seen@.len());
        assert(false);
    }
    unreached()
}

/// A free-slot search never looks backwards.
proof fn lemma_first_free_ge(ep: int, taken: Set<int>, fuel: nat)
    ensures
        first_free(ep, taken, fuel) >= ep,
    decreases fuel,
{
    if fuel > 0 && taken.contains(ep) {
        lemma_first_free_ge(ep + 1, taken, (fuel - 1) as nat);
    }
}

/// Past `ep`, a search ignores entries below `ep`, and what it finds in a set
/// it outlasts is free.
proof fn lemma_first_free_shrink(ep: int, taken: Set<int>, taken2: Set<int>, fuel: nat)
    requires
        taken2.finite(),
        forall|y: int| y >= ep ==> (taken.contains(y) <==> taken2.contains(y)),
    ensures
        fuel > taken2.len() ==> {
            &&& first_free(ep, taken, fuel) == first_free(ep, taken2, fuel)
            &&& !taken2.contains(first_free(ep, taken2, fuel))
        },
    decreases fuel,
{
    if fuel > taken2.len() {
        if taken2.contains(ep) {
            let smaller = taken2.remove(ep);
            assert(smaller.len() == taken2.len() - 1);
            lemma_first_free_shrink(ep + 1, taken, smaller, (fuel - 1) as nat);
            lemma_first_free_shrink(ep + 1, taken2, smaller, (fuel - 1) as nat);
            lemma_first_free_ge(ep + 1, smaller, (fuel - 1) as nat);
        }
    }
}

/// What `first_free` finds is indeed free, provided its fuel outlasts the
/// taken set.
proof fn lemma_first_free_free(ep: int, taken: Set<int>, fuel: nat)
    requires
        taken.finite(),
        fuel > taken.len(),
    ensures
        !taken.contains(first_free(ep, taken, fuel)),
    decreases fuel,
{
    if taken.contains(ep) {
        let taken2 = taken.remove(ep);
        assert(taken2.len() == taken.len() - 1);
        lemma_first_free_shrink(ep + 1, taken, taken2, (fuel - 1) as nat);
        lemma_first_free_ge(ep + 1, taken2, (fuel - 1) as nat);
    }
}

/// Assignment takes only fresh numbers: every resolved number was free
/// beforehand, is taken afterwards, no two entries receive the same one, and
/// nothing already taken is given up.
proof fn lemma_assign_now_fresh(eps: Seq<u64>, taken: Set<int>, last: int, permissive: bool)
    requires
        taken.finite(),
    ensures
        assign_now(eps, taken, last, permissive) matches Ok(r) ==> {
            &&& forall|k: int| 0 <= k < r.0.len() ==> !taken.contains(#[trigger] r.0[k])
            &&& forall|k: int| 0 <= k < r.0.len() ==> r.1.contains(#[trigger] r.0[k])
            &&& forall|k1: int, k2: int|
                #![trigger r.0[k1], r.0[k2]]
                0 <= k1 < k2 < r.0.len() ==> r.0[k1] != r.0[k2]
            &&& forall|y: int| taken.contains(y) ==> r.1.contains(y)
        },
    decreases eps.len(),
{
    if eps.len() > 0 {
        let raw = eps[0] as int;
        if raw == 0 && !permissive {
        } else if raw != 0 && taken.contains(raw) {
        } else {
            let resolved = if raw == 0 {
                first_free(last, taken, taken.len() + 1)
            } else {
                raw
            };
            if raw == 0 {
                lemma_first_free_free(last, taken, taken.len() + 1);
            }
            assert(!taken.contains(resolved));
            lemma_assign_now_fresh(eps.drop_first(), taken.insert(resolved), resolved, permissive);
            let a = assign_now(eps, taken, last, permissive);
            if a is Ok {
                let r = a->Ok_0;
                let rest = assign_now(
                    eps.drop_first(),
                    taken.insert(resolved),
                    resolved,
                    permissive,
                )->Ok_0;
                assert(r.0 == seq![resolved] + rest.0);
                assert(r.1 == rest.1);
                assert(r.0[0] == resolved);
                assert(forall|k: int| 1 <= k < r.0.len() ==> r.0[k] == #[trigger] rest.0[k - 1]);
                assert(taken.insert(resolved).contains(resolved));
                assert(r.1.contains(resolved));
                assert forall|k: int| 0 <= k < r.0.len() implies !taken.contains(
                    #[trigger] r.0[k],
                ) by {
                    if k > 0 {
                        assert(r.0[k] == rest.0[k - 1]);
                        assert(!taken.insert(resolved).contains(rest.0[k - 1]));
                    }
                }
                assert forall|k: int| 0 <= k < r.0.len() implies r.1.contains(
                    #[trigger] r.0[k],
                ) by {
                    if k > 0 {
                        assert(r.0[k] == rest.0[k - 1]);
                        assert(rest.1.contains(rest.0[k - 1]));
                    }
                }
                assert forall|k1: int, k2: int|
                    #![trigger r.0[k1], r.0[k2]]
                    0 <= k1 < k2 < r.0.len() implies r.0[k1] != r.0[k2] by {
                    assert(r.0[k2] == rest.0[k2 - 1]);
                    assert(!taken.insert(resolved).contains(rest.0[k2 - 1]));
                    if k1 > 0 {
                        assert(r.0[k1] == rest.0[k1 - 1]);
                    }
                }
                assert forall|y: int| taken.contains(y) implies r.1.contains(y) by {
                    assert(taken.insert(resolved).contains(y));
                }
            }
        }
    }
}

/// A later check passes only on numbers that are pairwise distinct and all
/// free beforehand.
proof fn lemma_check_later_fresh(eps: Seq<u64>, taken: Set<int>)
    ensures
        check_later(eps, taken) is Ok ==> {
            &&& forall|j: int| 0 <= j < eps.len() ==> !taken.contains((#[trigger] eps[j]) as int)
            &&& forall|j1: int, j2: int|
                #![trigger eps[j1], eps[j2]]
                0 <= j1 < j2 < eps.len() ==> eps[j1] != eps[j2]
        },
    decreases eps.len(),
{
    if eps.len() > 0 {
        let raw = eps[0] as int;
        if raw != 0 && !taken.contains(raw) {
            lemma_check_later_fresh(eps.drop_first(), taken.insert(raw));
            if check_later(eps, taken) is Ok {
                assert forall|j: int| 0 <= j < eps.len() implies !taken.contains(
                    (#[trigger] eps[j]) as int,
                ) by {
                    if j > 0 {
                        assert(eps[j] == eps.drop_first()[j - 1]);
                        assert(!taken.insert(raw).contains(eps.drop_first()[j - 1] as int));
                    }
                }
                assert forall|j1: int, j2: int|
                    #![trigger eps[j1], eps[j2]]
                    0 <= j1 < j2 < eps.len() implies eps[j1] != eps[j2] by {
                    assert(eps[j2] == eps.drop_first()[j2 - 1]);
                    assert(!taken.insert(raw).contains(eps.drop_first()[j2 - 1] as int));
                    if j1 > 0 {
                        assert(eps[j1] == eps.drop_first()[j1 - 1]);
                    }
                }
            }
        }
    }
}

/// The engine's central invariant: after a successful reconciliation no two
/// entries share an episode number - not among the resolved "now" entries,
/// not among the "later" entries, and not across the two partitions.
pub proof fn lemma_reconcile_unique(now_eps: Seq<u64>, later_eps: Seq<u64>, permissive: bool)
    ensures
        spec_reconcile(now_eps, later_eps, permissive) matches Ok(resolved) ==> {
            &&& forall|i: int, j: int|
                #![trigger resolved[i], resolved[j]]
                0 <= i < j < resolved.len() ==> resolved[i] != resolved[j]
            &&& forall|i: int, j: int|
                #![trigger resolved[i], later_eps[j]]
                0 <= i < resolved.len() && 0 <= j < later_eps.len() ==> resolved[i] != later_eps[j]
                    as int
            &&& forall|j1: int, j2: int|
                #![trigger later_eps[j1], later_eps[j2]]
                0 <= j1 < j2 < later_eps.len() ==> later_eps[j1] != later_eps[j2]
        },
{
    lemma_assign_now_fresh(now_eps, Set::empty(), 0, permissive);
    let a = assign_now(now_eps, Set::empty(), 0, permissive);
    if a is Ok {
        let after_now = a->Ok_0.1;
        lemma_check_later_fresh(later_eps, after_now);
    }
}

/// The two reconciliation error messages are distinct texts.
proof fn lemma_rec_messages_differ()
    ensures
        !("failed to parse episode"@ == "episode does already exist"@),
{
    reveal_strlit("failed to parse episode");
    reveal_strlit("episode does already exist");
    assert("failed to parse episode"@.len() == 23);
    assert("episode does already exist"@.len() == 26);
}

/// Pushing a taken number inserts it into the taken set.
proof fn lemma_taken_push(s: Seq<u64>, x: u64)
    ensures
        taken_set(s.push(x)) =~= taken_set(s).insert(x as int),
{
    let m = s.map_values(|y: u64| y as int);
    let mp = s.push(x).map_values(|y: u64| y as int);
    assert(mp =~= m.push(x as int));
    assert forall|y: int| taken_set(s.push(x)).contains(y) implies taken_set(s).insert(
        x as int,
    ).contains(y) by {
        let j = choose|j: int| 0 <= j < mp.len() && mp[j] == y;
        if j < m.len() {
            assert(m[j] == y);
        }
    }
    assert forall|y: int| taken_set(s).insert(x as int).contains(y) implies taken_set(
        s.push(x),
    ).contains(y) by {
        if y == x as int {
            assert(mp[mp.len() - 1] == y);
        } else {
            let j = choose|j: int| 0 <= j < m.len() && m[j] == y;
            assert(mp[j] == y);
        }
    }
}

/// Reconciles a scraped batch: assigns each "now" entry its canonical episode
/// number and checks the "later" entries against the assignment.
///
/// Every entry of the "now" partition gets a number no other entry shares.
/// An entry whose number is zero (nothing could be parsed) fails the batch
/// under the strict policy; under the permissive policy it takes the
/// preceding entry's number, stepped past collisions a hundredth at a time.
/// A nonzero collision fails the batch under either policy. "Later" entries
/// are never repaired: a zero or colliding number there always fails.
#[verifier::loop_isolation(false)]
#[verifier::rlimit(100)]
pub fn reconcile_episodes(now: Vec<Info>, later: Vec<Info>, policy: Policy) -> (r: Result<
    (Vec<Info>, Vec<Info>),
    ScrapeError,
>)
    requires
        now@.len() <= 0xFFFF_FFFF,
        forall|i: int| 0 <= i < now@.len() ==> #[trigger] now@[i].episode <= EPISODE_CENTI_MAX,
    ensures
        r matches Ok(pair) ==> {
            &&& spec_reconcile(episodes_of(now@), episodes_of(later@), policy is Permissive)
                matches Ok(resolved) && pair.0@.len() == now@.len() && (forall|i: int|
                0 <= i < now@.len() ==> #[trigger] pair.0@[i]@ == with_episode(
                    now@[i]@,
                    resolved[i],
                ))
            &&& pair.1 == later
        },
        r matches Err(e) ==> {
            &&& spec_reconcile(episodes_of(now@), episodes_of(later@), policy is Permissive) is Err
            &&& e.kind == ErrorKind::Input
            &&& (spec_reconcile(episodes_of(now@), episodes_of(later@), policy is Permissive)
                == Err::<Seq<int>, RecErr>(RecErr::ZeroEpisode) <==> e.message@
                == "failed to parse episode"@)
            &&& (spec_reconcile(episodes_of(now@), episodes_of(later@), policy is Permissive)
                == Err::<Seq<int>, RecErr>(RecErr::Duplicate) <==> e.message@
                == "episode does already exist"@)
        },
{
    proof {
        lemma_rec_messages_differ();
    }
    let permissive = match policy {
        Policy::Strict => false,
        Policy::Permissive => true,
    };
    let ghost orig = now@;
    let ghost eps_all = episodes_of(now@);
    let mut rem = now;
    let mut out: Vec<Info> = Vec::new();
    let mut seen: Vec<u64> = Vec::new();
    let mut last: u64 = 0;
    let mut idx: usize = 0;
    proof {
        assert(rem@ =~= orig.skip(0));
        assert(taken_set(seen@) =~= Set::<int>::empty());
        assert(out@.map_values(|x: Info| x.episode as int) =~= Seq::<int>::empty());
        let a0 = assign_now(episodes_of(orig.skip(0)), taken_set(seen@), last as int, permissive);
        assert(episodes_of(orig.skip(0)) == eps_all);
        if a0 is Ok {
            assert(Seq::<int>::empty() + a0->Ok_0.0 =~= a0->Ok_0.0);
        }
    }
    while rem.len() > 0
        invariant
            idx == out@.len(),
            idx + rem@.len() == orig.len(),
            rem@ =~= orig.skip(idx as int),
            seen@.len() <= idx,
            last <= EPISODE_CENTI_MAX + idx,
            forall|y: int| taken_set(seen@).contains(y) ==> 0 <= y <= EPISODE_CENTI_MAX + idx,
            forall|i: int|
                0 <= i < idx ==> #[trigger] out@[i]@ == with_episode(
                    orig[i]@,
                    out@[i].episode as int,
                ),
            assign_now(eps_all, Set::empty(), 0, permissive) == (match assign_now(
                episodes_of(rem@),
                taken_set(seen@),
                last as int,
                permissive,
            ) {
                Ok((rest, t2, l2)) => Ok::<(Seq<int>, Set<int>, int), RecErr>(
                    (out@.map_values(|x: Info| x.episode as int) + rest, t2, l2),
                ),
                Err(e) => Err::<(Seq<int>, Set<int>, int), RecErr>(e),
            }),
        decreases rem@.len(),
    {
        let ghost rem_before = rem@;
        let ghost taken = taken_set(seen@);
        let info = rem.remove(0);
        proof {
            assert(rem@ =~= rem_before.drop_first());
            assert(rem@ =~= orig.skip(idx + 1));
            assert(info == orig[idx as int]);
            assert(episodes_of(rem_before)[0] == info.episode);
            assert(episodes_of(rem_before).drop_first() =~= episodes_of(rem@));
        }
        let raw = info.episode;
        if raw == 0 && !permissive {
            return Err(ScrapeError::input_error("failed to parse episode"));
        }
        if raw != 0 && seen_contains(&seen, raw) {
            return Err(ScrapeError::input_error("episode does already exist"));
        }
        let resolved: u64;
        if raw == 0 {
            proof {
                broadcast use vstd::seq_lib::seq_to_set_is_finite;

                seen@.map_values(|y: u64| y as int).lemma_cardinality_of_set();
            }
            resolved = find_free(last, &seen);
            proof {
                if resolved > last {
                    assert(taken.contains(resolved - 1));
                }
            }
        } else {
            resolved = raw;
        }
        let ghost taken2 = taken.insert(resolved as int);
        proof {
            assert(!taken.contains(resolved as int));
            broadcast use vstd::seq_lib::seq_to_set_is_finite;

            seen@.map_values(|y: u64| y as int).lemma_cardinality_of_set();
        }
        let ghost seen_before = seen@;
        seen.push(resolved);
        proof {
            lemma_taken_push(seen_before, resolved);
            assert(taken_set(seen@) =~= taken2);
        }
        last = resolved;
        let mut entry = info;
        entry.episode = resolved;
        let ghost out_before = out@;
        out.push(entry);
        idx = idx + 1;
        proof {
            let f = |x: Info| x.episode as int;
            assert(out@.map_values(f) =~= out_before.map_values(f) + seq![resolved as int]);
            let a2 = assign_now(episodes_of(rem@), taken2, resolved as int, permissive);
            if a2 is Ok {
                assert((out_before.map_values(f) + seq![resolved as int]) + a2->Ok_0.0
                    =~= out_before.map_values(f) + (seq![resolved as int] + a2->Ok_0.0));
            }
        }
    }
    proof {
        assert(episodes_of(rem@).len() == 0);
        let fin = assign_now(episodes_of(rem@), taken_set(seen@), last as int, permissive);
        assert(fin == Ok::<(Seq<int>, Set<int>, int), RecErr>(
            (Seq::<int>::empty(), taken_set(seen@), last as int),
        ));
        assert(out@.map_values(|x: Info| x.episode as int) + Seq::<int>::empty()
            =~= out@.map_values(|x: Info| x.episode as int));
    }
    // The "later" entries: collisions are checked, never repaired.
    let ghost eps_later = episodes_of(later@);
    let m = later.len();
    let mut j: usize = 0;
    proof {
        assert(eps_later.skip(0) =~= eps_later);
    }
    while j < m
        invariant
            0 <= j <= m,
            m == later@.len(),
            check_later(eps_later, assign_now(
                eps_all,
                Set::empty(),
                0,
                permissive,
            )->Ok_0.1) == check_later(eps_later.skip(j as int), taken_set(seen@)),
        decreases m - j,
    {
        let raw = later[j].episode;
        proof {
            assert(eps_later.skip(j as int)[0] == later@[j as int].episode);
            assert(eps_later.skip(j as int).drop_first() =~= eps_later.skip(j + 1));
        }
        if raw == 0 {
            return Err(ScrapeError::input_error("failed to parse episode"));
        }
        if seen_contains(&seen, raw) {
            return Err(ScrapeError::input_error("episode does already exist"));
        }
        let ghost taken = taken_set(seen@);
        let ghost seen_before = seen@;
        seen.push(raw);
        proof {
            lemma_taken_push(seen_before, raw);
            assert(taken_set(seen@) =~= taken.insert(raw as int));
        }
        j = j + 1;
    }
    proof {
        assert(eps_later.skip(m as int).len() == 0);
    }
    Ok((out, later))
}

} // verus!
