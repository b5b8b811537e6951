//! Literal text search with whole-word filtering and match navigation.
use crate::text::{char_boundary, rope_chars, rope_clone, rope_eq, rope_from_str, rope_text};
use regex::{Regex, RegexBuilder};
use ropey::Rope;
use std::ops::Range;
use std::rc::Rc;
use vstd::prelude::*;
use vstd::string::StringExecFns;
use vstd::utf8::encode_utf8;

verus! {

/// Whether the escaped literal `query` compiles within the regex size limits.
pub uninterp spec fn literal_query_compiles(query: Seq<char>, case_insensitive: bool) -> bool;

/// The text (`Display`) of the error that compiling the escaped literal reports.
pub uninterp spec fn literal_query_error(query: Seq<char>, case_insensitive: bool) -> Seq<char>;

/// The byte ranges of the successive non-overlapping matches of the escaped literal.
pub uninterp spec fn literal_matches(
    query: Seq<char>,
    case_insensitive: bool,
    text: Seq<char>,
) -> Seq<(usize, usize)>;

/// Whether a character matches the regex class `\w` (a Unicode word character).
pub uninterp spec fn unicode_word(ch: char) -> bool;

/// The successive leftmost occurrences of the bytes `p` in `h` from `i` on,
/// each search resuming where the previous occurrence ends.
pub open spec fn leftmost_occurrences(h: Seq<u8>, p: Seq<u8>, i: int) -> Seq<(usize, usize)>
    decreases h.len() - i,
{
    if p.len() == 0 || i < 0 || i + p.len() > h.len() {
        Seq::empty()
    } else if h.subrange(i, i + p.len()) == p {
        seq![(i as usize, (i + p.len()) as usize)] + leftmost_occurrences(h, p, i + p.len())
    } else {
        leftmost_occurrences(h, p, i + 1)
    }
}

/// A compiled case-sensitive non-empty query matches at its leftmost
/// occurrences in the text.
#[verifier::opaque]
pub open spec fn literal_occurrences(query: Seq<char>, case_insensitive: bool, compiled: bool, text: Seq<char>) -> bool {
    compiled && !case_insensitive && query.len() > 0 ==> literal_matches(query, false, text) == leftmost_occurrences(
        encode_utf8(text),
        encode_utf8(query),
        0,
    )
}

/// Matches lie in the text, in order, without overlapping, on character boundaries.
pub open spec fn matches_well_formed(m: Seq<(usize, usize)>, text: Seq<char>) -> bool {
    &&& forall|i: int|
        0 <= i < m.len() ==> (#[trigger] m[i]).0 <= m[i].1 <= encode_utf8(text).len()
            && char_boundary(encode_utf8(text), m[i].0 as int) && char_boundary(
            encode_utf8(text),
            m[i].1 as int,
        )
    &&& forall|i: int, j: int| 0 <= i < j < m.len() ==> (#[trigger] m[i]).1 <= (#[trigger] m[j]).0
}

/// `RegexBuilder::new(&regex::escape(query)).case_insensitive(..).unicode(true).build()`:
/// `None` when it succeeds, else `Some` of the error's text.
#[verifier::external_body]
fn compile_literal_query(query: &str, case_insensitive: bool) -> (r: Option<String>)
    ensures
        r is None <==> literal_query_compiles(query@, case_insensitive),
        r matches Some(m) ==> m@ == literal_query_error(query@, case_insensitive),
{
    match RegexBuilder::new(&regex::escape(query)).case_insensitive(case_insensitive).unicode(
        true,
    ).build() {
        Ok(_) => None,
        Err(error) => Some(error.to_string()),
    }
}

/// `Regex::find_iter` of the compiled escaped literal over the text: the byte
/// ranges of successive non-overlapping matches, on UTF-8 boundaries. A
/// case-sensitive non-empty literal matches exactly its own bytes, so these
/// are its leftmost occurrences, each search resuming at the previous end;
/// case-insensitive matching (Unicode simple case folding) is not spelled out.
#[verifier::external_body]
fn find_literal_matches(query: &str, case_insensitive: bool, text: &str) -> (r: Vec<(usize, usize)>)
    requires
        literal_query_compiles(query@, case_insensitive),
    ensures
        r@ == literal_matches(query@, case_insensitive, text@),
        matches_well_formed(r@, text@),
        !case_insensitive && query@.len() > 0 ==> r@ == leftmost_occurrences(encode_utf8(text@), encode_utf8(query@), 0),
{
    match RegexBuilder::new(&regex::escape(query)).case_insensitive(case_insensitive).unicode(
        true,
    ).build() {
        Ok(re) => re.find_iter(text).map(|m| (m.start(), m.end())).collect(),
        Err(_) => Vec::new(),
    }
}

/// `Regex::new(r"\w").is_match` on one non-ASCII character.
#[verifier::external_body]
fn is_unicode_word(ch: char) -> (r: bool)
    ensures
        r == unicode_word(ch),
{
    let mut buf = [0u8; 4];
    match Regex::new(r"\w") {
        Ok(word) => word.is_match(ch.encode_utf8(&mut buf)),
        Err(_) => false,
    }
}

/// The number of characters whose encoding ends at a byte offset, if any.
pub open spec fn char_index_at(text: Seq<char>, offset: int) -> int {
    choose|k: int| 0 <= k <= text.len() && encode_utf8(text.subrange(0, k)).len() == offset
}

/// The character that ends at a byte offset (none at the start).
pub open spec fn char_before_spec(text: Seq<char>, offset: int) -> Option<char> {
    let k = char_index_at(text, offset);
    if k > 0 {
        Some(text[k - 1])
    } else {
        None
    }
}

/// The character that starts at a byte offset (none at the end).
pub open spec fn char_after_spec(text: Seq<char>, offset: int) -> Option<char> {
    let k = char_index_at(text, offset);
    if k < text.len() {
        Some(text[k])
    } else {
        None
    }
}

/// `text[..offset].chars().next_back()`: the character ending at a character boundary.
#[verifier::external_body]
fn char_before(text: &str, offset: usize) -> (r: Option<char>)
    requires
        offset <= encode_utf8(text@).len(),
        char_boundary(encode_utf8(text@), offset as int),
    ensures
        r == char_before_spec(text@, offset as int),
{
    text[..offset].chars().next_back()
}

/// `text[offset..].chars().next()`: the character starting at a character boundary.
#[verifier::external_body]
fn char_after(text: &str, offset: usize) -> (r: Option<char>)
    requires
        offset <= encode_utf8(text@).len(),
        char_boundary(encode_utf8(text@), offset as int),
    ensures
        r == char_after_spec(text@, offset as int),
{
    text[offset..].chars().next()
}

/// Underscores, letters, numbers, combining marks and join controls are word
/// characters: ASCII ones by class, others by the Unicode `\w` class.
pub open spec fn is_word_spec(ch: char) -> bool {
    if (ch as u32) < 128 {
        ('a' <= ch <= 'z') || ('A' <= ch <= 'Z') || ('0' <= ch <= '9') || ch == '_'
    } else {
        unicode_word(ch)
    }
}

fn is_word(ch: char) -> (r: bool)
    ensures
        r == is_word_spec(ch),
{
    if (ch as u32) < 128 {
        ('a' <= ch && ch <= 'z') || ('A' <= ch && ch <= 'Z') || ('0' <= ch && ch <= '9') || ch
            == '_'
    } else {
        is_unicode_word(ch)
    }
}

/// No word character immediately outside either end of the range.
pub open spec fn whole_word_spec(text: Seq<char>, start: usize, end: usize) -> bool {
    &&& !(char_before_spec(text, start as int) matches Some(c) && is_word_spec(c))
    &&& !(char_after_spec(text, end as int) matches Some(c) && is_word_spec(c))
}

fn whole_word_range(text: &str, start: usize, end: usize) -> (r: bool)
    requires
        start <= encode_utf8(text@).len(),
        end <= encode_utf8(text@).len(),
        char_boundary(encode_utf8(text@), start as int),
        char_boundary(encode_utf8(text@), end as int),
    ensures
        r == whole_word_spec(text@, start, end),
{
    let before = match char_before(text, start) {
        Some(c) => is_word(c),
        None => false,
    };
    if before {
        return false;
    }
    match char_after(text, end) {
        Some(c) => !is_word(c),
        None => true,
    }
}

/// Keep the matches that stand as whole words when the option is on.
pub open spec fn filter_matches(m: Seq<(usize, usize)>, text: Seq<char>, whole_word: bool) -> Seq<
    Range<usize>,
>
    decreases m.len(),
{
    if m.len() == 0 {
        Seq::empty()
    } else {
        let rest = filter_matches(m.drop_last(), text, whole_word);
        let last = m.last();
        if !whole_word || whole_word_spec(text, last.0, last.1) {
            rest.push(Range { start: last.0, end: last.1 })
        } else {
            rest
        }
    }
}

/// The ranges a matcher shows for its text and options.
pub open spec fn match_ranges_spec(
    text: Seq<char>,
    query: Seq<char>,
    case_insensitive: bool,
    compiled: bool,
    whole_word: bool,
) -> Seq<Range<usize>> {
    if compiled {
        filter_matches(literal_matches(query, case_insensitive, text), text, whole_word)
    } else {
        Seq::empty()
    }
}

/// The abstract state of a matcher.
pub struct MatcherView {
    pub text: Seq<char>,
    pub query: Seq<char>,
    pub case_insensitive: bool,
    pub compiled: bool,
    pub whole_word: bool,
    pub error: Option<Seq<char>>,
    pub ranges: Seq<Range<usize>>,
    pub current: usize,
    pub replacing: bool,
}

/// Stateful, presentation-independent search engine used by text inputs.
#[derive(Debug)]
pub struct SearchMatcher {
    text: Rope,
    query_text: String,
    case_insensitive: bool,
    compiled: bool,
    whole_word: bool,
    error: Option<String>,
    matched_ranges: Rc<Vec<Range<usize>>>,
    current_match_ix: usize,
    replacing: bool,
}

impl View for SearchMatcher {
    type V = MatcherView;

    closed spec fn view(&self) -> MatcherView {
        MatcherView {
            text: rope_chars(self.text),
            query: self.query_text@,
            case_insensitive: self.case_insensitive,
            compiled: self.compiled,
            whole_word: self.whole_word,
            error: match self.error {
                Some(e) => Some(e@),
                None => None,
            },
            ranges: (*self.matched_ranges)@,
            current: self.current_match_ix,
            replacing: self.replacing,
        }
    }
}

/// The matcher's consistency: its ranges are those of its text and options,
/// and the current index points at a match (or is zero when there is none).
pub open spec fn matcher_wf(m: MatcherView) -> bool {
    &&& m.compiled ==> literal_query_compiles(m.query, m.case_insensitive)
    &&& m.compiled ==> matches_well_formed(literal_matches(m.query, m.case_insensitive, m.text), m.text)
    &&& literal_occurrences(m.query, m.case_insensitive, m.compiled, m.text)
    &&& m.ranges == match_ranges_spec(m.text, m.query, m.case_insensitive, m.compiled, m.whole_word)
    &&& if m.ranges.len() == 0 {
        m.current == 0
    } else {
        m.current < m.ranges.len()
    }
}

/// The index after matching anew: kept (clamped) while replacing, else zero.
pub open spec fn index_after_update(current: usize, replacing: bool, len: nat) -> usize {
    if !replacing || len == 0 {
        0
    } else if current < len {
        current
    } else {
        (len - 1) as usize
    }
}

/// The index of the first match that contains the offset or starts after it.
pub open spec fn cursor_index_spec(ranges: Seq<Range<usize>>, offset: usize) -> usize {
    if exists|i: int|
        0 <= i < ranges.len() && ((#[trigger] ranges[i]).start <= offset < ranges[i].end
            || ranges[i].start >= offset) {
        (choose|i: int|
            0 <= i < ranges.len() && ((#[trigger] ranges[i]).start <= offset < ranges[i].end
                || ranges[i].start >= offset) && forall|j: int|
                0 <= j < i ==> !((#[trigger] ranges[j]).start <= offset < ranges[j].end
                    || ranges[j].start >= offset)) as usize
    } else {
        0
    }
}

/// The index of the first match that starts at or after the offset, or zero.
pub open spec fn first_from_spec(ranges: Seq<Range<usize>>, offset: usize) -> usize {
    if exists|i: int| 0 <= i < ranges.len() && (#[trigger] ranges[i]).start >= offset {
        (choose|i: int|
            0 <= i < ranges.len() && (#[trigger] ranges[i]).start >= offset && forall|j: int|
                0 <= j < i ==> (#[trigger] ranges[j]).start < offset) as usize
    } else {
        0
    }
}

/// The index that `next` moves to: the following match, wrapping to the first.
pub open spec fn next_index_spec(current: usize, len: nat) -> usize {
    if current + 1 < len {
        (current + 1) as usize
    } else {
        0
    }
}

/// The index that `next_back` moves to: the preceding match, wrapping to the last.
pub open spec fn prev_index_spec(current: usize, len: nat) -> usize {
    if current == 0 {
        (len - 1) as usize
    } else {
        (current - 1) as usize
    }
}

/// The decimal digits of a number.
pub open spec fn decimal(n: nat) -> Seq<char>
    decreases n,
{
    if n < 10 {
        seq![(('0' as u32) + n) as char]
    } else {
        decimal(n / 10).push(((('0' as u32) + (n % 10)) as char))
    }
}

/// The text of one decimal digit.
fn digit_text(d: usize) -> (r: &'static str)
    requires
        d < 10,
    ensures
        r@ == decimal(d as nat),
{
    match d {
        0 => {
            proof {
                reveal_strlit("0");
            }
            "0"
        },
        1 => {
            proof {
                reveal_strlit("1");
            }
            "1"
        },
        2 => {
            proof {
                reveal_strlit("2");
            }
            "2"
        },
        3 => {
            proof {
                reveal_strlit("3");
            }
            "3"
        },
        4 => {
            proof {
                reveal_strlit("4");
            }
            "4"
        },
        5 => {
            proof {
                reveal_strlit("5");
            }
            "5"
        },
        6 => {
            proof {
                reveal_strlit("6");
            }
            "6"
        },
        7 => {
            proof {
                reveal_strlit("7");
            }
            "7"
        },
        8 => {
            proof {
                reveal_strlit("8");
            }
            "8"
        },
        _ => {
            proof {
                reveal_strlit("9");
            }
            "9"
        },
    }
}

/// The decimal digits of a number, most significant first.
fn decimal_text(n: usize) -> (r: String)
    ensures
        r@ == decimal(n as nat),
    decreases n,
{
    if n < 10 {
        String::from_str(digit_text(n))
    } else {
        let mut r = decimal_text(n / 10);
        r.append(digit_text(n % 10));
        r
    }
}

/// "position/total".
fn format_position(position: usize, total: usize) -> (r: String)
    ensures
        r@ == decimal(position as nat) + seq!['/'] + decimal(total as nat),
{
    let mut r = decimal_text(position);
    proof {
        reveal_strlit("/");
    }
    r.append("/");
    r.append(decimal_text(total).as_str());
    r
}

/// The label when nothing matches: "0/0".
fn no_matches_label() -> (r: String)
    ensures
        r@ == seq!['0', '/', '0'],
{
    let r = String::from_str("0/0");
    proof {
        reveal_strlit("0/0");
    }
    assert(r@ =~= seq!['0', '/', '0']);
    r
}

/// `Rc::clone`: another handle to the same ranges.
#[verifier::external_body]
fn share_ranges(r: &Rc<Vec<Range<usize>>>) -> (s: Rc<Vec<Range<usize>>>)
    ensures
        *s == **r,
{
    Rc::clone(r)
}

fn copy_range(r: &Range<usize>) -> (c: Range<usize>)
    ensures
        c.start == r.start,
        c.end == r.end,
{
    r.start..r.end
}

/// The message shown for a query that does not compile.
pub open spec fn too_large_message(error: Seq<char>) -> Seq<char> {
    "Search query is too large: "@ + error
}

/// The message shown for a query that does not compile: the error's text
/// after a fixed lead.
fn too_large(error: String) -> (r: String)
    ensures
        r@ == too_large_message(error@),
{
    let lead = String::from_str("Search query is too large: ");
    lead.concat(error.as_str())
}

/// The matcher after a new query (or case option): compiled unless empty or
/// too large, with the error reported in the latter case, and matched anew.
pub open spec fn requery_view(m: MatcherView, query: Seq<char>, case_insensitive: bool) -> MatcherView {
    let compiled = query.len() > 0 && literal_query_compiles(query, case_insensitive);
    let ranges = match_ranges_spec(m.text, query, case_insensitive, compiled, m.whole_word);
    MatcherView {
        query,
        case_insensitive,
        compiled,
        error: if query.len() > 0 && !literal_query_compiles(query, case_insensitive) {
            Some(too_large_message(literal_query_error(query, case_insensitive)))
        } else {
            None
        },
        ranges,
        current: index_after_update(m.current, m.replacing, ranges.len()),
        replacing: false,
        ..m
    }
}

/// The matcher after it is given a text: unchanged but for the replacing flag
/// when the text is the same, else matched anew over the new text.
pub open spec fn retext_view(m: MatcherView, text: Seq<char>) -> MatcherView {
    if m.text == text {
        MatcherView { replacing: false, ..m }
    } else {
        let ranges = match_ranges_spec(text, m.query, m.case_insensitive, m.compiled, m.whole_word);
        MatcherView {
            text,
            ranges,
            current: index_after_update(m.current, m.replacing, ranges.len()),
            replacing: false,
            ..m
        }
    }
}

/// The matcher with its current match moved to the one at or after an offset.
pub open spec fn cursor_view(m: MatcherView, offset: usize) -> MatcherView {
    MatcherView { current: cursor_index_spec(m.ranges, offset), ..m }
}

/// The state of a matcher that has seen no text and no query.
pub open spec fn fresh_matcher(m: MatcherView) -> bool {
    &&& m.text.len() == 0
    &&& m.query.len() == 0
    &&& !m.case_insensitive
    &&& !m.compiled
    &&& !m.whole_word
    &&& m.error is None
    &&& m.ranges.len() == 0
    &&& m.current == 0
    &&& !m.replacing
}

impl Clone for SearchMatcher {
    fn clone(&self) -> (r: Self)
        ensures
            r@ == self@,
    {
        SearchMatcher {
            text: rope_clone(&self.text),
            query_text: self.query_text.clone(),
            case_insensitive: self.case_insensitive,
            compiled: self.compiled,
            whole_word: self.whole_word,
            error: match &self.error {
                Some(e) => Some(e.clone()),
                None => None,
            },
            matched_ranges: share_ranges(&self.matched_ranges),
            current_match_ix: self.current_match_ix,
            replacing: self.replacing,
        }
    }
}

impl Default for SearchMatcher {
    fn default() -> (m: Self)
        ensures
            m.wf(),
            fresh_matcher(m@),
    {
        SearchMatcher::new()
    }
}

impl SearchMatcher {
    pub open spec fn wf(&self) -> bool {
        matcher_wf(self@)
    }

    pub fn new() -> (m: Self)
        ensures
            m.wf(),
            fresh_matcher(m@),
    {
        let m = SearchMatcher {
            text: rope_from_str(""),
            query_text: String::new(),
            case_insensitive: false,
            compiled: false,
            whole_word: false,
            error: None,
            matched_ranges: Rc::new(Vec::new()),
            current_match_ix: 0,
            replacing: false,
        };
        proof {
            reveal_strlit("");
            reveal(literal_occurrences);
        }
        m
    }

    fn update_matches(&mut self)
        requires
            old(self)@.compiled ==> literal_query_compiles(old(self)@.query, old(self)@.case_insensitive),
        ensures
            final(self)@ == (MatcherView {
                ranges: match_ranges_spec(
                    old(self)@.text,
                    old(self)@.query,
                    old(self)@.case_insensitive,
                    old(self)@.compiled,
                    old(self)@.whole_word,
                ),
                current: index_after_update(
                    old(self)@.current,
                    old(self)@.replacing,
                    match_ranges_spec(
                        old(self)@.text,
                        old(self)@.query,
                        old(self)@.case_insensitive,
                        old(self)@.compiled,
                        old(self)@.whole_word,
                    ).len(),
                ),
                replacing: false,
                ..old(self)@
            }),
            final(self).wf(),
    {
        let ghost m = self@;
        let mut ranges: Vec<Range<usize>> = Vec::new();
        if self.compiled {
            let text = rope_text(&self.text);
            let found = find_literal_matches(self.query_text.as_str(), self.case_insensitive, text.as_str());
            proof {
                reveal(literal_occurrences);
                assert(literal_occurrences(m.query, m.case_insensitive, m.compiled, m.text));
            }
            let mut i: usize = 0;
            while i < found.len()
                invariant
                    i <= found@.len(),
                    text@ == m.text,
                    found@ == literal_matches(m.query, m.case_insensitive, m.text),
                    matches_well_formed(found@, m.text),
                    self.whole_word == m.whole_word,
                    ranges@ == filter_matches(found@.subrange(0, i as int), m.text, m.whole_word),
                decreases found@.len() - i,
            {
                let (start, end) = found[i];
                assert(found@.subrange(0, i + 1).drop_last() =~= found@.subrange(0, i as int));
                if !self.whole_word || whole_word_range(text.as_str(), start, end) {
                    ranges.push(start..end);
                }
                i += 1;
            }
            assert(found@.subrange(0, found@.len() as int) =~= found@);
        } else {
            proof {
                reveal(literal_occurrences);
            }
        }
        let len = ranges.len();
        self.matched_ranges = Rc::new(ranges);
        if !self.replacing || len == 0 {
            self.current_match_ix = 0;
        } else if self.current_match_ix >= len {
            self.current_match_ix = len - 1;
        }
        self.replacing = false;
    }

    /// Update the source text and recompute matches.
    pub fn update(&mut self, text: &Rope)
        requires
            old(self).wf(),
        ensures
            final(self).wf(),
            final(self)@ == retext_view(old(self)@, rope_chars(*text)),
    {
        if rope_eq(&self.text, text) {
            self.replacing = false;
            return;
        }
        self.text = rope_clone(text);
        self.update_matches();
    }

    pub fn update_query(&mut self, query: &str, case_insensitive: bool)
        requires
            old(self).wf(),
        ensures
            final(self).wf(),
            if old(self)@.query == query@ && old(self)@.case_insensitive == case_insensitive {
                final(self)@ == old(self)@
            } else {
                final(self)@ == requery_view(old(self)@, query@, case_insensitive)
            },
    {
        if self.query_text == query.to_owned() && self.case_insensitive == case_insensitive {
            return;
        }
        self.query_text = query.to_owned();
        self.case_insensitive = case_insensitive;
        self.error = None;
        if query.is_empty() {
            self.compiled = false;
        } else {
            match compile_literal_query(query, case_insensitive) {
                None => {
                    self.compiled = true;
                },
                Some(message) => {
                    self.error = Some(too_large(message));
                    self.compiled = false;
                },
            }
        }
        self.update_matches();
    }

    /// Require no Unicode word character immediately outside either end of
    /// the literal, including punctuation-containing literals.
    pub fn set_whole_word(&mut self, whole_word: bool)
        requires
            old(self).wf(),
        ensures
            final(self).wf(),
            if old(self)@.whole_word == whole_word {
                final(self)@ == old(self)@
            } else {
                let ranges = match_ranges_spec(
                    old(self)@.text,
                    old(self)@.query,
                    old(self)@.case_insensitive,
                    old(self)@.compiled,
                    whole_word,
                );
                final(self)@ == (MatcherView {
                    whole_word,
                    ranges,
                    current: index_after_update(old(self)@.current, old(self)@.replacing, ranges.len()),
                    replacing: false,
                    ..old(self)@
                })
            },
    {
        if self.whole_word == whole_word {
            return;
        }
        self.whole_word = whole_word;
        self.update_matches();
    }

    /// A failed query compilation clears matches and exposes a displayable error.
    pub fn error(&self) -> (r: Option<&str>)
        ensures
            match r {
                Some(e) => self@.error == Some(e@),
                None => self@.error is None,
            },
    {
        match &self.error {
            Some(e) => Some(e.as_str()),
            None => None,
        }
    }

    pub fn matched_ranges(&self) -> (r: Rc<Vec<Range<usize>>>)
        ensures
            (*r)@ == self@.ranges,
    {
        share_ranges(&self.matched_ranges)
    }

    pub fn current_match_index(&self) -> (r: usize)
        ensures
            r == self@.current,
    {
        self.current_match_ix
    }

    pub fn len(&self) -> (r: usize)
        ensures
            r == self@.ranges.len(),
    {
        self.matched_ranges.len()
    }

    pub fn is_empty(&self) -> (r: bool)
        ensures
            r == (self@.ranges.len() == 0),
    {
        self.matched_ranges.len() == 0
    }

    /// "position/total" of the current match, or "0/0" without matches.
    pub fn label(&self) -> (r: String)
        requires
            self.wf(),
        ensures
            self@.ranges.len() == 0 ==> r@ == seq!['0', '/', '0'],
            self@.ranges.len() > 0 ==> r@ == decimal((self@.current + 1) as nat) + seq!['/']
                + decimal(self@.ranges.len()),
    {
        let n = self.len();
        if n == 0 {
            no_matches_label()
        } else {
            format_position(self.current_match_ix + 1, n)
        }
    }

    pub fn has_next_without_wrap(&self) -> (r: bool)
        ensures
            r == (self@.current + 1 < self@.ranges.len()),
    {
        let len = self.matched_ranges.len();
        let last = if len == 0 {
            0
        } else {
            len - 1
        };
        self.current_match_ix < last
    }

    pub fn update_cursor_by_offset(&mut self, offset: usize)
        requires
            old(self).wf(),
        ensures
            final(self).wf(),
            final(self)@ == cursor_view(old(self)@, offset),
    {
        let ghost r = self@.ranges;
        let mut i: usize = 0;
        let n = self.matched_ranges.len();
        while i < n
            invariant
                n == r.len(),
                r == (*self.matched_ranges)@,
                self@ == old(self)@,
                matcher_wf(old(self)@),
                i <= n,
                forall|j: int|
                    0 <= j < i ==> !((#[trigger] r[j]).start <= offset < r[j].end || r[j].start
                        >= offset),
            decreases n - i,
        {
            let range = &self.matched_ranges[i];
            if (range.start <= offset && offset < range.end) || range.start >= offset {
                proof {
                    let k = choose|k: int|
                        0 <= k < r.len() && ((#[trigger] r[k]).start <= offset < r[k].end
                            || r[k].start >= offset) && forall|j: int|
                            0 <= j < k ==> !((#[trigger] r[j]).start <= offset < r[j].end
                                || r[j].start >= offset);
                    assert(k == i) by {
                        if k < i {
                        } else if k > i {
                        }
                    }
                }
                self.current_match_ix = i;
                assert(self@ == (MatcherView { current: i, ..old(self)@ }));
                assert(old(self)@.ranges.len() > 0);
                return;
            }
            i += 1;
        }
        self.current_match_ix = 0;
    }

    /// Preserve the current logical match while a replacement mutates text.
    pub fn begin_replacement(&mut self)
        requires
            old(self).wf(),
        ensures
            final(self).wf(),
            final(self)@ == (MatcherView { replacing: true, ..old(self)@ }),
    {
        self.replacing = true;
    }

    pub fn set_current_match_index(&mut self, index: usize)
        requires
            old(self).wf(),
        ensures
            final(self).wf(),
            final(self)@ == (MatcherView {
                current: if old(self)@.ranges.len() == 0 {
                    0
                } else if index < old(self)@.ranges.len() {
                    index
                } else {
                    (old(self)@.ranges.len() - 1) as usize
                },
                ..old(self)@
            }),
    {
        let len = self.matched_ranges.len();
        let last = if len == 0 {
            0
        } else {
            len - 1
        };
        self.current_match_ix = if index < last {
            index
        } else {
            last
        };
    }

    /// Move to the next match, wrapping to the first.
    pub fn next(&mut self) -> (r: Option<Range<usize>>)
        requires
            old(self).wf(),
        ensures
            final(self).wf(),
            old(self)@.ranges.len() <= usize::MAX,
            old(self)@.ranges.len() == 0 ==> r is None && final(self)@ == old(self)@,
            old(self)@.ranges.len() > 0 ==> {
                let ix = next_index_spec(old(self)@.current, old(self)@.ranges.len());
                &&& final(self)@ == (MatcherView { current: ix, ..old(self)@ })
                &&& r matches Some(range) && range == old(self)@.ranges[ix as int]
            },
    {
        let len = self.matched_ranges.len();
        if len == 0 {
            return None;
        }
        let ix = if self.current_match_ix + 1 < len {
            self.current_match_ix + 1
        } else {
            0
        };
        self.current_match_ix = ix;
        Some(copy_range(&self.matched_ranges[ix]))
    }

    /// Move to the previous match, wrapping to the last.
    pub fn next_back(&mut self) -> (r: Option<Range<usize>>)
        requires
            old(self).wf(),
        ensures
            final(self).wf(),
            old(self)@.ranges.len() <= usize::MAX,
            old(self)@.ranges.len() == 0 ==> r is None && final(self)@ == old(self)@,
            old(self)@.ranges.len() > 0 ==> {
                let ix = prev_index_spec(old(self)@.current, old(self)@.ranges.len());
                &&& final(self)@ == (MatcherView { current: ix, ..old(self)@ })
                &&& r matches Some(range) && range == old(self)@.ranges[ix as int]
            },
    {
        let len = self.matched_ranges.len();
        if len == 0 {
            return None;
        }
        if self.current_match_ix == 0 {
            self.current_match_ix = len;
        }
        self.current_match_ix = self.current_match_ix - 1;
        Some(copy_range(&self.matched_ranges[self.current_match_ix]))
    }

    /// The current match, if there is one.
    pub fn current_range(&self) -> (r: Option<Range<usize>>)
        requires
            self.wf(),
        ensures
            self@.ranges.len() == 0 ==> r is None,
            self@.ranges.len() > 0 ==> (r matches Some(range) && range == self@.ranges[self@.current as int]),
    {
        if self.current_match_ix < self.matched_ranges.len() {
            Some(copy_range(&self.matched_ranges[self.current_match_ix]))
        } else {
            None
        }
    }

    /// The index of the first match starting at or after an offset, or zero.
    pub fn first_index_from(&self, offset: usize) -> (r: usize)
        ensures
            r == first_from_spec(self@.ranges, offset),
            self@.ranges.len() > 0 ==> r < self@.ranges.len(),
    {
        let n = self.matched_ranges.len();
        let mut i: usize = 0;
        while i < n
            invariant
                n == self@.ranges.len(),
                i <= n,
                forall|j: int| 0 <= j < i ==> (#[trigger] self@.ranges[j]).start < offset,
            decreases n - i,
        {
            if self.matched_ranges[i].start >= offset {
                proof {
                    let r = self@.ranges;
                    let k = choose|k: int|
                        0 <= k < r.len() && (#[trigger] r[k]).start >= offset && forall|j: int|
                            0 <= j < k ==> (#[trigger] r[j]).start < offset;
                    assert(k == i) by {
                        if k < i {
                        } else if k > i {
                        }
                    }
                }
                return i;
            }
            i += 1;
        }
        0
    }
}


/// The find/replace state of one input: options, texts and the matcher.
#[derive(Debug, Clone)]
pub struct SearchSession {
    pub open: bool,
    pub replace_mode: bool,
    pub case_insensitive: bool,
    pub whole_word: bool,
    /// Changes only when an explicit Find/Replace command requests focus.
    pub focus_revision: u64,
    pub query: String,
    pub replacement: String,
    pub anchor_offset: Option<usize>,
    pub matcher: SearchMatcher,
}

impl Default for SearchSession {
    fn default() -> (s: Self)
        ensures
            !s.open,
            !s.replace_mode,
            s.case_insensitive,
            !s.whole_word,
            s.focus_revision == 0,
            s.query@.len() == 0,
            s.replacement@.len() == 0,
            s.anchor_offset is None,
            s.matcher.wf(),
            fresh_matcher(s.matcher@),
    {
        SearchSession {
            open: false,
            replace_mode: false,
            case_insensitive: true,
            whole_word: false,
            focus_revision: 0,
            query: String::new(),
            replacement: String::new(),
            anchor_offset: None,
            matcher: SearchMatcher::new(),
        }
    }
}

/// The revision after a focus request: one more, wrapping at the top.
pub open spec fn next_revision(r: u64) -> u64 {
    if r == u64::MAX {
        0
    } else {
        (r + 1) as u64
    }
}

impl SearchSession {
    /// Open the panel; replacing is only possible where the input allows it.
    pub fn open(&mut self, replace_mode: bool, replaceable: bool)
        ensures
            *final(self) == (SearchSession {
                open: true,
                focus_revision: next_revision(old(self).focus_revision),
                replace_mode: replace_mode && replaceable,
                ..*old(self)
            }),
    {
        self.open = true;
        self.focus_revision = if self.focus_revision == u64::MAX {
            0
        } else {
            self.focus_revision + 1
        };
        self.replace_mode = replace_mode && replaceable;
    }

    pub fn close(&mut self)
        ensures
            *final(self) == (SearchSession { open: false, ..*old(self) }),
    {
        self.open = false;
    }

    /// Store the query and its case option and rematch.
    pub fn update_query(&mut self, query: &str, case_insensitive: bool)
        requires
            old(self).matcher.wf(),
        ensures
            final(self).query@ == query@,
            final(self).case_insensitive == case_insensitive,
            final(self).matcher.wf(),
            old(self).matcher@.query == query@ && old(self).matcher@.case_insensitive
                == case_insensitive ==> final(self).matcher@ == old(self).matcher@,
            !(old(self).matcher@.query == query@ && old(self).matcher@.case_insensitive
                == case_insensitive) ==> final(self).matcher@ == requery_view(
                old(self).matcher@,
                query@,
                case_insensitive,
            ),
            final(self).open == old(self).open,
            final(self).replace_mode == old(self).replace_mode,
            final(self).whole_word == old(self).whole_word,
            final(self).focus_revision == old(self).focus_revision,
            final(self).replacement == old(self).replacement,
            final(self).anchor_offset == old(self).anchor_offset,
    {
        self.query = query.to_owned();
        self.case_insensitive = case_insensitive;
        self.matcher.update_query(query, case_insensitive);
    }
}


/// Every kept match is one of the found matches, and a whole word when asked.
proof fn lemma_filter_members(m: Seq<(usize, usize)>, text: Seq<char>, whole_word: bool, i: int)
    requires
        0 <= i < filter_matches(m, text, whole_word).len(),
    ensures
        exists|j: int|
            0 <= j < m.len() && (#[trigger] m[j]).0 == filter_matches(m, text, whole_word)[i].start
                && m[j].1 == filter_matches(m, text, whole_word)[i].end,
        whole_word ==> whole_word_spec(
            text,
            filter_matches(m, text, whole_word)[i].start,
            filter_matches(m, text, whole_word)[i].end,
        ),
    decreases m.len(),
{
    let rest = filter_matches(m.drop_last(), text, whole_word);
    if i < rest.len() {
        lemma_filter_members(m.drop_last(), text, whole_word, i);
        let j = choose|j: int|
            0 <= j < m.drop_last().len() && (#[trigger] m.drop_last()[j]).0 == rest[i].start
                && m.drop_last()[j].1 == rest[i].end;
        assert(m[j] == m.drop_last()[j]);
    } else {
        assert(m[m.len() - 1] == m.last());
    }
}

/// Kept matches keep the order of the found ones: each ends before the next starts.
proof fn lemma_filter_ordered(m: Seq<(usize, usize)>, text: Seq<char>, whole_word: bool)
    requires
        matches_well_formed(m, text),
    ensures
        forall|i: int, j: int|
            0 <= i < j < filter_matches(m, text, whole_word).len() ==> (#[trigger] filter_matches(
                m,
                text,
                whole_word,
            )[i]).end <= (#[trigger] filter_matches(m, text, whole_word)[j]).start,
        forall|i: int|
            0 <= i < filter_matches(m, text, whole_word).len() ==> (#[trigger] filter_matches(
                m,
                text,
                whole_word,
            )[i]).start <= filter_matches(m, text, whole_word)[i].end <= encode_utf8(text).len(),
        m.len() > 0 ==> forall|i: int|
            0 <= i < filter_matches(m, text, whole_word).len() ==> (#[trigger] filter_matches(
                m,
                text,
                whole_word,
            )[i]).end <= m.last().1,
    decreases m.len(),
{
    if m.len() > 0 {
        let d = m.drop_last();
        assert(matches_well_formed(d, text)) by {
            assert forall|i: int| 0 <= i < d.len() implies #[trigger] d[i] == m[i] by {}
        }
        lemma_filter_ordered(d, text, whole_word);
        let rest = filter_matches(d, text, whole_word);
        let f = filter_matches(m, text, whole_word);
        assert forall|i: int| 0 <= i < rest.len() implies (#[trigger] rest[i]).end <= m.last().0 by {
            lemma_filter_members(d, text, whole_word, i);
            let j = choose|j: int|
                0 <= j < d.len() && (#[trigger] d[j]).0 == rest[i].start && d[j].1 == rest[i].end;
            assert(m[j] == d[j]);
            assert(m[j].1 <= m[m.len() - 1].0);
        }
        assert(m[m.len() - 1] == m.last());
    }
}

/// Found matches lie in the text, in order and without overlapping; with
/// whole-word search on, no word character touches either end of a match.
pub proof fn lemma_matches_ordered_whole_words(m: MatcherView)
    requires
        matcher_wf(m),
    ensures
        forall|i: int|
            0 <= i < m.ranges.len() ==> (#[trigger] m.ranges[i]).start <= m.ranges[i].end
                <= encode_utf8(m.text).len(),
        forall|i: int, j: int|
            0 <= i < j < m.ranges.len() ==> (#[trigger] m.ranges[i]).end <= (
            #[trigger] m.ranges[j]).start,
        m.whole_word ==> forall|i: int|
            0 <= i < m.ranges.len() ==> whole_word_spec(
                m.text,
                (#[trigger] m.ranges[i]).start,
                m.ranges[i].end,
            ),
        forall|i: int|
            0 <= i < m.ranges.len() ==> char_boundary(
                encode_utf8(m.text),
                (#[trigger] m.ranges[i]).start as int,
            ) && char_boundary(encode_utf8(m.text), m.ranges[i].end as int),
{
    if m.compiled {
        let found = literal_matches(m.query, m.case_insensitive, m.text);
        lemma_filter_ordered(found, m.text, m.whole_word);
        assert forall|i: int| 0 <= i < m.ranges.len() implies char_boundary(
            encode_utf8(m.text),
            (#[trigger] m.ranges[i]).start as int,
        ) && char_boundary(encode_utf8(m.text), m.ranges[i].end as int) by {
            lemma_filter_members(found, m.text, m.whole_word, i);
        }
        assert forall|i: int| 0 <= i < m.ranges.len() && m.whole_word implies whole_word_spec(
            m.text,
            (#[trigger] m.ranges[i]).start,
            m.ranges[i].end,
        ) by {
            lemma_filter_members(found, m.text, m.whole_word, i);
        }
    }
}

/// Moving to the next match and back returns to the match one started from.
pub proof fn lemma_next_then_back(current: usize, len: nat)
    requires
        current < len,
        len <= usize::MAX,
    ensures
        prev_index_spec(next_index_spec(current, len), len) == current,
{
}

/// Moving to the previous match and forward returns to the match one started from.
pub proof fn lemma_back_then_next(current: usize, len: nat)
    requires
        current < len,
        len <= usize::MAX,
    ensures
        next_index_spec(prev_index_spec(current, len), len) == current,
{
}

/// Each listed leftmost occurrence holds the bytes of `p`.
proof fn lemma_leftmost_hold(h: Seq<u8>, p: Seq<u8>, i: int)
    requires
        h.len() <= usize::MAX,
    ensures
        forall|k: int| 0 <= k < leftmost_occurrences(h, p, i).len() ==> {
            let o = #[trigger] leftmost_occurrences(h, p, i)[k];
            &&& i <= o.0
            &&& o.0 + p.len() == o.1 <= h.len()
            &&& h.subrange(o.0 as int, o.1 as int) == p
        },
    decreases h.len() - i,
{
    if !(p.len() == 0 || i < 0 || i + p.len() > h.len()) {
        if h.subrange(i, i + p.len()) == p {
            lemma_leftmost_hold(h, p, i + p.len());
            let head = seq![(i as usize, (i + p.len()) as usize)];
            let rest = leftmost_occurrences(h, p, i + p.len());
            assert(leftmost_occurrences(h, p, i) == head + rest);
            assert forall|k: int| 0 <= k < (head + rest).len() implies {
                let o = #[trigger] (head + rest)[k];
                &&& i <= o.0
                &&& o.0 + p.len() == o.1 <= h.len()
                &&& h.subrange(o.0 as int, o.1 as int) == p
            } by {
                if k > 0 {
                    assert((head + rest)[k] == rest[k - 1]);
                } else {
                    assert((head + rest)[0] == (i as usize, (i + p.len()) as usize));
                }
            }
        } else {
            lemma_leftmost_hold(h, p, i + 1);
            assert(leftmost_occurrences(h, p, i) == leftmost_occurrences(h, p, i + 1));
        }
    }
}

/// Without the whole-word option every match is kept, as a range.
proof fn lemma_filter_keeps_all(ms: Seq<(usize, usize)>, text: Seq<char>)
    ensures
        filter_matches(ms, text, false).len() == ms.len(),
        forall|k: int| 0 <= k < ms.len() ==> (#[trigger] filter_matches(ms, text, false)[k]).start == ms[k].0
            && filter_matches(ms, text, false)[k].end == ms[k].1,
    decreases ms.len(),
{
    if ms.len() > 0 {
        lemma_filter_keeps_all(ms.drop_last(), text);
        let rest = filter_matches(ms.drop_last(), text, false);
        assert forall|k: int| 0 <= k < ms.len() implies (#[trigger] filter_matches(ms, text, false)[k]).start == ms[k].0
            && filter_matches(ms, text, false)[k].end == ms[k].1 by {
            if k < ms.len() - 1 {
                assert(filter_matches(ms, text, false)[k] == rest[k]);
                assert(ms.drop_last()[k] == ms[k]);
            }
        }
    }
}

/// A case-sensitive search shows the query's leftmost occurrences in the
/// text, each search resuming where the previous occurrence ends (those that
/// stand as whole words, with that option): every match holds the query's
/// bytes, and without the option every such occurrence is a match.
pub proof fn lemma_case_sensitive_matches(m: MatcherView)
    requires
        matcher_wf(m),
        m.compiled,
        !m.case_insensitive,
        m.query.len() > 0,
        encode_utf8(m.text).len() <= usize::MAX,
    ensures
        ({
            let occ = leftmost_occurrences(encode_utf8(m.text), encode_utf8(m.query), 0);
            &&& m.ranges == filter_matches(occ, m.text, m.whole_word)
            &&& forall|k: int| 0 <= k < occ.len() ==> encode_utf8(m.text).subrange(
                (#[trigger] occ[k]).0 as int,
                occ[k].1 as int,
            ) == encode_utf8(m.query)
            &&& !m.whole_word ==> m.ranges.len() == occ.len() && forall|k: int|
                0 <= k < occ.len() ==> (#[trigger] m.ranges[k]).start == occ[k].0 && m.ranges[k].end == occ[k].1
        }),
{
    reveal(literal_occurrences);
    let occ = leftmost_occurrences(encode_utf8(m.text), encode_utf8(m.query), 0);
    lemma_leftmost_hold(encode_utf8(m.text), encode_utf8(m.query), 0);
    lemma_filter_keeps_all(occ, m.text);
}

/// A match the filter finds as a whole word is kept.
proof fn lemma_filter_keeps_whole_words(m: Seq<(usize, usize)>, text: Seq<char>, whole_word: bool, j: int)
    requires
        0 <= j < m.len(),
        !whole_word || whole_word_spec(text, m[j].0, m[j].1),
    ensures
        exists|k: int|
            0 <= k < filter_matches(m, text, whole_word).len() && (#[trigger] filter_matches(m, text, whole_word)[k]).start
                == m[j].0 && filter_matches(m, text, whole_word)[k].end == m[j].1,
    decreases m.len(),
{
    let rest = filter_matches(m.drop_last(), text, whole_word);
    if j < m.len() - 1 {
        assert(m.drop_last()[j] == m[j]);
        lemma_filter_keeps_whole_words(m.drop_last(), text, whole_word, j);
        let k = choose|k: int|
            0 <= k < rest.len() && (#[trigger] rest[k]).start == m[j].0 && rest[k].end == m[j].1;
        assert(filter_matches(m, text, whole_word)[k] == rest[k]);
    } else {
        assert(m.last() == m[j]);
        assert(filter_matches(m, text, whole_word)[rest.len() as int] == (Range { start: m[j].0, end: m[j].1 }));
    }
}

/// With the whole-word option on, the matcher shows exactly the literal's
/// matches whose neighbours are no word characters: the character just
/// before a shown match and the one just after it are neither an ASCII
/// letter, an ASCII digit or `_`, nor a non-ASCII character of the Unicode
/// `\w` class; and every match of the literal with such neighbours is shown.
pub proof fn lemma_whole_word_matches(m: MatcherView)
    requires
        matcher_wf(m),
        m.compiled,
        m.whole_word,
    ensures
        forall|k: int|
            0 <= k < m.ranges.len() ==> {
                &&& (char_before_spec(m.text, (#[trigger] m.ranges[k]).start as int) matches Some(c) ==> !(('a' <= c
                    <= 'z') || ('A' <= c <= 'Z') || ('0' <= c <= '9') || c == '_' || ((c as u32) >= 128
                    && unicode_word(c))))
                &&& (char_after_spec(m.text, m.ranges[k].end as int) matches Some(c) ==> !(('a' <= c <= 'z') || (
                'A' <= c <= 'Z') || ('0' <= c <= '9') || c == '_' || ((c as u32) >= 128 && unicode_word(c))))
            },
        forall|j: int|
            0 <= j < literal_matches(m.query, m.case_insensitive, m.text).len() && ({
                let f = #[trigger] literal_matches(m.query, m.case_insensitive, m.text)[j];
                &&& (char_before_spec(m.text, f.0 as int) matches Some(c) ==> !(('a' <= c <= 'z') || ('A' <= c
                    <= 'Z') || ('0' <= c <= '9') || c == '_' || ((c as u32) >= 128 && unicode_word(c))))
                &&& (char_after_spec(m.text, f.1 as int) matches Some(c) ==> !(('a' <= c <= 'z') || ('A' <= c
                    <= 'Z') || ('0' <= c <= '9') || c == '_' || ((c as u32) >= 128 && unicode_word(c))))
            }) ==> exists|k: int|
                0 <= k < m.ranges.len() && (#[trigger] m.ranges[k]).start == literal_matches(
                    m.query,
                    m.case_insensitive,
                    m.text,
                )[j].0 && m.ranges[k].end == literal_matches(m.query, m.case_insensitive, m.text)[j].1,
{
    let found = literal_matches(m.query, m.case_insensitive, m.text);
    assert forall|k: int| 0 <= k < m.ranges.len() implies {
        &&& (char_before_spec(m.text, (#[trigger] m.ranges[k]).start as int) matches Some(c) ==> !(('a' <= c <= 'z')
            || ('A' <= c <= 'Z') || ('0' <= c <= '9') || c == '_' || ((c as u32) >= 128 && unicode_word(c))))
        &&& (char_after_spec(m.text, m.ranges[k].end as int) matches Some(c) ==> !(('a' <= c <= 'z') || ('A' <= c
            <= 'Z') || ('0' <= c <= '9') || c == '_' || ((c as u32) >= 128 && unicode_word(c))))
    } by {
        lemma_filter_members(found, m.text, true, k);
    }
    assert forall|j: int|
        0 <= j < found.len() && ({
            let f = #[trigger] found[j];
            &&& (char_before_spec(m.text, f.0 as int) matches Some(c) ==> !(('a' <= c <= 'z') || ('A' <= c <= 'Z')
                || ('0' <= c <= '9') || c == '_' || ((c as u32) >= 128 && unicode_word(c))))
            &&& (char_after_spec(m.text, f.1 as int) matches Some(c) ==> !(('a' <= c <= 'z') || ('A' <= c <= 'Z')
                || ('0' <= c <= '9') || c == '_' || ((c as u32) >= 128 && unicode_word(c))))
        }) implies exists|k: int|
        0 <= k < m.ranges.len() && (#[trigger] m.ranges[k]).start == found[j].0 && m.ranges[k].end == found[j].1 by {
        lemma_filter_keeps_whole_words(found, m.text, true, j);
    }
}

} // verus!
