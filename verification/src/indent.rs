//! Enter over a parsed syntax tree: the indentation of the new line, and of
//! the line after it where the caret stands before the closer of what the
//! line opens. Uncertainty (a stale tree, an exhausted lookup budget, text
//! inside a string or comment) always means "inherit": no plan.
use crate::comment::{bytes_contains, contains_in, opt_chars};
use crate::syntax::{
    deepest_where, is_comment_spec, is_kind, kind_of, lemma_seek_path_spans, parent_on_path,
    path_in_tree, path_is_code, token_containing, token_containing_spec, tree_wf, SyntaxTree,
    Token, MAX_LINE_BYTES, lemma_encode_ascii,
};
use crate::text::{
    char_boundary, clip_spec, lemma_clip_left_bounds, lemma_line_bounds, lemma_offset_within_row,
    line_end, line_end_in, line_start, line_start_in, newlines_before_in, rope_bytes, rope_chars,
    rope_slice_to_string, rope_text, row_of, str_chars, Bias,
};
use std::ops::Range;
use ropey::Rope;
use vstd::prelude::*;
use vstd::string::{StringExecFns, StringSliceAdditionalSpecFns};
use vstd::utf8::{decode_utf8, encode_utf8};

verus! {

/// What Enter does to indentation: the new line's indentation, and where the
/// caret stood right before the closer of what the line opens, the
/// indentation of one more line that keeps that closer.
#[derive(Debug)]
pub struct NewlineIndent {
    pub indent: String,
    pub closing_indent: Option<String>,
}

impl NewlineIndent {
    /// A plan that only indents the new line.
    pub fn new(indent: String) -> (r: Self)
        ensures
            r.indent@ == indent@,
            r.closing_indent is None,
    {
        NewlineIndent { indent, closing_indent: None }
    }

    /// The same plan, with the closer moved to a line of its own.
    pub fn with_closing_indent(self, closing_indent: String) -> (r: Self)
        ensures
            r.indent@ == self.indent@,
            r.closing_indent matches Some(c) && c@ == closing_indent@,
    {
        NewlineIndent { indent: self.indent, closing_indent: Some(closing_indent) }
    }
}

/// A space or a tab.
pub open spec fn is_blank(b: u8) -> bool {
    b == 32u8 || b == 9u8
}

/// The first offset in `from..to` that does not hold a blank, or `to`.
pub open spec fn skip_blanks(b: Seq<u8>, from: int, to: int) -> int
    decreases to - from,
{
    if from >= to {
        to
    } else if is_blank(b[from]) {
        skip_blanks(b, from + 1, to)
    } else {
        from
    }
}

/// `to` moved back over blanks (and carriage returns, with `cr`), not below `from`.
pub open spec fn trim_blanks_back(b: Seq<u8>, from: int, to: int, cr: bool) -> int
    decreases to - from,
{
    if to <= from {
        to
    } else if is_blank(b[to - 1]) || (cr && b[to - 1] == 13u8) {
        trim_blanks_back(b, from, to - 1, cr)
    } else {
        to
    }
}

/// The text of a byte range.
pub open spec fn text_of(b: Seq<u8>, from: int, to: int) -> Seq<char> {
    decode_utf8(b.subrange(from, to))
}

/// The languages whose grammars the Enter rules know.
pub open spec fn enter_language(l: Seq<char>) -> bool {
    ||| l == "rust"@
    ||| l == "javascript"@
    ||| l == "typescript"@
    ||| l == "tsx"@
    ||| l == "python"@
    ||| l == "json"@
    ||| l == "css"@
    ||| l == "toml"@
    ||| l == "yaml"@
    ||| l == "bash"@
    ||| l == "html"@
}

/// Every node lies within the text, from one character boundary to another.
pub open spec fn tree_fits(t: &SyntaxTree, b: Seq<u8>) -> bool {
    forall|i: int|
        0 <= i < t.nodes@.len() ==> {
            &&& (#[trigger] t.nodes@[i]).start_byte <= t.nodes@[i].end_byte <= b.len()
            &&& char_boundary(b, t.nodes@[i].start_byte as int)
            &&& char_boundary(b, t.nodes@[i].end_byte as int)
        }
}

/// The path to the token that ends at or before `end` and holds the byte
/// before it, when that token is short enough to examine.
pub open spec fn token_before_spec(t: &SyntaxTree, b: Seq<u8>, end: int) -> Option<Seq<usize>> {
    match token_containing_spec(t, b, end) {
        Some(p) => {
            let n = t.nodes@[p.last() as int];
            if n.end_byte <= end && n.end_byte - n.start_byte <= MAX_LINE_BYTES {
                Some(p)
            } else {
                None
            }
        },
        None => None,
    }
}

/// The deepest node on the path whose kind is `a` or `c`.
pub open spec fn deepest_of_kinds(t: &SyntaxTree, path: Seq<usize>, a: Seq<char>, c: Seq<char>) -> Option<usize> {
    deepest_where(t, path, |k: Seq<char>| k == a || k == c)
}

/// The indentation (a byte range of blanks) of the line holding `offset`,
/// up to the offset; none when the line runs too long before it.
pub open spec fn line_indent_spec(b: Seq<u8>, offset: int) -> Option<(int, int)> {
    let start = line_start(b, row_of(b, offset));
    if offset - start > MAX_LINE_BYTES {
        None
    } else {
        Some((start, skip_blanks(b, start, offset)))
    }
}

/// A comment's text opens with `//` or `#`.
pub open spec fn line_comment_opener(b: Seq<u8>, from: int, to: int) -> bool {
    ||| (to - from >= 2 && b[from] == 47u8 && b[from + 1] == 47u8)
    ||| (to - from >= 1 && b[from] == 35u8)
}

/// Past a trailing line comment: the end of the code before it and the
/// token that ends there. A comment that starts on an earlier line, runs past
/// the caret, runs too long or is not a line comment gives none.
pub open spec fn past_comment(t: &SyntaxTree, b: Seq<u8>, path: Seq<usize>, ls: int, caret: int, end: int) -> Option<(int, Seq<usize>)> {
    match deepest_where(t, path, |k: Seq<char>| is_comment_spec(k)) {
        None => Some((end, path)),
        Some(c) => {
            let n = t.nodes@[c as int];
            if n.start_byte < ls || n.end_byte > caret || n.end_byte - n.start_byte > MAX_LINE_BYTES
                || !line_comment_opener(b, n.start_byte as int, n.end_byte as int) {
                None
            } else {
                let e = trim_blanks_back(b, ls, n.start_byte as int, false);
                if e == ls {
                    None
                } else {
                    match token_before_spec(t, b, e) {
                        None => None,
                        Some(p) => Some((e, p)),
                    }
                }
            }
        },
    }
}

/// The token's parent opens a Python compound statement's suite.
pub open spec fn python_suite_spec(t: &SyntaxTree, path: Seq<usize>) -> bool {
    path.len() >= 2 && {
        let k = kind_of(t, path[path.len() - 2]);
        ||| k == "if_statement"@
        ||| k == "elif_clause"@
        ||| k == "else_clause"@
        ||| k == "for_statement"@
        ||| k == "while_statement"@
        ||| k == "function_definition"@
        ||| k == "class_definition"@
        ||| k == "try_statement"@
        ||| k == "except_clause"@
        ||| k == "finally_clause"@
        ||| k == "with_statement"@
        ||| k == "match_statement"@
        ||| k == "case_clause"@
    }
}

/// Unicode's alphabetic-or-numeric property of a character.
pub uninterp spec fn is_alphanumeric_char(c: char) -> bool;

/// `char::is_alphanumeric`: Unicode's alphabetic-or-numeric property, which
/// among ASCII characters holds of the letters and digits alone.
#[verifier::external_body]
fn char_is_alphanumeric(c: char) -> (r: bool)
    ensures
        r == is_alphanumeric_char(c),
        (c as u32) < 128 ==> (r <==> (('a' <= c <= 'z') || ('A' <= c <= 'Z') || ('0' <= c <= '9'))),
{
    c.is_alphanumeric()
}

/// A character that continues a tag name.
pub open spec fn tag_name_char(c: char) -> bool {
    is_alphanumeric_char(c) || c == '-' || c == '_' || c == ':' || c == '.'
}

/// The end of the run of tag-name characters from `i`.
pub open spec fn name_run(cs: Seq<char>, i: int) -> int
    decreases cs.len() - i,
{
    if i < 0 || i >= cs.len() {
        i
    } else if tag_name_char(cs[i]) {
        name_run(cs, i + 1)
    } else {
        i
    }
}

/// Two characters equal but for the case of an ASCII letter.
pub open spec fn same_ignoring_ascii_case(c: char, d: char) -> bool {
    ||| c == d
    ||| ('A' <= c <= 'Z' && c as u32 + 32 == d as u32)
    ||| ('A' <= d <= 'Z' && d as u32 + 32 == c as u32)
}

/// Two strings equal but for the case of ASCII letters.
pub open spec fn chars_equal_ignoring_ascii_case(x: Seq<char>, y: Seq<char>) -> bool {
    x.len() == y.len() && forall|i: int| 0 <= i < x.len() ==> same_ignoring_ascii_case(#[trigger] x[i], y[i])
}

/// Two bytes equal but for the case of an ASCII letter.
pub open spec fn same_byte_ignoring_ascii_case(x: u8, y: u8) -> bool {
    ||| x == y
    ||| (65 <= x <= 90 && x + 32 == y)
    ||| (65 <= y <= 90 && y + 32 == x)
}

/// Two byte strings equal but for the case of ASCII letters.
pub open spec fn bytes_equal_ignoring_ascii_case(x: Seq<u8>, y: Seq<u8>) -> bool {
    x.len() == y.len() && forall|i: int| 0 <= i < x.len() ==> same_byte_ignoring_ascii_case(#[trigger] x[i], y[i])
}

/// The element has no content and so no closing tag (names compared
/// ignoring ASCII case where `fold`).
pub open spec fn void_element(name: Seq<char>, fold: bool) -> bool {
    exists|lit: Seq<char>|
        #[trigger] void_tag(lit) && (if fold {
            chars_equal_ignoring_ascii_case(name, lit)
        } else {
            name == lit
        })
}

/// The names of HTML's void elements.
pub open spec fn void_tag(lit: Seq<char>) -> bool {
    ||| lit == "area"@
    ||| lit == "base"@
    ||| lit == "br"@
    ||| lit == "col"@
    ||| lit == "embed"@
    ||| lit == "hr"@
    ||| lit == "img"@
    ||| lit == "input"@
    ||| lit == "link"@
    ||| lit == "meta"@
    ||| lit == "param"@
    ||| lit == "source"@
    ||| lit == "track"@
    ||| lit == "wbr"@
}

/// The name of the element whose opening tag holds the token, when that
/// element takes a closing tag.
pub open spec fn opening_tag_spec(t: &SyntaxTree, b: Seq<u8>, path: Seq<usize>, language: Seq<char>) -> Option<Seq<char>> {
    match deepest_of_kinds(t, path, "start_tag"@, "jsx_opening_element"@) {
        None => None,
        Some(tag) => {
            let n = t.nodes@[tag as int];
            if n.end_byte - n.start_byte > MAX_LINE_BYTES {
                None
            } else {
                let cs = text_of(b, n.start_byte as int, n.end_byte as int);
                if cs.len() >= 2 && cs[cs.len() - 2] == '/' && cs[cs.len() - 1] == '>' {
                    None
                } else if cs.len() == 0 || cs[0] != '<' {
                    None
                } else {
                    let name = cs.subrange(1, name_run(cs, 1));
                    if name.len() == 0 || void_element(name, language == "html"@) {
                        None
                    } else {
                        Some(name)
                    }
                }
            }
        },
    }
}

/// The languages that close `{`, `[` and `(` for the opener's own kind.
pub open spec fn braces_close(l: Seq<char>) -> bool {
    l == "rust"@ || l == "javascript"@ || l == "typescript"@ || l == "tsx"@ || l == "python"@ || l == "json"@
        || l == "css"@ || l == "yaml"@ || l == "toml"@
}

pub open spec fn brackets_close(l: Seq<char>) -> bool {
    l == "rust"@ || l == "javascript"@ || l == "typescript"@ || l == "tsx"@ || l == "python"@ || l == "json"@
        || l == "yaml"@
}

pub open spec fn parens_close(l: Seq<char>) -> bool {
    l == "rust"@ || l == "javascript"@ || l == "typescript"@ || l == "tsx"@ || l == "python"@ || l == "css"@
}

/// What the token at the end of the line opens: the text that closes it
/// (empty for a block that needs no closer) and the indentation (a byte
/// range) the block's lines start from.
pub open spec fn closer_spec(language: Seq<char>, t: &SyntaxTree, b: Seq<u8>, path: Seq<usize>, ls: int, end: int, ind: (int, int)) -> Option<(Seq<char>, (int, int))> {
    let kind = kind_of(t, path.last());
    if kind == "{"@ && braces_close(language) {
        Some(("}"@, ind))
    } else if kind == "["@ && brackets_close(language) {
        Some(("]"@, ind))
    } else if kind == "["@ && language == "toml"@ && (deepest_of_kinds(t, path, "array"@, "array"@) is Some
        || b.subrange(ls, end).contains(61u8)) {
        Some(("]"@, ind))
    } else if kind == "("@ && parens_close(language) {
        Some((")"@, ind))
    } else if kind == "{"@ && language == "bash"@ && deepest_of_kinds(t, path, "expansion"@, "simple_expansion"@) is None {
        Some(("}"@, ind))
    } else if kind == ":"@ && language == "python"@ && python_suite_spec(t, path) {
        Some((Seq::empty(), ind))
    } else if kind == ":"@ && language == "yaml"@ && deepest_of_kinds(t, path, "block_mapping_pair"@, "block_mapping_pair"@) is Some {
        Some((Seq::empty(), ind))
    } else if (kind == "then"@ || kind == "do"@ || kind == "else"@) && language == "bash"@ {
        Some((Seq::empty(), ind))
    } else if kind == "in"@ && language == "bash"@ {
        Some((Seq::empty(), ind))
    } else if kind == ">"@ && (language == "html"@ || language == "tsx"@) {
        match opening_tag_spec(t, b, path, language) {
            None => None,
            Some(name) => match deepest_of_kinds(t, path, "start_tag"@, "jsx_opening_element"@) {
                None => None,
                Some(tag) => match line_indent_spec(b, t.nodes@[tag as int].start_byte as int) {
                    None => None,
                    Some(tag_indent) => Some(("</"@ + name + ">"@, tag_indent)),
                },
            },
        }
    } else {
        None
    }
}

/// The text after the caret begins with the closer (for HTML, ignoring
/// ASCII case and ending on a character boundary).
pub open spec fn suffix_closes(language: Seq<char>, b: Seq<u8>, from: int, to: int, closer: Seq<char>) -> bool {
    let cb = encode_utf8(closer);
    ||| (to - from >= cb.len() && b.subrange(from, from + cb.len()) == cb)
    ||| (language == "html"@ && to - from >= cb.len() && char_boundary(b.subrange(from, to), cb.len() as int)
        && bytes_equal_ignoring_ascii_case(b.subrange(from, from + cb.len()), cb))
}

/// The closer at `start` is code: the token holding its first character
/// (both characters of `</`) lies outside strings and comments.
pub open spec fn closer_is_code_spec(t: &SyntaxTree, b: Seq<u8>, start: int) -> bool {
    let end = start + if start < b.len() && b[start] == 60u8 { 2int } else { 1int };
    match token_before_spec(t, b, end) {
        Some(p) => path_is_code(t, p),
        None => false,
    }
}

/// Unicode's White_Space property.
pub open spec fn is_white_space(c: char) -> bool {
    let u = c as u32;
    ||| (9 <= u <= 13)
    ||| u == 32
    ||| u == 0x85
    ||| u == 0xA0
    ||| u == 0x1680
    ||| (0x2000 <= u <= 0x200A)
    ||| u == 0x2028
    ||| u == 0x2029
    ||| u == 0x202F
    ||| u == 0x205F
    ||| u == 0x3000
}

/// The first index from `i` that holds no white space, or the end.
pub open spec fn white_front(cs: Seq<char>, i: int) -> int
    decreases cs.len() - i,
{
    if i < 0 || i >= cs.len() {
        cs.len() as int
    } else if is_white_space(cs[i]) {
        white_front(cs, i + 1)
    } else {
        i
    }
}

/// `j` moved back over white space, not below `lo`.
pub open spec fn white_back(cs: Seq<char>, lo: int, j: int) -> int
    decreases j - lo,
{
    if j <= lo {
        lo
    } else if is_white_space(cs[j - 1]) {
        white_back(cs, lo, j - 1)
    } else {
        j
    }
}

/// `j` moved back over semicolons and commas, not below `lo`.
pub open spec fn separators_back(cs: Seq<char>, lo: int, j: int) -> int
    decreases j - lo,
{
    if j <= lo {
        lo
    } else if cs[j - 1] == ';' || cs[j - 1] == ',' {
        separators_back(cs, lo, j - 1)
    } else {
        j
    }
}

/// The bracket a closing bracket closes.
pub open spec fn opener_of(c: char) -> char {
    if c == '}' {
        '{'
    } else if c == ']' {
        '['
    } else {
        '('
    }
}

/// After a line that only closes an element's end tag, the indentation of
/// the line where the element starts.
pub open spec fn end_tag_indent(language: Seq<char>, t: &SyntaxTree, b: Seq<u8>, path: Seq<usize>, ls: int, end: int, ind: (int, int), content: Seq<char>) -> Option<(int, int)> {
    if (language == "html"@ || language == "tsx"@) && content.len() >= 2 && content[0] == '<' && content[1] == '/'
        && content.last() == '>' {
        match deepest_of_kinds(t, path, "end_tag"@, "jsx_closing_element"@) {
            None => None,
            Some(tag) => {
                let n = t.nodes@[tag as int];
                if n.start_byte == ls + (ind.1 - ind.0) && n.end_byte == end {
                    match parent_on_path(path, tag, 0) {
                        None => None,
                        Some(el) => if t.nodes@[el as int].start_byte < ls {
                            line_indent_spec(b, t.nodes@[el as int].start_byte as int)
                        } else {
                            None
                        },
                    }
                } else {
                    None
                }
            },
        }
    } else {
        None
    }
}

/// After a line that only closes a bracket (or an element), the indentation
/// of the line that opened it: the closer's own whitespace is left alone.
pub open spec fn closing_line_indent(language: Seq<char>, t: &SyntaxTree, b: Seq<u8>, path: Seq<usize>, ls: int, end: int, ind: (int, int)) -> Option<(int, int)> {
    let cs = text_of(b, ls, end);
    let lo = white_front(cs, 0);
    let hi = white_back(cs, lo, cs.len() as int);
    let content = cs.subrange(lo, hi);
    let close_hi = separators_back(cs, lo, hi);
    if close_hi - lo == 1 && (cs[lo] == '}' || cs[lo] == ']' || cs[lo] == ')') {
        match token_before_spec(t, b, ls + (ind.1 - ind.0) + 1) {
            None => None,
            Some(cp) => if kind_of(t, cp.last()) != seq![cs[lo]] || cp.len() < 2 {
                None
            } else {
                match t.nodes@[cp[cp.len() - 2] as int].first_child {
                    None => None,
                    Some(f) => if kind_of(t, f) == seq![opener_of(cs[lo])] && t.nodes@[f as int].start_byte < ls {
                        line_indent_spec(b, t.nodes@[f as int].start_byte as int)
                    } else {
                        end_tag_indent(language, t, b, path, ls, end, ind, content)
                    },
                }
            },
        }
    } else {
        end_tag_indent(language, t, b, path, ls, end, ind, content)
    }
}

/// Once the token at the end of the line is known: indent a block it opens
/// one unit deeper (moving a closer right after the caret to its own line),
/// or, after a closing-only line, go back to the opener's indentation.
pub open spec fn indent_after(language: Seq<char>, t: &SyntaxTree, b: Seq<u8>, caret_end: int, ls: int, le: int, ind: (int, int), end: int, path: Seq<usize>, unit: Seq<char>) -> Option<(Seq<char>, Option<Seq<char>>)> {
    match closer_spec(language, t, b, path, ls, end, ind) {
        Some((closer, block)) => {
            let base = text_of(b, block.0, block.1);
            let indent = base + if base.contains('\t') { "\t"@ } else { unit };
            let suffix = skip_blanks(b, caret_end, le);
            if closer.len() > 0 && suffix_closes(language, b, suffix, le, closer) && closer_is_code_spec(t, b, suffix) {
                Some((indent, Some(base)))
            } else {
                Some((indent, None))
            }
        },
        None => match closing_line_indent(language, t, b, path, ls, end, ind) {
            None => None,
            Some(r) => Some((text_of(b, r.0, r.1), None)),
        },
    }
}

/// The indentation plan for Enter over the selection `start..end`, as the
/// new line's indentation and the closer line's, if any.
pub open spec fn newline_indent_spec(language: Seq<char>, tree: Option<&SyntaxTree>, b: Seq<u8>, start: int, end: int, unit: Seq<char>) -> Option<(Seq<char>, Option<Seq<char>>)> {
    match tree {
        None => None,
        Some(t) => if t.has_changes || !enter_language(language) {
            None
        } else {
            let ls = line_start(b, row_of(b, start));
            let le = line_end(b, row_of(b, end));
            if start - ls > MAX_LINE_BYTES || le - end > MAX_LINE_BYTES {
                None
            } else {
                let ind = (ls, skip_blanks(b, ls, start));
                let code_end = trim_blanks_back(b, ls, start, true);
                if code_end == ls {
                    None
                } else {
                    match token_before_spec(t, b, code_end) {
                        None => None,
                        Some(p0) => match past_comment(t, b, p0, ls, start, code_end) {
                            None => None,
                            Some((e, p)) => if !path_is_code(t, p) {
                                None
                            } else {
                                indent_after(language, t, b, end, ls, le, ind, e, p, unit)
                            },
                        },
                    }
                }
            }
        },
    }
}

// ---------------------------------------------------------------------------
// Executable steps.

pub(crate) fn skip_blanks_in(b: &[u8], from: usize, to: usize) -> (r: usize)
    requires
        from <= to <= b@.len(),
    ensures
        r == skip_blanks(b@, from as int, to as int),
        from <= r <= to,
{
    let mut i = from;
    while i < to && (b[i] == 32u8 || b[i] == 9u8)
        invariant
            from <= i <= to <= b@.len(),
            skip_blanks(b@, from as int, to as int) == skip_blanks(b@, i as int, to as int),
        decreases to - i,
    {
        i += 1;
    }
    i
}

fn trim_blanks_back_in(b: &[u8], from: usize, to: usize, cr: bool) -> (r: usize)
    requires
        to <= b@.len(),
    ensures
        r == trim_blanks_back(b@, from as int, to as int, cr),
        r <= to,
        from <= to ==> from <= r,
{
    let mut j = to;
    while j > from && (b[j - 1] == 32u8 || b[j - 1] == 9u8 || (cr && b[j - 1] == 13u8))
        invariant
            j <= to <= b@.len(),
            from <= to ==> from <= j,
            trim_blanks_back(b@, from as int, to as int, cr) == trim_blanks_back(b@, from as int, j as int, cr),
        decreases j,
    {
        j -= 1;
    }
    j
}

/// The indentation of the line holding `offset`, up to the offset.
fn line_indent_in(b: &[u8], offset: usize) -> (r: Option<(usize, usize)>)
    requires
        offset <= b@.len(),
    ensures
        match r {
            Some((x, y)) => line_indent_spec(b@, offset as int) == Some((x as int, y as int)) && x <= y <= offset,
            None => line_indent_spec(b@, offset as int) is None,
        },
{
    let row = newlines_before_in(b, offset);
    let start = line_start_in(b, row);
    proof {
        crate::text::lemma_line_start_of_row(b@, offset as int);
    }
    if offset - start > MAX_LINE_BYTES {
        None
    } else {
        Some((start, skip_blanks_in(b, start, offset)))
    }
}

/// The token that ends at or before `end` and holds the byte before it,
/// when it is short enough to examine.
pub fn token_before(tree: &SyntaxTree, text: &Rope, end: usize) -> (r: Option<Token>)
    requires
        tree_wf(tree),
    ensures
        match r {
            Some(k) => token_before_spec(tree, rope_bytes(*text), end as int) == Some(k.path@) && k.path@.len() > 0
                && path_in_tree(tree, k.path@),
            None => token_before_spec(tree, rope_bytes(*text), end as int) is None,
        },
{
    let token = match token_containing(tree, text, end) {
        Some(k) => k,
        None => {
            return None;
        },
    };
    let ghost start = clip_spec(rope_bytes(*text), if end >= 1 { end - 1 } else { 0 }, Bias::Left);
    let _count = tree.nodes.len();
    proof {
        lemma_seek_path_spans(tree, start, end as int, 0, Seq::empty(), 0);
        lemma_clip_left_bounds(rope_bytes(*text), if end >= 1 { end - 1 } else { 0 });
        assert(path_in_tree(tree, token.path@));
    }
    let node = &tree.nodes[token.node()];
    if node.end_byte <= end && node.end_byte - node.start_byte <= MAX_LINE_BYTES {
        Some(token)
    } else {
        None
    }
}

/// The text of a byte range that starts and ends on character boundaries.
pub(crate) fn text_in(text: &Rope, from: usize, to: usize) -> (r: String)
    requires
        from <= to <= rope_bytes(*text).len(),
        char_boundary(rope_bytes(*text), from as int),
        char_boundary(rope_bytes(*text), to as int),
    ensures
        r@ == text_of(rope_bytes(*text), from as int, to as int),
        encode_utf8(r@) == rope_bytes(*text).subrange(from as int, to as int),
{
    let s = rope_slice_to_string(text, from, to);
    proof {
        vstd::utf8::encode_utf8_decode_utf8(s@);
    }
    s
}

/// One string after the other.
pub(crate) fn joined(indent: &str, unit: &str) -> (r: String)
    ensures
        r@ == indent@ + unit@,
{
    let mut r = String::from_str(indent);
    r.append(unit);
    r
}

/// The closing tag of an element.
fn closing_tag(name: &str) -> (r: String)
    ensures
        r@ == "</"@ + name@ + ">"@,
{
    let mut r = String::from_str("</");
    r.append(name);
    r.append(">");
    r
}

/// The deepest node of a path that satisfies a predicate is one of its nodes.
proof fn lemma_deepest_in_tree(t: &SyntaxTree, path: Seq<usize>, pred: spec_fn(Seq<char>) -> bool)
    requires
        path_in_tree(t, path),
    ensures
        deepest_where(t, path, pred) matches Some(x) ==> x < t.nodes@.len(),
    decreases path.len(),
{
    if path.len() > 0 {
        assert(path.last() == path[path.len() - 1]);
        if !pred(kind_of(t, path.last())) {
            assert(path_in_tree(t, path.drop_last())) by {
                assert forall|i: int| 0 <= i < path.drop_last().len() implies #[trigger] path.drop_last()[i] < t.nodes@.len() by {
                    assert(path.drop_last()[i] == path[i]);
                }
            }
            lemma_deepest_in_tree(t, path.drop_last(), pred);
        }
    }
}

/// Trimming blanks back from a character boundary stops on one.
proof fn lemma_trim_on_boundary(c: Seq<char>, from: int, to: int, cr: bool)
    requires
        0 <= from,
        to <= encode_utf8(c).len(),
        char_boundary(encode_utf8(c), to),
    ensures
        char_boundary(encode_utf8(c), trim_blanks_back(encode_utf8(c), from, to, cr)),
    decreases to - from,
{
    let b = encode_utf8(c);
    if to > from && (is_blank(b[to - 1]) || (cr && b[to - 1] == 13u8)) {
        crate::utf8_facts::lemma_ascii_is_boundary(c, to - 1);
        lemma_trim_on_boundary(c, from, to - 1, cr);
    }
}

/// Past a trailing line comment, to the code before it.
fn past_comment_in(tree: &SyntaxTree, text: &Rope, b: &[u8], token: Token, ls: usize, caret: usize, end: usize) -> (r: Option<(usize, Token)>)
    requires
        tree_wf(tree),
        tree_fits(tree, b@),
        b@ == rope_bytes(*text),
        path_in_tree(tree, token.path@),
        token.path@.len() > 0,
        ls <= end <= caret <= b@.len(),
        char_boundary(b@, end as int),
    ensures
        match r {
            Some((e, k)) => past_comment(tree, b@, token.path@, ls as int, caret as int, end as int) == Some((e as int, k.path@))
                && path_in_tree(tree, k.path@) && k.path@.len() > 0 && ls <= e <= caret && char_boundary(b@, e as int),
            None => past_comment(tree, b@, token.path@, ls as int, caret as int, end as int) is None,
        },
{
    let c = match token.comment_ancestor(tree) {
        None => {
            return Some((end, token));
        },
        Some(c) => c,
    };
    proof {
        lemma_deepest_in_tree(tree, token.path@, |k: Seq<char>| is_comment_spec(k));
    }
    let n = &tree.nodes[c];
    assert(tree.nodes@[c as int] == *n);
    if n.start_byte < ls || n.end_byte > caret || n.end_byte - n.start_byte > MAX_LINE_BYTES {
        return None;
    }
    let s0 = n.start_byte;
    let e0 = n.end_byte;
    let opener = (e0 - s0 >= 2 && b[s0] == 47u8 && b[s0 + 1] == 47u8) || (e0 - s0 >= 1 && b[s0] == 35u8);
    if !opener {
        return None;
    }
    let e = trim_blanks_back_in(b, ls, s0, false);
    if e == ls {
        return None;
    }
    proof {
        lemma_trim_on_boundary(rope_chars(*text), ls as int, s0 as int, false);
    }
    match token_before(tree, text, e) {
        None => None,
        Some(k) => Some((e, k)),
    }
}

/// Whether the closer at `start` is code.
fn closer_is_code_in(tree: &SyntaxTree, text: &Rope, b: &[u8], start: usize) -> (r: bool)
    requires
        tree_wf(tree),
        b@ == rope_bytes(*text),
        start <= b@.len(),
        b@.len() + 2 <= usize::MAX,
    ensures
        r == closer_is_code_spec(tree, b@, start as int),
{
    let end = if start < b.len() && b[start] == 60u8 {
        start + 2
    } else {
        start + 1
    };
    match token_before(tree, text, end) {
        Some(k) => k.is_code(tree),
        None => false,
    }
}

/// Whether `b[from..to]` begins with `p`.
fn starts_with_at(b: &[u8], from: usize, to: usize, p: &[u8]) -> (r: bool)
    requires
        from <= to <= b@.len(),
    ensures
        r == (to - from >= p@.len() && b@.subrange(from as int, from + p@.len()) == p@),
{
    let n = p.len();
    if to - from < n {
        return false;
    }
    let mut i: usize = 0;
    while i < n
        invariant
            from <= to <= b@.len(),
            n == p@.len(),
            to - from >= n,
            i <= n,
            forall|k: int| 0 <= k < i ==> b@[from + k] == p@[k],
        decreases n - i,
    {
        if b[from + i] != p[i] {
            assert(b@.subrange(from as int, from + n)[i as int] != p@[i as int]);
            return false;
        }
        i += 1;
    }
    assert(b@.subrange(from as int, from + n) =~= p@);
    true
}

/// Whether `b[from..to]` begins with `p`, ignoring the case of ASCII letters.
fn starts_with_folded_at(b: &[u8], from: usize, to: usize, p: &[u8]) -> (r: bool)
    requires
        from <= to <= b@.len(),
    ensures
        r == (to - from >= p@.len() && bytes_equal_ignoring_ascii_case(b@.subrange(from as int, from + p@.len()), p@)),
{
    let n = p.len();
    if to - from < n {
        return false;
    }
    let mut i: usize = 0;
    while i < n
        invariant
            from <= to <= b@.len(),
            n == p@.len(),
            to - from >= n,
            i <= n,
            forall|k: int| 0 <= k < i ==> same_byte_ignoring_ascii_case(#[trigger] b@[from + k], p@[k]),
        decreases n - i,
    {
        let x = b[from + i];
        let y = p[i];
        if !(x == y || (65u8 <= x && x <= 90u8 && x + 32 == y) || (65u8 <= y && y <= 90u8 && y + 32 == x)) {
            assert(b@.subrange(from as int, from + n)[i as int] == x);
            return false;
        }
        i += 1;
    }
    assert forall|k: int| 0 <= k < n implies same_byte_ignoring_ascii_case(#[trigger] b@.subrange(from as int, from + n)[k], p@[k]) by {
        assert(b@.subrange(from as int, from + n)[k] == b@[from + k]);
    }
    true
}

/// Whether the text after the caret begins with the closer.
fn suffix_closes_in(language: &str, b: &[u8], from: usize, to: usize, closer: &str) -> (r: bool)
    requires
        from <= to <= b@.len(),
    ensures
        r == suffix_closes(language@, b@, from as int, to as int, closer@),
{
    let cb = closer.as_bytes();
    if starts_with_at(b, from, to, cb) {
        return true;
    }
    if !is_kind(language, "html") {
        return false;
    }
    let n = cb.len();
    if to - from < n {
        return false;
    }
    let boundary = n == 0 || n == to - from || !(0x80u8 <= b[from + n] && b[from + n] < 0xC0u8);
    proof {
        let sub = b@.subrange(from as int, to as int);
        if 0 < n < to - from {
            assert(sub[n as int] == b@[from + n]);
        }
    }
    boundary && starts_with_folded_at(b, from, to, cb)
}

/// Skipping blanks from a character boundary stops on one.
pub(crate) proof fn lemma_skip_on_boundary(c: Seq<char>, from: int, to: int)
    requires
        0 <= from <= to <= encode_utf8(c).len(),
        char_boundary(encode_utf8(c), from),
        char_boundary(encode_utf8(c), to),
    ensures
        char_boundary(encode_utf8(c), skip_blanks(encode_utf8(c), from, to)),
        from <= skip_blanks(encode_utf8(c), from, to) <= to,
    decreases to - from,
{
    let b = encode_utf8(c);
    if from < to && is_blank(b[from]) {
        crate::utf8_facts::lemma_after_ascii(c, from);
        lemma_skip_on_boundary(c, from + 1, to);
    }
}

/// A line's indentation starts and ends on character boundaries.
proof fn lemma_line_indent_on_boundaries(c: Seq<char>, offset: int)
    requires
        0 <= offset <= encode_utf8(c).len(),
        char_boundary(encode_utf8(c), offset),
    ensures
        line_indent_spec(encode_utf8(c), offset) matches Some((x, y)) ==> char_boundary(encode_utf8(c), x)
            && char_boundary(encode_utf8(c), y) && x <= y <= offset,
{
    let b = encode_utf8(c);
    let row = row_of(b, offset);
    lemma_line_bounds(c, row);
    crate::text::lemma_line_start_of_row(b, offset);
    let start = line_start(b, row);
    if offset - start <= MAX_LINE_BYTES {
        lemma_skip_on_boundary(c, start, offset);
    }
}

/// A character that continues a tag name.
fn is_tag_name_char(c: char) -> (r: bool)
    ensures
        r == tag_name_char(c),
{
    char_is_alphanumeric(c) || c == '-' || c == '_' || c == ':' || c == '.'
}

/// Whether a name is the literal (ignoring ASCII case where `fold`).
fn name_is(name: &str, lit: &str, fold: bool) -> (r: bool)
    ensures
        r == (if fold { chars_equal_ignoring_ascii_case(name@, lit@) } else { name@ == lit@ }),
{
    if !fold {
        return is_kind(name, lit);
    }
    let x = str_chars(name);
    let y = str_chars(lit);
    if x.len() != y.len() {
        return false;
    }
    let mut i: usize = 0;
    while i < x.len()
        invariant
            x@ == name@,
            y@ == lit@,
            x@.len() == y@.len(),
            i <= x@.len(),
            forall|k: int| 0 <= k < i ==> same_ignoring_ascii_case(#[trigger] x@[k], y@[k]),
        decreases x@.len() - i,
    {
        let c = x[i];
        let d = y[i];
        if !(c == d || ('A' <= c && c <= 'Z' && (c as u32) + 32 == (d as u32)) || ('A' <= d && d <= 'Z' && (d as u32) + 32
            == (c as u32))) {
            return false;
        }
        i += 1;
    }
    true
}

/// Whether a name is that of a void element.
fn is_void_name(name: &str, fold: bool) -> (r: bool)
    ensures
        r == void_element(name@, fold),
{
    if name_is(name, "area", fold) {
        assert(void_tag("area"@));
        return true;
    }
    if name_is(name, "base", fold) {
        assert(void_tag("base"@));
        return true;
    }
    if name_is(name, "br", fold) {
        assert(void_tag("br"@));
        return true;
    }
    if name_is(name, "col", fold) {
        assert(void_tag("col"@));
        return true;
    }
    if name_is(name, "embed", fold) {
        assert(void_tag("embed"@));
        return true;
    }
    if name_is(name, "hr", fold) {
        assert(void_tag("hr"@));
        return true;
    }
    if name_is(name, "img", fold) {
        assert(void_tag("img"@));
        return true;
    }
    if name_is(name, "input", fold) {
        assert(void_tag("input"@));
        return true;
    }
    if name_is(name, "link", fold) {
        assert(void_tag("link"@));
        return true;
    }
    if name_is(name, "meta", fold) {
        assert(void_tag("meta"@));
        return true;
    }
    if name_is(name, "param", fold) {
        assert(void_tag("param"@));
        return true;
    }
    if name_is(name, "source", fold) {
        assert(void_tag("source"@));
        return true;
    }
    if name_is(name, "track", fold) {
        assert(void_tag("track"@));
        return true;
    }
    if name_is(name, "wbr", fold) {
        assert(void_tag("wbr"@));
        return true;
    }
    false
}

/// The name of the element whose opening tag holds the token.
fn opening_tag_in(tree: &SyntaxTree, text: &Rope, b: &[u8], token: &Token, language: &str) -> (r: Option<String>)
    requires
        tree_wf(tree),
        tree_fits(tree, b@),
        b@ == rope_bytes(*text),
        path_in_tree(tree, token.path@),
    ensures
        match r {
            Some(name) => opening_tag_spec(tree, b@, token.path@, language@) == Some(name@),
            None => opening_tag_spec(tree, b@, token.path@, language@) is None,
        },
{
    let tag = match token.ancestor_of_kinds(tree, "start_tag", "jsx_opening_element") {
        None => {
            return None;
        },
        Some(t) => t,
    };
    proof {
        lemma_deepest_in_tree(tree, token.path@, |k: Seq<char>| k == "start_tag"@ || k == "jsx_opening_element"@);
    }
    let n = &tree.nodes[tag];
    assert(tree.nodes@[tag as int] == *n);
    if n.end_byte - n.start_byte > MAX_LINE_BYTES {
        return None;
    }
    let src = text_in(text, n.start_byte, n.end_byte);
    let cs = str_chars(src.as_str());
    let len = cs.len();
    if len >= 2 && cs[len - 2] == '/' && cs[len - 1] == '>' {
        return None;
    }
    if len == 0 || cs[0] != '<' {
        return None;
    }
    let mut i: usize = 1;
    while i < len && is_tag_name_char(cs[i])
        invariant
            1 <= i <= len,
            len == cs@.len(),
            name_run(cs@, 1) == name_run(cs@, i as int),
        decreases len - i,
    {
        i += 1;
    }
    let name = src.as_str().substring_char(1, i);
    if i == 1 || is_void_name(name, is_kind(language, "html")) {
        return None;
    }
    Some(name.to_owned())
}

fn braces_close_in(l: &str) -> (r: bool)
    ensures
        r == braces_close(l@),
{
    is_kind(l, "rust") || is_kind(l, "javascript") || is_kind(l, "typescript") || is_kind(l, "tsx") || is_kind(l, "python")
        || is_kind(l, "json") || is_kind(l, "css") || is_kind(l, "yaml") || is_kind(l, "toml")
}

fn brackets_close_in(l: &str) -> (r: bool)
    ensures
        r == brackets_close(l@),
{
    is_kind(l, "rust") || is_kind(l, "javascript") || is_kind(l, "typescript") || is_kind(l, "tsx") || is_kind(l, "python")
        || is_kind(l, "json") || is_kind(l, "yaml")
}

fn parens_close_in(l: &str) -> (r: bool)
    ensures
        r == parens_close(l@),
{
    is_kind(l, "rust") || is_kind(l, "javascript") || is_kind(l, "typescript") || is_kind(l, "tsx") || is_kind(l, "python")
        || is_kind(l, "css")
}

fn enter_language_in(l: &str) -> (r: bool)
    ensures
        r == enter_language(l@),
{
    is_kind(l, "rust") || is_kind(l, "javascript") || is_kind(l, "typescript") || is_kind(l, "tsx") || is_kind(l, "python")
        || is_kind(l, "json") || is_kind(l, "css") || is_kind(l, "toml") || is_kind(l, "yaml") || is_kind(l, "bash")
        || is_kind(l, "html")
}

/// Whether the token's parent opens a Python suite.
fn python_suite_in(tree: &SyntaxTree, token: &Token) -> (r: bool)
    requires
        path_in_tree(tree, token.path@),
    ensures
        r == python_suite_spec(tree, token.path@),
{
    match token.parent() {
        None => false,
        Some(p) => {
            let k = tree.nodes[p].kind.as_str();
            is_kind(k, "if_statement") || is_kind(k, "elif_clause") || is_kind(k, "else_clause") || is_kind(k, "for_statement") || is_kind(k, "while_statement") || is_kind(k, "function_definition") || is_kind(k, "class_definition") || is_kind(k, "try_statement") || is_kind(k, "except_clause") || is_kind(k, "finally_clause") || is_kind(k, "with_statement") || is_kind(k, "match_statement") || is_kind(k, "case_clause")
        },
    }
}

/// Whether `b[from..to]` holds the byte `x`.
fn contains_byte_in(b: &[u8], from: usize, to: usize, x: u8) -> (r: bool)
    requires
        from <= to <= b@.len(),
    ensures
        r == b@.subrange(from as int, to as int).contains(x),
{
    let mut i = from;
    while i < to
        invariant
            from <= i <= to <= b@.len(),
            forall|k: int| from <= k < i ==> b@[k] != x,
        decreases to - i,
    {
        if b[i] == x {
            assert(b@.subrange(from as int, to as int)[i - from] == x);
            return true;
        }
        i += 1;
    }
    assert forall|k: int| 0 <= k < to - from implies b@.subrange(from as int, to as int)[k] != x by {
        assert(b@.subrange(from as int, to as int)[k] == b@[from + k]);
    }
    false
}

/// What the token at the end of the line opens: its closer and the block's
/// indentation.
fn closer_in(language: &str, tree: &SyntaxTree, text: &Rope, b: &[u8], token: &Token, ls: usize, end: usize, ind: (usize, usize)) -> (r: Option<(String, usize, usize)>)
    requires
        tree_wf(tree),
        tree_fits(tree, b@),
        b@ == rope_bytes(*text),
        path_in_tree(tree, token.path@),
        token.path@.len() > 0,
        ls <= end <= b@.len(),
        ind.0 <= ind.1 <= b@.len(),
        char_boundary(b@, ind.0 as int),
        char_boundary(b@, ind.1 as int),
    ensures
        match r {
            Some((c, x, y)) => closer_spec(language@, tree, b@, token.path@, ls as int, end as int, (ind.0 as int, ind.1 as int))
                == Some((c@, (x as int, y as int))) && x <= y <= b@.len() && char_boundary(b@, x as int) && char_boundary(b@, y as int),
            None => closer_spec(language@, tree, b@, token.path@, ls as int, end as int, (ind.0 as int, ind.1 as int)) is None,
        },
{
    let kind = tree.nodes[token.node()].kind.as_str();
    assert(kind@ == kind_of(tree, token.path@.last()));
    if is_kind(kind, "{") && braces_close_in(language) {
        return Some(("}".to_owned(), ind.0, ind.1));
    }
    if is_kind(kind, "[") && brackets_close_in(language) {
        return Some(("]".to_owned(), ind.0, ind.1));
    }
    if is_kind(kind, "[") && is_kind(language, "toml") && (token.ancestor_of_kinds(tree, "array", "array").is_some()
        || contains_byte_in(b, ls, end, 61u8)) {
        return Some(("]".to_owned(), ind.0, ind.1));
    }
    if is_kind(kind, "(") && parens_close_in(language) {
        return Some((")".to_owned(), ind.0, ind.1));
    }
    if is_kind(kind, "{") && is_kind(language, "bash") && token.ancestor_of_kinds(tree, "expansion", "simple_expansion").is_none() {
        return Some(("}".to_owned(), ind.0, ind.1));
    }
    if is_kind(kind, ":") && is_kind(language, "python") && python_suite_in(tree, token) {
        return Some((String::new(), ind.0, ind.1));
    }
    if is_kind(kind, ":") && is_kind(language, "yaml") && token.ancestor_of_kinds(tree, "block_mapping_pair", "block_mapping_pair").is_some() {
        return Some((String::new(), ind.0, ind.1));
    }
    if (is_kind(kind, "then") || is_kind(kind, "do") || is_kind(kind, "else")) && is_kind(language, "bash") {
        return Some((String::new(), ind.0, ind.1));
    }
    if is_kind(kind, "in") && is_kind(language, "bash") {
        return Some((String::new(), ind.0, ind.1));
    }
    if is_kind(kind, ">") && (is_kind(language, "html") || is_kind(language, "tsx")) {
        let name = match opening_tag_in(tree, text, b, token, language) {
            None => {
                return None;
            },
            Some(n) => n,
        };
        let tag = match token.ancestor_of_kinds(tree, "start_tag", "jsx_opening_element") {
            None => {
                return None;
            },
            Some(t) => t,
        };
        proof {
            lemma_deepest_in_tree(tree, token.path@, |k: Seq<char>| k == "start_tag"@ || k == "jsx_opening_element"@);
        }
        let offset = tree.nodes[tag].start_byte;
        proof {
            lemma_line_indent_on_boundaries(rope_chars(*text), offset as int);
        }
        let (x, y) = match line_indent_in(b, offset) {
            None => {
                return None;
            },
            Some(p) => p,
        };
        return Some((closing_tag(name.as_str()), x, y));
    }
    None
}

/// The node above another on a path is one of its nodes.
proof fn lemma_parent_in_tree(t: &SyntaxTree, path: Seq<usize>, node: usize, i: int)
    requires
        path_in_tree(t, path),
    ensures
        parent_on_path(path, node, i) matches Some(x) ==> x < t.nodes@.len(),
    decreases path.len() - i,
{
    if !(i < 0 || i + 1 >= path.len()) && path[i + 1] != node {
        lemma_parent_in_tree(t, path, node, i + 1);
    }
}

/// Unicode's White_Space property (`char::is_whitespace`).
fn is_white_space_char(c: char) -> (r: bool)
    ensures
        r == is_white_space(c),
{
    let u = c as u32;
    (9 <= u && u <= 13) || u == 32 || u == 0x85 || u == 0xA0 || u == 0x1680 || (0x2000 <= u && u <= 0x200A) || u == 0x2028
        || u == 0x2029 || u == 0x202F || u == 0x205F || u == 0x3000
}

/// Whether a kind is exactly the one character.
fn kind_is_char(kind: &str, c: char) -> (r: bool)
    ensures
        r == (kind@ == seq![c]),
{
    let k = str_chars(kind);
    if k.len() == 1 && k[0] == c {
        assert(k@ =~= seq![c]);
        true
    } else {
        false
    }
}

/// Whether a string holds the character.
fn has_char(s: &str, c: char) -> (r: bool)
    ensures
        r == s@.contains(c),
{
    let cs = str_chars(s);
    let mut i: usize = 0;
    while i < cs.len()
        invariant
            cs@ == s@,
            i <= cs@.len(),
            forall|k: int| 0 <= k < i ==> cs@[k] != c,
        decreases cs@.len() - i,
    {
        if cs[i] == c {
            return true;
        }
        i += 1;
    }
    false
}

/// After a line that only closes an element's end tag, the indentation of
/// the element's first line.
fn end_tag_in(language: &str, tree: &SyntaxTree, text: &Rope, b: &[u8], token: &Token, ls: usize, end: usize, ind: (usize, usize), cs: &Vec<char>, lo: usize, hi: usize) -> (r: Option<(usize, usize)>)
    requires
        tree_wf(tree),
        tree_fits(tree, b@),
        b@ == rope_bytes(*text),
        path_in_tree(tree, token.path@),
        ls <= end <= b@.len(),
        ind.0 <= ind.1 <= b@.len(),
        ls + (ind.1 - ind.0) <= b@.len(),
        b@.len() + 2 <= usize::MAX,
        lo <= hi <= cs@.len(),
    ensures
        match r {
            Some((x, y)) => end_tag_indent(language@, tree, b@, token.path@, ls as int, end as int, (ind.0 as int, ind.1 as int), cs@.subrange(lo as int, hi as int))
                == Some((x as int, y as int)) && x <= y <= b@.len() && char_boundary(b@, x as int) && char_boundary(b@, y as int),
            None => end_tag_indent(language@, tree, b@, token.path@, ls as int, end as int, (ind.0 as int, ind.1 as int), cs@.subrange(lo as int, hi as int)) is None,
        },
{
    let ghost content = cs@.subrange(lo as int, hi as int);
    if !((is_kind(language, "html") || is_kind(language, "tsx")) && hi - lo >= 2 && cs[lo] == '<' && cs[lo + 1] == '/' && cs[hi - 1] == '>') {
        proof {
            if hi - lo >= 2 {
                assert(content[0] == cs@[lo as int]);
                assert(content[1] == cs@[lo + 1]);
                assert(content.last() == cs@[hi - 1]);
            }
        }
        return None;
    }
    assert(content[0] == cs@[lo as int] && content[1] == cs@[lo + 1] && content.last() == cs@[hi - 1]);
    let tag = match token.ancestor_of_kinds(tree, "end_tag", "jsx_closing_element") {
        None => {
            return None;
        },
        Some(t) => t,
    };
    proof {
        lemma_deepest_in_tree(tree, token.path@, |k: Seq<char>| k == "end_tag"@ || k == "jsx_closing_element"@);
    }
    let n = &tree.nodes[tag];
    assert(tree.nodes@[tag as int] == *n);
    if !(n.start_byte == ls + (ind.1 - ind.0) && n.end_byte == end) {
        return None;
    }
    let el = match token.parent_of(tag) {
        None => {
            return None;
        },
        Some(el) => el,
    };
    proof {
        lemma_parent_in_tree(tree, token.path@, tag, 0);
    }
    let offset = tree.nodes[el].start_byte;
    if offset >= ls {
        return None;
    }
    proof {
        lemma_line_indent_on_boundaries(rope_chars(*text), offset as int);
    }
    line_indent_in(b, offset)
}

/// After a line that only closes a bracket (or an element), the indentation
/// of the line that opened it.
fn closing_line_in(language: &str, tree: &SyntaxTree, text: &Rope, b: &[u8], token: &Token, ls: usize, end: usize, ind: (usize, usize)) -> (r: Option<(usize, usize)>)
    requires
        tree_wf(tree),
        tree_fits(tree, b@),
        b@ == rope_bytes(*text),
        b@.len() + 2 <= usize::MAX,
        path_in_tree(tree, token.path@),
        ls <= end <= b@.len(),
        char_boundary(b@, ls as int),
        char_boundary(b@, end as int),
        ind.0 == ls,
        ind.0 <= ind.1 <= b@.len(),
    ensures
        match r {
            Some((x, y)) => closing_line_indent(language@, tree, b@, token.path@, ls as int, end as int, (ind.0 as int, ind.1 as int))
                == Some((x as int, y as int)) && x <= y <= b@.len() && char_boundary(b@, x as int) && char_boundary(b@, y as int),
            None => closing_line_indent(language@, tree, b@, token.path@, ls as int, end as int, (ind.0 as int, ind.1 as int)) is None,
        },
{
    let before = text_in(text, ls, end);
    let cs = str_chars(before.as_str());
    let n = cs.len();
    let mut lo: usize = 0;
    while lo < n && is_white_space_char(cs[lo])
        invariant
            n == cs@.len(),
            lo <= n,
            white_front(cs@, 0) == white_front(cs@, lo as int),
        decreases n - lo,
    {
        lo += 1;
    }
    let mut hi: usize = n;
    while hi > lo && is_white_space_char(cs[hi - 1])
        invariant
            n == cs@.len(),
            lo <= hi <= n,
            white_back(cs@, lo as int, n as int) == white_back(cs@, lo as int, hi as int),
        decreases hi,
    {
        hi -= 1;
    }
    let mut close_hi: usize = hi;
    while close_hi > lo && (cs[close_hi - 1] == ';' || cs[close_hi - 1] == ',')
        invariant
            n == cs@.len(),
            lo <= close_hi <= hi <= n,
            separators_back(cs@, lo as int, hi as int) == separators_back(cs@, lo as int, close_hi as int),
        decreases close_hi,
    {
        close_hi -= 1;
    }
    if close_hi - lo == 1 && (cs[lo] == '}' || cs[lo] == ']' || cs[lo] == ')') {
        let close = cs[lo];
        let cp = match token_before(tree, text, ls + (ind.1 - ind.0) + 1) {
            None => {
                return None;
            },
            Some(k) => k,
        };
        let ck = tree.nodes[cp.node()].kind.as_str();
        if !kind_is_char(ck, close) || cp.path.len() < 2 {
            return None;
        }
        let parent = cp.path[cp.path.len() - 2];
        match tree.nodes[parent].first_child {
            None => {
                return None;
            },
            Some(f) => {
                let opener = if close == '}' {
                    '{'
                } else if close == ']' {
                    '['
                } else {
                    '('
                };
                let offset = tree.nodes[f].start_byte;
                if kind_is_char(tree.nodes[f].kind.as_str(), opener) && offset < ls {
                    proof {
                        lemma_line_indent_on_boundaries(rope_chars(*text), offset as int);
                    }
                    return line_indent_in(b, offset);
                }
            },
        }
    }
    end_tag_in(language, tree, text, b, token, ls, end, ind, &cs, lo, hi)
}

/// The indentation plan for Enter over `selection`: the new line's
/// indentation, and where the caret stands before the closer of what the
/// line opens (and that closer is code), the closer line's indentation.
/// A missing or stale tree, an unknown language, long lines, text inside
/// strings or comments and exhausted lookup budgets all give no plan.
pub fn newline_indent(language: &str, tree: Option<&SyntaxTree>, text: &Rope, selection: Range<usize>, unit: &str) -> (r: Option<NewlineIndent>)
    requires
        selection.start <= rope_bytes(*text).len(),
        selection.end <= rope_bytes(*text).len(),
        char_boundary(rope_bytes(*text), selection.start as int),
        char_boundary(rope_bytes(*text), selection.end as int),
        rope_bytes(*text).len() + 2 <= usize::MAX,
        tree matches Some(t) ==> tree_wf(t) && tree_fits(t, rope_bytes(*text)),
    ensures
        match r {
            Some(plan) => newline_indent_spec(language@, tree, rope_bytes(*text), selection.start as int, selection.end as int, unit@)
                == Some((plan.indent@, opt_chars(plan.closing_indent))),
            None => newline_indent_spec(language@, tree, rope_bytes(*text), selection.start as int, selection.end as int, unit@) is None,
        },
{
    let t = match tree {
        None => {
            return None;
        },
        Some(t) => t,
    };
    if t.has_changes || !enter_language_in(language) {
        return None;
    }
    let s = rope_text(text);
    let b = s.as_str().as_bytes();
    let start = selection.start;
    let end = selection.end;
    let ghost chars = rope_chars(*text);
    let ls = line_start_in(b, newlines_before_in(b, start));
    let le = line_end_in(b, newlines_before_in(b, end));
    proof {
        lemma_offset_within_row(b@, start as int);
        lemma_offset_within_row(b@, end as int);
        lemma_line_bounds(chars, row_of(b@, start as int));
        lemma_line_bounds(chars, row_of(b@, end as int));
    }
    if start - ls > MAX_LINE_BYTES || le - end > MAX_LINE_BYTES {
        return None;
    }
    let ind = (ls, skip_blanks_in(b, ls, start));
    proof {
        lemma_skip_on_boundary(chars, ls as int, start as int);
    }
    let code_end = trim_blanks_back_in(b, ls, start, true);
    if code_end == ls {
        return None;
    }
    proof {
        lemma_trim_on_boundary(chars, ls as int, start as int, true);
    }
    let first = match token_before(t, text, code_end) {
        None => {
            return None;
        },
        Some(k) => k,
    };
    let (e, token) = match past_comment_in(t, text, b, first, ls, start, code_end) {
        None => {
            return None;
        },
        Some(p) => p,
    };
    if !token.is_code(t) {
        return None;
    }
    match closer_in(language, t, text, b, &token, ls, e, ind) {
        Some((closer, x, y)) => {
            let base = text_in(text, x, y);
            let indent = if has_char(base.as_str(), '\t') {
                joined(base.as_str(), "\t")
            } else {
                joined(base.as_str(), unit)
            };
            let suffix = skip_blanks_in(b, end, le);
            let plan = NewlineIndent::new(indent);
            if !closer.as_str().is_empty() && suffix_closes_in(language, b, suffix, le, closer.as_str()) && closer_is_code_in(
                t,
                text,
                b,
                suffix,
            ) {
                Some(plan.with_closing_indent(base))
            } else {
                Some(plan)
            }
        },
        None => match closing_line_in(language, t, text, b, &token, ls, e, ind) {
            None => None,
            Some((x, y)) => Some(NewlineIndent::new(text_in(text, x, y))),
        },
    }
}

/// Where Enter moves a closer to a line of its own, the new line sits one
/// level deeper than the closer: its indentation is the closer's followed by
/// one unit (a tab where the closer's indentation holds one).
pub proof fn lemma_closer_line_one_level_out(language: Seq<char>, tree: Option<&SyntaxTree>, b: Seq<u8>, start: int, end: int, unit: Seq<char>)
    ensures
        newline_indent_spec(language, tree, b, start, end, unit) matches Some((indent, Some(closing))) ==> indent == closing
            + if closing.contains('\t') { "\t"@ } else { unit },
{
}

/// Enter after an opening brace indents one level deeper. In each language
/// whose grammar opens a block with `{` (Rust, JavaScript, TypeScript, TSX,
/// Python, JSON, CSS, YAML and TOML), with a tree parsed from the current
/// text: when the last code token before the selection on its line (past
/// trailing blanks, outside any comment) is `{`, the new line's indentation
/// is the line's own leading blanks followed by one unit (a tab where those
/// blanks hold one); with nothing but blanks after the selection on its
/// line, no closing line is planned, and where the matching closer (as code)
/// follows, it moves to a line of its own at the line's indentation.
pub proof fn lemma_enter_after_open_brace(
    language: Seq<char>,
    t: &SyntaxTree,
    b: Seq<u8>,
    start: int,
    end: int,
    unit: Seq<char>,
    p: Seq<usize>,
)
    requires
        language == "rust"@ || language == "javascript"@ || language == "typescript"@ || language == "tsx"@
            || language == "python"@ || language == "json"@ || language == "css"@ || language == "yaml"@
            || language == "toml"@,
        !t.has_changes,
        start - line_start(b, row_of(b, start)) <= MAX_LINE_BYTES,
        line_end(b, row_of(b, end)) - end <= MAX_LINE_BYTES,
        trim_blanks_back(b, line_start(b, row_of(b, start)), start, true) != line_start(b, row_of(b, start)),
        token_before_spec(t, b, trim_blanks_back(b, line_start(b, row_of(b, start)), start, true)) == Some(p),
        deepest_where(t, p, |k: Seq<char>| is_comment_spec(k)) is None,
        path_is_code(t, p),
        kind_of(t, p.last()) == "{"@,
    ensures
        ({
            let ls = line_start(b, row_of(b, start));
            let le = line_end(b, row_of(b, end));
            let base = text_of(b, ls, skip_blanks(b, ls, start));
            &&& newline_indent_spec(language, Some(t), b, start, end, unit) is Some
            &&& newline_indent_spec(language, Some(t), b, start, end, unit).unwrap().0 == base + if base.contains(
                '\t',
            ) {
                "\t"@
            } else {
                unit
            }
            &&& skip_blanks(b, end, le) == le ==> newline_indent_spec(language, Some(t), b, start, end, unit).unwrap().1 is None
            &&& 0 <= skip_blanks(b, end, le) < le <= b.len() && b[skip_blanks(b, end, le)] == 125u8 && closer_is_code_spec(
                t,
                b,
                skip_blanks(b, end, le),
            ) ==> newline_indent_spec(language, Some(t), b, start, end, unit).unwrap().1 == Some(base)
        }),
{
    lemma_encode_ascii('}');
    reveal_strlit("}");
    assert("}"@ =~= seq!['}']);
    assert(encode_utf8("}"@) == seq![125u8]);
    let le = line_end(b, row_of(b, end));
    let x = skip_blanks(b, end, le);
    if 0 <= x < le <= b.len() {
        assert(b.subrange(x, x + 1) =~= seq![b[x]]);
    }
}

/// Enter after an opening square bracket indents one level deeper, in Rust,
/// JavaScript, TypeScript, TSX, Python, JSON and YAML: when the last code
/// token before the selection on its line is `[`, the new line's indentation
/// is the line's own leading blanks followed by one unit (a tab where those
/// blanks hold one); with nothing but blanks after the selection on its
/// line, no closing line is planned, and where the matching closer (as code)
/// follows, it moves to a line of its own at the line's indentation.
pub proof fn lemma_enter_after_open_bracket(
    language: Seq<char>,
    t: &SyntaxTree,
    b: Seq<u8>,
    start: int,
    end: int,
    unit: Seq<char>,
    p: Seq<usize>,
)
    requires
        language == "rust"@ || language == "javascript"@ || language == "typescript"@ || language == "tsx"@
            || language == "python"@ || language == "json"@ || language == "yaml"@,
        !t.has_changes,
        start - line_start(b, row_of(b, start)) <= MAX_LINE_BYTES,
        line_end(b, row_of(b, end)) - end <= MAX_LINE_BYTES,
        trim_blanks_back(b, line_start(b, row_of(b, start)), start, true) != line_start(b, row_of(b, start)),
        token_before_spec(t, b, trim_blanks_back(b, line_start(b, row_of(b, start)), start, true)) == Some(p),
        deepest_where(t, p, |k: Seq<char>| is_comment_spec(k)) is None,
        path_is_code(t, p),
        kind_of(t, p.last()) == "["@,
    ensures
        ({
            let ls = line_start(b, row_of(b, start));
            let le = line_end(b, row_of(b, end));
            let base = text_of(b, ls, skip_blanks(b, ls, start));
            &&& newline_indent_spec(language, Some(t), b, start, end, unit) is Some
            &&& newline_indent_spec(language, Some(t), b, start, end, unit).unwrap().0 == base + if base.contains(
                '\t',
            ) {
                "\t"@
            } else {
                unit
            }
            &&& skip_blanks(b, end, le) == le ==> newline_indent_spec(language, Some(t), b, start, end, unit).unwrap().1 is None
            &&& 0 <= skip_blanks(b, end, le) < le <= b.len() && b[skip_blanks(b, end, le)] == 93u8 && closer_is_code_spec(
                t,
                b,
                skip_blanks(b, end, le),
            ) ==> newline_indent_spec(language, Some(t), b, start, end, unit).unwrap().1 == Some(base)
        }),
{
    lemma_encode_ascii(']');
    reveal_strlit("]");
    reveal_strlit("{");
    reveal_strlit("[");
    reveal_strlit("(");
    assert("{"@ != "["@ && "{"@ != "("@ && "["@ != "("@) by {
        assert("{"@[0] != "["@[0] && "{"@[0] != "("@[0] && "["@[0] != "("@[0]);
    }
    assert("]"@ =~= seq![']']);
    assert(encode_utf8("]"@) == seq![93u8]);
    let le = line_end(b, row_of(b, end));
    let x = skip_blanks(b, end, le);
    if 0 <= x < le <= b.len() {
        assert(b.subrange(x, x + 1) =~= seq![b[x]]);
    }
}

/// Enter after an opening parenthesis indents one level deeper, in Rust,
/// JavaScript, TypeScript, TSX, Python and CSS: when the last code token
/// before the selection on its line is `(`, the new line's indentation
/// is the line's own leading blanks followed by one unit (a tab where those
/// blanks hold one); with nothing but blanks after the selection on its
/// line, no closing line is planned, and where the matching closer (as code)
/// follows, it moves to a line of its own at the line's indentation.
pub proof fn lemma_enter_after_open_paren(
    language: Seq<char>,
    t: &SyntaxTree,
    b: Seq<u8>,
    start: int,
    end: int,
    unit: Seq<char>,
    p: Seq<usize>,
)
    requires
        language == "rust"@ || language == "javascript"@ || language == "typescript"@ || language == "tsx"@
            || language == "python"@ || language == "css"@,
        !t.has_changes,
        start - line_start(b, row_of(b, start)) <= MAX_LINE_BYTES,
        line_end(b, row_of(b, end)) - end <= MAX_LINE_BYTES,
        trim_blanks_back(b, line_start(b, row_of(b, start)), start, true) != line_start(b, row_of(b, start)),
        token_before_spec(t, b, trim_blanks_back(b, line_start(b, row_of(b, start)), start, true)) == Some(p),
        deepest_where(t, p, |k: Seq<char>| is_comment_spec(k)) is None,
        path_is_code(t, p),
        kind_of(t, p.last()) == "("@,
    ensures
        ({
            let ls = line_start(b, row_of(b, start));
            let le = line_end(b, row_of(b, end));
            let base = text_of(b, ls, skip_blanks(b, ls, start));
            &&& newline_indent_spec(language, Some(t), b, start, end, unit) is Some
            &&& newline_indent_spec(language, Some(t), b, start, end, unit).unwrap().0 == base + if base.contains(
                '\t',
            ) {
                "\t"@
            } else {
                unit
            }
            &&& skip_blanks(b, end, le) == le ==> newline_indent_spec(language, Some(t), b, start, end, unit).unwrap().1 is None
            &&& 0 <= skip_blanks(b, end, le) < le <= b.len() && b[skip_blanks(b, end, le)] == 41u8 && closer_is_code_spec(
                t,
                b,
                skip_blanks(b, end, le),
            ) ==> newline_indent_spec(language, Some(t), b, start, end, unit).unwrap().1 == Some(base)
        }),
{
    lemma_encode_ascii(')');
    reveal_strlit(")");
    reveal_strlit("{");
    reveal_strlit("[");
    reveal_strlit("(");
    assert("{"@ != "["@ && "{"@ != "("@ && "["@ != "("@) by {
        assert("{"@[0] != "["@[0] && "{"@[0] != "("@[0] && "["@[0] != "("@[0]);
    }
    assert(")"@ =~= seq![')']);
    assert(encode_utf8(")"@) == seq![41u8]);
    let le = line_end(b, row_of(b, end));
    let x = skip_blanks(b, end, le);
    if 0 <= x < le <= b.len() {
        assert(b.subrange(x, x + 1) =~= seq![b[x]]);
    }
}

/// Enter after the colon that opens a Python compound statement's suite
/// (`if`, `elif`, `else`, `for`, `while`, `def`, `class`, `try`, `except`,
/// `finally`, `with`, `match`, `case`) indents one level deeper and plans no
/// closing line: when that colon is the last code token before the
/// selection on its line, the new line's indentation is the line's leading
/// blanks followed by one unit (a tab where those blanks hold one).
pub proof fn lemma_enter_after_python_suite_colon(
    t: &SyntaxTree,
    b: Seq<u8>,
    start: int,
    end: int,
    unit: Seq<char>,
    p: Seq<usize>,
)
    requires
        !t.has_changes,
        start - line_start(b, row_of(b, start)) <= MAX_LINE_BYTES,
        line_end(b, row_of(b, end)) - end <= MAX_LINE_BYTES,
        trim_blanks_back(b, line_start(b, row_of(b, start)), start, true) != line_start(b, row_of(b, start)),
        token_before_spec(t, b, trim_blanks_back(b, line_start(b, row_of(b, start)), start, true)) == Some(p),
        deepest_where(t, p, |k: Seq<char>| is_comment_spec(k)) is None,
        path_is_code(t, p),
        kind_of(t, p.last()) == ":"@,
        p.len() >= 2,
        ({
            let k = kind_of(t, p[p.len() - 2]);
            ||| k == "if_statement"@
            ||| k == "elif_clause"@
            ||| k == "else_clause"@
            ||| k == "for_statement"@
            ||| k == "while_statement"@
            ||| k == "function_definition"@
            ||| k == "class_definition"@
            ||| k == "try_statement"@
            ||| k == "except_clause"@
            ||| k == "finally_clause"@
            ||| k == "with_statement"@
            ||| k == "match_statement"@
            ||| k == "case_clause"@
        }),
    ensures
        ({
            let ls = line_start(b, row_of(b, start));
            let base = text_of(b, ls, skip_blanks(b, ls, start));
            newline_indent_spec("python"@, Some(t), b, start, end, unit) == Some(
                (base + if base.contains('\t') { "\t"@ } else { unit }, None::<Seq<char>>),
            )
        }),
{
    reveal_strlit(":");
    reveal_strlit("{");
    reveal_strlit("[");
    reveal_strlit("(");
    reveal_strlit(">");
    reveal_strlit("python");
    reveal_strlit("toml");
    reveal_strlit("bash");
    reveal_strlit("yaml");
    reveal_strlit("html");
    reveal_strlit("tsx");
    assert(":"@ != "{"@ && ":"@ != "["@ && ":"@ != "("@ && ":"@ != ">"@) by {
        assert(":"@[0] != "{"@[0] && ":"@[0] != "["@[0] && ":"@[0] != "("@[0] && ":"@[0] != ">"@[0]);
    }
    assert("python"@ != "bash"@ && "python"@ != "toml"@ && "python"@ != "yaml"@) by {
        assert("python"@[0] != "bash"@[0] && "python"@[0] != "toml"@[0] && "python"@[0] != "yaml"@[0]);
    }
}

} // verus!
