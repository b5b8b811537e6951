//! Syntax-aware editing decisions over a parsed tree: which tokens are code,
//! which brackets match, and how Enter indents.
use crate::comment::{bytes_contains, contains_in};
use crate::text::{char_at, char_at_spec, clip_offset, clip_spec, lemma_clip_left_bounds, rope_bytes, rope_chars, Bias};
use std::ops::Range;
use ropey::Rope;
use vstd::prelude::*;
use vstd::string::StringSliceAdditionalSpecFns;
use vstd::utf8::encode_utf8;

verus! {

/// Whether two byte strings are equal.
pub fn bytes_equal(a: &[u8], b: &[u8]) -> (r: bool)
    ensures
        r == (a@ == b@),
{
    if a.len() != b.len() {
        return false;
    }
    let mut i: usize = 0;
    while i < a.len()
        invariant
            a@.len() == b@.len(),
            i <= a@.len(),
            forall|k: int| 0 <= k < i ==> a@[k] == b@[k],
        decreases a@.len() - i,
    {
        if a[i] != b[i] {
            return false;
        }
        i += 1;
    }
    assert(a@ =~= b@);
    true
}

/// Whether a string is exactly the given literal.
pub fn is_kind(kind: &str, literal: &str) -> (r: bool)
    ensures
        r == (kind@ == literal@),
{
    let r = bytes_equal(kind.as_bytes(), literal.as_bytes());
    proof {
        vstd::utf8::encode_utf8_decode_utf8(kind@);
        vstd::utf8::encode_utf8_decode_utf8(literal@);
    }
    r
}

/// Whether a string holds the literal somewhere.
pub fn holds(kind: &str, literal: &str) -> (r: bool)
    ensures
        r == bytes_contains(kind.spec_bytes(), literal.spec_bytes()),
{
    let bytes = kind.as_bytes();
    let r = contains_in(bytes, 0, bytes.len(), literal.as_bytes());
    assert(bytes@.subrange(0, bytes@.len() as int) =~= bytes@);
    r
}

/// A comment node, by its kind.
pub open spec fn is_comment_spec(kind: Seq<char>) -> bool {
    bytes_contains(encode_utf8(kind), encode_utf8("comment"@))
}

/// A node whose text is literal or commentary rather than code: comments,
/// strings and the other literal kinds of the supported grammars.
pub open spec fn protected_spec(kind: Seq<char>) -> bool {
    ||| is_comment_spec(kind)
    ||| bytes_contains(encode_utf8(kind), encode_utf8("string"@))
    ||| kind == "char_literal"@
    ||| kind == "character_literal"@
    ||| kind == "regex"@
    ||| kind == "regex_pattern"@
    ||| kind == "heredoc_body"@
    ||| kind == "raw_text"@
    ||| kind == "jsx_text"@
    ||| kind == "plain_scalar"@
    ||| kind == "block_scalar"@
}

/// A comment node, by its kind.
pub fn is_comment(kind: &str) -> (r: bool)
    ensures
        r == is_comment_spec(kind@),
{
    holds(kind, "comment")
}

/// Whether a node's text is literal or commentary rather than code.
pub fn protected(kind: &str) -> (r: bool)
    ensures
        r == protected_spec(kind@),
{
    is_comment(kind) || holds(kind, "string") || is_kind(kind, "char_literal") || is_kind(
        kind,
        "character_literal",
    ) || is_kind(kind, "regex") || is_kind(kind, "regex_pattern") || is_kind(kind, "heredoc_body")
        || is_kind(kind, "raw_text") || is_kind(kind, "jsx_text") || is_kind(kind, "plain_scalar")
        || is_kind(kind, "block_scalar")
}

/// One of the six bracket characters.
pub open spec fn is_bracket_spec(c: char) -> bool {
    c == '(' || c == ')' || c == '[' || c == ']' || c == '{' || c == '}'
}

pub fn is_bracket(c: char) -> (r: bool)
    ensures
        r == is_bracket_spec(c),
{
    c == '(' || c == ')' || c == '[' || c == ']' || c == '{' || c == '}'
}

/// A delimiter token, possibly combined with a prefix or another bracket.
pub open spec fn structural_token_spec(kind: Seq<char>) -> bool {
    ||| kind == "("@
    ||| kind == ")"@
    ||| kind == "["@
    ||| kind == "]"@
    ||| kind == "{"@
    ||| kind == "}"@
    ||| kind == "$("@
    ||| kind == "$(("@
    ||| kind == "${"@
    ||| kind == "<("@
    ||| kind == ">("@
    ||| kind == "(("@
    ||| kind == "))"@
    ||| kind == "[["@
    ||| kind == "]]"@
}

pub fn structural_token(kind: &str) -> (r: bool)
    ensures
        r == structural_token_spec(kind@),
{
    is_kind(kind, "(") || is_kind(kind, ")") || is_kind(kind, "[") || is_kind(kind, "]") || is_kind(
        kind,
        "{",
    ) || is_kind(kind, "}") || is_kind(kind, "$(") || is_kind(kind, "$((") || is_kind(kind, "${")
        || is_kind(kind, "<(") || is_kind(kind, ">(") || is_kind(kind, "((") || is_kind(kind, "))")
        || is_kind(kind, "[[") || is_kind(kind, "]]")
}


/// Lookup budgets: node path depth and cursor moves.
pub const MAX_ANCESTORS: usize = 256;

pub const MAX_CURSOR_STEPS: usize = 4096;

/// The longest line or token the lookups copy or examine.
pub const MAX_LINE_BYTES: usize = 16384;

/// One node of a parsed syntax tree, linked to its relatives by index.
#[derive(Debug)]
pub struct SyntaxNode {
    pub kind: String,
    pub start_byte: usize,
    pub end_byte: usize,
    pub parent: Option<usize>,
    pub first_child: Option<usize>,
    pub next_sibling: Option<usize>,
    pub is_named: bool,
    pub is_missing: bool,
    pub has_error: bool,
}

/// A parsed syntax tree, node 0 being the root. `has_changes` marks a tree
/// that was edited after it was parsed.
#[derive(Debug)]
pub struct SyntaxTree {
    pub nodes: Vec<SyntaxNode>,
    pub has_changes: bool,
}

/// Every link names a node of the tree, and there is a root.
pub open spec fn tree_wf(t: &SyntaxTree) -> bool {
    &&& t.nodes@.len() > 0
    &&& forall|i: int|
        0 <= i < t.nodes@.len() ==> {
            &&& (#[trigger] t.nodes@[i]).parent matches Some(p) ==> p < t.nodes@.len()
            &&& t.nodes@[i].first_child matches Some(c) ==> c < t.nodes@.len()
            &&& t.nodes@[i].next_sibling matches Some(n) ==> n < t.nodes@.len()
        }
}

/// The path a cursor walk collects while seeking the innermost node that
/// spans `[start, end]`: descend into a node that spans it, else move to the
/// next sibling while the node starts at or before `start`. The walk gives
/// up (none) when it would take its last step or the path grows too deep.
pub open spec fn seek_path(t: &SyntaxTree, start: int, end: int, cursor: int, path: Seq<usize>, step: int) -> Option<Seq<usize>>
    decreases MAX_CURSOR_STEPS - step,
{
    if step < 0 || step + 1 >= MAX_CURSOR_STEPS || cursor < 0 || cursor >= t.nodes@.len() {
        None
    } else {
        let node = t.nodes@[cursor];
        if node.start_byte <= start && node.end_byte >= end {
            let p = path.push(cursor as usize);
            if p.len() > MAX_ANCESTORS {
                None
            } else {
                match node.first_child {
                    Some(c) => seek_path(t, start, end, c as int, p, step + 1),
                    None => Some(p),
                }
            }
        } else if node.start_byte > start || node.next_sibling is None {
            if path.len() == 0 {
                None
            } else {
                Some(path)
            }
        } else {
            seek_path(t, start, end, node.next_sibling.unwrap() as int, path, step + 1)
        }
    }
}

/// The path from the root to the innermost node spanning the byte before
/// `end` (moved left onto a character) through `end`.
pub open spec fn token_containing_spec(t: &SyntaxTree, text: Seq<u8>, end: int) -> Option<Seq<usize>> {
    let start = clip_spec(text, if end >= 1 { end - 1 } else { 0 }, Bias::Left);
    seek_path(t, start, end, 0, Seq::empty(), 0)
}

/// The nodes a token lies in, from the root to the token itself.
pub struct Token {
    pub path: Vec<usize>,
}

/// Every node on a sought path spans the range.
pub proof fn lemma_seek_path_spans(t: &SyntaxTree, start: int, end: int, cursor: int, path: Seq<usize>, step: int)
    requires
        t.nodes@.len() <= usize::MAX,
        forall|i: int| 0 <= i < path.len() ==> (#[trigger] path[i]) < t.nodes@.len() && t.nodes@[path[i] as int].start_byte <= start
            && t.nodes@[path[i] as int].end_byte >= end,
    ensures
        seek_path(t, start, end, cursor, path, step) matches Some(p) ==> p.len() > 0 && forall|i: int|
            0 <= i < p.len() ==> (#[trigger] p[i]) < t.nodes@.len() && t.nodes@[p[i] as int].start_byte <= start
                && t.nodes@[p[i] as int].end_byte >= end,
    decreases MAX_CURSOR_STEPS - step,
{
    if step < 0 || step + 1 >= MAX_CURSOR_STEPS || cursor < 0 || cursor >= t.nodes@.len() {
    } else {
        let node = t.nodes@[cursor];
        if node.start_byte <= start && node.end_byte >= end {
            let p = path.push(cursor as usize);
            assert forall|i: int| 0 <= i < p.len() implies (#[trigger] p[i]) < t.nodes@.len() && t.nodes@[p[i] as int].start_byte <= start
                && t.nodes@[p[i] as int].end_byte >= end by {
                if i < path.len() {
                    assert(p[i] == path[i]);
                } else {
                    assert(p[i] == cursor as usize);
                    assert((cursor as usize) as int == cursor);
                }
            }
            if p.len() <= MAX_ANCESTORS {
                match node.first_child {
                    Some(c) => lemma_seek_path_spans(t, start, end, c as int, p, step + 1),
                    None => {},
                }
            }
        } else if node.start_byte > start || node.next_sibling is None {
        } else {
            lemma_seek_path_spans(t, start, end, node.next_sibling.unwrap() as int, path, step + 1);
        }
    }
}

/// Find the path to the innermost node containing the byte before `end`.
pub fn token_containing(tree: &SyntaxTree, text: &Rope, end: usize) -> (r: Option<Token>)
    requires
        tree_wf(tree),
    ensures
        match r {
            Some(token) => token_containing_spec(tree, rope_bytes(*text), end as int) == Some(token.path@),
            None => token_containing_spec(tree, rope_bytes(*text), end as int) is None,
        },
{
    let before = if end >= 1 {
        end - 1
    } else {
        0
    };
    let start = clip_offset(text, before, Bias::Left);
    let ghost sstart = start as int;
    let mut cursor: usize = 0;
    let mut path: Vec<usize> = Vec::new();
    let mut step: usize = 0;
    while step < MAX_CURSOR_STEPS
        invariant
            tree_wf(tree),
            cursor < tree.nodes@.len(),
            step < MAX_CURSOR_STEPS,
            token_containing_spec(tree, rope_bytes(*text), end as int) == seek_path(tree, sstart, end as int, cursor as int, path@, step as int),
            sstart == start,
        decreases MAX_CURSOR_STEPS - step,
    {
        if step + 1 == MAX_CURSOR_STEPS {
            return None;
        }
        let node = &tree.nodes[cursor];
        if node.start_byte <= start && node.end_byte >= end {
            path.push(cursor);
            if path.len() > MAX_ANCESTORS {
                return None;
            }
            match node.first_child {
                Some(c) => {
                    cursor = c;
                    step += 1;
                },
                None => {
                    return Some(Token { path });
                },
            }
        } else {
            if node.start_byte > start {
                if path.len() == 0 {
                    return None;
                }
                return Some(Token { path });
            }
            match node.next_sibling {
                Some(n) => {
                    cursor = n;
                    step += 1;
                },
                None => {
                    if path.len() == 0 {
                        return None;
                    }
                    return Some(Token { path });
                },
            }
        }
    }
    None
}


/// The kind of the node at an index.
pub open spec fn kind_of(t: &SyntaxTree, i: usize) -> Seq<char> {
    t.nodes@[i as int].kind@
}

/// No node on the path is literal or commentary.
pub open spec fn path_is_code(t: &SyntaxTree, path: Seq<usize>) -> bool {
    forall|i: int| 0 <= i < path.len() ==> !protected_spec(#[trigger] kind_of(t, path[i]))
}

/// The deepest node on the path whose kind satisfies `pred`.
pub open spec fn deepest_where(t: &SyntaxTree, path: Seq<usize>, pred: spec_fn(Seq<char>) -> bool) -> Option<usize>
    decreases path.len(),
{
    if path.len() == 0 {
        None
    } else if pred(kind_of(t, path.last())) {
        Some(path.last())
    } else {
        deepest_where(t, path.drop_last(), pred)
    }
}

/// The node just above `node` on the path (its first occurrence as a child).
pub open spec fn parent_on_path(path: Seq<usize>, node: usize, i: int) -> Option<usize>
    decreases path.len() - i,
{
    if i < 0 || i + 1 >= path.len() {
        None
    } else if path[i + 1] == node {
        Some(path[i])
    } else {
        parent_on_path(path, node, i + 1)
    }
}

/// Paths whose nodes all exist.
pub open spec fn path_in_tree(t: &SyntaxTree, path: Seq<usize>) -> bool {
    forall|i: int| 0 <= i < path.len() ==> #[trigger] path[i] < t.nodes@.len()
}

impl Token {
    /// The token's own node.
    pub fn node(&self) -> (r: usize)
        requires
            self.path@.len() > 0,
        ensures
            r == self.path@.last(),
    {
        self.path[self.path.len() - 1]
    }

    /// The node the token's node lies in.
    pub fn parent(&self) -> (r: Option<usize>)
        ensures
            r == (if self.path@.len() >= 2 { Some(self.path@[self.path@.len() - 2]) } else { None }),
    {
        let n = self.path.len();
        if n >= 2 {
            Some(self.path[n - 2])
        } else {
            None
        }
    }

    /// The node just above `node` on the token's path.
    pub fn parent_of(&self, node: usize) -> (r: Option<usize>)
        ensures
            r == parent_on_path(self.path@, node, 0),
    {
        let n = self.path.len();
        if n < 2 {
            return None;
        }
        let mut i: usize = 0;
        while i < n - 1
            invariant
                n >= 2,
                n == self.path@.len(),
                parent_on_path(self.path@, node, 0) == parent_on_path(self.path@, node, i as int),
            decreases n - i,
        {
            if self.path[i + 1] == node {
                return Some(self.path[i]);
            }
            i += 1;
        }
        None
    }

    /// Whether no node around the token is literal or commentary.
    pub fn is_code(&self, tree: &SyntaxTree) -> (r: bool)
        requires
            path_in_tree(tree, self.path@),
        ensures
            r == path_is_code(tree, self.path@),
    {
        let mut i: usize = 0;
        while i < self.path.len()
            invariant
                i <= self.path@.len(),
                path_in_tree(tree, self.path@),
                forall|k: int| 0 <= k < i ==> !protected_spec(#[trigger] kind_of(tree, self.path@[k])),
            decreases self.path@.len() - i,
        {
            if protected(tree.nodes[self.path[i]].kind.as_str()) {
                assert(protected_spec(kind_of(tree, self.path@[i as int])));
                return false;
            }
            i += 1;
        }
        true
    }

    /// The deepest comment node around the token.
    pub fn comment_ancestor(&self, tree: &SyntaxTree) -> (r: Option<usize>)
        requires
            path_in_tree(tree, self.path@),
        ensures
            r == deepest_where(tree, self.path@, |k: Seq<char>| is_comment_spec(k)),
    {
        let mut i: usize = self.path.len();
        assert(self.path@.subrange(0, i as int) =~= self.path@);
        while i > 0
            invariant
                i <= self.path@.len(),
                path_in_tree(tree, self.path@),
                deepest_where(tree, self.path@, |k: Seq<char>| is_comment_spec(k)) == deepest_where(
                    tree,
                    self.path@.subrange(0, i as int),
                    |k: Seq<char>| is_comment_spec(k),
                ),
            decreases i,
        {
            let node = self.path[i - 1];
            let ghost pre = self.path@.subrange(0, i as int);
            assert(pre.last() == node);
            assert(pre.drop_last() =~= self.path@.subrange(0, i - 1));
            if is_comment(tree.nodes[node].kind.as_str()) {
                return Some(node);
            }
            i -= 1;
        }
        None
    }

    /// The deepest node around the token whose kind is `a` or `b`.
    pub fn ancestor_of_kinds(&self, tree: &SyntaxTree, a: &str, b: &str) -> (r: Option<usize>)
        requires
            path_in_tree(tree, self.path@),
        ensures
            r == deepest_where(tree, self.path@, |k: Seq<char>| k == a@ || k == b@),
    {
        let mut i: usize = self.path.len();
        assert(self.path@.subrange(0, i as int) =~= self.path@);
        while i > 0
            invariant
                i <= self.path@.len(),
                path_in_tree(tree, self.path@),
                deepest_where(tree, self.path@, |k: Seq<char>| k == a@ || k == b@) == deepest_where(
                    tree,
                    self.path@.subrange(0, i as int),
                    |k: Seq<char>| k == a@ || k == b@,
                ),
            decreases i,
        {
            let node = self.path[i - 1];
            let ghost pre = self.path@.subrange(0, i as int);
            assert(pre.last() == node);
            assert(pre.drop_last() =~= self.path@.subrange(0, i - 1));
            let kind = tree.nodes[node].kind.as_str();
            if is_kind(kind, a) || is_kind(kind, b) {
                return Some(node);
            }
            i -= 1;
        }
        None
    }
}


/// Where a bracket scan stands: still going (with its stack of openers),
/// stopped at a pair that includes the start offset, or failed.
pub enum ScanOutcome {
    Going(Seq<(u8, int)>),
    Found(int, int),
    Failed,
}

pub open spec fn is_opener(b: u8) -> bool {
    b == 40u8 || b == 91u8 || b == 123u8
}

pub open spec fn is_closer(b: u8) -> bool {
    b == 41u8 || b == 93u8 || b == 125u8
}

pub open spec fn pairs_with(o: u8, c: u8) -> bool {
    (o == 40u8 && c == 41u8) || (o == 91u8 && c == 93u8) || (o == 123u8 && c == 125u8)
}

/// Scan the bytes of one delimiter token from `index`: openers are pushed,
/// a closer pops its opener (failing on none or a mismatch) and stops at a
/// pair that includes `start`.
pub open spec fn scan_token(kb: Seq<u8>, base: int, index: int, stack: Seq<(u8, int)>, start: int) -> ScanOutcome
    decreases kb.len() - index,
{
    if index < 0 || index >= kb.len() {
        ScanOutcome::Going(stack)
    } else {
        let b = kb[index];
        let offset = base + index;
        if is_opener(b) {
            scan_token(kb, base, index + 1, stack.push((b, offset)), start)
        } else if is_closer(b) {
            if stack.len() == 0 {
                ScanOutcome::Failed
            } else if !pairs_with(stack.last().0, b) {
                ScanOutcome::Failed
            } else if stack.last().1 == start || offset == start {
                ScanOutcome::Found(stack.last().1, offset)
            } else {
                scan_token(kb, base, index + 1, stack.drop_last(), start)
            }
        } else {
            scan_token(kb, base, index + 1, stack, start)
        }
    }
}

/// Scan the siblings from `cursor` for the pair that includes `start`:
/// each whole delimiter token is scanned, a missing node fails, and the
/// scan gives up after its budget of moves.
pub open spec fn scan_siblings(t: &SyntaxTree, cursor: int, stack: Seq<(u8, int)>, start: int, step: int) -> Option<(int, int)>
    decreases MAX_CURSOR_STEPS - step,
{
    if step < 0 || step >= MAX_CURSOR_STEPS || cursor < 0 || cursor >= t.nodes@.len() {
        None
    } else {
        let sib = t.nodes@[cursor];
        if sib.is_missing {
            None
        } else {
            let outcome = if structural_token_spec(sib.kind@) && sib.end_byte - sib.start_byte == encode_utf8(sib.kind@).len() {
                scan_token(encode_utf8(sib.kind@), sib.start_byte as int, 0, stack, start)
            } else {
                ScanOutcome::Going(stack)
            };
            match outcome {
                ScanOutcome::Found(a, b) => Some((a, b)),
                ScanOutcome::Failed => None,
                ScanOutcome::Going(st) => match sib.next_sibling {
                    Some(n) => scan_siblings(t, n as int, st, start, step + 1),
                    None => None,
                },
            }
        }
    }
}

/// The bracket the caret selects: the one after it, else the one before it.
pub open spec fn caret_bracket(text: Seq<char>, caret: int) -> Option<int> {
    if char_at_spec(text, caret) matches Some(c) && is_bracket_spec(c) {
        Some(caret)
    } else if caret > 0 && (char_at_spec(text, caret - 1) matches Some(c) && is_bracket_spec(c)) {
        Some(caret - 1)
    } else {
        None
    }
}

/// The pair of brackets the caret highlights, within the bracket's owner.
pub open spec fn matching_brackets_spec(language: Seq<char>, tree: Option<&SyntaxTree>, text: Rope, caret: int) -> Option<(int, int)> {
    if language == "text"@ || language == "markdown"@ {
        None
    } else {
        match tree {
            None => None,
            Some(t) => if t.has_changes {
                None
            } else {
                match caret_bracket(rope_chars(text), caret) {
                    None => None,
                    Some(start) => match token_containing_spec(t, rope_bytes(text), start + 1) {
                        None => None,
                        Some(path) => {
                            let node = t.nodes@[path.last() as int];
                            let kb = encode_utf8(node.kind@);
                            if !path_is_code(t, path) || !structural_token_spec(node.kind@)
                                || node.end_byte - node.start_byte != kb.len() || !(0 <= start
                                - node.start_byte < kb.len() && is_bracket_spec(kb[start - node.start_byte] as char)) {
                                None
                            } else if path.len() < 2 {
                                None
                            } else {
                                let parent = t.nodes@[path[path.len() - 2] as int];
                                if parent.has_error {
                                    None
                                } else {
                                    match parent.first_child {
                                        None => None,
                                        Some(c) => scan_siblings(t, c as int, Seq::empty(), start, 0),
                                    }
                                }
                            }
                        },
                    },
                }
            },
        }
    }
}


/// How a sibling scan continues after one token's outcome.
pub open spec fn after_token(t: &SyntaxTree, next: Option<usize>, start: int, step: int, outcome: ScanOutcome) -> Option<(int, int)> {
    match outcome {
        ScanOutcome::Found(a, b) => Some((a, b)),
        ScanOutcome::Failed => None,
        ScanOutcome::Going(st) => match next {
            Some(n) => scan_siblings(t, n as int, st, start, step + 1),
            None => None,
        },
    }
}

/// The scan stack as offsets.
pub open spec fn stack_view(v: Seq<(u8, usize)>) -> Seq<(u8, int)> {
    v.map_values(|p: (u8, usize)| (p.0, p.1 as int))
}

/// Scan the siblings from `first` for the bracket pair that includes `start`.
fn scan_owner(tree: &SyntaxTree, first: usize, start: usize) -> (r: Option<(usize, usize)>)
    requires
        tree_wf(tree),
        first < tree.nodes@.len(),
    ensures
        match r {
            Some((a, b)) => scan_siblings(tree, first as int, Seq::empty(), start as int, 0) == Some((a as int, b as int))
                && a < usize::MAX && b < usize::MAX,
            None => scan_siblings(tree, first as int, Seq::empty(), start as int, 0) is None,
        },
{
    let mut cursor: usize = first;
    let mut stack: Vec<(u8, usize)> = Vec::new();
    let mut step: usize = 0;
    let ghost goal = scan_siblings(tree, first as int, Seq::empty(), start as int, 0);
    assert(stack_view(stack@) =~= Seq::<(u8, int)>::empty());
    while step < MAX_CURSOR_STEPS
        invariant
            tree_wf(tree),
            cursor < tree.nodes@.len(),
            goal == scan_siblings(tree, cursor as int, stack_view(stack@), start as int, step as int),
            goal == scan_siblings(tree, first as int, Seq::empty(), start as int, 0),
            forall|q: int| 0 <= q < stack@.len() ==> (#[trigger] stack@[q]).1 < usize::MAX,
        decreases MAX_CURSOR_STEPS - step,
    {
        let sib = &tree.nodes[cursor];
        if sib.is_missing {
            assert(goal is None);
            return None;
        }
        let kind = sib.kind.as_str();
        let kb = kind.as_bytes();
        let ghost st0 = stack_view(stack@);
        let ghost next = sib.next_sibling;
        let is_token = structural_token(kind) && sib.end_byte >= sib.start_byte && sib.end_byte - sib.start_byte == kb.len();
        proof {
            if is_token {
                assert(goal == after_token(tree, next, start as int, step as int, scan_token(kb@, sib.start_byte as int, 0, st0, start as int)));
            } else {
                assert(goal == after_token(tree, next, start as int, step as int, ScanOutcome::Going(st0)));
            }
        }
        if is_token {
            let base = sib.start_byte;
            let mut index: usize = 0;
            while index < kb.len()
                invariant
                    kb@ == encode_utf8(kind@),
                    base + kb@.len() <= usize::MAX,
                    index <= kb@.len(),
                    scan_token(kb@, base as int, 0, st0, start as int) == scan_token(kb@, base as int, index as int, stack_view(stack@), start as int),
                    forall|q: int| 0 <= q < stack@.len() ==> (#[trigger] stack@[q]).1 < usize::MAX,
                    goal == after_token(tree, next, start as int, step as int, scan_token(kb@, base as int, 0, st0, start as int)),
                    goal == scan_siblings(tree, first as int, Seq::empty(), start as int, 0),
                    next == sib.next_sibling,
                decreases kb@.len() - index,
            {
                let b = kb[index];
                let offset = base + index;
                let ghost sv0 = stack_view(stack@);
                if b == 40u8 || b == 91u8 || b == 123u8 {
                    stack.push((b, offset));
                    assert(stack_view(stack@) =~= sv0.push((b, offset as int)));
                    assert(scan_token(kb@, base as int, index as int, sv0, start as int) == scan_token(kb@, base as int, index + 1, sv0.push((b, offset as int)), start as int));
                } else if b == 41u8 || b == 93u8 || b == 125u8 {
                    let ghost sv = stack_view(stack@);
                    let popped = stack.pop();
                    match popped {
                        None => {
                            assert(scan_token(kb@, base as int, index as int, sv, start as int) == ScanOutcome::Failed);
                            assert(after_token(tree, next, start as int, step as int, ScanOutcome::Failed) is None);
                            assert(goal is None);
                            return None;
                        },
                        Some((opening, opening_offset)) => {
                            assert(sv.last() == (opening, opening_offset as int));
                            assert(stack_view(stack@) =~= sv.drop_last());
                            if !((opening == 40u8 && b == 41u8) || (opening == 91u8 && b == 93u8) || (opening == 123u8 && b == 125u8)) {
                                assert(scan_token(kb@, base as int, index as int, sv, start as int) == ScanOutcome::Failed);
                                return None;
                            }
                            if opening_offset == start || offset == start {
                                assert(scan_token(kb@, base as int, index as int, sv, start as int) == ScanOutcome::Found(opening_offset as int, offset as int));
                                assert(after_token(tree, next, start as int, step as int, ScanOutcome::Found(opening_offset as int, offset as int)) == Some((opening_offset as int, offset as int)));
                                assert(goal == Some((opening_offset as int, offset as int)));
                                return Some((opening_offset, offset));
                            }
                            assert(scan_token(kb@, base as int, index as int, sv, start as int) == scan_token(kb@, base as int, index + 1, sv.drop_last(), start as int));
                        },
                    }
                } else {
                    assert(scan_token(kb@, base as int, index as int, sv0, start as int) == scan_token(kb@, base as int, index + 1, sv0, start as int));
                }
                index += 1;
            }
        }
        match sib.next_sibling {
            Some(n) => {
                cursor = n;
            },
            None => {
                return None;
            },
        }
        step += 1;
    }
    assert(goal is None);
    None
}

/// The pair of brackets the caret highlights: the bracket after the caret
/// (else before it) and its partner within the same syntactic owner. Strings,
/// comments, malformed owners, stale trees and exhausted budgets give none.
pub fn matching_brackets(language: &str, tree: Option<&SyntaxTree>, text: &Rope, caret: usize) -> (r: Option<(Range<usize>, Range<usize>)>)
    requires
        tree matches Some(t) ==> tree_wf(t),
    ensures
        match r {
            Some((a, b)) => matching_brackets_spec(language@, tree, *text, caret as int) == Some((a.start as int, b.start as int))
                && a.end == a.start + 1 && b.end == b.start + 1,
            None => matching_brackets_spec(language@, tree, *text, caret as int) is None,
        },
{
    if is_kind(language, "text") || is_kind(language, "markdown") {
        return None;
    }
    let t = match tree {
        Some(t) => t,
        None => {
            return None;
        },
    };
    if t.has_changes {
        return None;
    }
    let start = match char_at(text, caret) {
        Some(c) if is_bracket(c) => caret,
        _ => {
            if caret > 0 && match char_at(text, caret - 1) {
                Some(c) => is_bracket(c),
                None => false,
            } {
                caret - 1
            } else {
                return None;
            }
        },
    };
    proof {
        crate::text::lemma_chars_within_monotone(rope_chars(*text), start as int, start as int);
    }
    let end = match start.checked_add(1) {
        Some(e) => e,
        None => {
            return None;
        },
    };
    let token = match token_containing(t, text, end) {
        Some(token) => token,
        None => {
            return None;
        },
    };
    let _count = t.nodes.len();
    proof {
        lemma_seek_path_spans(t, clip_spec(rope_bytes(*text), start as int, Bias::Left), end as int, 0, Seq::empty(), 0);
        lemma_clip_left_bounds(rope_bytes(*text), start as int);
    }
    let node = &t.nodes[token.node()];
    let kind = node.kind.as_str();
    let kb = kind.as_bytes();
    if !token.is_code(t) || !structural_token(kind) || node.end_byte - node.start_byte != kb.len() {
        return None;
    }
    if !(start >= node.start_byte && start - node.start_byte < kb.len() && is_bracket(kb[start - node.start_byte] as char)) {
        return None;
    }
    let parent = match token.parent() {
        Some(p) => p,
        None => {
            return None;
        },
    };
    let owner = &t.nodes[parent];
    if owner.has_error {
        return None;
    }
    let first = match owner.first_child {
        Some(c) => c,
        None => {
            return None;
        },
    };
    match scan_owner(t, first, start) {
        Some((a, b)) => Some((a..a + 1, b..b + 1)),
        None => None,
    }
}


proof fn lemma_token_pair_includes_start(kb: Seq<u8>, base: int, index: int, stack: Seq<(u8, int)>, start: int)
    ensures
        scan_token(kb, base, index, stack, start) matches ScanOutcome::Found(a, b) ==> a == start || b == start,
    decreases kb.len() - index,
{
    if !(index < 0 || index >= kb.len()) {
        let b = kb[index];
        if is_opener(b) {
            lemma_token_pair_includes_start(kb, base, index + 1, stack.push((b, base + index)), start);
        } else if is_closer(b) {
            if stack.len() > 0 && pairs_with(stack.last().0, b) {
                lemma_token_pair_includes_start(kb, base, index + 1, stack.drop_last(), start);
            }
        } else {
            lemma_token_pair_includes_start(kb, base, index + 1, stack, start);
        }
    }
}

proof fn lemma_scan_pair_includes_start(t: &SyntaxTree, cursor: int, stack: Seq<(u8, int)>, start: int, step: int)
    ensures
        scan_siblings(t, cursor, stack, start, step) matches Some((a, b)) ==> a == start || b == start,
    decreases MAX_CURSOR_STEPS - step,
{
    if !(step < 0 || step >= MAX_CURSOR_STEPS || cursor < 0 || cursor >= t.nodes@.len()) {
        let sib = t.nodes@[cursor];
        if !sib.is_missing {
            let kb = encode_utf8(sib.kind@);
            lemma_token_pair_includes_start(kb, sib.start_byte as int, 0, stack, start);
            let outcome = if structural_token_spec(sib.kind@) && sib.end_byte - sib.start_byte == kb.len() {
                scan_token(kb, sib.start_byte as int, 0, stack, start)
            } else {
                ScanOutcome::Going(stack)
            };
            if let ScanOutcome::Going(st) = outcome {
                if let Some(n) = sib.next_sibling {
                    lemma_scan_pair_includes_start(t, n as int, st, start, step + 1);
                }
            }
        }
    }
}

/// The highlighted pair always includes the bracket the caret selects: an
/// unmatched bracket at the caret never lends its place to a neighbour's pair.
pub proof fn lemma_pair_includes_caret_bracket(language: Seq<char>, tree: Option<&SyntaxTree>, text: Rope, caret: int)
    ensures
        matching_brackets_spec(language, tree, text, caret) matches Some((a, b)) ==> (caret_bracket(rope_chars(text), caret) matches Some(s)
            && (a == s || b == s)),
{
    if let Some(t) = tree {
        if let Some(start) = caret_bracket(rope_chars(text), caret) {
            if let Some(path) = token_containing_spec(t, rope_bytes(text), start + 1) {
                if path.len() >= 2 {
                    let parent = t.nodes@[path[path.len() - 2] as int];
                    if let Some(c) = parent.first_child {
                        lemma_scan_pair_includes_start(t, c as int, Seq::empty(), start, 0);
                    }
                }
            }
        }
    }
}


/// Every delimiter token of the tree spells its kind in the text at its span.
pub open spec fn tokens_spell(t: &SyntaxTree, b: Seq<u8>) -> bool {
    forall|i: int|
        0 <= i < t.nodes@.len() && structural_token_spec((#[trigger] t.nodes@[i]).kind@)
            && t.nodes@[i].end_byte - t.nodes@[i].start_byte == encode_utf8(t.nodes@[i].kind@).len()
            ==> t.nodes@[i].end_byte <= b.len() && b.subrange(t.nodes@[i].start_byte as int, t.nodes@[i].end_byte as int)
            == encode_utf8(t.nodes@[i].kind@)
}

/// Every node starts no later than it ends, and its next sibling starts no
/// earlier than it ends.
pub open spec fn siblings_in_order(t: &SyntaxTree) -> bool {
    forall|i: int|
        0 <= i < t.nodes@.len() ==> (#[trigger] t.nodes@[i]).start_byte <= t.nodes@[i].end_byte && (
        t.nodes@[i].next_sibling matches Some(n) ==> n < t.nodes@.len() && t.nodes@[i].end_byte
            <= t.nodes@[n as int].start_byte)
}

/// The scan stack holds openers of the text, each before `limit`.
pub open spec fn openers_before(stack: Seq<(u8, int)>, b: Seq<u8>, limit: int) -> bool {
    forall|k: int|
        0 <= k < stack.len() ==> 0 <= (#[trigger] stack[k]).1 < limit && stack[k].1 < b.len() && is_opener(
            stack[k].0,
        ) && b[stack[k].1] == stack[k].0
}

/// A pair that the scan of one token finds is an opener of the text paired
/// with a later closer; a scan that goes on leaves only openers before the
/// token's end.
proof fn lemma_token_pair_real(kb: Seq<u8>, base: int, index: int, stack: Seq<(u8, int)>, start: int, b: Seq<u8>)
    requires
        0 <= base,
        0 <= index,
        base + kb.len() <= b.len(),
        b.subrange(base, base + kb.len()) == kb,
        openers_before(stack, b, base + index),
    ensures
        match scan_token(kb, base, index, stack, start) {
            ScanOutcome::Found(x, y) => 0 <= x < y < b.len() && pairs_with(b[x], b[y]),
            ScanOutcome::Going(st) => openers_before(st, b, base + if index <= kb.len() { kb.len() as int } else { index }),
            ScanOutcome::Failed => true,
        },
    decreases kb.len() - index,
{
    if index < kb.len() {
        let c = kb[index];
        assert(b[base + index] == c) by {
            assert(b.subrange(base, base + kb.len())[index] == b[base + index]);
        }
        if is_opener(c) {
            let st = stack.push((c, base + index));
            assert forall|k: int| 0 <= k < st.len() implies 0 <= (#[trigger] st[k]).1 < base + index + 1 && st[k].1 < b.len()
                && is_opener(st[k].0) && b[st[k].1] == st[k].0 by {
                if k < stack.len() {
                    assert(st[k] == stack[k]);
                }
            }
            lemma_token_pair_real(kb, base, index + 1, st, start, b);
        } else if is_closer(c) {
            if stack.len() > 0 && pairs_with(stack.last().0, c) {
                assert(stack.last() == stack[stack.len() - 1]);
                let st = stack.drop_last();
                assert forall|k: int| 0 <= k < st.len() implies 0 <= (#[trigger] st[k]).1 < base + index + 1 && st[k].1 < b.len()
                    && is_opener(st[k].0) && b[st[k].1] == st[k].0 by {
                    assert(st[k] == stack[k]);
                }
                lemma_token_pair_real(kb, base, index + 1, st, start, b);
            }
        } else {
            lemma_token_pair_real(kb, base, index + 1, stack, start, b);
        }
    }
}

/// A pair that the sibling scan finds is an opener of the text paired with a
/// later closer.
proof fn lemma_scan_pair_real(t: &SyntaxTree, cursor: int, stack: Seq<(u8, int)>, start: int, step: int, b: Seq<u8>)
    requires
        tokens_spell(t, b),
        siblings_in_order(t),
        0 <= cursor < t.nodes@.len() ==> openers_before(stack, b, t.nodes@[cursor].start_byte as int),
    ensures
        scan_siblings(t, cursor, stack, start, step) matches Some((x, y)) ==> 0 <= x < y < b.len() && pairs_with(b[x], b[y]),
    decreases MAX_CURSOR_STEPS - step,
{
    if !(step < 0 || step >= MAX_CURSOR_STEPS || cursor < 0 || cursor >= t.nodes@.len()) {
        let sib = t.nodes@[cursor];
        if !sib.is_missing {
            let kb = encode_utf8(sib.kind@);
            let base = sib.start_byte as int;
            assert(sib.start_byte <= sib.end_byte);
            let token = structural_token_spec(sib.kind@) && sib.end_byte - sib.start_byte == kb.len();
            let outcome = if token {
                scan_token(kb, base, 0, stack, start)
            } else {
                ScanOutcome::Going(stack)
            };
            if token {
                assert(sib.end_byte <= b.len() && b.subrange(base, sib.end_byte as int) == kb);
                lemma_token_pair_real(kb, base, 0, stack, start, b);
            }
            if let ScanOutcome::Going(st) = outcome {
                assert(openers_before(st, b, sib.end_byte as int)) by {
                    if !token {
                        assert forall|k: int| 0 <= k < st.len() implies 0 <= (#[trigger] st[k]).1 < sib.end_byte as int
                            && st[k].1 < b.len() && is_opener(st[k].0) && b[st[k].1] == st[k].0 by {}
                    }
                }
                if let Some(n) = sib.next_sibling {
                    assert forall|k: int| 0 <= k < st.len() implies 0 <= (#[trigger] st[k]).1 < t.nodes@[n as int].start_byte as int
                        && st[k].1 < b.len() && is_opener(st[k].0) && b[st[k].1] == st[k].0 by {}
                    lemma_scan_pair_real(t, n as int, st, start, step + 1, b);
                }
            }
        }
    }
}

/// A highlighted pair is a real pair of the text: an opening `(`, `[` or `{`
/// and, after it, the closing bracket of the same kind; so it holds of every
/// tree whose delimiter tokens spell the text and whose siblings follow one
/// another, as those of a parse of the text do.
pub proof fn lemma_bracket_pair_is_real(language: Seq<char>, tree: Option<&SyntaxTree>, text: Rope, caret: int)
    requires
        tree matches Some(t) ==> tokens_spell(t, rope_bytes(text)) && siblings_in_order(t),
    ensures
        matching_brackets_spec(language, tree, text, caret) matches Some((a, c)) ==> 0 <= a < c < rope_bytes(text).len()
            && pairs_with(rope_bytes(text)[a], rope_bytes(text)[c]),
{
    if let Some(t) = tree {
        if let Some(start) = caret_bracket(rope_chars(text), caret) {
            if let Some(path) = token_containing_spec(t, rope_bytes(text), start + 1) {
                if path.len() >= 2 {
                    let parent = t.nodes@[path[path.len() - 2] as int];
                    if let Some(c) = parent.first_child {
                        lemma_scan_pair_real(t, c as int, Seq::empty(), start, 0, rope_bytes(text));
                    }
                }
            }
        }
    }
}

/// The pair of brackets the caret highlights, given only while the syntax is
/// current: a tree still being parsed for newer text gives none.
pub fn matching_brackets_when(
    current: bool,
    language: &str,
    tree: Option<&SyntaxTree>,
    text: &Rope,
    caret: usize,
) -> (r: Option<(Range<usize>, Range<usize>)>)
    requires
        tree matches Some(t) ==> tree_wf(t),
    ensures
        !current ==> r is None,
        current ==> match r {
            Some((a, b)) => matching_brackets_spec(language@, tree, *text, caret as int) == Some((a.start as int, b.start as int))
                && a.end == a.start + 1 && b.end == b.start + 1,
            None => matching_brackets_spec(language@, tree, *text, caret as int) is None,
        },
{
    if !current {
        return None;
    }
    matching_brackets(language, tree, text, caret)
}

/// The encoding of one ASCII character is its code.
pub(crate) proof fn lemma_encode_ascii(c: char)
    requires
        (c as u32) < 128,
    ensures
        encode_utf8(seq![c]) == seq![(c as u32) as u8],
{
    let x = c as u32;
    assert((x & 0x7F) as u8 == x as u8) by (bit_vector)
        requires
            x < 128,
    ;
    assert(seq![c].drop_first() =~= Seq::<char>::empty());
    assert(encode_utf8(seq![c].drop_first()) =~= Seq::<u8>::empty());
    assert(encode_utf8(seq![c]) =~= seq![x as u8]);
}

/// A bracket's one-character kind is a delimiter token's.
proof fn lemma_bracket_kind_is_structural(c: char)
    requires
        c == '(' || c == ')' || c == '[' || c == ']' || c == '{' || c == '}',
    ensures
        structural_token_spec(seq![c]),
{
    reveal_strlit("(");
    reveal_strlit(")");
    reveal_strlit("[");
    reveal_strlit("]");
    reveal_strlit("{");
    reveal_strlit("}");
    if c == '(' {
        assert(seq![c] =~= "("@);
    } else if c == ')' {
        assert(seq![c] =~= ")"@);
    } else if c == '[' {
        assert(seq![c] =~= "["@);
    } else if c == ']' {
        assert(seq![c] =~= "]"@);
    } else if c == '{' {
        assert(seq![c] =~= "{"@);
    } else {
        assert(seq![c] =~= "}"@);
    }
}

/// The bracket the caret is on (or, with none there, just after) is the one
/// whose pair is sought: when that character is one of `(`, `)`, `[`, `]`,
/// `{`, `}` and is a one-character code token of a tree parsed from the
/// current text (in a language other than plain text and Markdown), under
/// an owner without errors, the highlighted pair is what the scan of the
/// owner's children finds for that bracket.
pub proof fn lemma_bracket_at_caret_is_sought(
    language: Seq<char>,
    t: &SyntaxTree,
    text: Rope,
    caret: int,
    start: int,
    c: char,
    path: Seq<usize>,
    first: usize,
)
    requires
        language != "text"@,
        language != "markdown"@,
        !t.has_changes,
        c == '(' || c == ')' || c == '[' || c == ']' || c == '{' || c == '}',
        (start == caret && char_at_spec(rope_chars(text), caret) == Some(c)) || (start == caret - 1 && caret > 0
            && char_at_spec(rope_chars(text), caret - 1) == Some(c) && !(char_at_spec(rope_chars(text), caret) matches Some(
            d,
        ) && (d == '(' || d == ')' || d == '[' || d == ']' || d == '{' || d == '}'))),
        token_containing_spec(t, rope_bytes(text), start + 1) == Some(path),
        path.len() >= 2,
        path.last() < t.nodes@.len(),
        path[path.len() - 2] < t.nodes@.len(),
        kind_of(t, path.last()) == seq![c],
        t.nodes@[path.last() as int].start_byte == start,
        t.nodes@[path.last() as int].end_byte == start + 1,
        path_is_code(t, path),
        !t.nodes@[path[path.len() - 2] as int].has_error,
        t.nodes@[path[path.len() - 2] as int].first_child == Some(first),
    ensures
        matching_brackets_spec(language, Some(t), text, caret) == scan_siblings(t, first as int, Seq::empty(), start, 0),
{
    lemma_bracket_kind_is_structural(c);
    lemma_encode_ascii(c);
    let kb = encode_utf8(kind_of(t, path.last()));
    assert(kb == seq![(c as u32) as u8]);
    assert(kb[0] as char == c);
    assert(is_bracket_spec(c));
    assert(caret_bracket(rope_chars(text), caret) == Some(start));
    let node = t.nodes@[path.last() as int];
    assert(structural_token_spec(node.kind@));
    assert(node.end_byte - node.start_byte == kb.len());
    assert(start - node.start_byte == 0);
    assert(is_bracket_spec(kb[start - node.start_byte] as char));
}

/// An opening bracket token followed directly by its own closing bracket
/// token, as the first two children of their owner, is a pair: the scan from
/// the owner's first child finds it for either bracket.
pub proof fn lemma_adjacent_brackets_pair(t: &SyntaxTree, first: int, open: char, close: char, start: int)
    requires
        (open == '(' && close == ')') || (open == '[' && close == ']') || (open == '{' && close == '}'),
        0 <= first < t.nodes@.len(),
        !t.nodes@[first].is_missing,
        t.nodes@[first].kind@ == seq![open],
        t.nodes@[first].end_byte == t.nodes@[first].start_byte + 1,
        t.nodes@[first].next_sibling matches Some(n) && n < t.nodes@.len() && !t.nodes@[n as int].is_missing
            && t.nodes@[n as int].kind@ == seq![close] && t.nodes@[n as int].end_byte == t.nodes@[n as int].start_byte
            + 1 && (start == t.nodes@[first].start_byte || start == t.nodes@[n as int].start_byte),
    ensures
        scan_siblings(t, first, Seq::empty(), start, 0) == Some(
            (t.nodes@[first].start_byte as int, t.nodes@[t.nodes@[first].next_sibling.unwrap() as int].start_byte as int),
        ),
{
    let n = t.nodes@[first].next_sibling.unwrap() as int;
    lemma_bracket_kind_is_structural(open);
    lemma_bracket_kind_is_structural(close);
    lemma_encode_ascii(open);
    lemma_encode_ascii(close);
    let ko = encode_utf8(t.nodes@[first].kind@);
    let kc = encode_utf8(t.nodes@[n].kind@);
    assert(ko == seq![(open as u32) as u8]);
    assert(kc == seq![(close as u32) as u8]);
    let o = t.nodes@[first].start_byte as int;
    let st = seq![((open as u32) as u8, o)];
    assert(scan_token(ko, o, 1, st, start) == ScanOutcome::Going(st));
    assert(scan_token(ko, o, 0, Seq::empty(), start) == ScanOutcome::Going(st)) by {
        assert(Seq::<(u8, int)>::empty().push(((open as u32) as u8, o)) == st);
    }
    assert(st.last() == ((open as u32) as u8, o));
    assert(scan_token(kc, t.nodes@[n].start_byte as int, 0, st, start) == ScanOutcome::Found(
        o,
        t.nodes@[n].start_byte as int,
    ));
    assert(scan_siblings(t, n, st, start, 1) == Some((o, t.nodes@[n].start_byte as int)));
}

} // verus!
