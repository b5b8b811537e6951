//! Which comment delimiters a language uses at a range. Where a language
//! embeds others (JSX in TSX, code blocks and raw HTML in Markdown and HTML),
//! the range must lie wholly in host-language syntax; a walk of the tree that
//! runs out of budget, or a stale tree, gives no syntax at all.
use crate::comment::CommentSyntax;
use crate::indent::tree_fits;
use crate::syntax::{is_kind, tree_wf, SyntaxNode, SyntaxTree, MAX_CURSOR_STEPS};
use crate::text::{rope_bytes, rope_text, str_chars};
use ropey::Rope;
use std::ops::Range;
use vstd::prelude::*;

verus! {

/// Which embedded syntax keeps a range from taking the host's comments.
#[derive(Clone, Copy, Debug, PartialEq, Eq, Structural)]
pub enum HostFilter {
    /// JSX elements and their parts.
    Jsx,
    /// Raw text, code blocks, front matter and raw HTML blocks.
    Markup,
}

/// A kind that begins with `jsx_`.
pub open spec fn jsx_kind(kind: Seq<char>) -> bool {
    kind.len() >= 4 && kind.subrange(0, 4) == "jsx_"@
}

/// Kinds whose text is not Markdown or HTML markup.
pub open spec fn foreign_markup_kind(kind: Seq<char>) -> bool {
    ||| kind == "raw_text"@
    ||| kind == "fenced_code_block"@
    ||| kind == "indented_code_block"@
    ||| kind == "minus_metadata"@
    ||| kind == "plus_metadata"@
}

/// A raw HTML block that is one complete HTML comment which the range
/// covers, but for at most two trailing line-break bytes.
pub open spec fn complete_html_comment_spec(b: Seq<u8>, n: SyntaxNode, rs: int, re: int) -> bool {
    let start = n.start_byte as int;
    let end = n.end_byte as int;
    &&& rs <= start
    &&& (if end >= re { end - re } else { 0 }) <= 2
    &&& (end <= re || forall|k: int| re <= k < end ==> (b[k] == 13u8 || b[k] == 10u8))
    &&& end >= start + 4
    &&& b.subrange(start, start + 4) == seq![60u8, 33u8, 45u8, 45u8]
}

/// Scanning the siblings after `current` (spending one step of the budget
/// per move): whether a thematic break closes the front matter after a named
/// node that meets the range, with the budget left. Running out of siblings
/// answers no; running out of budget answers yes.
pub open spec fn front_matter_scan(t: &SyntaxTree, rs: int, re: int, current: usize, meets: bool, remaining: int) -> (bool, int)
    decreases remaining,
{
    if remaining <= 0 {
        (true, remaining)
    } else {
        let rem = remaining - 1;
        match t.nodes@[current as int].next_sibling {
            None => (false, rem),
            Some(s) => {
                let n = t.nodes@[s as int];
                if !n.is_named {
                    front_matter_scan(t, rs, re, s, meets, rem)
                } else if n.kind@ == "thematic_break"@ && meets {
                    (true, rem)
                } else {
                    front_matter_scan(t, rs, re, s, meets || (n.start_byte <= re && n.end_byte >= rs), rem)
                }
            },
        }
    }
}

/// Whether a section that opens with a thematic break holds front matter
/// that meets the range, with the budget left.
pub open spec fn front_matter_spec(t: &SyntaxTree, node: usize, rs: int, re: int, remaining: int) -> (bool, int) {
    if t.nodes@[node as int].kind@ != "section"@ {
        (false, remaining)
    } else {
        match t.nodes@[node as int].first_child {
            None => (false, remaining),
            Some(c) => if t.nodes@[c as int].kind@ != "thematic_break"@ {
                (false, remaining)
            } else {
                front_matter_scan(t, rs, re, c, false, remaining)
            },
        }
    }
}

/// Whether a node keeps the range from taking host comments, with the
/// budget left.
pub open spec fn excluded_spec(filter: HostFilter, t: &SyntaxTree, b: Seq<u8>, rs: int, re: int, node: usize, remaining: int) -> (bool, int) {
    let n = t.nodes@[node as int];
    match filter {
        HostFilter::Jsx => (jsx_kind(n.kind@), remaining),
        HostFilter::Markup => if foreign_markup_kind(n.kind@) {
            (true, remaining)
        } else if n.kind@ == "html_block"@ && !complete_html_comment_spec(b, n, rs, re) {
            (true, remaining)
        } else {
            front_matter_spec(t, node, rs, re, remaining)
        },
    }
}

/// A cursor walk over the tree from `node` (its ancestors on `stack`),
/// descending into the nodes that reach the range and stopping at the first
/// node past it. Each move spends one step. The range is host syntax when the
/// walk passes the range or climbs out of the root without meeting an
/// excluded node; an exhausted budget answers no.
pub open spec fn host_walk(
    t: &SyntaxTree,
    b: Seq<u8>,
    rs: int,
    re: int,
    filter: HostFilter,
    stack: Seq<usize>,
    node: usize,
    ascending: bool,
    remaining: int,
) -> bool
    decreases remaining,
    via host_walk_decreases
{
    if remaining <= 0 {
        false
    } else {
        let rem = remaining - 1;
        if ascending {
            if stack.len() == 0 {
                true
            } else {
                let parent = stack.last();
                let up = stack.drop_last();
                match t.nodes@[parent as int].next_sibling {
                    Some(s) => if up.len() > 0 {
                        host_walk(t, b, rs, re, filter, up, s, false, rem)
                    } else {
                        host_walk(t, b, rs, re, filter, up, parent, true, rem)
                    },
                    None => host_walk(t, b, rs, re, filter, up, parent, true, rem),
                }
            }
        } else {
            let n = t.nodes@[node as int];
            if n.start_byte > re {
                true
            } else {
                let (ex, left) = if n.end_byte >= rs {
                    excluded_spec(filter, t, b, rs, re, node, rem)
                } else {
                    (false, rem)
                };
                if n.end_byte >= rs && (ex || left == 0) {
                    false
                } else if n.end_byte >= rs && n.first_child is Some {
                    host_walk(t, b, rs, re, filter, stack.push(node), n.first_child->0, false, left)
                } else if stack.len() > 0 && n.next_sibling is Some {
                    host_walk(t, b, rs, re, filter, stack, n.next_sibling->0, false, left)
                } else {
                    host_walk(t, b, rs, re, filter, stack, node, true, left)
                }
            }
        }
    }
}

proof fn lemma_scan_budget(t: &SyntaxTree, rs: int, re: int, current: usize, meets: bool, remaining: int)
    ensures
        front_matter_scan(t, rs, re, current, meets, remaining).1 <= remaining,
        remaining >= 0 ==> front_matter_scan(t, rs, re, current, meets, remaining).1 >= 0,
    decreases remaining,
{
    if remaining > 0 {
        let rem = remaining - 1;
        match t.nodes@[current as int].next_sibling {
            None => {},
            Some(s) => {
                let n = t.nodes@[s as int];
                lemma_scan_budget(t, rs, re, s, meets, rem);
                lemma_scan_budget(t, rs, re, s, meets || (n.start_byte <= re && n.end_byte >= rs), rem);
            },
        }
    }
}

proof fn lemma_excluded_budget(filter: HostFilter, t: &SyntaxTree, b: Seq<u8>, rs: int, re: int, node: usize, remaining: int)
    ensures
        excluded_spec(filter, t, b, rs, re, node, remaining).1 <= remaining,
        remaining >= 0 ==> excluded_spec(filter, t, b, rs, re, node, remaining).1 >= 0,
{
    if let Some(c) = t.nodes@[node as int].first_child {
        lemma_scan_budget(t, rs, re, c, false, remaining);
    }
}

#[via_fn]
proof fn host_walk_decreases(
    t: &SyntaxTree,
    b: Seq<u8>,
    rs: int,
    re: int,
    filter: HostFilter,
    stack: Seq<usize>,
    node: usize,
    ascending: bool,
    remaining: int,
) {
    if remaining > 0 && !ascending {
        lemma_excluded_budget(filter, t, b, rs, re, node, remaining - 1);
    }
}

/// Whether the range lies wholly in host syntax: never for a missing or
/// stale tree, nor (where `require_valid`) for a tree with errors.
pub open spec fn host_range_spec(tree: Option<&SyntaxTree>, b: Seq<u8>, rs: int, re: int, require_valid: bool, filter: HostFilter) -> bool {
    match tree {
        None => false,
        Some(t) => if (require_valid && t.nodes@[0].has_error) || t.has_changes {
            false
        } else {
            host_walk(t, b, rs, re, filter, Seq::empty(), 0, false, MAX_CURSOR_STEPS as int)
        },
    }
}

/// A comment syntax as its prefix, suffix and forbidden sequence.
pub open spec fn syntax_view(c: CommentSyntax) -> (Seq<char>, Option<Seq<char>>, Option<Seq<char>>) {
    (
        c.prefix@,
        match c.suffix {
            Some(s) => Some(s@),
            None => None,
        },
        match c.forbidden {
            Some(f) => Some(f@),
            None => None,
        },
    )
}

/// The comment syntax of a language at a range (`current`: the tree is up to
/// date with the text).
pub open spec fn comment_syntax_spec(language: Seq<char>, tree: Option<&SyntaxTree>, b: Seq<u8>, current: bool, rs: int, re: int) -> Option<(Seq<char>, Option<Seq<char>>, Option<Seq<char>>)> {
    if language == "rust"@ || language == "javascript"@ || language == "typescript"@ {
        Some(("//"@, None, None))
    } else if language == "tsx"@ {
        if !current || !host_range_spec(tree, b, rs, re, true, HostFilter::Jsx) {
            None
        } else {
            Some(("//"@, None, None))
        }
    } else if language == "python"@ || language == "bash"@ || language == "toml"@ || language == "yaml"@ {
        Some(("#"@, None, None))
    } else if language == "css"@ {
        Some(("/*"@, Some("*/"@), None))
    } else if language == "html"@ || language == "markdown"@ {
        if !current || !host_range_spec(tree, b, rs, re, false, HostFilter::Markup) {
            None
        } else {
            Some(("<!--"@, Some("-->"@), Some("--"@)))
        }
    } else {
        None
    }
}

// ---------------------------------------------------------------------------
// Executable steps.

fn jsx_kind_in(kind: &str) -> (r: bool)
    ensures
        r == jsx_kind(kind@),
{
    let k = str_chars(kind);
    proof {
        reveal_strlit("jsx_");
    }
    if k.len() >= 4 && k[0] == 'j' && k[1] == 's' && k[2] == 'x' && k[3] == '_' {
        assert(k@.subrange(0, 4) =~= "jsx_"@);
        true
    } else {
        proof {
            if k@.len() >= 4 {
                assert(k@.subrange(0, 4)[0] == k@[0]);
                assert(k@.subrange(0, 4)[1] == k@[1]);
                assert(k@.subrange(0, 4)[2] == k@[2]);
                assert(k@.subrange(0, 4)[3] == k@[3]);
            }
        }
        false
    }
}

fn foreign_markup_kind_in(kind: &str) -> (r: bool)
    ensures
        r == foreign_markup_kind(kind@),
{
    is_kind(kind, "raw_text") || is_kind(kind, "fenced_code_block") || is_kind(kind, "indented_code_block")
        || is_kind(kind, "minus_metadata") || is_kind(kind, "plus_metadata")
}

fn complete_html_comment_in(b: &[u8], n: &SyntaxNode, rs: usize, re: usize) -> (r: bool)
    requires
        n.start_byte <= n.end_byte <= b@.len(),
    ensures
        r == complete_html_comment_spec(b@, *n, rs as int, re as int),
{
    let start = n.start_byte;
    let end = n.end_byte;
    let over = if end >= re {
        end - re
    } else {
        0
    };
    if !(rs <= start && over <= 2) {
        return false;
    }
    if end > re {
        let mut k = re;
        while k < end
            invariant
                re <= k <= end <= b@.len(),
                end == n.end_byte,
                end > re,
                forall|q: int| re <= q < k ==> (b@[q] == 13u8 || b@[q] == 10u8),
            decreases end - k,
        {
            if !(b[k] == 13u8 || b[k] == 10u8) {
                assert(!(forall|q: int| re <= q < end ==> (b@[q] == 13u8 || b@[q] == 10u8))) by {
                    assert(re <= k < end && !(b@[k as int] == 13u8 || b@[k as int] == 10u8));
                }
                return false;
            }
            k += 1;
        }
    }
    if end - start < 4 {
        return false;
    }
    let opens = b[start] == 60u8 && b[start + 1] == 33u8 && b[start + 2] == 45u8 && b[start + 3] == 45u8;
    proof {
        let sub = b@.subrange(start as int, start + 4);
        if opens {
            assert(sub =~= seq![60u8, 33u8, 45u8, 45u8]);
        } else {
            assert(sub[0] == b@[start as int] && sub[1] == b@[start + 1] && sub[2] == b@[start + 2] && sub[3] == b@[start + 3]);
        }
    }
    opens
}

fn front_matter_in(t: &SyntaxTree, node: usize, rs: usize, re: usize, remaining: usize) -> (r: (bool, usize))
    requires
        tree_wf(t),
        node < t.nodes@.len(),
    ensures
        (r.0, r.1 as int) == front_matter_spec(t, node, rs as int, re as int, remaining as int),
{
    if !is_kind(t.nodes[node].kind.as_str(), "section") {
        return (false, remaining);
    }
    let first = match t.nodes[node].first_child {
        None => {
            return (false, remaining);
        },
        Some(c) => c,
    };
    if !is_kind(t.nodes[first].kind.as_str(), "thematic_break") {
        return (false, remaining);
    }
    let mut current = first;
    let mut meets = false;
    let mut left = remaining;
    while left > 0
        invariant
            tree_wf(t),
            current < t.nodes@.len(),
            front_matter_spec(t, node, rs as int, re as int, remaining as int) == front_matter_scan(
                t,
                rs as int,
                re as int,
                current,
                meets,
                left as int,
            ),
        decreases left,
    {
        left -= 1;
        let next = match t.nodes[current].next_sibling {
            None => {
                return (false, left);
            },
            Some(s) => s,
        };
        let n = &t.nodes[next];
        current = next;
        if !n.is_named {
            continue;
        }
        if is_kind(n.kind.as_str(), "thematic_break") && meets {
            return (true, left);
        }
        meets = meets || (n.start_byte <= re && n.end_byte >= rs);
    }
    (true, left)
}

fn excluded_in(filter: HostFilter, t: &SyntaxTree, b: &[u8], rs: usize, re: usize, node: usize, remaining: usize) -> (r: (bool, usize))
    requires
        tree_wf(t),
        tree_fits(t, b@),
        node < t.nodes@.len(),
    ensures
        (r.0, r.1 as int) == excluded_spec(filter, t, b@, rs as int, re as int, node, remaining as int),
{
    let n = &t.nodes[node];
    match filter {
        HostFilter::Jsx => (jsx_kind_in(n.kind.as_str()), remaining),
        HostFilter::Markup => {
            if foreign_markup_kind_in(n.kind.as_str()) {
                return (true, remaining);
            }
            assert(t.nodes@[node as int] == *n);
            if is_kind(n.kind.as_str(), "html_block") && !complete_html_comment_in(b, n, rs, re) {
                return (true, remaining);
            }
            front_matter_in(t, node, rs, re, remaining)
        },
    }
}

/// Whether the range lies wholly in host syntax.
fn host_range_in(tree: Option<&SyntaxTree>, b: &[u8], rs: usize, re: usize, require_valid: bool, filter: HostFilter) -> (r: bool)
    requires
        tree matches Some(t) ==> tree_wf(t) && tree_fits(t, b@),
    ensures
        r == host_range_spec(tree, b@, rs as int, re as int, require_valid, filter),
{
    let t = match tree {
        None => {
            return false;
        },
        Some(t) => t,
    };
    if (require_valid && t.nodes[0].has_error) || t.has_changes {
        return false;
    }
    let mut stack: Vec<usize> = Vec::new();
    let mut node: usize = 0;
    let mut ascending = false;
    let mut remaining: usize = MAX_CURSOR_STEPS;
    while remaining > 0
        invariant
            tree_wf(t),
            tree_fits(t, b@),
            node < t.nodes@.len(),
            forall|i: int| 0 <= i < stack@.len() ==> #[trigger] stack@[i] < t.nodes@.len(),
            host_range_spec(tree, b@, rs as int, re as int, require_valid, filter) == host_walk(
                t,
                b@,
                rs as int,
                re as int,
                filter,
                stack@,
                node,
                ascending,
                remaining as int,
            ),
        decreases remaining,
    {
        remaining -= 1;
        if ascending {
            let parent = match stack.pop() {
                None => {
                    return true;
                },
                Some(p) => p,
            };
            node = parent;
            if stack.len() > 0 {
                if let Some(s) = t.nodes[parent].next_sibling {
                    node = s;
                    ascending = false;
                }
            }
            continue;
        }
        let n = &t.nodes[node];
        if n.start_byte > re {
            return true;
        }
        if n.end_byte >= rs {
            proof {
                lemma_excluded_budget(filter, t, b@, rs as int, re as int, node, remaining as int);
            }
            let (ex, left) = excluded_in(filter, t, b, rs, re, node, remaining);
            remaining = left;
            if ex || remaining == 0 {
                return false;
            }
            if let Some(c) = n.first_child {
                stack.push(node);
                node = c;
                continue;
            }
        }
        if stack.len() > 0 && n.next_sibling.is_some() {
            node = n.next_sibling.unwrap();
        } else {
            ascending = true;
        }
    }
    false
}

/// The comment syntax of a language at `range` of the text the tree was
/// parsed from (`current`: the tree is up to date with it).
pub fn comment_syntax(language: &str, tree: Option<&SyntaxTree>, text: &Rope, current: bool, range: Range<usize>) -> (r: Option<CommentSyntax>)
    requires
        tree matches Some(t) ==> tree_wf(t) && tree_fits(t, rope_bytes(*text)),
    ensures
        match r {
            Some(c) => comment_syntax_spec(language@, tree, rope_bytes(*text), current, range.start as int, range.end as int) == Some(syntax_view(c)),
            None => comment_syntax_spec(language@, tree, rope_bytes(*text), current, range.start as int, range.end as int) is None,
        },
{
    if is_kind(language, "rust") || is_kind(language, "javascript") || is_kind(language, "typescript") {
        return Some(CommentSyntax::line("//"));
    }
    let s = rope_text(text);
    let b = s.as_str().as_bytes();
    if is_kind(language, "tsx") {
        if !current || !host_range_in(tree, b, range.start, range.end, true, HostFilter::Jsx) {
            return None;
        }
        return Some(CommentSyntax::line("//"));
    }
    if is_kind(language, "python") || is_kind(language, "bash") || is_kind(language, "toml") || is_kind(language, "yaml") {
        return Some(CommentSyntax::line("#"));
    }
    if is_kind(language, "css") {
        return Some(CommentSyntax::block("/*", "*/"));
    }
    if is_kind(language, "html") || is_kind(language, "markdown") {
        if !current || !host_range_in(tree, b, range.start, range.end, false, HostFilter::Markup) {
            return None;
        }
        return Some(CommentSyntax::block("<!--", "-->").with_forbidden("--"));
    }
    None
}

} // verus!
