//! Selection values: byte ranges, identified editor selections and snapshots
//! of a whole selection set.
use vstd::prelude::*;

verus! {

/// A byte range `start..end` of the text.
#[derive(Clone, Copy, Debug, PartialEq, Eq, Structural)]
pub struct Selection {
    pub start: usize,
    pub end: usize,
}

impl Selection {
    pub fn new(start: usize, end: usize) -> (s: Self)
        ensures
            s.start == start,
            s.end == end,
    {
        Selection { start, end }
    }

    pub open spec fn spec_is_empty(&self) -> bool {
        self.start == self.end
    }

    #[verifier::when_used_as_spec(spec_is_empty)]
    pub fn is_empty(&self) -> (r: bool)
        ensures
            r == (self.start == self.end),
    {
        self.start == self.end
    }

    /// The number of bytes covered (zero for a reversed range).
    pub fn len(&self) -> (n: usize)
        ensures
            n == if self.end >= self.start { self.end - self.start } else { 0 },
    {
        if self.end >= self.start {
            self.end - self.start
        } else {
            0
        }
    }
}

/// A horizontal pixel position, held as the bit pattern of its `f32` value.
#[derive(Clone, Copy, Debug, PartialEq, Eq, Structural)]
pub struct Pixels {
    pub bits: u32,
}

impl Pixels {
    pub fn from_bits(bits: u32) -> (p: Self)
        ensures
            p.bits == bits,
    {
        Pixels { bits }
    }

    pub fn to_bits(&self) -> (bits: u32)
        ensures
            bits == self.bits,
    {
        self.bits
    }
}

/// An editor selection with a stable identity and UTF-8 anchor/head offsets.
///
/// The head is the moving caret; an anchor greater than the head is reversed.
#[derive(Clone, Copy, Debug, PartialEq, Eq)]
pub struct EditorSelection {
    pub id: u64,
    pub anchor: usize,
    pub head: usize,
    pub line_end_affinity: bool,
    pub preferred_column: Option<(Pixels, usize)>,
}

/// The smaller of two offsets.
pub open spec fn min_offset(a: usize, b: usize) -> usize {
    if a <= b { a } else { b }
}

/// The larger of two offsets.
pub open spec fn max_offset(a: usize, b: usize) -> usize {
    if a <= b { b } else { a }
}

impl EditorSelection {
    pub fn new(id: u64, anchor: usize, head: usize) -> (s: Self)
        ensures
            s == (EditorSelection { id, anchor, head, line_end_affinity: false, preferred_column: None }),
    {
        EditorSelection { id, anchor, head, line_end_affinity: false, preferred_column: None }
    }

    pub fn with_line_end_affinity(self, affinity: bool) -> (s: Self)
        ensures
            s == (EditorSelection { line_end_affinity: affinity, ..self }),
    {
        EditorSelection { line_end_affinity: affinity, ..self }
    }

    pub fn with_preferred_column(self, column: Option<(Pixels, usize)>) -> (s: Self)
        ensures
            s == (EditorSelection { preferred_column: column, ..self }),
    {
        EditorSelection { preferred_column: column, ..self }
    }

    pub fn id(&self) -> (r: u64)
        ensures
            r == self.id,
    {
        self.id
    }

    pub fn anchor(&self) -> (r: usize)
        ensures
            r == self.anchor,
    {
        self.anchor
    }

    pub fn head(&self) -> (r: usize)
        ensures
            r == self.head,
    {
        self.head
    }

    pub fn line_end_affinity(&self) -> (r: bool)
        ensures
            r == self.line_end_affinity,
    {
        self.line_end_affinity
    }

    pub fn preferred_column(&self) -> (r: Option<(Pixels, usize)>)
        ensures
            r == self.preferred_column,
    {
        self.preferred_column
    }

    /// The covered range, from the smaller to the larger endpoint.
    pub open spec fn spec_range(&self) -> Selection {
        Selection { start: min_offset(self.anchor, self.head), end: max_offset(self.anchor, self.head) }
    }

    #[verifier::when_used_as_spec(spec_range)]
    pub fn range(&self) -> (r: Selection)
        ensures
            r == self.spec_range(),
    {
        if self.anchor <= self.head {
            Selection { start: self.anchor, end: self.head }
        } else {
            Selection { start: self.head, end: self.anchor }
        }
    }

    /// Whether the anchor lies after the head.
    pub open spec fn is_reversed(self) -> bool {
        self.anchor > self.head
    }
}

/// The live selection storage: the primary's identity and the other selections.
#[derive(Debug)]
pub struct SelectionSet {
    pub primary_id: u64,
    pub secondary: Vec<EditorSelection>,
}

impl SelectionSet {
    pub fn new() -> (s: Self)
        ensures
            s.primary_id == 0,
            s.secondary@.len() == 0,
    {
        SelectionSet { primary_id: 0, secondary: Vec::new() }
    }

    pub fn has_secondary(&self) -> (r: bool)
        ensures
            r == (self.secondary@.len() > 0),
    {
        self.secondary.len() > 0
    }

    pub fn primary_id(&self) -> (r: u64)
        ensures
            r == self.primary_id,
    {
        self.primary_id
    }
}

/// A snapshot of every selection, in document order, with the primary's identity.
#[derive(Debug)]
pub struct SelectionSnapshot {
    pub selections: Vec<EditorSelection>,
    pub primary_id: u64,
}

/// The mathematical value of a snapshot.
pub struct SnapshotView {
    pub selections: Seq<EditorSelection>,
    pub primary_id: u64,
}

impl View for SelectionSnapshot {
    type V = SnapshotView;

    open spec fn view(&self) -> SnapshotView {
        SnapshotView { selections: self.selections@, primary_id: self.primary_id }
    }
}

/// Copy a list of selections element by element.
pub fn copy_selections(v: &Vec<EditorSelection>) -> (r: Vec<EditorSelection>)
    ensures
        r@ == v@,
{
    let mut r: Vec<EditorSelection> = Vec::with_capacity(v.len());
    let mut i: usize = 0;
    while i < v.len()
        invariant
            i <= v@.len(),
            r@ == v@.subrange(0, i as int),
        decreases v@.len() - i,
    {
        r.push(v[i]);
        i += 1;
    }
    assert(r@ =~= v@);
    r
}

impl SelectionSnapshot {
    pub fn clone_snapshot(&self) -> (r: Self)
        ensures
            r@ == self@,
    {
        SelectionSnapshot { selections: copy_selections(&self.selections), primary_id: self.primary_id }
    }
}

impl Clone for SelectionSnapshot {
    fn clone(&self) -> (r: Self)
        ensures
            r@ == self@,
    {
        self.clone_snapshot()
    }
}

} // verus!
