//! Undo and redo as explicit editing transactions.
use crate::change::Change;
use crate::selection::{Selection, SelectionSnapshot, SnapshotView};
use vstd::prelude::*;
use vstd::utf8::encode_utf8;
use crate::utf8_facts::lemma_no_break_bytes;

verus! {

pub const MAX_UNDO_TRANSACTIONS: usize = 1000;

pub const MAX_CHANGES_PER_TRANSACTION: usize = 1000;

/// Why an edit happened; adjacent edits of one kind may coalesce.
#[derive(Clone, Copy, Debug, PartialEq, Eq, Structural)]
pub enum EditIntent {
    Typing,
    Backspace,
    DeleteForward,
    Atomic,
}

#[derive(Debug)]
struct UndoTransaction {
    intent: EditIntent,
    changes: Vec<Change>,
    selections: Option<(SelectionSnapshot, SelectionSnapshot)>,
}

#[derive(Debug)]
struct AtomicBatch {
    changes: Vec<Change>,
    selection_before: Option<SelectionSnapshot>,
    selection_after: Option<SelectionSnapshot>,
}

/// The value of an optional snapshot.
pub open spec fn opt_view(s: Option<SelectionSnapshot>) -> Option<SnapshotView> {
    match s {
        Some(s) => Some(s@),
        None => None,
    }
}

/// The value of an optional pair of snapshots (before, after).
pub open spec fn pair_view(p: Option<(SelectionSnapshot, SelectionSnapshot)>) -> Option<
    (SnapshotView, SnapshotView),
> {
    match p {
        Some((b, a)) => Some((b@, a@)),
        None => None,
    }
}

/// One undoable transaction.
#[verifier::ext_equal]
pub struct TransactionView {
    pub intent: EditIntent,
    pub changes: Seq<Change>,
    pub selections: Option<(SnapshotView, SnapshotView)>,
}

/// The changes gathered by an open atomic batch.
#[verifier::ext_equal]
pub struct BatchView {
    pub changes: Seq<Change>,
    pub selection_before: Option<SnapshotView>,
    pub selection_after: Option<SnapshotView>,
}

/// The abstract state of an undo manager.
#[verifier::ext_equal]
pub struct UndoView {
    pub undo: Seq<TransactionView>,
    pub redo: Seq<TransactionView>,
    pub replay_selection: Option<SnapshotView>,
    pub ignoring: bool,
    pub transaction_open: bool,
    pub pending_change: Option<Change>,
    pub pending_selections: Option<(SnapshotView, SnapshotView)>,
    pub atomic_batch: Option<BatchView>,
    pub pending_intent: Option<EditIntent>,
    pub coalescing_boundary: bool,
}

impl View for UndoTransaction {
    type V = TransactionView;

    closed spec fn view(&self) -> TransactionView {
        TransactionView {
            intent: self.intent,
            changes: self.changes@,
            selections: pair_view(self.selections),
        }
    }
}

impl View for AtomicBatch {
    type V = BatchView;

    closed spec fn view(&self) -> BatchView {
        BatchView {
            changes: self.changes@,
            selection_before: opt_view(self.selection_before),
            selection_after: opt_view(self.selection_after),
        }
    }
}

/// Coordinates undo and redo as explicit editing transactions.
///
/// Each edit first creates a transaction. Compatible adjacent transactions
/// may then coalesce until an explicit boundary is encountered. Callers that
/// perform one logical edit through several callbacks bracket those changes
/// with `begin_transaction` and `commit_transaction`.
#[derive(Debug)]
pub struct UndoManager {
    undo_transactions: Vec<UndoTransaction>,
    redo_transactions: Vec<UndoTransaction>,
    replay_selection: Option<SelectionSnapshot>,
    ignoring: bool,
    transaction_open: bool,
    pending_change: Option<Change>,
    pending_selections: Option<(SelectionSnapshot, SelectionSnapshot)>,
    atomic_batch: Option<AtomicBatch>,
    pending_intent: Option<EditIntent>,
    coalescing_boundary: bool,
}

/// The values of a list of transactions.
spec fn transactions_view(v: Seq<UndoTransaction>) -> Seq<TransactionView> {
    v.map_values(|t: UndoTransaction| t@)
}

impl View for UndoManager {
    type V = UndoView;

    closed spec fn view(&self) -> UndoView {
        UndoView {
            undo: transactions_view(self.undo_transactions@),
            redo: transactions_view(self.redo_transactions@),
            replay_selection: opt_view(self.replay_selection),
            ignoring: self.ignoring,
            transaction_open: self.transaction_open,
            pending_change: self.pending_change,
            pending_selections: pair_view(self.pending_selections),
            atomic_batch: match self.atomic_batch {
                Some(b) => Some(b@),
                None => None,
            },
            pending_intent: self.pending_intent,
            coalescing_boundary: self.coalescing_boundary,
        }
    }
}

// ---------------------------------------------------------------------------
// The abstract transitions.

/// A transaction as history keeps it: nonempty, and bounded unless atomic.
pub open spec fn transaction_wf(t: TransactionView) -> bool {
    &&& t.changes.len() >= 1
    &&& t.intent != EditIntent::Atomic ==> t.changes.len() <= MAX_CHANGES_PER_TRANSACTION
}

/// History retains at most `MAX_UNDO_TRANSACTIONS` transactions in all.
pub open spec fn history_wf(m: UndoView) -> bool {
    &&& m.undo.len() + m.redo.len() <= MAX_UNDO_TRANSACTIONS
    &&& forall|i: int| 0 <= i < m.undo.len() ==> #[trigger] transaction_wf(m.undo[i])
    &&& forall|i: int| 0 <= i < m.redo.len() ==> #[trigger] transaction_wf(m.redo[i])
}

/// The state of a fresh manager.
pub open spec fn initial_view() -> UndoView {
    UndoView {
        undo: Seq::empty(),
        redo: Seq::empty(),
        replay_selection: None,
        ignoring: false,
        transaction_open: false,
        pending_change: None,
        pending_selections: None,
        atomic_batch: None,
        pending_intent: None,
        coalescing_boundary: false,
    }
}

/// Coalescing keeps the original selection and the latest result.
pub open spec fn merge_spec(
    target: Option<(SnapshotView, SnapshotView)>,
    next: Option<(SnapshotView, SnapshotView)>,
) -> Option<(SnapshotView, SnapshotView)> {
    match next {
        Some((before, after)) => match target {
            Some((first, _)) => Some((first, after)),
            None => Some((before, after)),
        },
        None => target,
    }
}

/// The UTF-8 text holds a line feed or a carriage return.
pub open spec fn has_line_break(s: String) -> bool {
    encode_utf8(s@).contains(10u8) || encode_utf8(s@).contains(13u8)
}

/// Whether `current` continues `previous` for the given intent.
pub open spec fn adjacent_spec(intent: EditIntent, previous: Change, current: Change) -> bool {
    match intent {
        EditIntent::Typing => {
            &&& previous.old_range.start == previous.old_range.end
            &&& current.old_range.start == current.old_range.end
            &&& !has_line_break(previous.new_text)
            &&& !has_line_break(current.new_text)
            &&& previous.new_range.end == current.old_range.start
        },
        EditIntent::Backspace => {
            &&& previous.new_text@.len() == 0
            &&& current.new_text@.len() == 0
            &&& current.old_range.end == previous.old_range.start
        },
        EditIntent::DeleteForward => {
            &&& previous.new_text@.len() == 0
            &&& current.new_text@.len() == 0
            &&& current.old_range.start == previous.old_range.start
        },
        EditIntent::Atomic => false,
    }
}

/// Whether a new change of `intent` joins the last undo transaction.
pub open spec fn can_coalesce(m: UndoView, intent: EditIntent, change: Change) -> bool {
    &&& !m.coalescing_boundary
    &&& intent != EditIntent::Atomic
    &&& m.undo.len() > 0
    &&& m.undo.last().intent == intent
    &&& m.undo.last().changes.len() < MAX_CHANGES_PER_TRANSACTION
    &&& m.undo.last().changes.len() > 0
    &&& adjacent_spec(intent, m.undo.last().changes.last(), change)
}

/// Keep the newest transactions, dropping the oldest when history is full.
pub open spec fn make_room(undo: Seq<TransactionView>) -> Seq<TransactionView> {
    if undo.len() >= MAX_UNDO_TRANSACTIONS {
        undo.drop_first()
    } else {
        undo
    }
}

/// Push a change as a new transaction or coalesce it into the last one.
pub open spec fn push_spec(
    m: UndoView,
    change: Change,
    intent: EditIntent,
    selections: Option<(SnapshotView, SnapshotView)>,
) -> UndoView {
    if can_coalesce(m, intent, change) {
        let last = m.undo.last();
        UndoView {
            redo: Seq::empty(),
            undo: m.undo.update(
                m.undo.len() - 1,
                TransactionView {
                    changes: last.changes.push(change),
                    selections: merge_spec(last.selections, selections),
                    ..last
                },
            ),
            ..m
        }
    } else {
        UndoView {
            redo: Seq::empty(),
            undo: make_room(m.undo).push(
                TransactionView { intent, changes: seq![change], selections },
            ),
            coalescing_boundary: intent == EditIntent::Atomic,
            ..m
        }
    }
}

/// Close an open transaction, keeping its change unless it is net-zero.
pub open spec fn commit_spec(m: UndoView) -> UndoView {
    if !m.transaction_open {
        m
    } else {
        let closed = UndoView {
            transaction_open: false,
            pending_change: None,
            pending_selections: None,
            ..m
        };
        match m.pending_change {
            Some(c) => if !c.spec_is_noop() {
                push_spec(closed, c, EditIntent::Atomic, m.pending_selections)
            } else {
                closed
            },
            None => closed,
        }
    }
}

/// Close any open transaction and stop the next edit from coalescing.
pub open spec fn break_spec(m: UndoView) -> UndoView {
    UndoView { coalescing_boundary: true, ..commit_spec(m) }
}

/// Record one change.
pub open spec fn record_spec(
    m: UndoView,
    change: Change,
    intent: EditIntent,
    selections: Option<(SnapshotView, SnapshotView)>,
) -> UndoView {
    if m.ignoring {
        m
    } else if m.atomic_batch is Some {
        let b = m.atomic_batch.unwrap();
        if change.spec_is_noop() {
            m
        } else {
            UndoView { atomic_batch: Some(BatchView { changes: b.changes.push(change), ..b }), ..m }
        }
    } else if m.transaction_open {
        let merged = merge_spec(m.pending_selections, selections);
        match m.pending_change {
            Some(p) => UndoView {
                pending_selections: merged,
                pending_change: Some(
                    Change {
                        new_range: change.new_range,
                        new_text: change.new_text,
                        selection_after: change.selection_after,
                        selection_after_reversed: change.selection_after_reversed,
                        ..p
                    },
                ),
                ..m
            },
            None => UndoView { pending_selections: merged, pending_change: Some(change), ..m },
        }
    } else if change.spec_is_noop() {
        break_spec(m)
    } else {
        push_spec(m, change, intent, selections)
    }
}

/// Open an atomic batch.
pub open spec fn begin_batch_spec(m: UndoView, before: Option<SnapshotView>) -> UndoView {
    UndoView {
        coalescing_boundary: true,
        atomic_batch: Some(
            BatchView { changes: Seq::empty(), selection_before: before, selection_after: None },
        ),
        ..commit_spec(m)
    }
}

/// Close an atomic batch, keeping it as one transaction when it changed anything.
pub open spec fn commit_batch_spec(m: UndoView, after: Option<SnapshotView>) -> UndoView {
    match m.atomic_batch {
        None => m,
        Some(b) => if b.changes.len() == 0 {
            UndoView { atomic_batch: None, ..m }
        } else {
            UndoView {
                atomic_batch: None,
                redo: Seq::empty(),
                undo: make_room(m.undo).push(
                    TransactionView {
                        intent: EditIntent::Atomic,
                        changes: b.changes,
                        selections: match (b.selection_before, after) {
                            (Some(x), Some(y)) => Some((x, y)),
                            _ => None,
                        },
                    },
                ),
                coalescing_boundary: true,
                ..m
            }
        },
    }
}

/// Record the final selection of the newest transaction.
pub open spec fn set_last_selection_after_spec(
    m: UndoView,
    selection: Selection,
    reversed: bool,
    after: SnapshotView,
) -> UndoView {
    if m.ignoring || m.undo.len() == 0 {
        m
    } else {
        let t = m.undo.last();
        let changes = if t.changes.len() > 0 {
            t.changes.update(
                t.changes.len() - 1,
                Change {
                    selection_after: selection,
                    selection_after_reversed: reversed,
                    ..t.changes.last()
                },
            )
        } else {
            t.changes
        };
        let selections = match t.selections {
            Some((b, _)) => Some((b, after)),
            None => None,
        };
        UndoView {
            undo: m.undo.update(
                m.undo.len() - 1,
                TransactionView { changes, selections, ..t },
            ),
            ..m
        }
    }
}

/// Undo: the state after, and the changes to revert, newest first.
pub open spec fn undo_spec(m: UndoView) -> (UndoView, Option<Seq<Change>>) {
    let c = UndoView { replay_selection: None, ..commit_spec(m) };
    if c.undo.len() == 0 {
        (c, None)
    } else {
        let t = c.undo.last();
        (
            UndoView {
                undo: c.undo.drop_last(),
                redo: c.redo.push(t),
                replay_selection: match t.selections {
                    Some((b, _)) => Some(b),
                    None => None,
                },
                coalescing_boundary: true,
                ..c
            },
            Some(t.changes.reverse()),
        )
    }
}

/// Redo: the state after, and the changes to replay, oldest first.
pub open spec fn redo_spec(m: UndoView) -> (UndoView, Option<Seq<Change>>) {
    let c = UndoView { replay_selection: None, ..commit_spec(m) };
    if c.redo.len() == 0 {
        (c, None)
    } else {
        let t = c.redo.last();
        (
            UndoView {
                redo: c.redo.drop_last(),
                undo: c.undo.push(t),
                replay_selection: match t.selections {
                    Some((_, a)) => Some(a),
                    None => None,
                },
                coalescing_boundary: true,
                ..c
            },
            Some(t.changes),
        )
    }
}

/// The state after `clear`.
pub open spec fn clear_spec(m: UndoView) -> UndoView {
    UndoView { ignoring: m.ignoring, ..initial_view() }
}

// ---------------------------------------------------------------------------
// Executable helpers.

fn contains_line_break(s: &String) -> (r: bool)
    ensures
        r == has_line_break(*s),
{
    let bytes = s.as_str().as_bytes();
    let mut i: usize = 0;
    while i < bytes.len()
        invariant
            i <= bytes@.len(),
            bytes@ == encode_utf8(s@),
            forall|j: int| 0 <= j < i ==> bytes@[j] != 10u8 && bytes@[j] != 13u8,
        decreases bytes@.len() - i,
    {
        if bytes[i] == 10u8 || bytes[i] == 13u8 {
            assert(bytes@.contains(bytes@[i as int]));
            return true;
        }
        i += 1;
    }
    false
}

fn is_adjacent(intent: EditIntent, previous: &Change, current: &Change) -> (r: bool)
    ensures
        r == adjacent_spec(intent, *previous, *current),
{
    match intent {
        EditIntent::Typing => {
            previous.old_range.is_empty() && current.old_range.is_empty()
                && !contains_line_break(&previous.new_text) && !contains_line_break(
                &current.new_text,
            ) && previous.new_range.end == current.old_range.start
        },
        EditIntent::Backspace => {
            previous.new_text.as_str().is_empty() && current.new_text.as_str().is_empty()
                && current.old_range.end == previous.old_range.start
        },
        EditIntent::DeleteForward => {
            previous.new_text.as_str().is_empty() && current.new_text.as_str().is_empty()
                && current.old_range.start == previous.old_range.start
        },
        EditIntent::Atomic => false,
    }
}

fn merge_selection_snapshots(
    target: &mut Option<(SelectionSnapshot, SelectionSnapshot)>,
    next: Option<(SelectionSnapshot, SelectionSnapshot)>,
)
    ensures
        pair_view(*final(target)) == merge_spec(pair_view(*old(target)), pair_view(next)),
{
    if let Some((before, after)) = next {
        match target.take() {
            Some((first, _)) => {
                *target = Some((first, after));
            },
            None => {
                *target = Some((before, after));
            },
        }
    }
}

proof fn lemma_transactions_view_push(v: Seq<UndoTransaction>, t: UndoTransaction)
    ensures
        transactions_view(v.push(t)) =~= transactions_view(v).push(t@),
{
}

proof fn lemma_transactions_view_drop_last(v: Seq<UndoTransaction>)
    requires
        v.len() > 0,
    ensures
        transactions_view(v.drop_last()) =~= transactions_view(v).drop_last(),
        transactions_view(v).last() == v.last()@,
{
}

proof fn lemma_transactions_view_drop_first(v: Seq<UndoTransaction>)
    requires
        v.len() > 0,
    ensures
        transactions_view(v.subrange(1, v.len() as int)) =~= transactions_view(v).drop_first(),
{
}

impl UndoManager {
    pub open spec fn wf(&self) -> bool {
        history_wf(self@)
    }

    pub fn new() -> (m: Self)
        ensures
            m@ == initial_view(),
            m.wf(),
    {
        let m = UndoManager {
            undo_transactions: Vec::new(),
            redo_transactions: Vec::new(),
            replay_selection: None,
            ignoring: false,
            transaction_open: false,
            pending_change: None,
            pending_selections: None,
            atomic_batch: None,
            pending_intent: None,
            coalescing_boundary: false,
        };
        assert(m@.undo =~= Seq::<TransactionView>::empty());
        assert(m@.redo =~= Seq::<TransactionView>::empty());
        m
    }

    fn push_transaction(
        &mut self,
        change: Change,
        intent: EditIntent,
        selections: Option<(SelectionSnapshot, SelectionSnapshot)>,
    )
        requires
            old(self).wf(),
        ensures
            final(self)@ == push_spec(old(self)@, change, intent, pair_view(selections)),
            final(self).wf(),
    {
        let ghost m = self@;
        self.redo_transactions.clear();
        let n = self.undo_transactions.len();
        let mut can = !self.coalescing_boundary && intent != EditIntent::Atomic && n > 0;
        if can {
            let prev = &self.undo_transactions[n - 1];
            let k = prev.changes.len();
            can = prev.intent == intent && k < MAX_CHANGES_PER_TRANSACTION && k > 0
                && is_adjacent(intent, &prev.changes[k - 1], &change);
        }
        proof {
            if n > 0 {
                lemma_transactions_view_drop_last(self.undo_transactions@);
            }
            assert(can == can_coalesce(m, intent, change));
        }
        if can {
            let mut t = self.undo_transactions.pop().unwrap();
            t.changes.push(change);
            merge_selection_snapshots(&mut t.selections, selections);
            proof {
                lemma_transactions_view_push(self.undo_transactions@, t);
            }
            self.undo_transactions.push(t);
            assert(self@.undo =~= push_spec(m, change, intent, pair_view(selections)).undo);
            assert(self@.redo =~= Seq::<TransactionView>::empty());
            assert(self@ =~= push_spec(m, change, intent, pair_view(selections)));
            proof {
                let u = self@.undo;
                assert forall|i: int| 0 <= i < u.len() implies #[trigger] transaction_wf(u[i]) by {
                    if i < u.len() - 1 {
                        assert(u[i] == m.undo[i]);
                    }
                }
            }
            return;
        }
        if n >= MAX_UNDO_TRANSACTIONS {
            proof {
                lemma_transactions_view_drop_first(self.undo_transactions@);
            }
            self.undo_transactions.remove(0);
            assert(transactions_view(self.undo_transactions@) =~= make_room(m.undo));
        } else {
            assert(transactions_view(self.undo_transactions@) =~= make_room(m.undo));
        }
        let t = UndoTransaction { intent, changes: vec![change], selections };
        proof {
            lemma_transactions_view_push(self.undo_transactions@, t);
            assert(t.changes@ =~= seq![change]);
        }
        self.undo_transactions.push(t);
        self.coalescing_boundary = intent == EditIntent::Atomic;
        assert(self@.undo =~= push_spec(m, change, intent, pair_view(selections)).undo);
        assert(self@.redo =~= Seq::<TransactionView>::empty());
        assert(self@ =~= push_spec(m, change, intent, pair_view(selections)));
        proof {
            let u = self@.undo;
            let r = make_room(m.undo);
            assert forall|i: int| 0 <= i < u.len() implies #[trigger] transaction_wf(u[i]) by {
                if i < u.len() - 1 {
                    assert(u[i] == r[i]);
                    if m.undo.len() >= MAX_UNDO_TRANSACTIONS {
                        assert(r[i] == m.undo[i + 1]);
                    } else {
                        assert(r[i] == m.undo[i]);
                    }
                }
            }
        }
    }
}


impl UndoManager {
    pub fn commit_transaction(&mut self)
        requires
            old(self).wf(),
        ensures
            final(self)@ == commit_spec(old(self)@),
            final(self).wf(),
    {
        if !self.transaction_open {
            return;
        }
        let ghost m = self@;
        self.transaction_open = false;
        let selections = self.pending_selections.take();
        let pending = self.pending_change.take();
        assert(self@ =~= (UndoView {
            transaction_open: false,
            pending_change: None,
            pending_selections: None,
            ..m
        }));
        if let Some(change) = pending {
            if !change.is_noop() {
                self.push_transaction(change, EditIntent::Atomic, selections);
            }
        }
    }

    pub fn break_transaction_coalescing(&mut self)
        requires
            old(self).wf(),
        ensures
            final(self)@ == break_spec(old(self)@),
            final(self).wf(),
    {
        self.commit_transaction();
        self.coalescing_boundary = true;
    }

    pub fn record_transaction(
        &mut self,
        change: Change,
        intent: EditIntent,
        selections: Option<(SelectionSnapshot, SelectionSnapshot)>,
    )
        requires
            old(self).wf(),
        ensures
            final(self)@ == record_spec(old(self)@, change, intent, pair_view(selections)),
            final(self).wf(),
    {
        if self.ignoring {
            return;
        }
        let ghost m = self@;
        if self.atomic_batch.is_some() {
            if !change.is_noop() {
                let mut batch = self.atomic_batch.take().unwrap();
                batch.changes.push(change);
                self.atomic_batch = Some(batch);
                assert(self@ =~= record_spec(m, change, intent, pair_view(selections)));
            }
        } else if self.transaction_open {
            merge_selection_snapshots(&mut self.pending_selections, selections);
            match self.pending_change.take() {
                Some(pending) => {
                    self.pending_change = Some(
                        Change {
                            new_range: change.new_range,
                            new_text: change.new_text,
                            selection_after: change.selection_after,
                            selection_after_reversed: change.selection_after_reversed,
                            ..pending
                        },
                    );
                },
                None => {
                    self.pending_change = Some(change);
                },
            }
            assert(self@ =~= record_spec(m, change, intent, pair_view(selections)));
        } else if change.is_noop() {
            self.break_transaction_coalescing();
        } else {
            self.push_transaction(change, intent, selections);
        }
    }

    /// Group disjoint replacements into one transaction.
    pub fn begin_atomic_batch(&mut self, selection_before: Option<SelectionSnapshot>)
        requires
            old(self).wf(),
        ensures
            final(self)@ == begin_batch_spec(old(self)@, opt_view(selection_before)),
            final(self).wf(),
    {
        self.commit_transaction();
        self.coalescing_boundary = true;
        self.atomic_batch = Some(
            AtomicBatch { changes: Vec::new(), selection_before, selection_after: None },
        );
        assert(self@.atomic_batch.unwrap().changes =~= Seq::<Change>::empty());
    }

    pub fn is_atomic_batch(&self) -> (r: bool)
        ensures
            r == (self@.atomic_batch is Some),
    {
        self.atomic_batch.is_some()
    }

    pub fn discard_atomic_batch(&mut self) -> (r: Option<SelectionSnapshot>)
        requires
            old(self).wf(),
        ensures
            final(self)@ == (UndoView { atomic_batch: None, ..old(self)@ }),
            opt_view(r) == match old(self)@.atomic_batch {
                Some(b) => b.selection_before,
                None => None,
            },
            final(self).wf(),
    {
        let ghost m = self@;
        let r = match self.atomic_batch.take() {
            Some(batch) => batch.selection_before,
            None => None,
        };
        assert(self@ =~= (UndoView { atomic_batch: None, ..m }));
        r
    }

    pub fn commit_atomic_batch(&mut self, selection_after: Option<SelectionSnapshot>)
        requires
            old(self).wf(),
        ensures
            final(self)@ == commit_batch_spec(old(self)@, opt_view(selection_after)),
            final(self).wf(),
    {
        let ghost m = self@;
        let batch = match self.atomic_batch.take() {
            Some(batch) => batch,
            None => {
                return;
            },
        };
        if batch.changes.len() == 0 {
            assert(self@ =~= commit_batch_spec(m, opt_view(selection_after)));
            return;
        }
        self.redo_transactions.clear();
        if self.undo_transactions.len() >= MAX_UNDO_TRANSACTIONS {
            proof {
                lemma_transactions_view_drop_first(self.undo_transactions@);
            }
            self.undo_transactions.remove(0);
            assert(transactions_view(self.undo_transactions@) =~= make_room(m.undo));
        } else {
            assert(transactions_view(self.undo_transactions@) =~= make_room(m.undo));
        }
        let selections = match (batch.selection_before, selection_after) {
            (Some(before), Some(after)) => Some((before, after)),
            _ => None,
        };
        let t = UndoTransaction { intent: EditIntent::Atomic, changes: batch.changes, selections };
        proof {
            lemma_transactions_view_push(self.undo_transactions@, t);
        }
        self.undo_transactions.push(t);
        self.coalescing_boundary = true;
        assert(self@.redo =~= Seq::<TransactionView>::empty());
        assert(self@.undo =~= commit_batch_spec(m, opt_view(selection_after)).undo);
        assert(self@ =~= commit_batch_spec(m, opt_view(selection_after)));
        proof {
            let u = self@.undo;
            let r = make_room(m.undo);
            assert forall|i: int| 0 <= i < u.len() implies #[trigger] transaction_wf(u[i]) by {
                if i < u.len() - 1 {
                    assert(u[i] == r[i]);
                    if m.undo.len() >= MAX_UNDO_TRANSACTIONS {
                        assert(r[i] == m.undo[i + 1]);
                    } else {
                        assert(r[i] == m.undo[i]);
                    }
                }
            }
        }
    }

    /// Record the final selection after a completed, nonempty command adjusts
    /// its caret.
    pub fn set_last_selection_after(
        &mut self,
        selection: Selection,
        reversed: bool,
        after: SelectionSnapshot,
    )
        requires
            old(self).wf(),
        ensures
            final(self)@ == set_last_selection_after_spec(old(self)@, selection, reversed, after@),
            final(self).wf(),
    {
        if self.ignoring {
            return;
        }
        let ghost m = self@;
        match self.undo_transactions.pop() {
            None => {},
            Some(mut t) => {
                proof {
                    lemma_transactions_view_drop_last(old(self).undo_transactions@);
                }
                match t.changes.pop() {
                    Some(last) => {
                        t.changes.push(
                            Change {
                                selection_after: selection,
                                selection_after_reversed: reversed,
                                ..last
                            },
                        );
                    },
                    None => {},
                }
                t.selections = match t.selections {
                    Some((before, _)) => Some((before, after)),
                    None => None,
                };
                proof {
                    lemma_transactions_view_push(self.undo_transactions@, t);
                }
                self.undo_transactions.push(t);
                assert(self@.undo[self@.undo.len() - 1].changes =~= set_last_selection_after_spec(
                    m,
                    selection,
                    reversed,
                    after@,
                ).undo[self@.undo.len() - 1].changes);
                assert(self@.undo =~= set_last_selection_after_spec(
                    m,
                    selection,
                    reversed,
                    after@,
                ).undo);
                proof {
                    let u = self@.undo;
                    assert forall|i: int| 0 <= i < u.len() implies #[trigger] transaction_wf(
                        u[i],
                    ) by {
                        if i < u.len() - 1 {
                            assert(u[i] == m.undo[i]);
                        } else {
                            assert(transaction_wf(m.undo[i]));
                        }
                    }
                }
            },
        }
    }

    /// Supply the planned final editor selections while the batch is still open.
    pub fn set_atomic_selection_after(&mut self, after: SelectionSnapshot)
        requires
            old(self).wf(),
        ensures
            final(self)@ == match old(self)@.atomic_batch {
                Some(b) => UndoView {
                    atomic_batch: Some(BatchView { selection_after: Some(after@), ..b }),
                    ..old(self)@
                },
                None => old(self)@,
            },
            final(self).wf(),
    {
        let ghost m = self@;
        if let Some(mut batch) = self.atomic_batch.take() {
            batch.selection_after = Some(after);
            self.atomic_batch = Some(batch);
        }
        assert(self@ =~= match m.atomic_batch {
            Some(b) => UndoView {
                atomic_batch: Some(BatchView { selection_after: Some(after@), ..b }),
                ..m
            },
            None => m,
        });
    }

    pub fn take_atomic_selection_after(&mut self) -> (r: Option<SelectionSnapshot>)
        requires
            old(self).wf(),
        ensures
            final(self)@ == match old(self)@.atomic_batch {
                Some(b) => UndoView {
                    atomic_batch: Some(BatchView { selection_after: None, ..b }),
                    ..old(self)@
                },
                None => old(self)@,
            },
            opt_view(r) == match old(self)@.atomic_batch {
                Some(b) => b.selection_after,
                None => None,
            },
            final(self).wf(),
    {
        let ghost m = self@;
        let r = match self.atomic_batch.take() {
            Some(mut batch) => {
                let after = batch.selection_after.take();
                self.atomic_batch = Some(batch);
                after
            },
            None => None,
        };
        assert(self@ =~= match m.atomic_batch {
            Some(b) => UndoView {
                atomic_batch: Some(BatchView { selection_after: None, ..b }),
                ..m
            },
            None => m,
        });
        r
    }

    pub fn take_replay_selection(&mut self) -> (r: Option<SelectionSnapshot>)
        requires
            old(self).wf(),
        ensures
            final(self)@ == (UndoView { replay_selection: None, ..old(self)@ }),
            opt_view(r) == old(self)@.replay_selection,
            final(self).wf(),
    {
        let ghost m = self@;
        let r = self.replay_selection.take();
        assert(self@ =~= (UndoView { replay_selection: None, ..m }));
        r
    }

    pub fn begin_transaction(&mut self)
        requires
            old(self).wf(),
        ensures
            final(self)@ == if old(self)@.transaction_open {
                old(self)@
            } else {
                UndoView {
                    transaction_open: true,
                    pending_change: None,
                    pending_selections: None,
                    ..old(self)@
                }
            },
            final(self).wf(),
    {
        if self.transaction_open {
            return;
        }
        let ghost m = self@;
        self.transaction_open = true;
        self.pending_change = None;
        self.pending_selections = None;
        assert(self@ =~= (UndoView {
            transaction_open: true,
            pending_change: None,
            pending_selections: None,
            ..m
        }));
    }

    pub fn is_ignoring(&self) -> (r: bool)
        ensures
            r == self@.ignoring,
    {
        self.ignoring
    }

    pub fn set_ignoring(&mut self, ignoring: bool)
        requires
            old(self).wf(),
        ensures
            final(self)@ == if ignoring {
                commit_spec(UndoView { ignoring, ..old(self)@ })
            } else {
                UndoView { ignoring, ..old(self)@ }
            },
            final(self).wf(),
    {
        let ghost m = self@;
        self.ignoring = ignoring;
        assert(self@ =~= UndoView { ignoring, ..m });
        if ignoring {
            self.commit_transaction();
        }
    }

    pub fn pending_intent(&self) -> (r: Option<EditIntent>)
        ensures
            r == self@.pending_intent,
    {
        self.pending_intent
    }

    pub fn set_pending_intent(&mut self, intent: Option<EditIntent>)
        requires
            old(self).wf(),
        ensures
            final(self)@ == (UndoView { pending_intent: intent, ..old(self)@ }),
            final(self).wf(),
    {
        let ghost m = self@;
        self.pending_intent = intent;
        assert(self@ =~= (UndoView { pending_intent: intent, ..m }));
    }

    pub fn clear(&mut self)
        requires
            old(self).wf(),
        ensures
            final(self)@ == clear_spec(old(self)@),
            final(self).wf(),
    {
        self.replay_selection = None;
        self.undo_transactions.clear();
        self.redo_transactions.clear();
        self.transaction_open = false;
        self.pending_change = None;
        self.pending_selections = None;
        self.atomic_batch = None;
        self.pending_intent = None;
        self.coalescing_boundary = false;
        assert(self@.undo =~= Seq::<TransactionView>::empty());
        assert(self@.redo =~= Seq::<TransactionView>::empty());
        assert(self@ =~= clear_spec(old(self)@));
    }

    pub fn has_undos(&self) -> (r: bool)
        ensures
            r == (self@.undo.len() > 0),
    {
        self.undo_transactions.len() > 0
    }

    pub fn undo(&mut self) -> (r: Option<Vec<Change>>)
        requires
            old(self).wf(),
        ensures
            final(self)@ == undo_spec(old(self)@).0,
            match r {
                Some(v) => undo_spec(old(self)@).1 == Some(v@),
                None => undo_spec(old(self)@).1 is None,
            },
            final(self).wf(),
    {
        self.commit_transaction();
        self.replay_selection = None;
        let ghost c = self@;
        let ghost before = self.undo_transactions@;
        let transaction = match self.undo_transactions.pop() {
            Some(t) => t,
            None => {
                return None;
            },
        };
        proof {
            lemma_transactions_view_drop_last(before);
        }
        self.replay_selection = match &transaction.selections {
            Some((before, _)) => Some(before.clone_snapshot()),
            None => None,
        };
        let mut changes: Vec<Change> = Vec::new();
        let mut i = transaction.changes.len();
        while i > 0
            invariant
                i <= transaction.changes@.len(),
                changes@ =~= transaction.changes@.subrange(i as int, transaction.changes@.len() as int).reverse(),
            decreases i,
        {
            i -= 1;
            let change = transaction.changes[i].clone();
            changes.push(change);
            assert(changes@ =~= transaction.changes@.subrange(i as int, transaction.changes@.len() as int).reverse());
        }
        assert(transaction.changes@.subrange(0, transaction.changes@.len() as int) =~= transaction.changes@);
        proof {
            lemma_transactions_view_push(self.redo_transactions@, transaction);
        }
        self.redo_transactions.push(transaction);
        self.coalescing_boundary = true;
        assert(self@.undo =~= undo_spec(old(self)@).0.undo);
        assert(self@.redo =~= undo_spec(old(self)@).0.redo);
        assert(self@ =~= undo_spec(old(self)@).0);
        proof {
            let u = self@.redo;
            assert forall|j: int| 0 <= j < u.len() implies #[trigger] transaction_wf(u[j]) by {
                if j < u.len() - 1 {
                    assert(u[j] == c.redo[j]);
                } else {
                    assert(transaction_wf(c.undo[c.undo.len() - 1]));
                }
            }
            let w = self@.undo;
            assert forall|j: int| 0 <= j < w.len() implies #[trigger] transaction_wf(w[j]) by {
                assert(w[j] == c.undo[j]);
            }
        }
        Some(changes)
    }

    pub fn redo(&mut self) -> (r: Option<Vec<Change>>)
        requires
            old(self).wf(),
        ensures
            final(self)@ == redo_spec(old(self)@).0,
            match r {
                Some(v) => redo_spec(old(self)@).1 == Some(v@),
                None => redo_spec(old(self)@).1 is None,
            },
            final(self).wf(),
    {
        self.commit_transaction();
        self.replay_selection = None;
        let ghost c = self@;
        let ghost before = self.redo_transactions@;
        let transaction = match self.redo_transactions.pop() {
            Some(t) => t,
            None => {
                return None;
            },
        };
        proof {
            lemma_transactions_view_drop_last(before);
        }
        self.replay_selection = match &transaction.selections {
            Some((_, after)) => Some(after.clone_snapshot()),
            None => None,
        };
        let mut changes: Vec<Change> = Vec::new();
        let mut i: usize = 0;
        while i < transaction.changes.len()
            invariant
                i <= transaction.changes@.len(),
                changes@ =~= transaction.changes@.subrange(0, i as int),
            decreases transaction.changes@.len() - i,
        {
            let change = transaction.changes[i].clone();
            changes.push(change);
            i += 1;
        }
        proof {
            lemma_transactions_view_push(self.undo_transactions@, transaction);
        }
        self.undo_transactions.push(transaction);
        self.coalescing_boundary = true;
        assert(self@.undo =~= redo_spec(old(self)@).0.undo);
        assert(self@.redo =~= redo_spec(old(self)@).0.redo);
        assert(self@ =~= redo_spec(old(self)@).0);
        proof {
            let u = self@.undo;
            assert forall|j: int| 0 <= j < u.len() implies #[trigger] transaction_wf(u[j]) by {
                if j < u.len() - 1 {
                    assert(u[j] == c.undo[j]);
                } else {
                    assert(transaction_wf(c.redo[c.redo.len() - 1]));
                }
            }
            let w = self@.redo;
            assert forall|j: int| 0 <= j < w.len() implies #[trigger] transaction_wf(w[j]) by {
                assert(w[j] == c.redo[j]);
            }
        }
        Some(changes)
    }
}


// ---------------------------------------------------------------------------
// Laws of the history.

/// Undoing and then redoing restores the history (after any open transaction
/// closes), and redo replays exactly the changes that undo reverted, in
/// reverse order.
pub proof fn lemma_undo_then_redo(m: UndoView)
    requires
        commit_spec(m).undo.len() > 0,
    ensures
        ({
            let (m1, c1) = undo_spec(m);
            let (m2, c2) = redo_spec(m1);
            &&& m2.undo == commit_spec(m).undo
            &&& m2.redo == commit_spec(m).redo
            &&& c1 is Some && c2 is Some
            &&& c2.unwrap() == c1.unwrap().reverse()
        }),
{
    let c = commit_spec(m);
    let (m1, c1) = undo_spec(m);
    let (m2, c2) = redo_spec(m1);
    assert(!m1.transaction_open);
    assert(commit_spec(m1) == m1);
    let t = c.undo.last();
    assert(m1.redo.last() == t);
    assert(m2.undo =~= c.undo);
    assert(m2.redo =~= c.redo);
    assert(t.changes.reverse().reverse() =~= t.changes);
}

/// Redoing and then undoing restores the history, and undo reverts exactly
/// the changes that redo replayed, in reverse order.
pub proof fn lemma_redo_then_undo(m: UndoView)
    requires
        commit_spec(m).redo.len() > 0,
    ensures
        ({
            let (m1, c1) = redo_spec(m);
            let (m2, c2) = undo_spec(m1);
            &&& m2.undo == commit_spec(m).undo
            &&& m2.redo == commit_spec(m).redo
            &&& c1 is Some && c2 is Some
            &&& c2.unwrap() == c1.unwrap().reverse()
        }),
{
    let c = commit_spec(m);
    let (m1, c1) = redo_spec(m);
    let (m2, c2) = undo_spec(m1);
    assert(!m1.transaction_open);
    assert(commit_spec(m1) == m1);
    assert(m2.undo =~= c.undo);
    assert(m2.redo =~= c.redo);
}

/// While history ignores edits, recording changes nothing.
pub proof fn lemma_ignoring_records_nothing(
    m: UndoView,
    change: Change,
    intent: EditIntent,
    selections: Option<(SnapshotView, SnapshotView)>,
)
    requires
        m.ignoring,
    ensures
        record_spec(m, change, intent, selections) == m,
{
}

/// Outside batches and transactions, a real edit clears redo and becomes the
/// newest undoable change.
pub proof fn lemma_edit_becomes_undoable(
    m: UndoView,
    change: Change,
    intent: EditIntent,
    selections: Option<(SnapshotView, SnapshotView)>,
)
    requires
        !m.ignoring,
        m.atomic_batch is None,
        !m.transaction_open,
        !change.spec_is_noop(),
    ensures
        ({
            let r = record_spec(m, change, intent, selections);
            &&& r.redo.len() == 0
            &&& r.undo.len() > 0
            &&& r.undo.last().changes.len() > 0
            &&& r.undo.last().changes.last() == change
        }),
{
    let r = record_spec(m, change, intent, selections);
    if can_coalesce(m, intent, change) {
        assert(r.undo.last().changes == m.undo.last().changes.push(change));
    } else {
        assert(r.undo.last().changes == seq![change]);
    }
}

/// Outside batches and transactions, a net-zero edit leaves both stacks as they
/// were and only stops the next edit from coalescing.
pub proof fn lemma_noop_keeps_history(
    m: UndoView,
    change: Change,
    intent: EditIntent,
    selections: Option<(SnapshotView, SnapshotView)>,
)
    requires
        !m.ignoring,
        m.atomic_batch is None,
        !m.transaction_open,
        change.spec_is_noop(),
    ensures
        record_spec(m, change, intent, selections) == (UndoView { coalescing_boundary: true, ..m }),
{
}

/// Atomic edits never coalesce: each one is a transaction of its own.
pub proof fn lemma_atomic_edit_is_own_transaction(
    m: UndoView,
    change: Change,
    selections: Option<(SnapshotView, SnapshotView)>,
)
    requires
        !m.ignoring,
        m.atomic_batch is None,
        !m.transaction_open,
        !change.spec_is_noop(),
    ensures
        ({
            let r = record_spec(m, change, EditIntent::Atomic, selections);
            &&& r.undo.last().changes == seq![change]
            &&& r.undo.len() == if m.undo.len() >= MAX_UNDO_TRANSACTIONS { m.undo.len() } else { m.undo.len() + 1 }
            &&& r.coalescing_boundary
        }),
{
}

/// Every operation keeps the history within its bounds.
pub proof fn lemma_history_bounded(m: &UndoManager)
    requires
        m.wf(),
    ensures
        m@.undo.len() <= MAX_UNDO_TRANSACTIONS,
        m@.redo.len() <= MAX_UNDO_TRANSACTIONS,
        forall|i: int| 0 <= i < m@.undo.len() ==> #[trigger] m@.undo[i].changes.len() >= 1,
{
    assert forall|i: int| 0 <= i < m@.undo.len() implies #[trigger] m@.undo[i].changes.len() >= 1 by {
        assert(transaction_wf(m@.undo[i]));
    }
}

// ---------------------------------------------------------------------------
// Which consecutive edits undo together.

/// Consecutive backspaces are one undo step: outside transactions and
/// batches, with no coalescing boundary, a deletion whose range ends where
/// the previous backspace's deleted range started joins that transaction, so
/// the next undo reverts both (with the rest of the transaction).
pub proof fn lemma_backspaces_undo_together(
    m: UndoView,
    previous: Change,
    current: Change,
    selections: Option<(SnapshotView, SnapshotView)>,
)
    requires
        !m.ignoring,
        m.atomic_batch is None,
        !m.transaction_open,
        !m.coalescing_boundary,
        m.undo.len() > 0,
        m.undo.last().intent == EditIntent::Backspace,
        0 < m.undo.last().changes.len() < MAX_CHANGES_PER_TRANSACTION,
        m.undo.last().changes.last() == previous,
        previous.new_text@.len() == 0,
        current.new_text@.len() == 0,
        current.old_range.end == previous.old_range.start,
        !current.spec_is_noop(),
    ensures
        record_spec(m, current, EditIntent::Backspace, selections).undo.len() == m.undo.len(),
        undo_spec(record_spec(m, current, EditIntent::Backspace, selections)).1 == Some(
            m.undo.last().changes.push(current).reverse(),
        ),
{
}

/// Consecutive forward deletions at one place are one undo step: a deletion
/// starting where the previous forward deletion started joins its
/// transaction, and the next undo reverts both.
pub proof fn lemma_forward_deletions_undo_together(
    m: UndoView,
    previous: Change,
    current: Change,
    selections: Option<(SnapshotView, SnapshotView)>,
)
    requires
        !m.ignoring,
        m.atomic_batch is None,
        !m.transaction_open,
        !m.coalescing_boundary,
        m.undo.len() > 0,
        m.undo.last().intent == EditIntent::DeleteForward,
        0 < m.undo.last().changes.len() < MAX_CHANGES_PER_TRANSACTION,
        m.undo.last().changes.last() == previous,
        previous.new_text@.len() == 0,
        current.new_text@.len() == 0,
        current.old_range.start == previous.old_range.start,
        !current.spec_is_noop(),
    ensures
        record_spec(m, current, EditIntent::DeleteForward, selections).undo.len() == m.undo.len(),
        undo_spec(record_spec(m, current, EditIntent::DeleteForward, selections)).1 == Some(
            m.undo.last().changes.push(current).reverse(),
        ),
{
}

/// Consecutive typing is one undo step: an insertion (without a line break)
/// at the end of the previous typed insertion (without one either) joins its
/// transaction, and the next undo reverts both.
pub proof fn lemma_typing_undoes_together(
    m: UndoView,
    previous: Change,
    current: Change,
    selections: Option<(SnapshotView, SnapshotView)>,
)
    requires
        !m.ignoring,
        m.atomic_batch is None,
        !m.transaction_open,
        !m.coalescing_boundary,
        m.undo.len() > 0,
        m.undo.last().intent == EditIntent::Typing,
        0 < m.undo.last().changes.len() < MAX_CHANGES_PER_TRANSACTION,
        m.undo.last().changes.last() == previous,
        previous.old_range.start == previous.old_range.end,
        current.old_range.start == current.old_range.end,
        !previous.new_text@.contains('\n') && !previous.new_text@.contains('\r'),
        !current.new_text@.contains('\n') && !current.new_text@.contains('\r'),
        current.old_range.start == previous.new_range.end,
        !current.spec_is_noop(),
    ensures
        record_spec(m, current, EditIntent::Typing, selections).undo.len() == m.undo.len(),
        undo_spec(record_spec(m, current, EditIntent::Typing, selections)).1 == Some(
            m.undo.last().changes.push(current).reverse(),
        ),
{
    lemma_no_break_bytes(previous.new_text@);
    lemma_no_break_bytes(current.new_text@);
}

/// On a fresh history, two backspaces in a row (the second deleting up to
/// where the first deleted from) are undone by one undo, newest first.
pub proof fn lemma_fresh_backspaces_undo_together(
    first: Change,
    second: Change,
    s1: Option<(SnapshotView, SnapshotView)>,
    s2: Option<(SnapshotView, SnapshotView)>,
)
    requires
        first.new_text@.len() == 0,
        second.new_text@.len() == 0,
        second.old_range.end == first.old_range.start,
        !first.spec_is_noop(),
        !second.spec_is_noop(),
    ensures
        undo_spec(record_spec(record_spec(initial_view(), first, EditIntent::Backspace, s1), second, EditIntent::Backspace, s2)).1
            == Some(seq![second, first]),
{
    let m1 = record_spec(initial_view(), first, EditIntent::Backspace, s1);
    assert(m1.undo == seq![TransactionView { intent: EditIntent::Backspace, changes: seq![first], selections: s1 }]);
    lemma_backspaces_undo_together(m1, first, second, s2);
    assert(seq![first].push(second).reverse() =~= seq![second, first]);
}

/// On a fresh history, two forward deletions at one place are undone by one
/// undo, newest first.
pub proof fn lemma_fresh_forward_deletions_undo_together(
    first: Change,
    second: Change,
    s1: Option<(SnapshotView, SnapshotView)>,
    s2: Option<(SnapshotView, SnapshotView)>,
)
    requires
        first.new_text@.len() == 0,
        second.new_text@.len() == 0,
        second.old_range.start == first.old_range.start,
        !first.spec_is_noop(),
        !second.spec_is_noop(),
    ensures
        undo_spec(record_spec(record_spec(initial_view(), first, EditIntent::DeleteForward, s1), second, EditIntent::DeleteForward, s2)).1
            == Some(seq![second, first]),
{
    let m1 = record_spec(initial_view(), first, EditIntent::DeleteForward, s1);
    assert(m1.undo == seq![TransactionView { intent: EditIntent::DeleteForward, changes: seq![first], selections: s1 }]);
    lemma_forward_deletions_undo_together(m1, first, second, s2);
    assert(seq![first].push(second).reverse() =~= seq![second, first]);
}

/// On a fresh history, typing twice in a row (the second insertion at the
/// end of the first, neither with a line break) is undone by one undo.
pub proof fn lemma_fresh_typing_undoes_together(
    first: Change,
    second: Change,
    s1: Option<(SnapshotView, SnapshotView)>,
    s2: Option<(SnapshotView, SnapshotView)>,
)
    requires
        first.old_range.start == first.old_range.end,
        second.old_range.start == second.old_range.end,
        !first.new_text@.contains('\n') && !first.new_text@.contains('\r'),
        !second.new_text@.contains('\n') && !second.new_text@.contains('\r'),
        second.old_range.start == first.new_range.end,
        !first.spec_is_noop(),
        !second.spec_is_noop(),
    ensures
        undo_spec(record_spec(record_spec(initial_view(), first, EditIntent::Typing, s1), second, EditIntent::Typing, s2)).1
            == Some(seq![second, first]),
{
    let m1 = record_spec(initial_view(), first, EditIntent::Typing, s1);
    assert(m1.undo == seq![TransactionView { intent: EditIntent::Typing, changes: seq![first], selections: s1 }]);
    lemma_typing_undoes_together(m1, first, second, s2);
    assert(seq![first].push(second).reverse() =~= seq![second, first]);
}

} // verus!
