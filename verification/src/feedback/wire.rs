//! What the poll hands back, and what an item posted as JSON must satisfy.
//!
//! The encodings themselves (TOON out, JSON in) are the caller's; this decides
//! what goes into a response row and which posted items are accepted.
use vstd::prelude::*;

use crate::feedback::model::{anchor_of, FeedbackItem, FeedbackKind, FeedbackStatus, FeedbackTarget};
use crate::text::{blank, chars_of, is_blank, string_of};

verus! {

/// A flattened feedback row for the tabular poll output.
#[derive(Debug, Clone, PartialEq, Eq)]
pub struct FeedbackRow {
    pub target: FeedbackTarget,
    pub status: FeedbackStatus,
    pub resolved: bool,
    /// Whether the anchor no longer points at anything in the artifact as it
    /// now stands, as the caller judged it.
    pub detached: bool,
    pub anchor: String,
    pub kind: FeedbackKind,
    pub body: String,
}

/// Whether `row` is the flat form of `item`, with `detached` as judged.
pub open spec fn row_of(item: FeedbackItem, detached: bool, row: FeedbackRow) -> bool {
    &&& row.target == item.target
    &&& row.status == item.status
    &&& row.resolved == item.resolved
    &&& row.detached == detached
    &&& row.anchor@ == anchor_of(item)
    &&& row.kind == item.kind
    &&& row.body@ == item.body@
}

/// One row per item, in order; the `detached` column is whatever `detached`
/// answers for that item. An item is delivered either way.
pub fn poll_rows(items: &[FeedbackItem], detached: impl Fn(&FeedbackItem) -> bool) -> (rows: Vec<
    FeedbackRow,
>)
    requires
        forall|i: int| 0 <= i < items.len() ==> detached.requires((&items@[i],)),
    ensures
        rows.len() == items.len(),
        forall|i: int|
            0 <= i < items.len() ==> row_of(items@[i], rows@[i].detached, #[trigger] rows@[i])
                && detached.ensures((&items@[i],), rows@[i].detached),
{
    let mut rows: Vec<FeedbackRow> = Vec::new();
    let mut i: usize = 0;
    while i < items.len()
        invariant
            i <= items.len(),
            rows.len() == i,
            forall|j: int| 0 <= j < items.len() ==> detached.requires((&items@[j],)),
            forall|j: int|
                0 <= j < i ==> row_of(items@[j], rows@[j].detached, #[trigger] rows@[j])
                    && detached.ensures((&items@[j],), rows@[j].detached),
        decreases items.len() - i,
    {
        let item = &items[i];
        let gone = detached(item);
        rows.push(
            FeedbackRow {
                target: item.target,
                status: item.status,
                resolved: item.resolved,
                detached: gone,
                anchor: item.anchor(),
                kind: item.kind,
                body: item.body.clone(),
            },
        );
        i += 1;
    }
    rows
}

/// Accept an item posted on the wire only when it names a block: the same
/// no-target rule `FeedbackItem::new` enforces.
pub fn accept_posted(item: FeedbackItem) -> (r: Result<FeedbackItem, String>)
    ensures
        is_blank(item.block_id@) ==> (r matches Err(m) && m@
            == "feedback names no resolvable target"@),
        !is_blank(item.block_id@) ==> r == Ok::<FeedbackItem, String>(item),
{
    if blank(&chars_of(item.block_id.as_str())) {
        return Err(string_of(&chars_of("feedback names no resolvable target")));
    }
    Ok(item)
}

} // verus!
