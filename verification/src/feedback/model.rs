//! The feedback item model: an item names the block it targets by id, plus an
//! optional element inside it, and carries its kind, body, lifecycle status,
//! routing target and resolved flag.
use vstd::prelude::*;

use crate::text::{blank, chars_of, concat, decimal, decimal_of, is_blank, string_of};

verus! {

/// What kind of feedback an item carries. All three travel one channel.
#[derive(Debug, Clone, Copy, PartialEq, Eq, Structural)]
pub enum FeedbackKind {
    /// A human annotation (anchored comment).
    Annotation,
    /// A human answer to a `question` block.
    Answer,
    /// A machine render-audit finding.
    Finding,
}

/// Where an item sits in its lifecycle. The log is append-only, so an edit or a
/// removal is a new row whose status marks intent.
#[derive(Debug, Clone, Copy, PartialEq, Eq, Structural)]
pub enum FeedbackStatus {
    /// A newly created item (the default).
    New,
    /// An edit of an earlier item on the same anchor.
    Update,
    /// A removal of an earlier item on the same anchor.
    Delete,
}

impl Default for FeedbackStatus {
    fn default() -> (s: Self)
        ensures
            s == FeedbackStatus::New,
    {
        FeedbackStatus::New
    }
}

/// Who an item is routed to. Only `Agent` items are an actionable signal.
#[derive(Debug, Clone, Copy, PartialEq, Eq, Structural)]
pub enum FeedbackTarget {
    /// Actionable: the agent should address it (the default).
    Agent,
    /// Context: delivered to be read, not acted on.
    Human,
    /// A notification, never a routing signal.
    Mention,
}

impl Default for FeedbackTarget {
    fn default() -> (t: Self)
        ensures
            t == FeedbackTarget::Agent,
    {
        FeedbackTarget::Agent
    }
}

/// An element within a block that an item targets. Absent means block-level.
#[derive(Debug, Clone, PartialEq, Eq)]
pub enum SubTarget {
    /// A diagram node by its id.
    Node(String),
    /// A table cell by 0-based row and column.
    Cell { row: usize, col: usize },
    /// A code line or range, e.g. `12` or `12-18`.
    Lines(String),
    /// A prose text range: quoted text plus surrounding context.
    Text { quote: String, before: String, after: String },
}

/// The short rendering of a sub-target used in anchors.
pub open spec fn describe_of(sub: SubTarget) -> Seq<char> {
    match sub {
        SubTarget::Node(id) => "node:"@ + id@,
        SubTarget::Cell { row, col } => "cell:"@ + decimal(row as nat) + ","@ + decimal(
            col as nat,
        ),
        SubTarget::Lines(range) => "line:"@ + range@,
        SubTarget::Text { quote, .. } => "text:"@ + quote@,
    }
}

impl SubTarget {
    /// A short human-facing rendering of the sub-target for anchors.
    pub fn describe(&self) -> (out: String)
        ensures
            out@ == describe_of(*self),
    {
        let chars = match self {
            SubTarget::Node(id) => concat(&chars_of("node:"), &chars_of(id.as_str())),
            SubTarget::Cell { row, col } => {
                let head = concat(&chars_of("cell:"), &decimal_of(*row));
                let mid = concat(&head, &chars_of(","));
                concat(&mid, &decimal_of(*col))
            },
            SubTarget::Lines(range) => concat(&chars_of("line:"), &chars_of(range.as_str())),
            SubTarget::Text { quote, .. } => concat(&chars_of("text:"), &chars_of(quote.as_str())),
        };
        string_of(&chars)
    }

    /// A copy of this sub-target.
    pub fn duplicate(&self) -> (out: Self)
        ensures
            out == *self,
    {
        match self {
            SubTarget::Node(id) => SubTarget::Node(id.clone()),
            SubTarget::Cell { row, col } => SubTarget::Cell { row: *row, col: *col },
            SubTarget::Lines(range) => SubTarget::Lines(range.clone()),
            SubTarget::Text { quote, before, after } => SubTarget::Text {
                quote: quote.clone(),
                before: before.clone(),
                after: after.clone(),
            },
        }
    }
}

/// A single feedback item on the return channel.
#[derive(Debug, Clone, PartialEq, Eq)]
pub struct FeedbackItem {
    /// The block this targets, by id (without a leading `#`).
    pub block_id: String,
    /// Optional element-level sub-target within the block.
    pub sub_target: Option<SubTarget>,
    /// What kind of feedback this is.
    pub kind: FeedbackKind,
    /// The body: comment text, answer value, or finding detail.
    pub body: String,
    /// Where the item sits in its lifecycle.
    pub status: FeedbackStatus,
    /// Who the item is routed to.
    pub target: FeedbackTarget,
    /// Whether the commenter marked the thread done.
    pub resolved: bool,
}

/// Error when a feedback item names no resolvable target.
#[derive(Debug, Clone, Copy, PartialEq, Eq, Structural)]
pub struct NoTarget;

/// The anchor an item is identified by: `#id` or `#id/<sub-target>`.
pub open spec fn anchor_of(item: FeedbackItem) -> Seq<char> {
    match item.sub_target {
        Some(sub) => "#"@ + item.block_id@ + "/"@ + describe_of(sub),
        None => "#"@ + item.block_id@,
    }
}

/// The item `FeedbackItem::new` builds from acceptable arguments.
pub open spec fn fresh_item(
    block_id: Seq<char>,
    sub_target: Option<SubTarget>,
    kind: FeedbackKind,
    body: Seq<char>,
    item: FeedbackItem,
) -> bool {
    &&& item.block_id@ == block_id
    &&& item.sub_target == sub_target
    &&& item.kind == kind
    &&& item.body@ == body
    &&& item.status == FeedbackStatus::New
    &&& item.target == FeedbackTarget::Agent
    &&& !item.resolved
}

impl FeedbackItem {
    /// Build an item, refusing one that names no resolvable target: every item
    /// must carry a block id that is not blank.
    pub fn new(
        block_id: &str,
        sub_target: Option<SubTarget>,
        kind: FeedbackKind,
        body: &str,
    ) -> (r: Result<Self, NoTarget>)
        ensures
            r is Err <==> is_blank(block_id@),
            r matches Ok(item) ==> fresh_item(block_id@, sub_target, kind, body@, item),
    {
        let id = chars_of(block_id);
        if blank(&id) {
            return Err(NoTarget);
        }
        Ok(FeedbackItem {
            block_id: string_of(&id),
            sub_target,
            kind,
            body: string_of(&chars_of(body)),
            status: FeedbackStatus::New,
            target: FeedbackTarget::Agent,
            resolved: false,
        })
    }

    /// The anchor rendered in the poll output: `#id` or `#id/<sub-target>`.
    pub fn anchor(&self) -> (out: String)
        ensures
            out@ == anchor_of(*self),
    {
        let head = concat(&chars_of("#"), &chars_of(self.block_id.as_str()));
        match &self.sub_target {
            Some(sub) => {
                let with_slash = concat(&head, &chars_of("/"));
                let described = sub.describe();
                string_of(&concat(&with_slash, &chars_of(described.as_str())))
            },
            None => string_of(&head),
        }
    }

    /// A copy of this item.
    pub fn duplicate(&self) -> (out: Self)
        ensures
            out == *self,
    {
        FeedbackItem {
            block_id: self.block_id.clone(),
            sub_target: match &self.sub_target {
                Some(sub) => Some(sub.duplicate()),
                None => None,
            },
            kind: self.kind,
            body: self.body.clone(),
            status: self.status,
            target: self.target,
            resolved: self.resolved,
        }
    }
}

} // verus!
