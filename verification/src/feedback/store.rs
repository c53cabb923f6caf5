//! The review log and its settled state.
//!
//! The log holds one entry per line: each submitted feedback item in order, an
//! end marker when a review is finished (`true`) or reopened (`false`), and the
//! serving instance's lifecycle events. The settled state is the log's replay:
//! for each `(kind, anchor)` the latest item wins and a `Delete` drops it, and
//! the latest end marker decides whether the review has ended. Reading and
//! writing the file is the caller's; everything decided from its contents is
//! here.
use vstd::prelude::*;

use crate::feedback::model::{anchor_of, FeedbackItem, FeedbackKind, FeedbackStatus};
use crate::text::{chars_of, same};

verus! {

/// A review-state marker: `ended` is `true` for a finish, `false` for a reopen.
#[derive(Debug, Clone, Copy, PartialEq, Eq, Structural)]
pub struct EndMarker {
    pub ended: bool,
}

/// A server lifecycle event. Both carry the serving process id, so a shutdown
/// pairs with its serve and a reader can check whether the process lives.
#[derive(Debug, Clone, PartialEq, Eq)]
pub enum Lifecycle {
    Serve { pid: u32, port: u16, url: String },
    Shutdown { pid: u32, completed: bool },
}

/// One line of the review log.
#[derive(Debug, Clone, PartialEq, Eq)]
pub enum LogEntry {
    /// A submitted feedback item.
    Item(FeedbackItem),
    /// A review-state marker.
    End(EndMarker),
    /// A server lifecycle event.
    Life(Lifecycle),
}

/// Two items are the same thread when they share a kind and an anchor.
pub open spec fn same_key(a: FeedbackItem, b: FeedbackItem) -> bool {
    a.kind == b.kind && anchor_of(a) == anchor_of(b)
}

/// Where the first item sharing `item`'s thread sits.
pub open spec fn key_index(items: Seq<FeedbackItem>, item: FeedbackItem) -> Option<int>
    decreases items.len(),
{
    if items.len() == 0 {
        None
    } else if same_key(items[0], item) {
        Some(0)
    } else {
        match key_index(items.drop_first(), item) {
            Some(k) => Some(k + 1),
            None => None,
        }
    }
}

/// `items` without any item of `item`'s thread, in order.
pub open spec fn without_thread(items: Seq<FeedbackItem>, item: FeedbackItem) -> Seq<FeedbackItem>
    decreases items.len(),
{
    if items.len() == 0 {
        items
    } else {
        let rest = without_thread(items.drop_last(), item);
        if same_key(items.last(), item) {
            rest
        } else {
            rest.push(items.last())
        }
    }
}

/// Fold one item into the settled set: a `Delete` removes its thread, an
/// existing thread is replaced in place, and otherwise only a `New` is added.
pub open spec fn merged(items: Seq<FeedbackItem>, item: FeedbackItem) -> Seq<FeedbackItem> {
    if item.status == FeedbackStatus::Delete {
        without_thread(items, item)
    } else {
        match key_index(items, item) {
            Some(k) => items.update(k, item),
            None => if item.status == FeedbackStatus::New {
                items.push(item)
            } else {
                items
            },
        }
    }
}

/// No two settled items are the same thread.
pub open spec fn distinct_threads(items: Seq<FeedbackItem>) -> bool {
    forall|i: int, j: int|
        0 <= i < items.len() && 0 <= j < items.len() && i != j ==> !same_key(
            #[trigger] items[i],
            #[trigger] items[j],
        )
}

/// What a replay of the log has gathered.
pub struct ReplayState {
    pub items: Seq<FeedbackItem>,
    pub ended: bool,
    pub last_serve_pid: Option<u32>,
    pub shutdown_pids: Seq<u32>,
}

/// The log folded in order.
pub open spec fn replayed(entries: Seq<LogEntry>) -> ReplayState
    decreases entries.len(),
{
    if entries.len() == 0 {
        ReplayState {
            items: Seq::empty(),
            ended: false,
            last_serve_pid: None,
            shutdown_pids: Seq::empty(),
        }
    } else {
        let r = replayed(entries.drop_last());
        match entries.last() {
            LogEntry::Item(item) => ReplayState {
                items: merged(r.items, item),
                ended: r.ended,
                last_serve_pid: r.last_serve_pid,
                shutdown_pids: r.shutdown_pids,
            },
            LogEntry::End(marker) => ReplayState {
                items: r.items,
                ended: marker.ended,
                last_serve_pid: r.last_serve_pid,
                shutdown_pids: r.shutdown_pids,
            },
            LogEntry::Life(Lifecycle::Serve { pid, .. }) => ReplayState {
                items: r.items,
                ended: r.ended,
                last_serve_pid: Some(pid),
                shutdown_pids: r.shutdown_pids,
            },
            LogEntry::Life(Lifecycle::Shutdown { pid, .. }) => ReplayState {
                items: r.items,
                ended: r.ended,
                last_serve_pid: r.last_serve_pid,
                shutdown_pids: r.shutdown_pids.push(pid),
            },
        }
    }
}

/// The value of the last end marker in the log, or `false` when there is none.
pub open spec fn last_end(entries: Seq<LogEntry>) -> bool
    decreases entries.len(),
{
    if entries.len() == 0 {
        false
    } else {
        match entries.last() {
            LogEntry::End(marker) => marker.ended,
            _ => last_end(entries.drop_last()),
        }
    }
}

/// One pass over the log: the settled items, the ended flag, the last serving
/// pid, and the pids that recorded a shutdown.
pub struct Replay {
    pub items: Vec<FeedbackItem>,
    pub ended: bool,
    pub last_serve_pid: Option<u32>,
    pub shutdown_pids: Vec<u32>,
}

impl Replay {
    pub open spec fn state(&self) -> ReplayState {
        ReplayState {
            items: self.items@,
            ended: self.ended,
            last_serve_pid: self.last_serve_pid,
            shutdown_pids: self.shutdown_pids@,
        }
    }
}

proof fn lemma_key_index(items: Seq<FeedbackItem>, item: FeedbackItem)
    ensures
        match key_index(items, item) {
            Some(k) => 0 <= k < items.len() && same_key(items[k], item) && forall|j: int|
                0 <= j < k ==> !same_key(#[trigger] items[j], item),
            None => forall|j: int| 0 <= j < items.len() ==> !same_key(#[trigger] items[j], item),
        },
    decreases items.len(),
{
    if items.len() > 0 && !same_key(items[0], item) {
        lemma_key_index(items.drop_first(), item);
        match key_index(items.drop_first(), item) {
            Some(k) => {
                assert(items[k + 1] == items.drop_first()[k]);
                assert forall|j: int| 0 <= j < k + 1 implies !same_key(#[trigger] items[j], item) by {
                    if j > 0 {
                        assert(items[j] == items.drop_first()[j - 1]);
                    }
                }
            },
            None => {
                assert forall|j: int| 0 <= j < items.len() implies !same_key(
                    #[trigger] items[j],
                    item,
                ) by {
                    if j > 0 {
                        assert(items[j] == items.drop_first()[j - 1]);
                    }
                }
            },
        }
    }
}

proof fn lemma_key_index_at(items: Seq<FeedbackItem>, item: FeedbackItem, k: int)
    requires
        0 <= k < items.len(),
        same_key(items[k], item),
        forall|j: int| 0 <= j < k ==> !same_key(#[trigger] items[j], item),
    ensures
        key_index(items, item) == Some(k),
    decreases items.len(),
{
    if k > 0 {
        assert(!same_key(items[0], item));
        assert forall|j: int| 0 <= j < k - 1 implies !same_key(
            #[trigger] items.drop_first()[j],
            item,
        ) by {
            assert(items.drop_first()[j] == items[j + 1]);
        }
        lemma_key_index_at(items.drop_first(), item, k - 1);
    }
}

proof fn lemma_key_index_none(items: Seq<FeedbackItem>, item: FeedbackItem)
    requires
        forall|j: int| 0 <= j < items.len() ==> !same_key(#[trigger] items[j], item),
    ensures
        key_index(items, item) is None,
    decreases items.len(),
{
    if items.len() > 0 {
        assert(!same_key(items[0], item));
        assert forall|j: int| 0 <= j < items.len() - 1 implies !same_key(
            #[trigger] items.drop_first()[j],
            item,
        ) by {
            assert(items.drop_first()[j] == items[j + 1]);
        }
        lemma_key_index_none(items.drop_first(), item);
    }
}

/// Whether `existing` is the same thread as the item with `kind` and `anchor`.
fn is_thread(existing: &FeedbackItem, kind: FeedbackKind, anchor: &Vec<char>) -> (r: bool)
    ensures
        r == (existing.kind == kind && anchor_of(*existing) == anchor@),
{
    if existing.kind != kind {
        return false;
    }
    let mine = existing.anchor();
    same(&chars_of(mine.as_str()), anchor)
}

/// Fold one item into the settled set by its `(kind, anchor)` identity.
///
/// Keying on the kind as well as the anchor keeps an answer, an annotation and
/// a finding on one block independent; an `Update` or `Delete` with no thread
/// to act on is a no-op, so a deleted thread is never resurrected.
pub fn merge(items: &mut Vec<FeedbackItem>, item: FeedbackItem)
    ensures
        final(items)@ == merged(old(items)@, item),
{
    let kind = item.kind;
    let anchor = chars_of(item.anchor().as_str());
    if item.status == FeedbackStatus::Delete {
        let ghost before = items@;
        let mut kept: Vec<FeedbackItem> = Vec::new();
        let mut i: usize = 0;
        while i < items.len()
            invariant
                i <= items.len(),
                items@ == before,
                anchor@ == anchor_of(item),
                kind == item.kind,
                kept@ == without_thread(before.take(i as int), item),
            decreases items.len() - i,
        {
            assert(before.take(i + 1).drop_last() == before.take(i as int));
            assert(before.take(i + 1).last() == before[i as int]);
            let keep = !is_thread(&items[i], kind, &anchor);
            assert(items@[i as int] == before[i as int]);
            if keep {
                kept.push(items[i].duplicate());
            }
            i += 1;
        }
        assert(before.take(before.len() as int) == before);
        *items = kept;
    } else {
        let mut i: usize = 0;
        while i < items.len()
            invariant
                i <= items.len(),
                items@ == old(items)@,
                item.status != FeedbackStatus::Delete,
                anchor@ == anchor_of(item),
                kind == item.kind,
                forall|j: int| 0 <= j < i ==> !same_key(#[trigger] items@[j], item),
            decreases items.len() - i,
        {
            if is_thread(&items[i], kind, &anchor) {
                proof {
                    lemma_key_index_at(items@, item, i as int);
                }
                items.set(i, item);
                return;
            }
            i += 1;
        }
        proof {
            lemma_key_index_none(items@, item);
        }
        if item.status == FeedbackStatus::New {
            items.push(item);
        }
    }
}

/// Fold the log once, in order.
pub fn replay(entries: &[LogEntry]) -> (r: Replay)
    ensures
        r.state() == replayed(entries@),
{
    let mut r = Replay {
        items: Vec::new(),
        ended: false,
        last_serve_pid: None,
        shutdown_pids: Vec::new(),
    };
    let mut i: usize = 0;
    assert(entries@.take(0) =~= Seq::<LogEntry>::empty());
    while i < entries.len()
        invariant
            i <= entries.len(),
            r.state() == replayed(entries@.take(i as int)),
        decreases entries.len() - i,
    {
        assert(entries@.take(i + 1).drop_last() == entries@.take(i as int));
        assert(entries@.take(i + 1).last() == entries@[i as int]);
        match &entries[i] {
            LogEntry::End(marker) => {
                r.ended = marker.ended;
            },
            LogEntry::Item(item) => {
                merge(&mut r.items, item.duplicate());
            },
            LogEntry::Life(Lifecycle::Serve { pid, .. }) => {
                r.last_serve_pid = Some(*pid);
            },
            LogEntry::Life(Lifecycle::Shutdown { pid, .. }) => {
                r.shutdown_pids.push(*pid);
            },
        }
        i += 1;
    }
    assert(entries@.take(entries@.len() as int) == entries@);
    r
}

/// Whether a review is closed: not finished, and its serving instance is gone,
/// by a recorded shutdown or by a dead process (`alive` is the liveness
/// answer for the last serving pid).
pub open spec fn closed_with(r: ReplayState, alive: bool) -> bool {
    !r.ended && match r.last_serve_pid {
        Some(pid) => r.shutdown_pids.contains(pid) || !alive,
        None => false,
    }
}

/// A review session backed by one append-only log.
pub struct Session {
    /// Where the log lives.
    pub path: String,
}

impl Session {
    /// The session whose log lives at `path`.
    pub fn new(path: &str) -> (s: Self)
        ensures
            s.path@ == path@,
    {
        Session { path: crate::text::string_of(&chars_of(path)) }
    }

    /// The log file path.
    pub fn path(&self) -> (p: &str)
        ensures
            p@ == self.path@,
    {
        self.path.as_str()
    }

    /// The log line recording one feedback item.
    pub fn append(&self, item: &FeedbackItem) -> (e: LogEntry)
        ensures
            e == LogEntry::Item(*item),
    {
        LogEntry::Item(item.duplicate())
    }

    /// The end-of-review marker.
    pub fn finalize(&self) -> (e: LogEntry)
        ensures
            e == LogEntry::End(EndMarker { ended: true }),
    {
        LogEntry::End(EndMarker { ended: true })
    }

    /// The reopen marker, which clears the ended state while keeping every
    /// reply in the log.
    pub fn reopen(&self) -> (e: LogEntry)
        ensures
            e == LogEntry::End(EndMarker { ended: false }),
    {
        LogEntry::End(EndMarker { ended: false })
    }

    /// The event recording that a server (`pid`) began serving at `port`/`url`.
    pub fn record_serve(&self, pid: u32, port: u16, url: &str) -> (e: LogEntry)
        ensures
            e matches LogEntry::Life(Lifecycle::Serve { pid: p, port: q, url: u }) && p == pid
                && q == port && u@ == url@,
    {
        LogEntry::Life(
            Lifecycle::Serve { pid, port, url: crate::text::string_of(&chars_of(url)) },
        )
    }

    /// The event recording that the server (`pid`) stopped; `completed` is
    /// whether the review had been finished.
    pub fn record_shutdown(&self, pid: u32, completed: bool) -> (e: LogEntry)
        ensures
            e == LogEntry::Life(Lifecycle::Shutdown { pid, completed }),
    {
        LogEntry::Life(Lifecycle::Shutdown { pid, completed })
    }

    /// The settled review state of a log: the settled items in first-seen
    /// order, and whether the review has ended.
    pub fn settled(&self, entries: &[LogEntry]) -> (r: (Vec<FeedbackItem>, bool))
        ensures
            r.0@ == replayed(entries@).items,
            r.1 == replayed(entries@).ended,
    {
        let r = replay(entries);
        (r.items, r.ended)
    }

    /// The review outcome for the poll: `(items, ended, closed)`. `closed` is
    /// true when the review was not finished and its serving instance is gone,
    /// either by a recorded shutdown for its pid or because `is_alive` says the
    /// pid no longer runs. `is_alive` is asked only when that decides it.
    pub fn outcome(&self, entries: &[LogEntry], is_alive: impl Fn(u32) -> bool) -> (r: (
        Vec<FeedbackItem>,
        bool,
        bool,
    ))
        requires
            forall|pid: u32| is_alive.requires((pid,)),
        ensures
            r.0@ == replayed(entries@).items,
            r.1 == replayed(entries@).ended,
            r.2 ==> closed_with(replayed(entries@), false),
            !r.2 ==> !closed_with(replayed(entries@), true),
            r.2 && !closed_with(replayed(entries@), true) ==> (replayed(
                entries@,
            ).last_serve_pid matches Some(pid) && is_alive.ensures((pid,), false)),
            !r.2 && closed_with(replayed(entries@), false) ==> (replayed(
                entries@,
            ).last_serve_pid matches Some(pid) && is_alive.ensures((pid,), true)),
    {
        let r = replay(entries);
        let closed = if r.ended {
            false
        } else {
            match r.last_serve_pid {
                Some(pid) => {
                    if crate::feedback::store::contains_pid(&r.shutdown_pids, pid) {
                        true
                    } else {
                        !is_alive(pid)
                    }
                },
                None => false,
            }
        };
        (r.items, r.ended, closed)
    }
}

proof fn lemma_without_thread(items: Seq<FeedbackItem>, item: FeedbackItem)
    ensures
        forall|x: FeedbackItem|
            #[trigger] without_thread(items, item).contains(x) ==> items.contains(x)
                && !same_key(x, item),
        distinct_threads(items) ==> distinct_threads(without_thread(items, item)),
    decreases items.len(),
{
    if items.len() > 0 {
        let front = items.drop_last();
        lemma_without_thread(front, item);
        let rest = without_thread(front, item);
        assert forall|x: FeedbackItem| #[trigger] without_thread(items, item).contains(x) implies items.contains(x)
            && !same_key(x, item) by {
            if rest.contains(x) {
                let j = choose|j: int| 0 <= j < front.len() && front[j] == x;
                assert(items[j] == x);
            } else {
                assert(x == items.last());
                assert(items[items.len() - 1] == x);
            }
        }
        if distinct_threads(items) {
            assert(distinct_threads(front)) by {
                assert forall|i: int, j: int|
                    0 <= i < front.len() && 0 <= j < front.len() && i != j implies !same_key(
                    #[trigger] front[i],
                    #[trigger] front[j],
                ) by {
                    assert(front[i] == items[i] && front[j] == items[j]);
                }
            }
            if !same_key(items.last(), item) {
                let out = rest.push(items.last());
                assert forall|i: int, j: int|
                    0 <= i < out.len() && 0 <= j < out.len() && i != j implies !same_key(
                    #[trigger] out[i],
                    #[trigger] out[j],
                ) by {
                    if i < rest.len() && j < rest.len() {
                        assert(out[i] == rest[i] && out[j] == rest[j]);
                    } else if i < rest.len() {
                        assert(rest.contains(rest[i]));
                        let k = choose|k: int| 0 <= k < front.len() && front[k] == rest[i];
                        assert(items[k] == out[i]);
                        assert(out[j] == items[items.len() - 1]);
                    } else if j < rest.len() {
                        assert(rest.contains(rest[j]));
                        let k = choose|k: int| 0 <= k < front.len() && front[k] == rest[j];
                        assert(items[k] == out[j]);
                        assert(out[i] == items[items.len() - 1]);
                    }
                }
            }
        }
    }
}

/// Folding an item into a set of distinct threads leaves them distinct: the
/// settled state never holds two items for one `(kind, anchor)`.
pub proof fn merge_keeps_threads_distinct(items: Seq<FeedbackItem>, item: FeedbackItem)
    requires
        distinct_threads(items),
    ensures
        distinct_threads(merged(items, item)),
{
    lemma_without_thread(items, item);
    lemma_key_index(items, item);
}

/// However the log reads, its settled items are distinct threads.
pub proof fn settled_threads_are_distinct(entries: Seq<LogEntry>)
    ensures
        distinct_threads(replayed(entries).items),
    decreases entries.len(),
{
    if entries.len() > 0 {
        settled_threads_are_distinct(entries.drop_last());
        if let LogEntry::Item(item) = entries.last() {
            merge_keeps_threads_distinct(replayed(entries.drop_last()).items, item);
        }
    }
}

/// A `Delete` removes every item of its thread.
pub proof fn delete_drops_the_thread(items: Seq<FeedbackItem>, item: FeedbackItem)
    requires
        item.status == FeedbackStatus::Delete,
    ensures
        forall|i: int|
            0 <= i < merged(items, item).len() ==> !same_key(#[trigger] merged(items, item)[i], item),
{
    lemma_without_thread(items, item);
    let out = merged(items, item);
    assert forall|i: int| 0 <= i < out.len() implies !same_key(#[trigger] out[i], item) by {
        assert(out.contains(out[i]));
    }
}

/// An update or a delete of a thread the settled set does not hold changes
/// nothing; only a `New` item starts a thread.
pub proof fn only_new_starts_a_thread(items: Seq<FeedbackItem>, item: FeedbackItem)
    requires
        item.status != FeedbackStatus::New,
        forall|i: int| 0 <= i < items.len() ==> !same_key(#[trigger] items[i], item),
    ensures
        merged(items, item) == items,
    decreases items.len(),
{
    lemma_key_index_none(items, item);
    if item.status == FeedbackStatus::Delete {
        lemma_without_thread_keeps(items, item);
    }
}

proof fn lemma_without_thread_keeps(items: Seq<FeedbackItem>, item: FeedbackItem)
    requires
        forall|i: int| 0 <= i < items.len() ==> !same_key(#[trigger] items[i], item),
    ensures
        without_thread(items, item) == items,
    decreases items.len(),
{
    if items.len() > 0 {
        assert forall|i: int| 0 <= i < items.drop_last().len() implies !same_key(
            #[trigger] items.drop_last()[i],
            item,
        ) by {
            assert(items.drop_last()[i] == items[i]);
        }
        lemma_without_thread_keeps(items.drop_last(), item);
        assert(!same_key(items[items.len() - 1], item));
        assert(items.drop_last().push(items.last()) == items);
    }
}

/// Once a thread is deleted, a later update of it (a resolve or a reopen)
/// does not bring it back.
pub proof fn update_after_delete_does_not_resurrect(
    items: Seq<FeedbackItem>,
    deleted: FeedbackItem,
    update: FeedbackItem,
)
    requires
        deleted.status == FeedbackStatus::Delete,
        update.status == FeedbackStatus::Update,
        same_key(deleted, update),
    ensures
        merged(merged(items, deleted), update) == merged(items, deleted),
{
    delete_drops_the_thread(items, deleted);
    only_new_starts_a_thread(merged(items, deleted), update);
}

/// An edit of a held thread replaces it where it stands: the count and the
/// first-seen order are kept.
pub proof fn an_edit_keeps_its_place(items: Seq<FeedbackItem>, item: FeedbackItem, k: int)
    requires
        item.status != FeedbackStatus::Delete,
        0 <= k < items.len(),
        same_key(items[k], item),
        forall|j: int| 0 <= j < k ==> !same_key(#[trigger] items[j], item),
    ensures
        merged(items, item) == items.update(k, item),
{
    lemma_key_index_at(items, item, k);
}

/// Whether `f` picks, for each item of `new`, where it stood in `old`
/// (`old.len()` standing for the item folded in), in increasing order: each
/// item of `new` is that item or the one `f` points at.
pub open spec fn order_witness(
    old: Seq<FeedbackItem>,
    new: Seq<FeedbackItem>,
    item: FeedbackItem,
    f: Seq<int>,
) -> bool {
    &&& f.len() == new.len()
    &&& forall|a: int, b: int| 0 <= a < b < f.len() ==> #[trigger] f[a] < #[trigger] f[b]
    &&& forall|j: int|
        0 <= j < new.len() ==> 0 <= #[trigger] f[j] <= old.len() && (new[j] == item || (f[j]
            < old.len() && new[j] == old[f[j]]))
}

/// Every item of `new` is `item` or was in `old`, and those that were keep
/// the order they had there.
pub open spec fn kept_in_order(
    old: Seq<FeedbackItem>,
    new: Seq<FeedbackItem>,
    item: FeedbackItem,
) -> bool {
    exists|f: Seq<int>| order_witness(old, new, item, f)
}

proof fn lemma_without_thread_order(items: Seq<FeedbackItem>, item: FeedbackItem) -> (f: Seq<int>)
    ensures
        order_witness(items, without_thread(items, item), item, f),
        forall|j: int| 0 <= j < f.len() ==> #[trigger] f[j] < items.len(),
    decreases items.len(),
{
    if items.len() == 0 {
        Seq::empty()
    } else {
        let front = items.drop_last();
        let g = lemma_without_thread_order(front, item);
        let rest = without_thread(front, item);
        if same_key(items.last(), item) {
            assert forall|j: int| 0 <= j < rest.len() implies 0 <= #[trigger] g[j] <= items.len()
                && (rest[j] == item || (g[j] < items.len() && rest[j] == items[g[j]])) by {
                if rest[j] != item {
                    assert(items[g[j]] == front[g[j]]);
                }
            }
            g
        } else {
            let last = (items.len() - 1) as int;
            let f = g.push(last);
            let out = rest.push(items.last());
            assert forall|a: int, b: int| 0 <= a < b < f.len() implies #[trigger] f[a]
                < #[trigger] f[b] by {
                if b == f.len() - 1 {
                    assert(f[a] == g[a]);
                    assert(g[a] < front.len());
                } else {
                    assert(f[a] == g[a] && f[b] == g[b]);
                }
            }
            assert forall|j: int| 0 <= j < out.len() implies 0 <= #[trigger] f[j] <= items.len()
                && (out[j] == item || (f[j] < items.len() && out[j] == items[f[j]])) by {
                if j < rest.len() {
                    assert(f[j] == g[j] && out[j] == rest[j]);
                    if rest[j] != item {
                        assert(items[g[j]] == front[g[j]]);
                    }
                }
            }
            assert forall|j: int| 0 <= j < f.len() implies #[trigger] f[j] < items.len() by {
                if j < g.len() {
                    assert(f[j] == g[j]);
                }
            }
            f
        }
    }
}

/// Folding an item in keeps the threads in the order they were first seen:
/// every item afterwards is the one folded in or one that was there before,
/// and those that were there keep their relative order. With the laws above,
/// threads stay distinct and an update or delete of an absent thread changes
/// nothing.
pub proof fn merge_keeps_the_order_it_found(items: Seq<FeedbackItem>, item: FeedbackItem)
    ensures
        kept_in_order(items, merged(items, item), item),
{
    let out = merged(items, item);
    let ident = Seq::new(items.len(), |j: int| j);
    if item.status == FeedbackStatus::Delete {
        let f = lemma_without_thread_order(items, item);
        assert(order_witness(items, out, item, f));
    } else {
        lemma_key_index(items, item);
        match key_index(items, item) {
            Some(k) => {
                assert(order_witness(items, out, item, ident));
            },
            None => if item.status == FeedbackStatus::New {
                let f = ident.push(items.len() as int);
                assert(order_witness(items, out, item, f));
            } else {
                assert(order_witness(items, out, item, ident));
            },
        }
    }
}

/// The latest end marker decides whether the review has ended.
pub proof fn latest_end_marker_wins(entries: Seq<LogEntry>)
    ensures
        replayed(entries).ended == last_end(entries),
    decreases entries.len(),
{
    if entries.len() > 0 {
        latest_end_marker_wins(entries.drop_last());
    }
}

/// A finished review is never reported closed, whatever its server did.
pub proof fn finished_is_never_closed(entries: Seq<LogEntry>, alive: bool)
    requires
        replayed(entries).ended,
    ensures
        !closed_with(replayed(entries), alive),
{
}

/// Whether `pid` is among `pids`.
pub fn contains_pid(pids: &Vec<u32>, pid: u32) -> (r: bool)
    ensures
        r == pids@.contains(pid),
{
    let mut i: usize = 0;
    while i < pids.len()
        invariant
            i <= pids.len(),
            forall|j: int| 0 <= j < i ==> pids@[j] != pid,
        decreases pids.len() - i,
    {
        if pids[i] == pid {
            assert(pids@[i as int] == pid);
            return true;
        }
        i += 1;
    }
    false
}

} // verus!
