//! The replicated log: the commands of a cluster in one order, with the
//! offset up to which a majority of nodes holds them.

use vstd::prelude::*;
use crate::raft::{
    applies, apply, effect, outcome, CommandView, JohnCommand, JohnQuery, JohnResponse,
    ResponseView,
};
use crate::rivers::Rivers;

verus! {

/// Why the log refused an operation.
#[derive(Clone, Copy, Debug, PartialEq, Eq, Structural)]
pub enum LogError {
    /// A commit past the tail or below the committed offset, a discard of
    /// committed entries, or an acknowledgment of an entry that is not there.
    CommitViolation,
}

/// One entry of the log. Indexes count from one.
#[derive(Debug)]
pub struct LogEntry {
    /// The entry's place in the log.
    pub index: usize,
    /// The command that the entry holds.
    pub command: JohnCommand,
    /// Whether a majority of nodes holds the entry.
    pub committed: bool,
}

impl Clone for LogEntry {
    fn clone(&self) -> (r: LogEntry)
        ensures
            r == *self,
    {
        LogEntry { index: self.index, command: self.command.clone(), committed: self.committed }
    }
}

/// The index up to which a node last said it holds the log.
struct Acknowledgment {
    node: String,
    offset: usize,
}

/// A query that waits for the entry at `index` to be applied; its answer
/// goes to `respond_to`.
#[derive(Clone, Copy)]
struct PendingQuery {
    index: usize,
    respond_to: usize,
}

/// What a log stands for.
pub struct LogView {
    /// The commands, in the order of their indexes; the first has index one.
    pub entries: Seq<CommandView>,
    /// The highest index that is committed.
    pub committed: nat,
    /// The highest index that was applied to the rivers.
    pub applied: nat,
    /// For each node that has acknowledged, the index up to which it last
    /// said it holds the log.
    pub acknowledged: Map<Seq<char>, nat>,
    /// The queries that wait, oldest first: the index each waits for and
    /// where its answer goes.
    pub waiting: Seq<(nat, usize)>,
}

/// What holds of every log: what was applied is committed, what is
/// committed is there, no node has acknowledged more than is there, and
/// each query waits for an entry that is there and not yet applied.
pub open spec fn consistent(log: LogView) -> bool {
    &&& log.applied <= log.committed <= log.entries.len()
    &&& log.acknowledged.dom().finite()
    &&& forall|node: Seq<char>| #[trigger]
        log.acknowledged.dom().contains(node) ==> log.acknowledged[node] <= log.entries.len()
    &&& forall|i: int|
        0 <= i < log.waiting.len() ==> log.applied < (#[trigger] log.waiting[i]).0
            <= log.entries.len()
}

/// One log may follow another in time: the committed offset has not gone
/// back, it does not exceed the tail, and the entries that were committed
/// are as they were.
pub open spec fn follows(later: LogView, earlier: LogView) -> bool {
    &&& earlier.committed <= later.committed <= later.entries.len()
    &&& later.entries.take(earlier.committed as int) == earlier.entries.take(
        earlier.committed as int,
    )
}

/// The nodes that have acknowledged `index` or a higher one.
pub open spec fn supporters(acknowledged: Map<Seq<char>, nat>, index: nat) -> Set<Seq<char>> {
    Set::new(|node: Seq<char>| acknowledged.dom().contains(node) && acknowledged[node] >= index)
}

/// Number of distinct nodes that have acknowledged `index` or a higher one.
pub open spec fn support(acknowledged: Map<Seq<char>, nat>, index: nat) -> nat {
    supporters(acknowledged, index).len()
}

/// Number of the kept acknowledgments that reach `index`.
spec fn tally(kept: Seq<Acknowledgment>, index: nat) -> nat
    decreases kept.len(),
{
    if kept.len() == 0 {
        0
    } else {
        tally(kept.drop_last(), index) + if kept.last().offset >= index {
            1nat
        } else {
            0nat
        }
    }
}

/// The nodes among the kept acknowledgments that reach `index`.
spec fn reaching(kept: Seq<Acknowledgment>, index: nat) -> Set<Seq<char>> {
    Set::new(
        |node: Seq<char>|
            exists|i: int|
                0 <= i < kept.len() && #[trigger] kept[i].node@ == node && kept[i].offset >= index,
    )
}

/// Where no node is kept twice, the acknowledgments that reach `index` are
/// as many as the nodes they come from.
proof fn lemma_tally_counts_nodes(kept: Seq<Acknowledgment>, index: nat)
    requires
        forall|i: int, j: int|
            0 <= i < j < kept.len() ==> (#[trigger] kept[i]).node@ != (#[trigger] kept[j]).node@,
    ensures
        reaching(kept, index).finite(),
        reaching(kept, index).len() == tally(kept, index),
        tally(kept, index) <= kept.len(),
    decreases kept.len(),
{
    if kept.len() == 0 {
        assert(reaching(kept, index) =~= Set::<Seq<char>>::empty());
    } else {
        let earlier = kept.drop_last();
        let last = kept.last();
        lemma_tally_counts_nodes(earlier, index);
        assert forall|node: Seq<char>| reaching(earlier, index).contains(node) implies node
            != last.node@ && reaching(kept, index).contains(node) by {
            let i = choose|i: int|
                0 <= i < earlier.len() && #[trigger] earlier[i].node@ == node && earlier[i].offset
                    >= index;
            assert(kept[i].node@ == node);
        }
        assert forall|node: Seq<char>|
            reaching(kept, index).contains(node) && node != last.node@ implies reaching(
            earlier,
            index,
        ).contains(node) by {
            let i = choose|i: int|
                0 <= i < kept.len() && #[trigger] kept[i].node@ == node && kept[i].offset >= index;
            assert(earlier[i].node@ == node);
        }
        if last.offset >= index {
            assert(kept[kept.len() - 1].node@ == last.node@);
            assert(reaching(kept, index) =~= reaching(earlier, index).insert(last.node@));
        } else {
            assert(!reaching(kept, index).contains(last.node@)) by {
                if reaching(kept, index).contains(last.node@) {
                    let i = choose|i: int|
                        0 <= i < kept.len() && #[trigger] kept[i].node@ == last.node@
                            && kept[i].offset >= index;
                    assert(i < kept.len() - 1);
                    assert(kept[i].node@ != kept[kept.len() - 1].node@);
                }
            }
            assert(reaching(kept, index) =~= reaching(earlier, index));
        }
    }
}

/// A node that holds an index holds every lower one: the support of an
/// index is no less than that of a higher one.
pub proof fn lemma_support_falls(acknowledged: Map<Seq<char>, nat>, lower: nat, higher: nat)
    requires
        acknowledged.dom().finite(),
        lower <= higher,
    ensures
        support(acknowledged, higher) <= support(acknowledged, lower) <= acknowledged.dom().len(),
{
    assert(supporters(acknowledged, higher).subset_of(supporters(acknowledged, lower)));
    assert(supporters(acknowledged, lower).subset_of(acknowledged.dom()));
    vstd::set_lib::lemma_len_subset(supporters(acknowledged, lower), acknowledged.dom());
    vstd::set_lib::lemma_len_subset(
        supporters(acknowledged, higher),
        supporters(acknowledged, lower),
    );
}

/// What the kept queries stand for.
spec fn waiting_view(kept: Seq<PendingQuery>) -> Seq<(nat, usize)> {
    Seq::new(kept.len(), |i: int| (kept[i].index as nat, kept[i].respond_to))
}

/// The acknowledgments after the log was cut to `len` entries: no node
/// holds more than is left.
pub open spec fn clamped(acknowledged: Map<Seq<char>, nat>, len: nat) -> Map<Seq<char>, nat> {
    Map::new(
        |node: Seq<char>| acknowledged.dom().contains(node),
        |node: Seq<char>|
            if acknowledged[node] <= len {
                acknowledged[node]
            } else {
                len
            },
    )
}

/// The queries that wait for an index up to `len`, in the order they had.
pub open spec fn still_waiting(waiting: Seq<(nat, usize)>, len: nat) -> Seq<(nat, usize)>
    decreases waiting.len(),
{
    if waiting.len() == 0 {
        waiting
    } else if waiting.last().0 <= len {
        still_waiting(waiting.drop_last(), len).push(waiting.last())
    } else {
        still_waiting(waiting.drop_last(), len)
    }
}

/// Where the answers go of the queries that wait for `index`, oldest first.
pub open spec fn answered(waiting: Seq<(nat, usize)>, index: nat) -> Seq<usize>
    decreases waiting.len(),
{
    if waiting.len() == 0 {
        Seq::empty()
    } else if waiting.last().0 == index {
        answered(waiting.drop_last(), index).push(waiting.last().1)
    } else {
        answered(waiting.drop_last(), index)
    }
}

/// The queries that wait for another index than `index`, in the order they
/// had.
pub open spec fn unanswered(waiting: Seq<(nat, usize)>, index: nat) -> Seq<(nat, usize)>
    decreases waiting.len(),
{
    if waiting.len() == 0 {
        waiting
    } else if waiting.last().0 != index {
        unanswered(waiting.drop_last(), index).push(waiting.last())
    } else {
        unanswered(waiting.drop_last(), index)
    }
}

/// Each query that `unanswered` or `still_waiting` keeps is one that
/// waited.
proof fn lemma_kept_waited(waiting: Seq<(nat, usize)>, bound: nat)
    ensures
        forall|i: int|
            0 <= i < unanswered(waiting, bound).len() ==> waiting.contains(
                #[trigger] unanswered(waiting, bound)[i],
            ) && unanswered(waiting, bound)[i].0 != bound,
        forall|i: int|
            0 <= i < still_waiting(waiting, bound).len() ==> waiting.contains(
                #[trigger] still_waiting(waiting, bound)[i],
            ) && still_waiting(waiting, bound)[i].0 <= bound,
    decreases waiting.len(),
{
    if waiting.len() > 0 {
        let earlier = waiting.drop_last();
        lemma_kept_waited(earlier, bound);
        assert forall|i: int| 0 <= i < unanswered(waiting, bound).len() implies waiting.contains(
            #[trigger] unanswered(waiting, bound)[i],
        ) && unanswered(waiting, bound)[i].0 != bound by {
            let kept = unanswered(waiting, bound)[i];
            if i < unanswered(earlier, bound).len() {
                assert(kept == unanswered(earlier, bound)[i]);
                let j = choose|j: int| 0 <= j < earlier.len() && earlier[j] == kept;
                assert(waiting[j] == kept);
            } else {
                assert(kept == waiting[waiting.len() - 1]);
            }
        }
        assert forall|i: int|
            0 <= i < still_waiting(waiting, bound).len() implies waiting.contains(
            #[trigger] still_waiting(waiting, bound)[i],
        ) && still_waiting(waiting, bound)[i].0 <= bound by {
            let kept = still_waiting(waiting, bound)[i];
            if i < still_waiting(earlier, bound).len() {
                assert(kept == still_waiting(earlier, bound)[i]);
                let j = choose|j: int| 0 <= j < earlier.len() && earlier[j] == kept;
                assert(waiting[j] == kept);
            } else {
                assert(kept == waiting[waiting.len() - 1]);
            }
        }
    }
}

/// An entry that was applied: its index, the response of its command, and
/// where the response goes.
#[derive(Debug)]
pub struct Applied {
    /// The index of the entry.
    pub index: usize,
    /// The response of the entry's command.
    pub response: JohnResponse,
    /// The queries that waited for the entry, oldest first, each named by
    /// where its answer goes.
    pub respond_to: Vec<usize>,
}

/// What an applied entry stands for.
pub struct AppliedView {
    pub index: nat,
    pub response: ResponseView,
    pub respond_to: Seq<usize>,
}

impl View for Applied {
    type V = AppliedView;

    open spec fn view(&self) -> AppliedView {
        AppliedView {
            index: self.index as nat,
            response: self.response@,
            respond_to: self.respond_to@,
        }
    }
}

/// Whether the next committed entry can be applied now: there is one, and
/// the stores can take its command.
pub open spec fn can_apply(log: LogView, files: Map<Seq<char>, Seq<u8>>) -> bool {
    &&& log.applied < log.committed <= log.entries.len()
    &&& applies(files, log.entries[log.applied as int])
}

/// The log after its next committed entry was applied: the queries that
/// waited for the entry wait no more.
pub open spec fn after_apply(log: LogView) -> LogView {
    LogView { applied: log.applied + 1, waiting: unanswered(log.waiting, log.applied + 1), ..log }
}

/// What applying the next committed entry hands out.
pub open spec fn next_applied(log: LogView, files: Map<Seq<char>, Seq<u8>>) -> AppliedView {
    AppliedView {
        index: log.applied + 1,
        response: outcome(files, log.entries[log.applied as int]),
        respond_to: answered(log.waiting, log.applied + 1),
    }
}

/// The log, the stores and what was handed out after the committed entries
/// were applied in the order of their indexes, up to the last one or to the
/// first that the stores cannot take.
pub open spec fn run(log: LogView, files: Map<Seq<char>, Seq<u8>>) -> (
    LogView,
    Map<Seq<char>, Seq<u8>>,
    Seq<AppliedView>,
)
    decreases log.committed - log.applied,
{
    if can_apply(log, files) {
        let rest = run(after_apply(log), effect(files, log.entries[log.applied as int]));
        (rest.0, rest.1, seq![next_applied(log, files)] + rest.2)
    } else {
        (log, files, Seq::empty())
    }
}

/// What a sequence of applied entries stands for.
pub open spec fn applied_views(handed: Seq<Applied>) -> Seq<AppliedView> {
    Seq::new(handed.len(), |i: int| handed[i]@)
}

/// The index of the entry that a query for `command` waits for: the last
/// entry that holds the command and is not applied yet.
pub open spec fn awaited(log: LogView, command: CommandView) -> Option<nat>
    decreases log.entries.len(),
{
    if log.entries.len() <= log.applied {
        None
    } else if log.entries.last() == command {
        Some(log.entries.len())
    } else {
        awaited(LogView { entries: log.entries.drop_last(), ..log }, command)
    }
}

/// Following is transitive: what follows a log that follows another
/// follows that other too.
pub proof fn lemma_follows_chain(last: LogView, middle: LogView, first: LogView)
    requires
        follows(last, middle),
        follows(middle, first),
    ensures
        follows(last, first),
{
    let n = first.committed as int;
    assert(last.entries.take(n) =~= last.entries.take(middle.committed as int).take(n));
    assert(middle.entries.take(n) =~= middle.entries.take(middle.committed as int).take(n));
}

/// What `awaited` finds is the highest index, above the applied offset, of
/// an entry that holds the command; it finds nothing where no entry above
/// the applied offset holds it. The entry of index `i` stands at `i - 1`.
pub proof fn lemma_awaited(log: LogView, command: CommandView)
    ensures
        match awaited(log, command) {
            Some(index) => {
                &&& log.applied < index <= log.entries.len()
                &&& log.entries[index - 1] == command
                &&& forall|at: int|
                    index <= at < log.entries.len() ==> #[trigger] log.entries[at] != command
            },
            None => forall|at: int|
                log.applied <= at < log.entries.len() ==> #[trigger] log.entries[at] != command,
        },
    decreases log.entries.len(),
{
    if log.entries.len() > log.applied && log.entries.last() != command {
        let shorter = LogView { entries: log.entries.drop_last(), ..log };
        lemma_awaited(shorter, command);
        assert forall|at: int| 0 <= at < shorter.entries.len() implies shorter.entries[at]
            == log.entries[at] by {}
    }
}

/// The replicated log of a node.
pub struct JohnReplicationLog {
    entries: Vec<LogEntry>,
    committed: usize,
    applied: usize,
    acknowledged: Vec<Acknowledgment>,
    waiting: Vec<PendingQuery>,
}

impl View for JohnReplicationLog {
    type V = LogView;

    closed spec fn view(&self) -> LogView {
        LogView {
            entries: Seq::new(self.entries.len() as nat, |i: int| self.entries[i].command@),
            committed: self.committed as nat,
            applied: self.applied as nat,
            acknowledged: Map::new(
                |node: Seq<char>| self.heard(node),
                |node: Seq<char>| self.acknowledged[self.place_of(node)].offset as nat,
            ),
            waiting: waiting_view(self.waiting@),
        }
    }
}

impl JohnReplicationLog {
    /// Whether that node has acknowledged.
    pub closed spec fn heard(&self, node: Seq<char>) -> bool {
        exists|i: int| 0 <= i < self.acknowledged.len() && #[trigger] self.acknowledged[i].node@ == node
    }

    /// Where that node's acknowledgment is kept.
    pub closed spec fn place_of(&self, node: Seq<char>) -> int {
        choose|i: int| 0 <= i < self.acknowledged.len() && #[trigger] self.acknowledged[i].node@ == node
    }

    /// The log's invariant: its view is consistent, each entry carries its
    /// index and whether it is committed, and no node is kept twice.
    pub closed spec fn wf(&self) -> bool {
        &&& self.applied <= self.committed <= self.entries.len()
        &&& forall|i: int|
            0 <= i < self.entries.len() ==> (#[trigger] self.entries[i]).index == i + 1
                && self.entries[i].committed == (i < self.committed)
        &&& forall|i: int|
            0 <= i < self.acknowledged.len() ==> (#[trigger] self.acknowledged[i]).offset
                <= self.entries.len()
        &&& forall|i: int, j: int|
            0 <= i < j < self.acknowledged.len() ==> (#[trigger] self.acknowledged[i]).node@
                != (#[trigger] self.acknowledged[j]).node@
        &&& forall|i: int|
            0 <= i < self.waiting.len() ==> self.applied < (#[trigger] self.waiting[i]).index
                <= self.entries.len()
    }

    /// An empty log.
    pub fn new() -> (r: JohnReplicationLog)
        ensures
            r.wf(),
            r@.entries == Seq::<CommandView>::empty(),
            r@.committed == 0,
            r@.applied == 0,
            r@.acknowledged == Map::<Seq<char>, nat>::empty(),
            r@.waiting == Seq::<(nat, usize)>::empty(),
    {
        let r = JohnReplicationLog {
            entries: Vec::new(),
            committed: 0,
            applied: 0,
            acknowledged: Vec::new(),
            waiting: Vec::new(),
        };
        proof {
            assert(r@.entries =~= Seq::<CommandView>::empty());
            assert(r@.acknowledged =~= Map::<Seq<char>, nat>::empty());
            assert(r@.waiting =~= Seq::<(nat, usize)>::empty());
        }
        r
    }

    /// Number of entries, which is the index of the last one.
    pub fn len(&self) -> (n: usize)
        requires
            self.wf(),
        ensures
            n == self@.entries.len(),
    {
        self.entries.len()
    }

    /// The highest index that is committed. It never exceeds the tail.
    pub fn committed_offset(&self) -> (n: usize)
        requires
            self.wf(),
        ensures
            n == self@.committed,
            n <= self@.entries.len(),
    {
        self.committed
    }

    /// The highest index that was applied to the rivers.
    pub fn applied_offset(&self) -> (n: usize)
        requires
            self.wf(),
        ensures
            n == self@.applied,
            n <= self@.committed,
    {
        self.applied
    }

    /// The entry at `index`, counted from one, if there is one.
    pub fn entry(&self, index: usize) -> (r: Option<LogEntry>)
        requires
            self.wf(),
        ensures
            match r {
                Some(entry) => {
                    &&& 1 <= index <= self@.entries.len()
                    &&& entry.index == index
                    &&& entry.command@ == self@.entries[index - 1]
                    &&& entry.committed == (index <= self@.committed)
                },
                None => index == 0 || index > self@.entries.len(),
            },
    {
        if index == 0 || index > self.entries.len() {
            None
        } else {
            Some(self.entries[index - 1].clone())
        }
    }

    /// Appends `entry` at the tail, not committed, and returns its index.
    pub fn enqueue(&mut self, entry: JohnCommand) -> (index: usize)
        requires
            old(self).wf(),
        ensures
            final(self).wf(),
            index == old(self)@.entries.len() + 1,
            final(self)@ == (LogView { entries: old(self)@.entries.push(entry@), ..old(self)@ }),
            follows(final(self)@, old(self)@),
    {
        let ghost before = *self;
        let index: usize = match self.entries.len().checked_add(1) {
            Some(next) => next,
            None => usize::MAX,
        };
        self.entries.push(LogEntry { index, command: entry, committed: false });
        proof {
            assert(self.entries.len() <= usize::MAX);
            assert(self@.entries =~= before@.entries.push(entry@));
            self.lemma_same_acknowledged(before);
            assert(self@.waiting =~= before@.waiting);
            assert(self@.entries.take(before@.committed as int) =~= before@.entries.take(
                before@.committed as int,
            ));
        }
        index
    }

    /// Advances the committed offset to `new_committed_offset`.
    ///
    /// Fails, and changes nothing, where that is past the tail or below the
    /// committed offset.
    pub fn commit_upto(&mut self, new_committed_offset: usize) -> (r: Result<(), LogError>)
        requires
            old(self).wf(),
        ensures
            final(self).wf(),
            r is Err <==> new_committed_offset > old(self)@.entries.len() || new_committed_offset
                < old(self)@.committed,
            r is Ok ==> final(self)@ == (LogView {
                committed: new_committed_offset as nat,
                ..old(self)@
            }),
            r is Err ==> final(self)@ == old(self)@,
            follows(final(self)@, old(self)@),
    {
        if new_committed_offset > self.entries.len() || new_committed_offset < self.committed {
            return Err(LogError::CommitViolation);
        }
        let ghost before = *self;
        let mut i: usize = self.committed;
        while i < new_committed_offset
            invariant
                before.wf(),
                before.committed <= i <= new_committed_offset <= self.entries.len(),
                self.entries.len() == before.entries.len(),
                self.committed == before.committed,
                self.applied == before.applied,
                self.acknowledged@ == before.acknowledged@,
                self.waiting@ == before.waiting@,
                forall|j: int|
                    0 <= j < self.entries.len() ==> (#[trigger] self.entries[j]).index == j + 1
                        && self.entries[j].command == before.entries[j].command
                        && self.entries[j].committed == (j < i),
            decreases new_committed_offset - i,
        {
            self.entries[i].committed = true;
            i += 1;
        }
        self.committed = new_committed_offset;
        proof {
            assert(self@.entries =~= before@.entries);
            self.lemma_same_acknowledged(before);
            assert(self@.waiting =~= before@.waiting);
        }
        Ok(())
    }

    /// The acknowledgment kept at `i` is the one of its node.
    proof fn lemma_heard(&self, i: int)
        requires
            self.wf(),
            0 <= i < self.acknowledged.len(),
        ensures
            self@.acknowledged.dom().contains(self.acknowledged[i].node@),
            self@.acknowledged[self.acknowledged[i].node@] == self.acknowledged[i].offset,
            self.place_of(self.acknowledged[i].node@) == i,
    {
        let node = self.acknowledged[i].node@;
        let j = self.place_of(node);
        assert(self.acknowledged[j].node@ == node);
        if i < j {
            assert(self.acknowledged[i].node@ != self.acknowledged[j].node@);
        } else if j < i {
            assert(self.acknowledged[j].node@ != self.acknowledged[i].node@);
        }
    }

    /// The nodes that reach `index` among the kept acknowledgments are the
    /// supporters of `index`.
    proof fn lemma_support(&self, index: nat)
        requires
            self.wf(),
        ensures
            supporters(self@.acknowledged, index) == reaching(self.acknowledged@, index),
            supporters(self@.acknowledged, index).finite(),
            support(self@.acknowledged, index) == tally(self.acknowledged@, index),
            self@.acknowledged.dom() == reaching(self.acknowledged@, 0),
            self@.acknowledged.dom().finite(),
    {
        let kept = self.acknowledged@;
        lemma_tally_counts_nodes(kept, index);
        lemma_tally_counts_nodes(kept, 0);
        assert forall|node: Seq<char>|
            supporters(self@.acknowledged, index).contains(node) == reaching(kept, index).contains(
                node,
            ) by {
            if supporters(self@.acknowledged, index).contains(node) {
                let i = self.place_of(node);
                self.lemma_heard(i);
                assert(kept[i].node@ == node);
            }
            if reaching(kept, index).contains(node) {
                let i = choose|i: int|
                    0 <= i < kept.len() && #[trigger] kept[i].node@ == node && kept[i].offset
                        >= index;
                self.lemma_heard(i);
            }
        }
        assert(supporters(self@.acknowledged, index) =~= reaching(kept, index));
        assert forall|node: Seq<char>|
            self@.acknowledged.dom().contains(node) == reaching(kept, 0).contains(node) by {
            if self@.acknowledged.dom().contains(node) {
                let i = self.place_of(node);
                assert(kept[i].node@ == node);
            }
            if reaching(kept, 0).contains(node) {
                let i = choose|i: int|
                    0 <= i < kept.len() && #[trigger] kept[i].node@ == node && kept[i].offset >= 0;
                self.lemma_heard(i);
            }
        }
        assert(self@.acknowledged.dom() =~= reaching(kept, 0));
    }

    /// What the invariant says of the log's view.
    pub proof fn lemma_consistent(&self)
        requires
            self.wf(),
        ensures
            consistent(self@),
    {
        self.lemma_support(0);
        assert forall|node: Seq<char>| #[trigger]
            self@.acknowledged.dom().contains(node) implies self@.acknowledged[node]
            <= self@.entries.len() by {
            let i = self.place_of(node);
            self.lemma_heard(i);
        }
    }

    /// Number of distinct nodes that have acknowledged `index` or a higher
    /// one.
    pub fn acknowledged_by(&self, index: usize) -> (n: usize)
        requires
            self.wf(),
        ensures
            n == support(self@.acknowledged, index as nat),
    {
        let mut n: usize = 0;
        let mut i: usize = 0;
        while i < self.acknowledged.len()
            invariant
                i <= self.acknowledged.len(),
                n <= i,
                n == tally(self.acknowledged@.take(i as int), index as nat),
            decreases self.acknowledged.len() - i,
        {
            proof {
                assert(self.acknowledged@.take(i + 1).drop_last() =~= self.acknowledged@.take(
                    i as int,
                ));
            }
            if self.acknowledged[i].offset >= index {
                n += 1;
            }
            i += 1;
        }
        proof {
            assert(self.acknowledged@.take(i as int) =~= self.acknowledged@);
            self.lemma_support(index as nat);
        }
        n
    }

    /// Where the acknowledgment of that node is kept, if it has one.
    fn place(&self, node: &String) -> (r: Option<usize>)
        requires
            self.wf(),
        ensures
            match r {
                Some(i) => i < self.acknowledged.len() && self.acknowledged[i as int].node@
                    == node@,
                None => !self@.acknowledged.dom().contains(node@),
            },
    {
        let mut i: usize = 0;
        while i < self.acknowledged.len()
            invariant
                i <= self.acknowledged.len(),
                forall|j: int| 0 <= j < i ==> (#[trigger] self.acknowledged[j]).node@ != node@,
            decreases self.acknowledged.len() - i,
        {
            if self.acknowledged[i].node == *node {
                return Some(i);
            }
            i += 1;
        }
        None
    }

    /// Takes note that `node` holds the entries up to `offset`, in place of
    /// what it said before, and returns the number of distinct nodes that
    /// now hold `offset` or more.
    ///
    /// Fails, and changes nothing, where `offset` is past the tail.
    pub fn persisted(&mut self, offset: usize, node: String) -> (r: Result<usize, LogError>)
        requires
            old(self).wf(),
        ensures
            final(self).wf(),
            r is Err <==> offset > old(self)@.entries.len(),
            r is Err ==> final(self)@ == old(self)@,
            r matches Ok(n) ==> n == support(final(self)@.acknowledged, offset as nat)
                && final(self)@ == (LogView {
                acknowledged: old(self)@.acknowledged.insert(node@, offset as nat),
                ..old(self)@
            }),
            follows(final(self)@, old(self)@),
    {
        if offset > self.entries.len() {
            return Err(LogError::CommitViolation);
        }
        let ghost before = *self;
        match self.place(&node) {
            Some(i) => {
                self.acknowledged[i].offset = offset;
                proof {
                    assert(forall|j: int|
                        0 <= j < self.acknowledged.len() ==> (#[trigger] self.acknowledged[j]).node@
                            == before.acknowledged[j].node@);
                    assert(self.wf());
                    self.lemma_heard(i as int);
                    self.lemma_others_kept(before, node@);
                }
            },
            None => {
                self.acknowledged.push(Acknowledgment { node, offset });
                proof {
                    let last = self.acknowledged.len() - 1;
                    assert forall|j: int| 0 <= j < last implies self.acknowledged[j]
                        == before.acknowledged[j] && (#[trigger] before.acknowledged[j]).node@
                        != node@ by {
                        before.lemma_heard(j);
                    }
                    assert(self.wf());
                    self.lemma_heard(last);
                    self.lemma_others_kept(before, node@);
                }
            },
        }
        proof {
            assert(self@.acknowledged =~= before@.acknowledged.insert(node@, offset as nat));
            assert(self@.entries =~= before@.entries);
            assert(self@.waiting =~= before@.waiting);
        }
        Ok(self.acknowledged_by(offset))
    }

    /// Where two logs keep the same acknowledgments but for one node, they
    /// say the same of every other node.
    proof fn lemma_others_kept(&self, before: JohnReplicationLog, node: Seq<char>)
        requires
            self.wf(),
            before.wf(),
            before.acknowledged.len() <= self.acknowledged.len(),
            forall|j: int|
                0 <= j < before.acknowledged.len() ==> (#[trigger] self.acknowledged[j]).node@
                    == before.acknowledged[j].node@ && (self.acknowledged[j].node@ != node
                    ==> self.acknowledged[j].offset == before.acknowledged[j].offset),
            forall|j: int|
                before.acknowledged.len() <= j < self.acknowledged.len() ==> (
                #[trigger] self.acknowledged[j]).node@ == node,
        ensures
            forall|other: Seq<char>|
                other != node ==> (self@.acknowledged.dom().contains(other)
                    == before@.acknowledged.dom().contains(other)) && (
                #[trigger] self@.acknowledged.dom().contains(other) ==> self@.acknowledged[other]
                    == before@.acknowledged[other]),
    {
        assert forall|other: Seq<char>| other != node implies (self@.acknowledged.dom().contains(
            other,
        ) == before@.acknowledged.dom().contains(other)) && (
        #[trigger] self@.acknowledged.dom().contains(other) ==> self@.acknowledged[other]
            == before@.acknowledged[other]) by {
            if before.heard(other) {
                let j = before.place_of(other);
                assert(self.acknowledged[j].node@ == other);
                self.lemma_heard(j);
                before.lemma_heard(j);
            }
            if self.heard(other) {
                let j = self.place_of(other);
                assert(before.acknowledged[j].node@ == other);
            }
        }
    }

    /// Advances the committed offset to the highest index that at least
    /// `majority_size` distinct nodes have acknowledged, unless the offset
    /// is there already or past it.
    ///
    /// An index above the old offset is committed afterwards if and only if
    /// that many nodes have acknowledged it or a higher one.
    pub fn autocommit_if_safe(&mut self, majority_size: usize)
        requires
            old(self).wf(),
        ensures
            final(self).wf(),
            final(self)@ == (LogView { committed: final(self)@.committed, ..old(self)@ }),
            old(self)@.committed <= final(self)@.committed <= old(self)@.entries.len(),
            forall|i: nat|
                old(self)@.committed < i <= old(self)@.entries.len() ==> (i
                    <= final(self)@.committed <==> #[trigger] support(old(self)@.acknowledged, i)
                    >= majority_size),
            follows(final(self)@, old(self)@),
    {
        let mut i: usize = self.entries.len();
        let mut found: bool = false;
        while i > self.committed && !found
            invariant
                *self == *old(self),
                self.wf(),
                self.committed <= i <= self.entries.len(),
                found ==> support(self@.acknowledged, i as nat) >= majority_size,
                forall|j: nat|
                    i < j <= self.entries.len() ==> #[trigger] support(self@.acknowledged, j)
                        < majority_size,
            decreases i + if found { 0int } else { 1int },
        {
            if self.acknowledged_by(i) >= majority_size {
                found = true;
            } else {
                i -= 1;
            }
        }
        proof {
            self.lemma_consistent();
            assert forall|j: nat| self@.committed < j <= i implies #[trigger] support(
                self@.acknowledged,
                j,
            ) >= majority_size by {
                lemma_support_falls(self@.acknowledged, j, i as nat);
            }
        }
        let _ = self.commit_upto(i);
    }

    /// Cuts the log down to `new_len` entries. No node is then taken to hold
    /// more than is left, and the queries that waited for an entry that is
    /// gone are dropped. A `new_len` at or past the tail cuts nothing.
    ///
    /// Fails, and changes nothing, where committed entries would go.
    pub fn discard_downto(&mut self, new_len: usize) -> (r: Result<(), LogError>)
        requires
            old(self).wf(),
        ensures
            final(self).wf(),
            r is Err <==> new_len < old(self)@.committed,
            r is Err ==> final(self)@ == old(self)@,
            r is Ok ==> final(self)@ == (LogView {
                entries: if new_len < old(self)@.entries.len() {
                    old(self)@.entries.take(new_len as int)
                } else {
                    old(self)@.entries
                },
                acknowledged: clamped(old(self)@.acknowledged, new_len as nat),
                waiting: still_waiting(old(self)@.waiting, new_len as nat),
                ..old(self)@
            }),
            follows(final(self)@, old(self)@),
    {
        if new_len < self.committed {
            return Err(LogError::CommitViolation);
        }
        let ghost before = *self;
        self.entries.truncate(new_len);
        let ghost cut = self.entries@;
        let mut i: usize = 0;
        while i < self.acknowledged.len()
            invariant
                before.wf(),
                i <= self.acknowledged.len() == before.acknowledged.len(),
                self.entries@ == cut,
                forall|j: int|
                    0 <= j < self.acknowledged.len() ==> (#[trigger] self.acknowledged[j]).node@
                        == before.acknowledged[j].node@,
                forall|j: int|
                    0 <= j < i ==> (#[trigger] self.acknowledged[j]).offset == if before.acknowledged[j].offset
                        <= new_len {
                        before.acknowledged[j].offset
                    } else {
                        new_len
                    },
                forall|j: int|
                    i <= j < self.acknowledged.len() ==> (#[trigger] self.acknowledged[j]).offset
                        == before.acknowledged[j].offset,
                self.committed == before.committed,
                self.applied == before.applied,
                self.waiting == before.waiting,
            decreases self.acknowledged.len() - i,
        {
            if self.acknowledged[i].offset > new_len {
                self.acknowledged[i].offset = new_len;
            }
            i += 1;
        }
        let ghost held = self.acknowledged@;
        let mut kept: Vec<PendingQuery> = Vec::new();
        let mut k: usize = 0;
        proof {
            assert(waiting_view(kept@) =~= Seq::<(nat, usize)>::empty());
            assert(waiting_view(self.waiting@.take(0)) =~= Seq::<(nat, usize)>::empty());
        }
        while k < self.waiting.len()
            invariant
                k <= self.waiting.len(),
                self.waiting == before.waiting,
                self.entries@ == cut,
                self.acknowledged@ == held,
                self.committed == before.committed,
                self.applied == before.applied,
                waiting_view(kept@) == still_waiting(
                    waiting_view(self.waiting@.take(k as int)),
                    new_len as nat,
                ),
            decreases self.waiting.len() - k,
        {
            let query = self.waiting[k];
            proof {
                let seen = waiting_view(self.waiting@.take(k + 1));
                assert(seen.drop_last() =~= waiting_view(self.waiting@.take(k as int)));
                assert(seen.last() == (query.index as nat, query.respond_to));
            }
            if query.index <= new_len {
                let ghost earlier = kept@;
                kept.push(query);
                proof {
                    assert(waiting_view(kept@) =~= waiting_view(earlier).push(
                        (query.index as nat, query.respond_to),
                    ));
                }
            }
            k += 1;
        }
        proof {
            assert(self.waiting@.take(k as int) =~= self.waiting@);
            lemma_kept_waited(before@.waiting, new_len as nat);
        }
        self.waiting = kept;
        proof {
            assert forall|j: int| 0 <= j < self.waiting.len() implies self.applied < (
            #[trigger] self.waiting[j]).index <= self.entries.len() by {
                let query = self@.waiting[j];
                let m = choose|m: int| 0 <= m < before@.waiting.len() && before@.waiting[m] == query;
                assert(before.waiting[m].index == query.0);
            }
            assert(self.wf());
            assert(self@.entries =~= if new_len < before@.entries.len() {
                before@.entries.take(new_len as int)
            } else {
                before@.entries
            });
            assert forall|node: Seq<char>|
                self@.acknowledged.dom().contains(node) == before@.acknowledged.dom().contains(
                    node,
                ) && (self@.acknowledged.dom().contains(node) ==> self@.acknowledged[node]
                    == clamped(before@.acknowledged, new_len as nat)[node]) by {
                if before.heard(node) {
                    let j = before.place_of(node);
                    assert(self.acknowledged[j].node@ == node);
                    self.lemma_heard(j);
                    before.lemma_heard(j);
                }
                if self.heard(node) {
                    let j = self.place_of(node);
                    assert(before.acknowledged[j].node@ == node);
                }
            }
            assert(self@.acknowledged =~= clamped(before@.acknowledged, new_len as nat));
            assert(self@.entries.take(before@.committed as int) =~= before@.entries.take(
                before@.committed as int,
            ));
        }
        Ok(())
    }

    /// Lets `query` wait for its answer, which is to go to `respond_to`.
    ///
    /// The query waits for the last entry that holds its command and is not
    /// applied yet, and the index of that entry is returned. Where there is
    /// no such entry the query is dropped and nothing changes.
    pub fn query_persistance(&mut self, query: JohnQuery, respond_to: usize) -> (r: Option<usize>)
        requires
            old(self).wf(),
        ensures
            final(self).wf(),
            match r {
                Some(index) => awaited(old(self)@, query.asks()) == Some(index as nat)
                    && final(self)@ == (LogView {
                    waiting: old(self)@.waiting.push((index as nat, respond_to)),
                    ..old(self)@
                }),
                None => awaited(old(self)@, query.asks()) is None && final(self)@ == old(self)@,
            },
            follows(final(self)@, old(self)@),
    {
        let ghost before = *self;
        let command = query.command();
        let mut i: usize = self.entries.len();
        let mut found: bool = false;
        proof {
            assert(self@.entries.take(i as int) =~= self@.entries);
        }
        while i > self.applied && !found
            invariant
                *self == before,
                self.wf(),
                self.applied <= i <= self.entries.len(),
                command@ == query.asks(),
                found ==> i > self.applied && self@.entries[i - 1] == command@,
                awaited(self@, command@) == awaited(
                    LogView { entries: self@.entries.take(i as int), ..self@ },
                    command@,
                ),
            decreases i + if found { 0int } else { 1int },
        {
            if self.entries[i - 1].command.same(&command) {
                found = true;
            } else {
                proof {
                    assert(self@.entries.take(i as int).drop_last() =~= self@.entries.take(i - 1));
                }
                i -= 1;
            }
        }
        proof {
            assert(self@.entries.take(self.entries.len() as int) =~= self@.entries);
        }
        if found {
            self.waiting.push(PendingQuery { index: i, respond_to });
            proof {
                assert(self@.entries =~= before@.entries);
                self.lemma_same_acknowledged(before);
                assert(self@.waiting =~= before@.waiting.push((i as nat, respond_to)));
            }
            Some(i)
        } else {
            None
        }
    }

    /// Applies the next committed entry to the rivers, if there is one and
    /// the rivers can take it, and hands out its response with the queries
    /// that waited for it. Else nothing changes.
    pub fn apply_next(&mut self, rivers: &mut Rivers) -> (r: Option<Applied>)
        requires
            old(self).wf(),
            old(rivers).wf(),
        ensures
            final(self).wf(),
            final(rivers).wf(),
            r is Some <==> can_apply(old(self)@, old(rivers)@),
            match r {
                Some(handed) => {
                    &&& handed@ == next_applied(old(self)@, old(rivers)@)
                    &&& final(self)@ == after_apply(old(self)@)
                    &&& final(rivers)@ == effect(
                        old(rivers)@,
                        old(self)@.entries[old(self)@.applied as int],
                    )
                },
                None => final(self)@ == old(self)@ && final(rivers)@ == old(rivers)@,
            },
            follows(final(self)@, old(self)@),
    {
        if self.applied >= self.committed {
            return None;
        }
        let ghost before = *self;
        let index: usize = self.applied + 1;
        match apply(rivers, &self.entries[self.applied].command) {
            Ok(response) => {
                let mut respond_to: Vec<usize> = Vec::new();
                let mut kept: Vec<PendingQuery> = Vec::new();
                let mut k: usize = 0;
                while k < self.waiting.len()
                    invariant
                        k <= self.waiting.len(),
                        *self == before,
                        respond_to@ == answered(
                            waiting_view(self.waiting@.take(k as int)),
                            index as nat,
                        ),
                        waiting_view(kept@) == unanswered(
                            waiting_view(self.waiting@.take(k as int)),
                            index as nat,
                        ),
                    decreases self.waiting.len() - k,
                {
                    let query = self.waiting[k];
                    proof {
                        let seen = waiting_view(self.waiting@.take(k + 1));
                        assert(seen.drop_last() =~= waiting_view(self.waiting@.take(k as int)));
                        assert(seen.last() == (query.index as nat, query.respond_to));
                    }
                    if query.index == index {
                        respond_to.push(query.respond_to);
                    } else {
                        let ghost earlier = kept@;
                        kept.push(query);
                        proof {
                            assert(waiting_view(kept@) =~= waiting_view(earlier).push(
                                (query.index as nat, query.respond_to),
                            ));
                        }
                    }
                    k += 1;
                }
                proof {
                    assert(self.waiting@.take(k as int) =~= self.waiting@);
                    lemma_kept_waited(before@.waiting, index as nat);
                }
                self.waiting = kept;
                self.applied = index;
                proof {
                    assert forall|j: int| 0 <= j < self.waiting.len() implies self.applied < (
                    #[trigger] self.waiting[j]).index <= self.entries.len() by {
                        let query = self@.waiting[j];
                        let m = choose|m: int|
                            0 <= m < before@.waiting.len() && before@.waiting[m] == query;
                        assert(before.waiting[m].index == query.0);
                    }
                    assert(self.wf());
                    assert(self@.entries =~= before@.entries);
                    self.lemma_same_acknowledged(before);
                }
                Some(Applied { index, response, respond_to })
            },
            Err(_) => None,
        }
    }

    /// Applies the committed entries that are not applied yet to the rivers,
    /// in the order of their indexes, and hands out for each its response
    /// with the queries that waited for it. Stops at the first entry that
    /// the rivers cannot take, which stays to be applied later.
    pub fn apply_committed(&mut self, rivers: &mut Rivers) -> (handed: Vec<Applied>)
        requires
            old(self).wf(),
            old(rivers).wf(),
        ensures
            final(self).wf(),
            final(rivers).wf(),
            (final(self)@, final(rivers)@, applied_views(handed@)) == run(
                old(self)@,
                old(rivers)@,
            ),
            follows(final(self)@, old(self)@),
    {
        let mut handed: Vec<Applied> = Vec::new();
        let mut more: bool = true;
        proof {
            assert(applied_views(handed@) =~= Seq::<AppliedView>::empty());
            assert(applied_views(handed@) + run(self@, rivers@).2 =~= run(self@, rivers@).2);
            old(self).lemma_follows_itself();
        }
        while more
            invariant
                self.wf(),
                rivers.wf(),
                follows(self@, old(self)@),
                more ==> run(old(self)@, old(rivers)@) == (
                    run(self@, rivers@).0,
                    run(self@, rivers@).1,
                    applied_views(handed@) + run(self@, rivers@).2,
                ),
                !more ==> run(old(self)@, old(rivers)@) == (self@, rivers@, applied_views(handed@)),
            decreases
                    if more {
                        1 + self@.committed - self@.applied
                    } else {
                        0
                    },
        {
            let ghost log = self@;
            let ghost files = rivers@;
            let ghost seen = applied_views(handed@);
            proof {
                self.lemma_consistent();
            }
            match self.apply_next(rivers) {
                Some(next) => {
                    handed.push(next);
                    proof {
                        assert(applied_views(handed@) =~= seen.push(next@));
                        assert(seen + (seq![next@] + run(self@, rivers@).2) =~= seen.push(next@)
                            + run(self@, rivers@).2);
                        lemma_follows_chain(self@, log, old(self)@);
                    }
                },
                None => {
                    more = false;
                    proof {
                        assert(seen + Seq::<AppliedView>::empty() =~= seen);
                    }
                },
            }
        }
        handed
    }

    /// A log follows itself.
    pub proof fn lemma_follows_itself(&self)
        requires
            self.wf(),
        ensures
            follows(self@, self@),
    {
    }

    /// Logs that keep the same acknowledgments stand for the same ones.
    proof fn lemma_same_acknowledged(&self, other: JohnReplicationLog)
        requires
            self.acknowledged@ == other.acknowledged@,
        ensures
            self@.acknowledged == other@.acknowledged,
    {
        assert forall|node: Seq<char>| self.heard(node) == other.heard(node) by {
            if self.heard(node) {
                let i = self.place_of(node);
                assert(other.acknowledged[i].node@ == node);
            }
            if other.heard(node) {
                let i = other.place_of(node);
                assert(self.acknowledged[i].node@ == node);
            }
        }
        assert forall|node: Seq<char>| self.place_of(node) == other.place_of(node) by {
            assert(forall|i: int|
                (0 <= i < self.acknowledged.len() && #[trigger] self.acknowledged[i].node@ == node)
                    == (0 <= i < other.acknowledged.len() && #[trigger] other.acknowledged[i].node@
                    == node));
        }
        assert(self@.acknowledged =~= other@.acknowledged);
    }
}

} // verus!
