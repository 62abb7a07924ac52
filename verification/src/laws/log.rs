//! What holds of every log, whatever was done to it.

use vstd::prelude::*;
use crate::laws::river::{filled, first_line, fits, law_peek_latest, lemma_filled_len};
use crate::layout::{slot_count, MESSAGE_SIZE};
use crate::raft::{applies, effect, outcome, CommandView, ResponseView};
use crate::replication::{
    after_apply, can_apply, consistent, follows, lemma_support_falls, next_applied, run, support,
    supporters, LogView,
};
use crate::river::PeekView;
use crate::rivers::content;

verus! {

/// Commit monotonicity: in a log that follows another, however many steps
/// lie between them, the committed offset is no lower, it does not exceed
/// the tail, and what was committed is still there.
pub proof fn law_commit_never_goes_back(later: LogView, earlier: LogView, index: int)
    requires
        consistent(earlier),
        follows(later, earlier),
        1 <= index <= earlier.committed,
    ensures
        earlier.committed <= later.committed <= later.entries.len(),
        index <= later.entries.len(),
        later.entries[index - 1] == earlier.entries[index - 1],
{
    assert(later.entries.take(earlier.committed as int)[index - 1] == later.entries[index - 1]);
    assert(earlier.entries.take(earlier.committed as int)[index - 1] == earlier.entries[index
        - 1]);
}

/// Majority commit, the side that keeps a commit safe: at most as many
/// nodes have acknowledged an index as have acknowledged at all, so no
/// index reaches a majority that is larger than the number of nodes heard
/// from.
pub proof fn law_support_bounded(log: LogView, index: nat)
    requires
        consistent(log),
    ensures
        support(log.acknowledged, index) <= log.acknowledged.dom().len(),
        index > log.entries.len() ==> support(log.acknowledged, index) == 0,
{
    lemma_support_falls(log.acknowledged, index, index);
    if index > log.entries.len() {
        assert(supporters(log.acknowledged, index) =~= Set::<
            Seq<char>,
        >::empty());
    }
}

/// Ordering: the committed entries are applied in the order of their
/// indexes, each once, starting after the last one applied. Nothing but the
/// applied offset and the waiting queries changes in the log, and the run
/// stops before the committed offset only at an entry that the stores cannot
/// take.
pub proof fn law_applied_in_order(log: LogView, files: Map<Seq<char>, Seq<u8>>)
    requires
        log.applied <= log.committed <= log.entries.len(),
    ensures
        ({
            let (after, stores, handed) = run(log, files);
            &&& after.applied == log.applied + handed.len()
            &&& after.applied <= log.committed
            &&& after.entries == log.entries
            &&& after.committed == log.committed
            &&& after.acknowledged == log.acknowledged
            &&& forall|i: int|
                0 <= i < handed.len() ==> (#[trigger] handed[i]).index == log.applied + 1 + i
            &&& after.applied < after.committed ==> !applies(
                stores,
                log.entries[after.applied as int],
            )
        }),
    decreases log.committed - log.applied,
{
    if can_apply(log, files) {
        let next = after_apply(log);
        let stores = effect(files, log.entries[log.applied as int]);
        law_applied_in_order(next, stores);
        let rest = run(next, stores);
        let handed = run(log, files).2;
        assert(handed =~= seq![next_applied(log, files)] + rest.2);
        assert forall|i: int| 0 <= i < handed.len() implies (#[trigger] handed[i]).index
            == log.applied + 1 + i by {
            if i > 0 {
                assert(handed[i] == rest.2[i - 1]);
            }
        }
    }
}

/// The stores after the commands were applied in order.
pub open spec fn effect_all(files: Map<Seq<char>, Seq<u8>>, commands: Seq<CommandView>) -> Map<
    Seq<char>,
    Seq<u8>,
>
    decreases commands.len(),
{
    if commands.len() == 0 {
        files
    } else {
        effect_all(effect(files, commands[0]), commands.drop_first())
    }
}

/// Whether the stores can take each of the commands when its turn comes.
pub open spec fn all_apply(files: Map<Seq<char>, Seq<u8>>, commands: Seq<CommandView>) -> bool
    decreases commands.len(),
{
    commands.len() == 0 || (applies(files, commands[0]) && all_apply(
        effect(files, commands[0]),
        commands.drop_first(),
    ))
}

/// The commands of the entries that are committed and not applied yet.
pub open spec fn due(log: LogView) -> Seq<CommandView> {
    log.entries.subrange(log.applied as int, log.committed as int)
}

/// Where the stores can take every command that is due, all of them are
/// applied: each is answered from the stores as the commands before it
/// left them.
pub proof fn law_run_applies_all(log: LogView, files: Map<Seq<char>, Seq<u8>>)
    requires
        log.applied <= log.committed <= log.entries.len(),
        all_apply(files, due(log)),
    ensures
        run(log, files).0.applied == log.committed,
        run(log, files).1 == effect_all(files, due(log)),
        run(log, files).2.len() == due(log).len(),
        forall|i: int|
            0 <= i < due(log).len() ==> (#[trigger] run(log, files).2[i]).response == outcome(
                effect_all(files, due(log).take(i)),
                due(log)[i],
            ),
    decreases log.committed - log.applied,
{
    let commands = due(log);
    if log.applied < log.committed {
        let next = after_apply(log);
        let stores = effect(files, commands[0]);
        assert(commands[0] == log.entries[log.applied as int]);
        assert(due(next) =~= commands.drop_first());
        law_run_applies_all(next, stores);
        let handed = run(log, files).2;
        let rest = run(next, stores).2;
        assert(handed =~= seq![next_applied(log, files)] + rest);
        assert forall|i: int| 0 <= i < commands.len() implies (#[trigger] handed[i]).response
            == outcome(effect_all(files, commands.take(i)), commands[i]) by {
            if i == 0 {
                assert(commands.take(0) =~= Seq::<CommandView>::empty());
            } else {
                assert(handed[i] == rest[i - 1]);
                assert(commands.take(i).drop_first() =~= commands.drop_first().take(i - 1));
                assert(commands.take(i)[0] == commands[0]);
            }
        }
    }
}

/// Pushes of messages that fit, to a river that holds what earlier pushes
/// left in it, can all be applied as long as the slots stay within the
/// largest store, and leave in the river what all the pushes in a row
/// leave in an empty one.
pub proof fn lemma_pushes_fill(
    files: Map<Seq<char>, Seq<u8>>,
    river: Seq<char>,
    earlier: Seq<Seq<char>>,
    messages: Seq<Seq<char>>,
    pushes: Seq<CommandView>,
)
    requires
        pushes.len() == messages.len(),
        forall|i: int|
            0 <= i < messages.len() ==> fits(#[trigger] messages[i]) && pushes[i]
                == CommandView::Push(river, messages[i]),
        forall|i: int| 0 <= i < earlier.len() ==> fits(#[trigger] earlier[i]),
        content(files, river) == filled(earlier),
        (earlier.len() + messages.len()) * MESSAGE_SIZE <= usize::MAX,
    ensures
        all_apply(files, pushes),
        content(effect_all(files, pushes), river) == filled(earlier + messages),
    decreases messages.len(),
{
    if messages.len() == 0 {
        assert(earlier + messages =~= earlier);
    } else {
        lemma_filled_len(earlier);
        assert(fits(messages[0]));
        assert((slot_count(filled(earlier).len()) + 1) * MESSAGE_SIZE <= usize::MAX)
            by (nonlinear_arith)
            requires
                slot_count(filled(earlier).len()) == earlier.len(),
                (earlier.len() + messages.len()) * MESSAGE_SIZE <= usize::MAX,
                messages.len() >= 1,
        ;
        assert(applies(files, pushes[0]));
        let stores = effect(files, pushes[0]);
        let longer = earlier.push(messages[0]);
        let rest = messages.drop_first();
        assert(longer.drop_last() =~= earlier);
        assert(content(stores, river) == filled(longer));
        assert forall|i: int| 0 <= i < longer.len() implies fits(#[trigger] longer[i]) by {
            if i < earlier.len() {
                assert(longer[i] == earlier[i]);
            }
        }
        assert forall|i: int| 0 <= i < rest.len() implies fits(#[trigger] rest[i])
            && pushes.drop_first()[i] == CommandView::Push(river, rest[i]) by {
            assert(rest[i] == messages[i + 1]);
        }
        lemma_pushes_fill(stores, river, longer, rest, pushes.drop_first());
        assert(longer + rest =~= earlier + messages);
    }
}

/// A peek that is committed after pushes sees them: where the commands that
/// are due are pushes of messages that fit, to a river that holds nothing,
/// and then a peek at the river's latest message, the peek is answered with
/// the first line of the last message pushed and the number of messages
/// plus one, as long as the slots stay within the largest store and the
/// last one's position fits in `i64`.
pub proof fn law_peek_sees_committed_pushes(
    log: LogView,
    files: Map<Seq<char>, Seq<u8>>,
    river: Seq<char>,
    messages: Seq<Seq<char>>,
)
    requires
        log.applied <= log.committed <= log.entries.len(),
        due(log).len() == messages.len() + 1,
        messages.len() > 0,
        forall|i: int|
            0 <= i < messages.len() ==> fits(#[trigger] messages[i]) && due(log)[i]
                == CommandView::Push(river, messages[i]),
        due(log).last() == CommandView::Peek(river, None),
        content(files, river) == Seq::<u8>::empty(),
        messages.len() * MESSAGE_SIZE <= usize::MAX,
        (messages.len() - 1) * MESSAGE_SIZE <= i64::MAX,
    ensures
        run(log, files).2.len() == messages.len() + 1,
        run(log, files).2.last().response == ResponseView::PeekResponse(
            Some(PeekView { message: first_line(messages.last()), offset: messages.len() + 1 }),
        ),
{
    let commands = due(log);
    let pushes = commands.drop_last();
    let none = Seq::<Seq<char>>::empty();
    assert(filled(none) =~= Seq::<u8>::empty());
    lemma_pushes_fill(files, river, none, messages, pushes);
    assert(none + messages =~= messages);
    assert(content(effect_all(files, pushes), river) == filled(messages));
    lemma_all_apply_then(files, pushes, commands.last());
    assert(pushes.push(commands.last()) =~= commands);
    law_run_applies_all(log, files);
    assert(commands.take(commands.len() - 1) =~= pushes);
    law_peek_latest(messages);
}

/// Where the stores can take the commands and then one more, they can take
/// all of them in a row.
pub proof fn lemma_all_apply_then(
    files: Map<Seq<char>, Seq<u8>>,
    commands: Seq<CommandView>,
    last: CommandView,
)
    requires
        all_apply(files, commands),
        applies(effect_all(files, commands), last),
    ensures
        all_apply(files, commands.push(last)),
        effect_all(files, commands.push(last)) == effect(effect_all(files, commands), last),
    decreases commands.len(),
{
    let longer = commands.push(last);
    if commands.len() == 0 {
        assert(longer.drop_first() =~= Seq::<CommandView>::empty());
        assert(longer[0] == last);
        assert(effect_all(effect(files, last), longer.drop_first()) == effect(files, last));
        assert(all_apply(effect(files, last), longer.drop_first()));
        assert(effect_all(files, commands) == files);
    } else {
        assert(longer.drop_first() =~= commands.drop_first().push(last));
        assert(longer[0] == commands[0]);
        lemma_all_apply_then(effect(files, commands[0]), commands.drop_first(), last);
    }
}

} // verus!
