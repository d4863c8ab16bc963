//! What is done to directories at the end of an extraction.

use vstd::prelude::*;

use crate::deferred::{
    first_stage, has_task, restore_ask, restore_error, tasks_after, DeferredView, RestoreAsk,
    RestoreFacts, RestoreStage, TasksView,
};
use crate::error::Error;
use crate::extract::{Answer, FileKind};
use crate::unpack::{restore_facts, UnpackerView};

verus! {

/// Something that was asked of a directory and answered.
pub struct RestoreEvent {
    /// The number of the directory.
    pub directory: int,
    /// What was asked.
    pub ask: RestoreAsk,
    /// The answer.
    pub answer: Answer,
}

/// Whether the restoring of metadata has just begun.
pub open spec fn has_begun(tasks: TasksView) -> bool {
    match first_stage(tasks.facts) {
        Some(first) => tasks.at == 0 && tasks.stage == first,
        None => tasks.at == tasks.list.len(),
    }
}

/// Where the restoring of metadata stands after these events, in this order, if
/// they can happen in this order at all and none of them ended it.
pub open spec fn restored(begin: TasksView, events: Seq<RestoreEvent>) -> Option<TasksView>
    decreases events.len(),
{
    if events.len() == 0 {
        Some(begin)
    } else {
        let last = events.last();
        match restored(begin, events.drop_last()) {
            Some(tasks) => if has_task(tasks) && last.directory == tasks.at && last.ask
                == restore_ask(tasks.list[tasks.at], tasks.stage) && restore_error(
                tasks.list[tasks.at],
                tasks.stage,
                last.answer,
            ) is None {
                Some(tasks_after(tasks))
            } else {
                None
            },
            None => None,
        }
    }
}

/// Whether something was asked of a directory.
pub open spec fn was_asked(events: Seq<RestoreEvent>, directory: int, ask: RestoreAsk) -> bool {
    exists|k: int|
        0 <= k < events.len() && (#[trigger] events[k]).directory == directory && events[k].ask
            == ask
}

/// Whether a directory was seen to be the one that was extracted.
pub open spec fn was_seen(events: Seq<RestoreEvent>, directory: int, d: DeferredView) -> bool {
    exists|k: int|
        0 <= k < events.len() && (#[trigger] events[k]).directory == directory && events[k].ask
            is Stat && events[k].answer == Answer::Found(FileKind::Directory, d.id)
}

/// Whether permission bits are restored: only Unix has them.
pub open spec fn restores_modes(f: RestoreFacts) -> bool {
    f.permissions && f.platform is Unix
}

/// Whether what is asked of a directory is what is restored of it.
pub open spec fn fits_directory(f: RestoreFacts, d: DeferredView, ask: RestoreAsk) -> bool {
    match ask {
        RestoreAsk::Stat => f.platform is Unix,
        RestoreAsk::SetMode(mode) => restores_modes(f) && mode == d.mode % 4096,
        RestoreAsk::SetMtime(mtime) => f.mtime && mtime == d.mtime,
    }
}

/// Whether a directory was given all that is restored of it.
pub open spec fn was_served(
    f: RestoreFacts,
    events: Seq<RestoreEvent>,
    i: int,
    d: DeferredView,
) -> bool {
    &&& restores_modes(f) ==> was_asked(events, i, RestoreAsk::SetMode((d.mode % 4096) as u32))
    &&& f.mtime ==> was_asked(events, i, RestoreAsk::SetMtime(d.mtime))
    &&& f.platform is Unix && (f.permissions || f.mtime) ==> was_seen(events, i, d)
}

/// What holds of the restoring of metadata at any time.
spec fn holds_now(begin: TasksView, events: Seq<RestoreEvent>, tasks: TasksView) -> bool {
    let f = begin.facts;
    &&& tasks.facts == f
    &&& tasks.list == begin.list
    &&& 0 <= tasks.at <= tasks.list.len()
    &&& first_stage(f) is Some ==> forall|i: int|
        0 <= i < tasks.at ==> was_served(f, events, i, #[trigger] tasks.list[i])
    &&& has_task(tasks) ==> first_stage(f) is Some && match tasks.stage {
        RestoreStage::Looking => f.platform is Unix,
        RestoreStage::Mode => restores_modes(f) && was_seen(
            events,
            tasks.at,
            tasks.list[tasks.at],
        ),
        RestoreStage::Mtime => {
            &&& f.mtime
            &&& restores_modes(f) ==> was_asked(
                events,
                tasks.at,
                RestoreAsk::SetMode((tasks.list[tasks.at].mode % 4096) as u32),
            )
            &&& f.platform is Unix ==> was_seen(events, tasks.at, tasks.list[tasks.at])
        },
    }
    &&& forall|k: int|
        0 <= k < events.len() ==> 0 <= (#[trigger] events[k]).directory < begin.list.len()
            && fits_directory(f, begin.list[events[k].directory], events[k].ask)
}

/// What was asked stays asked.
proof fn lemma_stays(events: Seq<RestoreEvent>)
    requires
        events.len() > 0,
    ensures
        was_asked(events, events.last().directory, events.last().ask),
        forall|i: int, ask: RestoreAsk|
            was_asked(events.drop_last(), i, ask) ==> #[trigger] was_asked(events, i, ask),
        forall|i: int, d: DeferredView|
            was_seen(events.drop_last(), i, d) ==> #[trigger] was_seen(events, i, d),
{
    let front = events.drop_last();
    assert(events[events.len() - 1] == events.last());
    assert forall|i: int, ask: RestoreAsk| was_asked(front, i, ask) implies #[trigger] was_asked(
        events,
        i,
        ask,
    ) by {
        let k = choose|k: int|
            0 <= k < front.len() && (#[trigger] front[k]).directory == i && front[k].ask == ask;
        assert(events[k] == front[k]);
    }
    assert forall|i: int, d: DeferredView| was_seen(front, i, d) implies #[trigger] was_seen(
        events,
        i,
        d,
    ) by {
        let k = choose|k: int|
            0 <= k < front.len() && (#[trigger] front[k]).directory == i && front[k].ask is Stat
                && front[k].answer == Answer::Found(FileKind::Directory, d.id);
        assert(events[k] == front[k]);
    }
}

/// What holds at any time holds after all events.
proof fn lemma_restored(begin: TasksView, events: Seq<RestoreEvent>)
    requires
        has_begun(begin),
    ensures
        restored(begin, events) matches Some(tasks) ==> holds_now(begin, events, tasks),
    decreases events.len(),
{
    if events.len() > 0 {
        let front = events.drop_last();
        let last = events.last();
        lemma_restored(begin, front);
        lemma_stays(events);
        if let Some(tasks) = restored(begin, front) {
            if let Some(then) = restored(begin, events) {
                let f = begin.facts;
                let d = tasks.list[tasks.at];
                let mode = d.mode;
                assert(mode & 0o7777 == mode % 4096) by (bit_vector);
                if tasks.stage is Looking {
                    assert(events[events.len() - 1] == last);
                    assert(was_seen(events, tasks.at, d));
                }
                assert forall|i: int| 0 <= i < then.at && first_stage(f) is Some implies was_served(
                    f,
                    events,
                    i,
                    #[trigger] then.list[i],
                ) by {
                    if i < tasks.at {
                        assert(was_served(f, front, i, tasks.list[i]));
                    }
                }
                assert forall|k: int| 0 <= k < events.len() implies 0 <= (
                #[trigger] events[k]).directory < begin.list.len() && fits_directory(
                    f,
                    begin.list[events[k].directory],
                    events[k].ask,
                ) by {
                    if k < front.len() {
                        assert(events[k] == front[k]);
                    }
                }
            }
        }
    }
}

/// What is restored, and of which directories, stays the same.
pub proof fn lemma_restored_keeps(begin: TasksView, events: Seq<RestoreEvent>)
    requires
        has_begun(begin),
    ensures
        restored(begin, events) matches Some(tasks) ==> tasks.facts == begin.facts && tasks.list
            == begin.list,
{
    lemma_restored(begin, events);
}

/// At the end of an extraction permission bits are set only on Unix and only if
/// they are to be restored, modification times only if they are to be restored,
/// and each with the value of the directory; and when all went well, each
/// directory was given all that is to be restored, after it was seen to be the
/// one that was extracted where that can be told.
pub proof fn law_directories_get_what_is_restored(begin: TasksView, events: Seq<RestoreEvent>)
    requires
        has_begun(begin),
        restored(begin, events) is Some,
    ensures
        forall|k: int|
            0 <= k < events.len() ==> 0 <= (#[trigger] events[k]).directory < begin.list.len()
                && fits_directory(
                begin.facts,
                begin.list[events[k].directory],
                events[k].ask,
            ),
        restored(begin, events) matches Some(tasks) ==> if has_task(tasks) {
            fits_directory(
                begin.facts,
                begin.list[tasks.at],
                restore_ask(tasks.list[tasks.at], tasks.stage),
            )
        } else {
            forall|i: int|
                0 <= i < begin.list.len() ==> was_served(
                    begin.facts,
                    events,
                    i,
                    #[trigger] begin.list[i],
                )
        },
{
    lemma_restored(begin, events);
    if let Some(tasks) = restored(begin, events) {
        if has_task(tasks) {
            let mode = tasks.list[tasks.at].mode;
            assert(mode & 0o7777 == mode % 4096) by (bit_vector);
        }
        if !has_task(tasks) && first_stage(begin.facts) is None {
            assert forall|i: int| 0 <= i < begin.list.len() implies was_served(
                begin.facts,
                events,
                i,
                #[trigger] begin.list[i],
            ) by {}
        }
    }
}

/// Metadata is given to a directory only when it was seen to be the one that was
/// extracted, where that can be told.
pub proof fn law_only_extracted_directories_are_changed(
    begin: TasksView,
    events: Seq<RestoreEvent>,
    tasks: TasksView,
)
    requires
        has_begun(begin),
        restored(begin, events) == Some(tasks),
        has_task(tasks),
        begin.facts.platform is Unix,
        !(restore_ask(tasks.list[tasks.at], tasks.stage) is Stat),
    ensures
        was_seen(events, tasks.at, tasks.list[tasks.at]),
{
    lemma_restored(begin, events);
}

/// An answer lets the restoring of metadata go on exactly if what was asked was
/// done, or the directory that was extracted was found; any other one ends it.
pub proof fn law_answers_that_restoring_accepts(
    d: DeferredView,
    stage: RestoreStage,
    answer: Answer,
)
    ensures
        restore_error(d, stage, answer) is None <==> match restore_ask(d, stage) {
            RestoreAsk::Stat => answer == Answer::Found(FileKind::Directory, d.id),
            _ => answer is Done,
        },
        answer matches Answer::Failed(_, error) ==> restore_error(d, stage, answer) == Some(
            Error::Io(error),
        ),
        answer matches Answer::Missing(error) ==> restore_error(d, stage, answer) == Some(
            Error::Io(error),
        ),
{
}

/// What is restored of directories is what the options say.
pub proof fn law_restoring_follows_the_options(unpacker: UnpackerView)
    ensures
        restore_facts(unpacker).permissions == unpacker.options.preserve_permissions,
        restore_facts(unpacker).mtime == unpacker.options.preserve_mtime,
        restore_facts(unpacker).platform == unpacker.platform,
{
}

} // verus!
