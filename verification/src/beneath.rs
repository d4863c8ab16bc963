//! Everything that an extraction touches lies beneath the destination.

use vstd::prelude::*;

use crate::accounting::Run;
use crate::archive::{finds, Entry, EntryView};
use crate::deferred::{is_latest, serves, DeferredView};
use crate::error::Error;
use crate::extract::{
    advance, ask_of, lemma_stage_fits, parent_count, reply_of, stage_fits, Answer, Ask, Facts,
    FileKind, Place, Reply, Stage, Turn,
};
use crate::path::{is_normal, Platform};
use crate::safety::safe_parents;
use crate::unpack::{
    consumes, job_after, job_is_beneath, noted, place_path, put_off, turn_of, verdict_of, JobView,
    SummaryView, UnpackerView,
};
use crate::unpacking::{PhaseView, Request, UnpackingView};

verus! {

/// What stands beneath the destination, by its path. The destination itself is
/// the empty path.
pub type Tree = Map<Seq<Seq<u8>>, FileKind>;

/// Whether a directory stands at a path, and no symbolic link.
pub open spec fn is_directory(tree: Tree, path: Seq<Seq<u8>>) -> bool {
    path.len() == 0 || (tree.contains_key(path) && tree[path] is Directory)
}

/// Whether a path leads to a place beneath the destination: its parts are plain
/// names, and all above it are directories, so that no symbolic link leads it
/// elsewhere.
pub open spec fn lies_beneath(platform: Platform, tree: Tree, path: Seq<Seq<u8>>) -> bool {
    &&& path.len() > 0
    &&& forall|i: int| 0 <= i < path.len() ==> is_normal(platform, #[trigger] path[i])
    &&& forall|i: int| 0 <= i < path.len() ==> is_directory(tree, #[trigger] path.take(i))
}

/// Whether a path is that of a name in the directory of the output, the output
/// among them.
pub open spec fn is_beside(job: JobView, path: Seq<Seq<u8>>) -> bool {
    &&& path.len() == job.components.len()
    &&& path.len() > 0
    &&& path.drop_last() == job.components.drop_last()
    &&& is_normal(job.facts.platform, path.last())
}

/// Whether something that is asked for an entry creates, replaces or removes what
/// stands at a path, or gives it other contents, permission bits or another time.
pub open spec fn ask_touches(job: JobView, ask: Ask, path: Seq<Seq<u8>>) -> bool {
    match ask {
        Ask::CreateDir(place) => path == place_path(job, place),
        Ask::CreateDirAll
        | Ask::RemoveFile
        | Ask::CreateNew
        | Ask::SetLen(_)
        | Ask::Fill
        | Ask::SetMode(_)
        | Ask::SetMtime(_) => path == job.components,
        Ask::Link(Place::Output) => path == job.components,
        Ask::Link(_) | Ask::Rename(_) | Ask::DropTemporary(_) => is_beside(job, path),
        _ => false,
    }
}

/// Whether a request of an extraction touches what stands at a path.
pub open spec fn touches(view: UnpackingView, request: Request, path: Seq<Seq<u8>>) -> bool {
    match (view.phase, request) {
        (PhaseView::Entry(_, job, _), Request::Entry(ask)) => ask_touches(job, ask, path),
        (PhaseView::Entry(_, job, _), Request::Write(_)) => path == job.components,
        (PhaseView::Directories(tasks), Request::Restore(ask)) => !(ask is Stat) && path
            == tasks.list[tasks.at].components,
        _ => false,
    }
}

/// Whether a file system did what an extraction asked, as it answers, and nothing
/// else was done meanwhile: what is not touched stays as it is, a directory is
/// not lost, since none of the operations removes one, and what is said to stand
/// beneath the destination or to be made there is there.
pub open spec fn obeys(
    view: UnpackingView,
    request: Request,
    tree: Tree,
    answer: Answer,
    then: Tree,
) -> bool {
    &&& forall|path: Seq<Seq<u8>>|
        !touches(view, request, path) ==> (then.contains_key(path) == #[trigger] tree.contains_key(
            path,
        )) && (tree.contains_key(path) ==> then[path] == tree[path])
    &&& forall|path: Seq<Seq<u8>>|
        is_directory(tree, path) ==> #[trigger] is_directory(then, path)
    &&& match (view.phase, request) {
        (PhaseView::Entry(_, job, _), Request::Entry(Ask::Stat(place))) => {
            let path = place_path(job, place);
            lies_beneath(job.facts.platform, tree, path) ==> (answer matches Answer::Found(kind, _)
                ==> tree.contains_key(path) && tree[path] == kind)
        },
        (PhaseView::Entry(_, job, _), Request::Entry(Ask::CreateDir(place))) => answer is Done
            ==> is_directory(then, place_path(job, place)),
        _ => true,
    }
}

/// Whether a directory beneath the destination stands at a path.
pub open spec fn is_directory_beneath(
    platform: Platform,
    tree: Tree,
    path: Seq<Seq<u8>>,
) -> bool {
    lies_beneath(platform, tree, path) && is_directory(tree, path)
}

/// What is known of an entry at hand: its places are beneath the destination, and
/// as many directories on the way to its output are there as its stage says.
spec fn job_is_safe(job: JobView, tree: Tree) -> bool {
    &&& job_is_beneath(job)
    &&& stage_fits(job.facts, job.stage)
    &&& !(job.stage is Announcing || job.stage is Reporting) ==> job.facts.path is Beneath
    &&& forall|i: int|
        0 <= i < safe_parents(job.facts, job.stage) ==> is_directory(
            tree,
            #[trigger] job.components.take(i + 1),
        )
}

/// What is known of an extraction.
spec fn is_safe(view: UnpackingView, tree: Tree) -> bool {
    let platform = view.unpacker.platform;
    &&& forall|i: int|
        0 <= i < view.unpacker.deferred.len() ==> is_directory_beneath(
            platform,
            tree,
            (#[trigger] view.unpacker.deferred[i]).components,
        )
    &&& match view.phase {
        PhaseView::Entry(_, job, _) => job.facts.platform == platform && job_is_safe(job, tree),
        PhaseView::Directories(tasks) => 0 <= tasks.at && forall|i: int|
            0 <= i < tasks.list.len() ==> is_directory_beneath(
                platform,
                tree,
                (#[trigger] tasks.list[i]).components,
            ),
        _ => true,
    }
}

/// Whether a request is what an extraction asks where it stands.
spec fn is_asked(view: UnpackingView, request: Request) -> bool {
    match (view.phase, request) {
        (PhaseView::Entry(_, job, _), Request::Entry(ask)) => ask == ask_of(job.facts, job.stage),
        (PhaseView::Entry(_, job, _), Request::Write(_)) => job.stage is FillingFile,
        (PhaseView::Entry(_, job, _), _) => {
            let ask = ask_of(job.facts, job.stage);
            !(ask is Stat || ask is CreateDir)
        },
        (PhaseView::Directories(tasks), Request::Restore(_)) => tasks.at < tasks.list.len(),
        _ => true,
    }
}

/// A path whose directories are there lies beneath the destination.
proof fn lemma_output_lies_beneath(job: JobView, tree: Tree)
    requires
        job_is_safe(job, tree),
        job.facts.path is Beneath,
        safe_parents(job.facts, job.stage) == parent_count(job.facts.path),
    ensures
        lies_beneath(job.facts.platform, tree, job.components),
{
    let list = job.components;
    assert forall|i: int| 0 <= i < list.len() implies is_directory(
        tree,
        #[trigger] list.take(i),
    ) by {
        if i > 0 {
            assert(is_directory(tree, list.take((i - 1) + 1)));
        }
    }
}

/// The directory of this number lies beneath the destination if those before it
/// are there.
proof fn lemma_parent_lies_beneath(job: JobView, tree: Tree, n: int)
    requires
        job_is_safe(job, tree),
        0 <= n < parent_count(job.facts.path),
        n <= safe_parents(job.facts, job.stage),
    ensures
        lies_beneath(job.facts.platform, tree, job.components.take(n + 1)),
{
    let path = job.components.take(n + 1);
    assert forall|i: int| 0 <= i < path.len() implies is_directory(
        tree,
        #[trigger] path.take(i),
    ) by {
        assert(path.take(i) =~= job.components.take(i));
        if i > 0 {
            assert(is_directory(tree, job.components.take((i - 1) + 1)));
        }
    }
    assert forall|i: int| 0 <= i < path.len() implies is_normal(
        job.facts.platform,
        #[trigger] path[i],
    ) by {
        assert(path[i] == job.components[i]);
    }
}

/// Whatever is touched lies beneath the destination.
proof fn lemma_touched(view: UnpackingView, request: Request, tree: Tree, path: Seq<Seq<u8>>)
    requires
        is_safe(view, tree),
        is_asked(view, request),
        touches(view, request, path),
    ensures
        lies_beneath(view.unpacker.platform, tree, path),
{
    match view.phase {
        PhaseView::Entry(_, job, _) => {
            if let Stage::MakingParent(i, _) = job.stage {
                lemma_parent_lies_beneath(job, tree, i as int);
            } else {
                lemma_output_lies_beneath(job, tree);
                if path != job.components {
                    let list = job.components;
                    assert forall|i: int| 0 <= i < path.len() implies is_directory(
                        tree,
                        #[trigger] path.take(i),
                    ) by {
                        assert(path.take(i) =~= path.drop_last().take(i));
                        assert(list.take(i) =~= list.drop_last().take(i));
                    }
                    assert forall|i: int| 0 <= i < path.len() implies is_normal(
                        job.facts.platform,
                        #[trigger] path[i],
                    ) by {
                        if i < path.len() - 1 {
                            assert(path[i] == path.drop_last()[i]);
                            assert(list[i] == list.drop_last()[i]);
                        }
                    }
                }
            }
        },
        _ => {},
    }
}

/// What an answer for an entry tells of what stands beneath the destination.
spec fn tells_of(job: JobView, tree: Tree, answer: Answer, then: Tree) -> bool {
    &&& forall|path: Seq<Seq<u8>>|
        is_directory(tree, path) ==> #[trigger] is_directory(then, path)
    &&& match ask_of(job.facts, job.stage) {
        Ask::Stat(place) => {
            let path = place_path(job, place);
            lies_beneath(job.facts.platform, tree, path) ==> (answer matches Answer::Found(kind, _)
                ==> tree.contains_key(path) && tree[path] == kind)
        },
        Ask::CreateDir(place) => answer is Done ==> is_directory(then, place_path(job, place)),
        _ => true,
    }
}

/// How the stages of an extraction follow each other.
proof fn lemma_stages(f: Facts, stage: Stage, reply: Reply)
    requires
        stage_fits(f, stage),
        !(stage is Announcing || stage is Reporting) ==> f.path is Beneath,
    ensures
        advance(f, stage, reply) matches Turn::Go(next) ==> {
            &&& stage_fits(f, next)
            &&& !(next is Announcing || next is Reporting) ==> f.path is Beneath
            &&& safe_parents(f, next) <= safe_parents(f, stage) || (safe_parents(f, next)
                == safe_parents(f, stage) + 1 && match stage {
                Stage::Parents(_, _) => reply == Reply::Found(FileKind::Directory),
                Stage::MakingParent(_, _) => reply is Done,
                _ => false,
            })
        },
{
    lemma_stage_fits(f, stage, reply);
}

/// What is known of an entry at hand stays so from stage to stage.
proof fn lemma_job_goes_on(job: JobView, tree: Tree, answer: Answer, then: Tree)
    requires
        job_is_safe(job, tree),
        tells_of(job, tree, answer, then),
        turn_of(job, answer) is Go,
    ensures
        job_is_safe(job_after(job, answer), then),
{
    let next = job_after(job, answer);
    lemma_stages(job.facts, job.stage, reply_of(answer));
    assert forall|i: int| 0 <= i < safe_parents(next.facts, next.stage) implies is_directory(
        then,
        #[trigger] next.components.take(i + 1),
    ) by {
        if i < safe_parents(job.facts, job.stage) {
            assert(is_directory(tree, job.components.take(i + 1)));
        } else {
            lemma_parent_lies_beneath(job, tree, i);
            assert(is_directory(then, job.components.take(i + 1)));
        }
    }
}

/// A path that lies beneath the destination does so while no directory is lost.
proof fn lemma_lies_on(platform: Platform, tree: Tree, then: Tree, path: Seq<Seq<u8>>)
    requires
        lies_beneath(platform, tree, path),
        forall|path: Seq<Seq<u8>>|
            is_directory(tree, path) ==> #[trigger] is_directory(then, path),
    ensures
        lies_beneath(platform, then, path),
{
    assert forall|i: int| 0 <= i < path.len() implies is_directory(then, #[trigger] path.take(
        i,
    )) by {
        assert(is_directory(tree, path.take(i)));
    }
}

/// A directory whose metadata is put off stands beneath the destination.
proof fn lemma_put_off(job: JobView, tree: Tree, answer: Answer, then: Tree, i: int)
    requires
        job_is_safe(job, tree),
        tells_of(job, tree, answer, then),
        0 <= i < put_off(job, answer).len(),
    ensures
        is_directory_beneath(job.facts.platform, then, put_off(job, answer)[i].components),
{
    lemma_output_lies_beneath(job, tree);
    lemma_lies_on(job.facts.platform, tree, then, job.components);
    assert(is_directory(tree, job.components));
}

/// What is known of directories whose metadata is put off.
spec fn are_directories(platform: Platform, tree: Tree, list: Seq<DeferredView>) -> bool {
    forall|i: int|
        0 <= i < list.len() ==> is_directory_beneath(
            platform,
            tree,
            (#[trigger] list[i]).components,
        )
}

/// Directories stay such while none is lost.
proof fn lemma_directories_stay(
    platform: Platform,
    tree: Tree,
    then: Tree,
    list: Seq<DeferredView>,
)
    requires
        are_directories(platform, tree, list),
        forall|path: Seq<Seq<u8>>|
            is_directory(tree, path) ==> #[trigger] is_directory(then, path),
    ensures
        are_directories(platform, then, list),
{
    assert forall|i: int| 0 <= i < list.len() implies is_directory_beneath(
        platform,
        then,
        (#[trigger] list[i]).components,
    ) by {
        lemma_lies_on(platform, tree, then, list[i].components);
        assert(is_directory(tree, list[i].components));
    }
}

/// An entry that goes on asks for what it may.
proof fn lemma_asks_safe(
    view: UnpackingView,
    entry: EntryView,
    job: JobView,
    after: UnpackingView,
    request: Request,
    tree: Tree,
)
    requires
        view.asks(entry, job, after, request),
        !(request is End),
        job.facts.platform == view.unpacker.platform,
        job_is_safe(job, tree),
        are_directories(view.unpacker.platform, tree, view.unpacker.deferred),
    ensures
        is_safe(after, tree),
        is_asked(after, request),
{
    if ask_of(job.facts, job.stage) is Fill {
        lemma_fills_safe(view, entry, job, after, request, tree);
    }
}

/// An entry that gets its contents asks for what it may.
proof fn lemma_fills_safe(
    view: UnpackingView,
    entry: EntryView,
    job: JobView,
    after: UnpackingView,
    request: Request,
    tree: Tree,
)
    requires
        view.fills(entry, job, after, request),
        !(request is End),
        job.stage is FillingFile,
        job.facts.platform == view.unpacker.platform,
        job_is_safe(job, tree),
        are_directories(view.unpacker.platform, tree, view.unpacker.deferred),
    ensures
        is_safe(after, tree),
        is_asked(after, request),
{
    assert forall|other: JobView|
        other == (JobView { segment: other.segment, within: other.within, ..job }) implies
        job_is_safe(#[trigger] job_after(other, Answer::Done), tree) by {
        assert(job_is_safe(other, tree));
        assert(turn_of(other, Answer::Done) is Go);
        lemma_job_goes_on(other, tree, Answer::Done, tree);
    }
}

/// The next entry asks for what it may, and so does the restoring of metadata.
proof fn lemma_next_safe(view: UnpackingView, after: UnpackingView, request: Request, tree: Tree)
    requires
        view.turns_to_next(after, request),
        !(request is End),
        are_directories(view.unpacker.platform, tree, view.unpacker.deferred),
    ensures
        is_safe(after, tree),
        is_asked(after, request),
{
    let outcome = choose|outcome: Result<Option<Entry>, Error>| #[trigger]
        finds(view.parser, view.archive, outcome, after.parser, after.archive) && view.next_leads(
            outcome,
            after,
            request,
        );
    if let Ok(None) = outcome {
        let list = view.unpacker.deferred;
        if let PhaseView::Directories(tasks) = after.phase {
            assert(serves(list, tasks.list));
            assert forall|i: int| 0 <= i < tasks.list.len() implies is_directory_beneath(
                view.unpacker.platform,
                tree,
                (#[trigger] tasks.list[i]).components,
            ) by {
                let k = choose|k: int| #[trigger] is_latest(list, k) && list[k] == tasks.list[i];
                assert(is_directory_beneath(view.unpacker.platform, tree, list[k].components));
            }
        }
    }
}

/// What is known of an extraction stays so from step to step.
proof fn lemma_step_safe(
    view: UnpackingView,
    asked: Request,
    tree: Tree,
    answer: Answer,
    then: Tree,
    after: UnpackingView,
    request: Request,
)
    requires
        is_safe(view, tree),
        is_asked(view, asked),
        obeys(view, asked, tree, answer, then),
        view.steps(answer, after, request),
        !(request is End),
    ensures
        is_safe(after, then),
        is_asked(after, request),
{
    let platform = view.unpacker.platform;
    let rest = UnpackingView { phase: PhaseView::Over, ..view };
    assert(are_directories(platform, tree, view.unpacker.deferred));
    lemma_directories_stay(platform, tree, then, view.unpacker.deferred);
    match view.phase {
        PhaseView::Start => {
            lemma_next_safe(rest, after, request, then);
        },
        PhaseView::Entry(entry, job, wrote) => {
            assert(tells_of(job, tree, answer, then));
            lemma_entry_step_safe(view, entry, job, wrote, tree, answer, then, after, request);
        },
        PhaseView::Directories(tasks) => {
            assert(are_directories(platform, tree, tasks.list));
            lemma_directories_stay(platform, tree, then, tasks.list);
        },
        _ => {},
    }
}

/// What is known of an extraction with an entry at hand stays so.
proof fn lemma_entry_step_safe(
    view: UnpackingView,
    entry: EntryView,
    job: JobView,
    wrote: bool,
    tree: Tree,
    answer: Answer,
    then: Tree,
    after: UnpackingView,
    request: Request,
)
    requires
        view.phase == PhaseView::Entry(entry, job, wrote),
        job.facts.platform == view.unpacker.platform,
        job_is_safe(job, tree),
        tells_of(job, tree, answer, then),
        are_directories(view.unpacker.platform, then, view.unpacker.deferred),
        view.steps(answer, after, request),
        !(request is End),
    ensures
        is_safe(after, then),
        is_asked(after, request),
{
    let platform = view.unpacker.platform;
    let rest = UnpackingView { phase: PhaseView::Over, ..view };
    assert(job_is_safe(job, then)) by {
        assert forall|i: int| 0 <= i < safe_parents(job.facts, job.stage) implies is_directory(
            then,
            #[trigger] job.components.take(i + 1),
        ) by {
            assert(is_directory(tree, job.components.take(i + 1)));
        }
    }
    if rest.takes_answer(entry, job, answer, after, request) {
        let turn = turn_of(job, answer);
        let deferred = rest.unpacker.deferred + put_off(job, answer);
        let next = UnpackingView {
            unpacker: UnpackerView { deferred, ..rest.unpacker },
            ..rest
        };
        assert forall|i: int| 0 <= i < deferred.len() implies is_directory_beneath(
            platform,
            then,
            (#[trigger] deferred[i]).components,
        ) by {
            let n = rest.unpacker.deferred.len();
            if i < n {
                assert(deferred[i] == rest.unpacker.deferred[i]);
            } else {
                lemma_put_off(job, tree, answer, then, i - n);
            }
        }
        match turn {
            Turn::Go(_) => {
                lemma_job_goes_on(job, tree, answer, then);
                lemma_asks_safe(
                    next,
                    EntryView { started: entry.started || consumes(turn), ..entry },
                    job_after(job, answer),
                    after,
                    request,
                    then,
                );
            },
            Turn::Stop(end) => {
                if let Ok(skipped) = verdict_of(end, noted(job, answer)) {
                    let summary = view.summary.plus(
                        SummaryView::nothing().with(job.facts, job.path, skipped),
                    );
                    lemma_next_safe(
                        UnpackingView { summary, ..next },
                        after,
                        request,
                        then,
                    );
                }
            },
        }
    } else if rest.fills(entry, job, after, request) {
        lemma_fills_safe(rest, entry, job, after, request, then);
    }
}

/// Whether a file system did what was asked in a step of a run, up to the next.
pub open spec fn obeyed_at(run: Run, trees: Seq<Tree>, i: int) -> bool {
    obeys(run.views[i + 1], run.requests[i], trees[i], run.answers[i + 1], trees[i + 1])
}

/// Whether a file system did what was asked in a run. There is one tree for each
/// step: what stands beneath the destination when the step asks.
pub open spec fn is_obeyed(run: Run, trees: Seq<Tree>) -> bool {
    &&& trees.len() == run.requests.len()
    &&& forall|i: int| 0 <= i < trees.len() - 1 ==> #[trigger] obeyed_at(run, trees, i)
}

/// What is known at a step of a run.
proof fn lemma_run_safe(run: Run, trees: Seq<Tree>, i: int)
    requires
        run.happens(),
        run.views[0].phase is Start,
        run.views[0].unpacker.deferred == Seq::<DeferredView>::empty(),
        is_obeyed(run, trees),
        0 <= i < run.requests.len(),
        !(run.requests[i] is End),
    ensures
        is_safe(run.views[i + 1], trees[i]),
        is_asked(run.views[i + 1], run.requests[i]),
        run.views[i + 1].unpacker.platform == run.views[0].unpacker.platform,
    decreases i,
{
    let (view, after) = (run.views[i], run.views[i + 1]);
    let (answer, request) = (run.answers[i], run.requests[i]);
    assert(view.steps(answer, after, request));
    lemma_platform_stays(view, answer, after, request);
    if i == 0 {
        lemma_next_safe(
            UnpackingView { phase: PhaseView::Over, ..view },
            after,
            request,
            trees[0],
        );
    } else {
        assert(!(run.requests[i - 1] is End));
        lemma_run_safe(run, trees, i - 1);
        assert(obeyed_at(run, trees, i - 1));
        lemma_step_safe(
            view,
            run.requests[i - 1],
            trees[i - 1],
            answer,
            trees[i],
            after,
            request,
        );
    }
}

/// A step does not change the system that is extracted to.
proof fn lemma_platform_stays(
    view: UnpackingView,
    answer: Answer,
    after: UnpackingView,
    request: Request,
)
    requires
        view.steps(answer, after, request),
    ensures
        after.unpacker.platform == view.unpacker.platform,
{
}

/// Whatever the archive holds and however the extraction ends, everything that it
/// creates, replaces or removes, or gives other contents, permission bits or
/// another time, lies beneath the destination, the directories among it whose
/// metadata is restored in the end. This holds of a file system that does what it
/// is asked while nobody else changes anything. Link targets may point anywhere.
pub proof fn law_everything_touched_lies_beneath(
    run: Run,
    trees: Seq<Tree>,
    i: int,
    path: Seq<Seq<u8>>,
)
    requires
        run.happens(),
        run.views[0].phase is Start,
        run.views[0].unpacker.deferred == Seq::<DeferredView>::empty(),
        is_obeyed(run, trees),
        0 <= i < run.requests.len(),
        touches(run.views[i + 1], run.requests[i], path),
    ensures
        lies_beneath(run.views[0].unpacker.platform, trees[i], path),
{
    lemma_run_safe(run, trees, i);
    lemma_touched(run.views[i + 1], run.requests[i], trees[i], path);
}

} // verus!
