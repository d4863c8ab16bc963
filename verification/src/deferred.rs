//! Directories whose metadata is restored at the end.

use vstd::prelude::*;

use crate::bytes::{
    bytes_less, comes_before, copy_range, lemma_bytes_less_strict, lemma_bytes_less_total,
    lemma_bytes_less_transitive, same_bytes,
};
use crate::error::{Error, Fault};
use crate::extract::{error_in, Answer, FileId, FileKind};
use crate::path::{parts, Platform};

verus! {

/// A directory whose metadata is restored at the end, when nothing is written
/// into it any more.
#[derive(Debug)]
pub struct DeferredDirectory {
    components: Vec<Vec<u8>>,
    mode: u32,
    mtime: i64,
    id: FileId,
}

/// What is known of a directory whose metadata is restored at the end.
pub struct DeferredView {
    /// Its path beneath the destination.
    pub components: Seq<Seq<u8>>,
    /// The permission bits it gets.
    pub mode: u32,
    /// The modification time it gets.
    pub mtime: i64,
    /// What tells it from others.
    pub id: FileId,
}

impl View for DeferredDirectory {
    type V = DeferredView;

    closed spec fn view(&self) -> DeferredView {
        DeferredView {
            components: parts(self.components@),
            mode: self.mode,
            mtime: self.mtime,
            id: self.id,
        }
    }
}

impl DeferredDirectory {
    /// A directory that gets this metadata at the end.
    pub(crate) fn new(components: Vec<Vec<u8>>, mode: u32, mtime: i64, id: FileId) -> (directory:
        Self)
        ensures
            directory@ == (DeferredView { components: parts(components@), mode, mtime, id }),
    {
        DeferredDirectory { components, mode, mtime, id }
    }
}

/// Deferred directories as what is known of them.
pub open spec fn deferred_views(list: Seq<DeferredDirectory>) -> Seq<DeferredView> {
    Seq::new(list.len(), |i: int| list[i]@)
}

/// Copies a list of components up to a number.
pub(crate) fn copy_components(list: &[Vec<u8>], count: usize) -> (copy: Vec<Vec<u8>>)
    requires
        count <= list@.len(),
    ensures
        parts(copy@) == parts(list@).take(count as int),
{
    let mut copy: Vec<Vec<u8>> = Vec::new();
    let mut i: usize = 0;
    assert(parts(copy@) =~= parts(list@).take(0));
    while i < count
        invariant
            i <= count <= list@.len(),
            parts(copy@) == parts(list@).take(i as int),
        decreases count - i,
    {
        let part: Vec<u8> = copy_range(list[i].as_slice(), 0, list[i].len());
        let ghost before = parts(copy@);
        assert(part@ =~= list@[i as int]@);
        copy.push(part);
        assert(parts(copy@) =~= before.push(part@));
        assert(parts(copy@) =~= parts(list@).take(i + 1));
        i = i + 1;
    }
    copy
}

/// Whether a path comes before another one, component by component.
pub open spec fn path_less(a: Seq<Seq<u8>>, b: Seq<Seq<u8>>) -> bool
    decreases a.len(),
{
    if a.len() == 0 || b.len() == 0 {
        a.len() < b.len()
    } else if a[0] == b[0] {
        path_less(a.drop_first(), b.drop_first())
    } else {
        bytes_less(a[0], b[0])
    }
}

/// Whether a directory is served before another one: the deeper one first, and
/// among equally deep ones the one whose path comes first.
pub open spec fn goes_before(a: Seq<Seq<u8>>, b: Seq<Seq<u8>>) -> bool {
    a.len() > b.len() || (a.len() == b.len() && path_less(a, b))
}

/// Of two paths one comes first, and not the other, unless they are the same.
proof fn lemma_path_less_total(a: Seq<Seq<u8>>, b: Seq<Seq<u8>>)
    ensures
        a == b || path_less(a, b) || path_less(b, a),
        !(path_less(a, b) && path_less(b, a)),
        a == b ==> !path_less(a, b),
    decreases a.len(),
{
    if a.len() == 0 || b.len() == 0 {
        if a.len() == b.len() {
            assert(a =~= b);
        }
    } else if a[0] == b[0] {
        lemma_path_less_total(a.drop_first(), b.drop_first());
        if a.drop_first() == b.drop_first() {
            assert(a =~= seq![a[0]] + a.drop_first());
            assert(b =~= seq![b[0]] + b.drop_first());
        }
    } else {
        lemma_bytes_less_total(a[0], b[0]);
        if bytes_less(a[0], b[0]) {
            lemma_bytes_less_strict(a[0], b[0]);
        }
    }
}

/// Coming first is transitive.
proof fn lemma_path_less_transitive(a: Seq<Seq<u8>>, b: Seq<Seq<u8>>, c: Seq<Seq<u8>>)
    requires
        path_less(a, b),
        path_less(b, c),
    ensures
        path_less(a, c),
    decreases a.len(),
{
    if a.len() > 0 && b.len() > 0 && c.len() > 0 {
        if a[0] == b[0] && b[0] == c[0] {
            lemma_path_less_transitive(a.drop_first(), b.drop_first(), c.drop_first());
        } else if a[0] != b[0] && b[0] != c[0] {
            lemma_bytes_less_transitive(a[0], b[0], c[0]);
            lemma_bytes_less_strict(a[0], b[0]);
        }
    }
}

/// How two directories are served.
enum Side {
    Before,
    Same,
    After,
}

/// Finds out which of two directories is served first.
fn compare(a: &[Vec<u8>], b: &[Vec<u8>]) -> (side: Side)
    ensures
        match side {
            Side::Before => goes_before(parts(a@), parts(b@)),
            Side::Same => parts(a@) == parts(b@),
            Side::After => goes_before(parts(b@), parts(a@)),
        },
{
    let ghost p = parts(a@);
    let ghost q = parts(b@);
    if a.len() > b.len() {
        return Side::Before;
    }
    if a.len() < b.len() {
        return Side::After;
    }
    let mut i: usize = 0;
    assert(p.skip(0) =~= p);
    assert(q.skip(0) =~= q);
    while i < a.len()
        invariant
            p == parts(a@),
            q == parts(b@),
            i <= a@.len() == b@.len(),
            forall|k: int| 0 <= k < i ==> p[k] == q[k],
            path_less(p, q) == path_less(p.skip(i as int), q.skip(i as int)),
            path_less(q, p) == path_less(q.skip(i as int), p.skip(i as int)),
        decreases a@.len() - i,
    {
        assert(p[i as int] == a@[i as int]@);
        assert(q[i as int] == b@[i as int]@);
        assert(p.skip(i as int).drop_first() =~= p.skip(i + 1));
        assert(q.skip(i as int).drop_first() =~= q.skip(i + 1));
        if !same_bytes(a[i].as_slice(), b[i].as_slice()) {
            proof {
                lemma_bytes_less_total(p[i as int], q[i as int]);
            }
            return if comes_before(a[i].as_slice(), b[i].as_slice()) {
                Side::Before
            } else {
                Side::After
            };
        }
        i = i + 1;
    }
    assert(p =~= q);
    Side::Same
}

/// Whether no later directory in the list has the same path.
pub open spec fn is_latest(list: Seq<DeferredView>, k: int) -> bool {
    &&& 0 <= k < list.len()
    &&& forall|j: int| k < j < list.len() ==> (#[trigger] list[j]).components != list[k].components
}

/// Whether a list holds the directories of another one in the order in which
/// they are served: the latest one for each path, and no other.
pub open spec fn serves(list: Seq<DeferredView>, out: Seq<DeferredView>) -> bool {
    &&& forall|i: int, j: int|
        0 <= i < j < out.len() ==> goes_before(
            (#[trigger] out[i]).components,
            (#[trigger] out[j]).components,
        )
    &&& forall|i: int|
        0 <= i < out.len() ==> exists|k: int| #[trigger] is_latest(list, k) && list[k]
            == #[trigger] out[i]
    &&& forall|k: int| #[trigger] is_latest(list, k) ==> out.contains(list[k])
}

/// One more directory in front changes nothing where a later one has its path.
proof fn lemma_serves_same(
    list: Seq<DeferredView>,
    out: Seq<DeferredView>,
    d: DeferredView,
    at: int,
)
    requires
        serves(list, out),
        0 <= at < out.len(),
        out[at].components == d.components,
    ensures
        serves(seq![d] + list, out),
{
    let all = seq![d] + list;
    assert forall|i: int| 0 <= i < out.len() implies exists|k: int| #[trigger]
        is_latest(all, k) && all[k] == #[trigger] out[i] by {
        let k = choose|k: int| #[trigger] is_latest(list, k) && list[k] == out[i];
        lemma_latest_later(list, d, k);
        assert(is_latest(all, k + 1) && all[k + 1] == out[i]);
    }
    assert forall|k: int| #[trigger] is_latest(all, k) implies out.contains(all[k]) by {
        if k == 0 {
            let j = choose|j: int| #[trigger] is_latest(list, j) && list[j] == out[at];
            assert(all[j + 1].components == all[0].components);
        } else {
            lemma_latest_later(list, d, k - 1);
            assert(is_latest(list, k - 1));
        }
    }
}

/// What is latest in a list is so with one more directory in front.
proof fn lemma_latest_later(list: Seq<DeferredView>, d: DeferredView, k: int)
    ensures
        k >= 0 ==> is_latest(seq![d] + list, k + 1) == is_latest(list, k),
        0 <= k < list.len() ==> (seq![d] + list)[k + 1] == list[k],
{
    let all = seq![d] + list;
    if k >= 0 && k < list.len() {
        if is_latest(list, k) {
            assert forall|j: int| k + 1 < j < all.len() implies (#[trigger] all[j]).components
                != all[k + 1].components by {
                assert(all[j] == list[j - 1]);
            }
        }
        if is_latest(all, k + 1) {
            assert forall|j: int| k < j < list.len() implies (#[trigger] list[j]).components
                != list[k].components by {
                assert(all[j + 1] == list[j]);
            }
        }
    }
}

/// One more directory in front is served in its place where no later one has
/// its path.
proof fn lemma_serves_more(
    list: Seq<DeferredView>,
    out: Seq<DeferredView>,
    d: DeferredView,
    at: int,
)
    requires
        serves(list, out),
        0 <= at <= out.len(),
        forall|k: int| 0 <= k < at ==> goes_before((#[trigger] out[k]).components, d.components),
        at < out.len() ==> goes_before(d.components, out[at].components),
    ensures
        serves(seq![d] + list, out.insert(at, d)),
{
    let all = seq![d] + list;
    let new = out.insert(at, d);
    assert forall|k: int| 0 <= k < out.len() implies (#[trigger] out[k]).components
        != d.components by {
        if k < at {
            lemma_path_less_total(out[k].components, d.components);
        } else {
            lemma_path_less_total(d.components, out[at].components);
            if k > at {
                assert(goes_before(out[at].components, out[k].components));
                lemma_goes_before(d.components, out[at].components, out[k].components);
            }
            lemma_path_less_total(d.components, out[k].components);
        }
    }
    assert forall|i: int, j: int| 0 <= i < j < new.len() implies goes_before(
        (#[trigger] new[i]).components,
        (#[trigger] new[j]).components,
    ) by {
        let a = if i < at {
            i
        } else {
            i - 1
        };
        let b = if j < at {
            j
        } else {
            j - 1
        };
        if i == at {
            assert(new[j] == out[b]);
            if b > at {
                assert(goes_before(out[at].components, out[b].components));
                lemma_goes_before(d.components, out[at].components, out[b].components);
            }
        } else if j == at {
            assert(new[i] == out[a]);
        } else {
            assert(new[i] == out[a]);
            assert(new[j] == out[b]);
            assert(goes_before(out[a].components, out[b].components));
        }
    }
    assert forall|k: int| #[trigger] is_latest(all, k) implies new.contains(all[k]) by {
        if k == 0 {
            assert(new[at] == d);
        } else {
            lemma_latest_later(list, d, k - 1);
            assert(is_latest(list, k - 1));
            let i = choose|i: int| 0 <= i < out.len() && out[i] == list[k - 1];
            assert(new[if i < at { i } else { i + 1 }] == out[i]);
        }
    }
    assert(is_latest(all, 0)) by {
        assert forall|j: int| 0 < j < all.len() implies (#[trigger] all[j]).components
            != all[0].components by {
            if all[j].components == d.components {
                let m = lemma_some_latest(list, j - 1);
                assert(is_latest(list, m));
                let i = choose|i: int| 0 <= i < out.len() && out[i] == list[m];
                assert(out[i].components == d.components);
            }
        }
    }
    assert forall|i: int| 0 <= i < new.len() implies exists|k: int| #[trigger]
        is_latest(all, k) && all[k] == #[trigger] new[i] by {
        if i == at {
            assert(is_latest(all, 0) && all[0] == new[i]);
        } else {
            let a = if i < at {
                i
            } else {
                i - 1
            };
            assert(new[i] == out[a]);
            let k = choose|k: int| #[trigger] is_latest(list, k) && list[k] == out[a];
            lemma_latest_later(list, d, k);
            assert(is_latest(all, k + 1) && all[k + 1] == new[i]);
        }
    }
}

/// The order in which directories are served is transitive.
proof fn lemma_goes_before(a: Seq<Seq<u8>>, b: Seq<Seq<u8>>, c: Seq<Seq<u8>>)
    requires
        goes_before(a, b),
        goes_before(b, c),
    ensures
        goes_before(a, c),
{
    if a.len() == b.len() && b.len() == c.len() {
        lemma_path_less_transitive(a, b, c);
    }
}

/// For every directory in a list there is a latest one with its path.
proof fn lemma_some_latest(list: Seq<DeferredView>, k: int) -> (m: int)
    requires
        0 <= k < list.len(),
    ensures
        is_latest(list, m),
        list[m].components == list[k].components,
    decreases list.len() - k,
{
    if is_latest(list, k) {
        k
    } else {
        let j = choose|j: int|
            k < j < list.len() && (#[trigger] list[j]).components == list[k].components;
        lemma_some_latest(list, j)
    }
}

/// A directory is served after all directories beneath it.
pub proof fn law_directories_are_served_from_the_bottom(
    list: Seq<DeferredView>,
    out: Seq<DeferredView>,
    inner: int,
    outer: int,
)
    requires
        serves(list, out),
        0 <= inner < out.len(),
        0 <= outer < out.len(),
        inner != outer,
        out[outer].components.is_prefix_of(out[inner].components),
    ensures
        inner < outer,
{
    if outer < inner {
        let a = out[outer].components;
        let b = out[inner].components;
        assert(goes_before(a, b));
        assert(a =~= b);
        lemma_path_less_total(a, b);
    }
}

/// Each directory is served once, with the metadata of its last member.
pub proof fn law_each_directory_is_served_once(
    list: Seq<DeferredView>,
    out: Seq<DeferredView>,
    k: int,
)
    requires
        serves(list, out),
        0 <= k < list.len(),
    ensures
        exists|i: int|
            0 <= i < out.len() && (#[trigger] out[i]).components == list[k].components,
        forall|i: int, j: int|
            0 <= i < j < out.len() ==> (#[trigger] out[i]).components != (
            #[trigger] out[j]).components,
        is_latest(list, k) ==> forall|i: int|
            0 <= i < out.len() && (#[trigger] out[i]).components == list[k].components ==> out[i]
                == list[k],
{
    let m = lemma_some_latest(list, k);
    assert(is_latest(list, m) && out.contains(list[m]));
    assert forall|i: int, j: int| 0 <= i < j < out.len() implies (#[trigger] out[i]).components != (
    #[trigger] out[j]).components by {
        assert(goes_before(out[i].components, out[j].components));
        lemma_path_less_total(out[i].components, out[j].components);
    }
    if is_latest(list, k) {
        let at = choose|at: int| 0 <= at < out.len() && out[at] == list[k];
        assert forall|i: int|
            0 <= i < out.len() && (#[trigger] out[i]).components
                == list[k].components implies out[i] == list[k] by {
            if i != at {
                assert(out[i].components != out[at].components);
            }
        }
    }
}

/// Finds the place of a directory in a list that is in order, and whether one
/// with its path is there.
fn find_place(out: &Vec<DeferredDirectory>, directory: &DeferredDirectory) -> (found: (usize, bool))
    ensures
        found.0 <= out@.len(),
        forall|k: int|
            0 <= k < found.0 ==> goes_before(
                (#[trigger] deferred_views(out@)[k]).components,
                directory@.components,
            ),
        found.1 ==> found.0 < out@.len() && deferred_views(out@)[found.0 as int].components
            == directory@.components,
        !found.1 && found.0 < out@.len() ==> goes_before(
            directory@.components,
            deferred_views(out@)[found.0 as int].components,
        ),
{
    let ghost list = deferred_views(out@);
    let mut at: usize = 0;
    while at < out.len()
        invariant
            at <= out@.len(),
            list == deferred_views(out@),
            forall|k: int|
                0 <= k < at ==> goes_before(
                    (#[trigger] list[k]).components,
                    directory@.components,
                ),
        decreases out@.len() - at,
    {
        assert(list[at as int] == out@[at as int]@);
        match compare(out[at].components.as_slice(), directory.components.as_slice()) {
            Side::Before => {
                at = at + 1;
            },
            Side::Same => {
                return (at, true);
            },
            Side::After => {
                return (at, false);
            },
        }
    }
    (at, false)
}

/// Puts the directories into the order in which they are served.
pub(crate) fn order_directories(list: Vec<DeferredDirectory>) -> (out: Vec<DeferredDirectory>)
    ensures
        serves(deferred_views(list@), deferred_views(out@)),
{
    let ghost all = deferred_views(list@);
    let mut rest = list;
    let mut out: Vec<DeferredDirectory> = Vec::new();
    proof {
        assert(all.skip(all.len() as int) =~= Seq::empty());
        assert(deferred_views(out@) =~= Seq::empty());
        assert(all.take(all.len() as int) =~= all);
    }
    while rest.len() > 0
        invariant
            rest@.len() <= all.len(),
            deferred_views(rest@) == all.take(rest@.len() as int),
            serves(all.skip(rest@.len() as int), deferred_views(out@)),
        decreases rest@.len(),
    {
        let ghost now = rest@;
        let ghost done = all.skip(now.len() as int);
        let ghost before = deferred_views(out@);
        if let Some(directory) = rest.pop() {
            proof {
                let n = rest@.len() as int;
                assert(deferred_views(now)[n] == directory@);
                assert(all[n] == all.take(n + 1)[n]);
                assert(all.skip(n) =~= seq![directory@] + done);
                assert(deferred_views(rest@) =~= all.take(n)) by {
                    assert forall|i: int| 0 <= i < n implies deferred_views(rest@)[i] == all.take(
                        n,
                    )[i] by {
                        assert(deferred_views(now)[i] == all.take(n + 1)[i]);
                    }
                }
            }
            let (at, same) = find_place(&out, &directory);
            if same {
                proof {
                    lemma_serves_same(done, before, directory@, at as int);
                }
            } else {
                proof {
                    lemma_serves_more(done, before, directory@, at as int);
                }
                out.insert(at, directory);
                assert(deferred_views(out@) =~= before.insert(at as int, directory@));
            }
        }
    }
    assert(all.skip(0) =~= all);
    out
}

/// How far the restoring of a directory's metadata is. Each stage waits for one
/// answer.
#[derive(Clone, Copy, Debug, PartialEq, Eq, Structural)]
pub enum RestoreStage {
    /// The directory is looked at.
    Looking,
    /// It gets its permission bits.
    Mode,
    /// It gets its modification time.
    Mtime,
}

/// What the restoring of a directory's metadata asks to be done.
#[derive(Clone, Copy, Debug, PartialEq, Eq, Structural)]
pub enum RestoreAsk {
    /// Look what stands there, without following a symbolic link.
    Stat,
    /// Give the directory these permission bits.
    SetMode(u32),
    /// Give the directory this modification time.
    SetMtime(i64),
}

/// What is restored of a directory's metadata, and where.
#[derive(Clone, Copy, Debug, PartialEq, Eq, Structural)]
pub struct RestoreFacts {
    /// Whether permission bits are restored.
    pub permissions: bool,
    /// Whether modification times are restored.
    pub mtime: bool,
    /// The system that is extracted to.
    pub platform: Platform,
}

/// The first stage, if there is anything to restore. Only Unix can tell whether
/// a directory is still the same one, and has permission bits to restore.
pub open spec fn first_stage(f: RestoreFacts) -> Option<RestoreStage> {
    if f.platform is Unix && (f.permissions || f.mtime) {
        Some(RestoreStage::Looking)
    } else if f.mtime {
        Some(RestoreStage::Mtime)
    } else {
        None
    }
}

/// The stage after one that went well, if there is another.
pub open spec fn stage_after(f: RestoreFacts, stage: RestoreStage) -> Option<RestoreStage> {
    match stage {
        RestoreStage::Looking => if f.permissions {
            Some(RestoreStage::Mode)
        } else {
            Some(RestoreStage::Mtime)
        },
        RestoreStage::Mode => if f.mtime {
            Some(RestoreStage::Mtime)
        } else {
            None
        },
        RestoreStage::Mtime => None,
    }
}

/// What is asked of a directory at a stage.
pub open spec fn restore_ask(d: DeferredView, stage: RestoreStage) -> RestoreAsk {
    match stage {
        RestoreStage::Looking => RestoreAsk::Stat,
        RestoreStage::Mode => RestoreAsk::SetMode(d.mode & 0o7777),
        RestoreStage::Mtime => RestoreAsk::SetMtime(d.mtime),
    }
}

/// The error that an answer at a stage comes to, if it does: metadata is given
/// only to the directory that was extracted.
pub open spec fn restore_error(d: DeferredView, stage: RestoreStage, answer: Answer) -> Option<
    Error,
> {
    match (stage, answer) {
        (RestoreStage::Looking, Answer::Found(kind, id)) => if kind is Directory && id == d.id {
            None
        } else {
            Some(Error::Tar(Fault::DirectoryChanged))
        },
        (RestoreStage::Mode, Answer::Done) | (RestoreStage::Mtime, Answer::Done) => None,
        _ => match error_in(answer) {
            Some(error) => Some(Error::Io(error)),
            None => Some(Error::Tar(Fault::UnexpectedAnswer)),
        },
    }
}

/// The restoring of the metadata of all directories.
#[derive(Debug)]
pub struct DirectoryTasks {
    list: Vec<DeferredDirectory>,
    at: usize,
    stage: RestoreStage,
    facts: RestoreFacts,
}

/// What is known of the restoring of metadata.
pub struct TasksView {
    /// The directories, in the order in which they are served.
    pub list: Seq<DeferredView>,
    /// How many of them were served.
    pub at: int,
    /// How far the next one is.
    pub stage: RestoreStage,
    /// What is restored.
    pub facts: RestoreFacts,
}

impl View for DirectoryTasks {
    type V = TasksView;

    closed spec fn view(&self) -> TasksView {
        TasksView {
            list: deferred_views(self.list@),
            at: self.at as int,
            stage: self.stage,
            facts: self.facts,
        }
    }
}

/// Whether anything is still to be asked.
pub open spec fn has_task(tasks: TasksView) -> bool {
    tasks.at < tasks.list.len()
}

/// The tasks after an answer that went well.
pub open spec fn tasks_after(tasks: TasksView) -> TasksView {
    match stage_after(tasks.facts, tasks.stage) {
        Some(next) => TasksView { stage: next, ..tasks },
        None => TasksView {
            at: tasks.at + 1,
            stage: match first_stage(tasks.facts) {
                Some(first) => first,
                None => tasks.stage,
            },
            ..tasks
        },
    }
}

impl DirectoryTasks {
    /// The place is one in the list, or its end.
    pub closed spec fn well_formed(&self) -> bool {
        self.at <= self.list@.len()
    }

    /// The metadata of these directories is to be restored.
    pub(crate) fn new(list: Vec<DeferredDirectory>, facts: RestoreFacts) -> (tasks: Self)
        ensures
            tasks.well_formed(),
            tasks@.facts == facts,
            serves(deferred_views(list@), tasks@.list),
            match first_stage(facts) {
                Some(first) => tasks@.at == 0 && tasks@.stage == first,
                None => tasks@.at == tasks@.list.len(),
            },
    {
        let list = order_directories(list);
        match facts.first_stage() {
            Some(stage) => DirectoryTasks { list, at: 0, stage, facts },
            None => {
                let at: usize = list.len();
                DirectoryTasks { list, at, stage: RestoreStage::Looking, facts }
            },
        }
    }

    /// What is to be done next, or `None` once all is done.
    pub fn ask(&self) -> (asked: Option<RestoreAsk>)
        requires
            self.well_formed(),
        ensures
            asked == if has_task(self@) {
                Some(restore_ask(self@.list[self@.at], self@.stage))
            } else {
                None
            },
    {
        if self.at >= self.list.len() {
            return None;
        }
        let directory = &self.list[self.at];
        Some(
            match self.stage {
                RestoreStage::Looking => RestoreAsk::Stat,
                RestoreStage::Mode => RestoreAsk::SetMode(directory.mode & 0o7777),
                RestoreStage::Mtime => RestoreAsk::SetMtime(directory.mtime),
            },
        )
    }

    /// Where the directory is, beneath the destination, to which that is done.
    pub fn place(&self) -> (components: Option<Vec<Vec<u8>>>)
        requires
            self.well_formed(),
        ensures
            match components {
                Some(found) => has_task(self@) && parts(found@)
                    == self@.list[self@.at].components,
                None => !has_task(self@),
            },
    {
        if self.at >= self.list.len() {
            return None;
        }
        let list = self.list[self.at].components.as_slice();
        let ghost all = parts(list@);
        assert(all.take(all.len() as int) =~= all);
        Some(copy_components(list, list.len()))
    }

    /// Takes the answer to what was asked. Returns the error that ends it all,
    /// if there is one.
    pub fn answer(&mut self, answer: Answer) -> (failed: Result<(), Error>)
        requires
            old(self).well_formed(),
        ensures
            final(self).well_formed(),
            !has_task(old(self)@) ==> failed is Ok && final(self)@ == old(self)@,
            has_task(old(self)@) ==> match restore_error(
                old(self)@.list[old(self)@.at],
                old(self)@.stage,
                answer,
            ) {
                Some(error) => failed == Err::<(), Error>(error) && final(self)@ == old(self)@,
                None => failed is Ok && final(self)@ == tasks_after(old(self)@),
            },
    {
        if self.at >= self.list.len() {
            return Ok(());
        }
        let fine: bool = match (&self.stage, &answer) {
            (RestoreStage::Looking, Answer::Found(kind, id)) => {
                let here: FileId = self.list[self.at].id;
                if !matches!(kind, FileKind::Directory) || id.device != here.device || id.inode
                    != here.inode {
                    return Err(Error::Tar(Fault::DirectoryChanged));
                }
                true
            },
            (RestoreStage::Mode, Answer::Done) | (RestoreStage::Mtime, Answer::Done) => true,
            _ => false,
        };
        if !fine {
            return Err(
                match answer.into_error() {
                    Some(error) => Error::Io(error),
                    None => Error::Tar(Fault::UnexpectedAnswer),
                },
            );
        }
        match self.facts.stage_after(self.stage) {
            Some(next) => {
                self.stage = next;
            },
            None => {
                self.at = self.at + 1;
                if let Some(first) = self.facts.first_stage() {
                    self.stage = first;
                }
            },
        }
        Ok(())
    }
}

impl RestoreFacts {
    /// The first stage, if there is anything to restore.
    fn first_stage(self) -> (stage: Option<RestoreStage>)
        ensures
            stage == first_stage(self),
    {
        if matches!(self.platform, Platform::Unix) && (self.permissions || self.mtime) {
            Some(RestoreStage::Looking)
        } else if self.mtime {
            Some(RestoreStage::Mtime)
        } else {
            None
        }
    }

    /// The stage after one that went well, if there is another.
    fn stage_after(self, stage: RestoreStage) -> (next: Option<RestoreStage>)
        ensures
            next == stage_after(self, stage),
    {
        match stage {
            RestoreStage::Looking => if self.permissions {
                Some(RestoreStage::Mode)
            } else {
                Some(RestoreStage::Mtime)
            },
            RestoreStage::Mode => if self.mtime {
                Some(RestoreStage::Mtime)
            } else {
                None
            },
            RestoreStage::Mtime => None,
        }
    }
}

} // verus!
