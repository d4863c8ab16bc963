//! Extracting entries beneath a destination.
//!
//! The library decides what is done and in which order. Whoever has a file
//! system at hand does it and answers how it went.

use vstd::prelude::*;
use vstd::slice::slice_to_vec;

use crate::archive::{
    law_found_entry_is_in_step, lemma_marks_differ, stands_before, Archive, Entry, EntryView,
};
use crate::bytes::copy_range;
use crate::deferred::{
    copy_components, deferred_views, first_stage, serves, DeferredDirectory, DeferredView,
    DirectoryTasks, RestoreFacts,
};
use crate::error::{Error, Fault};
use crate::extract::{
    advance, ask_of, error_in, lemma_stage_fits, parent_count, reply_of, stage_fits, Answer, Ask,
    End, Facts, FileKind, PathFact, Place, Reply, SkipReason, Stage, Turn,
};
use crate::header::EntryType;
use crate::layout::lemma_prefix_of_itself;
use crate::member::Member;
use crate::path::{
    is_normal, is_reserved, is_reserved_path, law_accepted_paths_stay_beneath, parts,
    path_requires_directory, requires_directory, secure_path, secure_relative_path, Platform,
};
use crate::reader::{counted, lemma_prefix_agrees, mark, Input, ReaderView};
use crate::safety::{
    after, changes_output, law_nothing_is_replaced_unless_allowed,
    law_nothing_is_written_through_symlinks, parent_is_safe, Event,
};
use crate::sparse::{
    covers, law_expansion_places_segments, lemma_stored_len_grows, stored_len, SparseSegment,
};

verus! {

/// Progress notification containing raw input bytes consumed.
#[derive(Clone, Copy, Debug, PartialEq, Eq, Structural)]
pub struct Progress {
    /// Cumulative bytes pulled from the underlying reader.
    pub bytes_read: u64,
}

/// Decides when progress is worth a notification.
#[derive(Debug)]
pub struct ProgressReporter {
    last: u64,
}

impl View for ProgressReporter {
    type V = u64;

    closed spec fn view(&self) -> u64 {
        self.last
    }
}

impl ProgressReporter {
    /// A reporter that has not reported yet.
    pub fn new() -> (reporter: Self)
        ensures
            reporter@ == 0,
    {
        ProgressReporter { last: 0 }
    }

    /// Notifies of progress if it has come far since the last notification.
    pub fn update(&mut self, current: u64) -> (progress: Option<Progress>)
        ensures
            progress == if current - old(self)@ >= 64 * 1024 {
                Some(Progress { bytes_read: current })
            } else {
                None
            },
            final(self)@ == if current - old(self)@ >= 64 * 1024 {
                current
            } else {
                old(self)@
            },
    {
        if current.saturating_sub(self.last) >= 64 * 1024 {
            Some(self.boundary(current))
        } else {
            None
        }
    }

    /// Notifies of progress, however far it has come.
    pub fn boundary(&mut self, current: u64) -> (progress: Progress)
        ensures
            progress == (Progress { bytes_read: current }),
            final(self)@ == current,
    {
        self.last = current;
        Progress { bytes_read: current }
    }
}

/// Progress never goes back: what is reported later is at least what was
/// reported before.
pub proof fn law_progress_never_goes_back(before: ReaderView, after: ReaderView)
    requires
        before.reads_on(after),
    ensures
        counted(before.delivered) <= counted(after.delivered),
{
    lemma_prefix_agrees(before.delivered, after.delivered, 0, 0);
}

/// Metadata sent immediately before extracting an entry.
#[derive(Clone, Debug)]
pub struct EntryInfo {
    /// Final resolved archive path before component stripping.
    pub path: Vec<u8>,
    /// Entry kind.
    pub entry_type: EntryType,
    /// Logical entry size.
    pub size: u64,
    /// Whether the entry is sparse.
    pub sparse: bool,
}

/// One skipped archive entry.
#[derive(Clone, Debug, PartialEq, Eq)]
pub struct SkippedEntry {
    /// Original resolved entry path.
    pub path: Vec<u8>,
    /// Skip reason.
    pub reason: SkipReason,
}

/// Aggregate result of an extraction.
#[derive(Clone, Debug, PartialEq, Eq)]
pub struct UnpackSummary {
    /// Regular files extracted.
    pub files: u64,
    /// Directories extracted or confirmed.
    pub dirs: u64,
    /// Symbolic links created.
    pub symlinks: u64,
    /// Hard links created.
    pub hardlinks: u64,
    /// Sparse regular files extracted.
    pub sparse_files: u64,
    /// Entries skipped, with reasons.
    pub skipped: Vec<SkippedEntry>,
}

/// What a summary says.
pub struct SummaryView {
    /// Regular files extracted.
    pub files: u64,
    /// Directories extracted or confirmed.
    pub dirs: u64,
    /// Symbolic links created.
    pub symlinks: u64,
    /// Hard links created.
    pub hardlinks: u64,
    /// Sparse regular files extracted.
    pub sparse_files: u64,
    /// Paths of entries skipped, with reasons.
    pub skipped: Seq<(Seq<u8>, SkipReason)>,
}

impl View for UnpackSummary {
    type V = SummaryView;

    open spec fn view(&self) -> SummaryView {
        SummaryView {
            files: self.files,
            dirs: self.dirs,
            symlinks: self.symlinks,
            hardlinks: self.hardlinks,
            sparse_files: self.sparse_files,
            skipped: Seq::new(
                self.skipped@.len(),
                |i: int| (self.skipped@[i].path@, self.skipped@[i].reason),
            ),
        }
    }
}

/// Two numbers together, as far as 64 bits go.
pub open spec fn both(a: u64, b: u64) -> u64 {
    if a + b <= u64::MAX {
        (a + b) as u64
    } else {
        u64::MAX
    }
}

impl SummaryView {
    /// A summary of nothing.
    pub open spec fn nothing() -> Self {
        SummaryView {
            files: 0,
            dirs: 0,
            symlinks: 0,
            hardlinks: 0,
            sparse_files: 0,
            skipped: Seq::empty(),
        }
    }

    /// Both summaries together.
    pub open spec fn plus(self, more: Self) -> Self {
        SummaryView {
            files: both(self.files, more.files),
            dirs: both(self.dirs, more.dirs),
            symlinks: both(self.symlinks, more.symlinks),
            hardlinks: both(self.hardlinks, more.hardlinks),
            sparse_files: both(self.sparse_files, more.sparse_files),
            skipped: self.skipped + more.skipped,
        }
    }

    /// The summary with one more entry: extracted as what it is, or skipped.
    pub open spec fn with(self, f: Facts, path: Seq<u8>, skipped: Option<SkipReason>) -> Self {
        match skipped {
            Some(reason) => SummaryView { skipped: self.skipped.push((path, reason)), ..self },
            None => match f.kind {
                EntryType::Directory => SummaryView { dirs: both(self.dirs, 1), ..self },
                EntryType::Symlink => SummaryView { symlinks: both(self.symlinks, 1), ..self },
                EntryType::Hardlink => SummaryView { hardlinks: both(self.hardlinks, 1), ..self },
                _ => SummaryView {
                    files: both(self.files, 1),
                    sparse_files: if f.sparse {
                        both(self.sparse_files, 1)
                    } else {
                        self.sparse_files
                    },
                    ..self
                },
            },
        }
    }
}

impl Default for UnpackSummary {
    fn default() -> (summary: Self)
        ensures
            summary@ == SummaryView::nothing(),
    {
        let summary = UnpackSummary {
            files: 0,
            dirs: 0,
            symlinks: 0,
            hardlinks: 0,
            sparse_files: 0,
            skipped: Vec::new(),
        };
        assert(summary@.skipped =~= Seq::empty());
        summary
    }
}

impl UnpackSummary {
    /// Adds another summary to this one.
    pub fn add(&mut self, more: UnpackSummary)
        ensures
            final(self)@ == old(self)@.plus(more@),
    {
        let ghost before = self@;
        let ghost other = more@;
        self.files = self.files.saturating_add(more.files);
        self.dirs = self.dirs.saturating_add(more.dirs);
        self.symlinks = self.symlinks.saturating_add(more.symlinks);
        self.hardlinks = self.hardlinks.saturating_add(more.hardlinks);
        self.sparse_files = self.sparse_files.saturating_add(more.sparse_files);
        let mut skipped = more.skipped;
        self.skipped.append(&mut skipped);
        assert(self@.skipped =~= before.skipped + other.skipped);
    }

    /// Counts one more entry.
    fn count(&mut self, f: Facts, path: &[u8], skipped: Option<SkipReason>)
        ensures
            final(self)@ == old(self)@.with(f, path@, skipped),
    {
        let ghost before = self@;
        match skipped {
            Some(reason) => {
                let ghost list = before.skipped;
                self.skipped.push(SkippedEntry { path: slice_to_vec(path), reason });
                assert(self@.skipped =~= list.push((path@, reason)));
            },
            None => {
                match f.kind {
                    EntryType::Directory => {
                        self.dirs = self.dirs.saturating_add(1);
                    },
                    EntryType::Symlink => {
                        self.symlinks = self.symlinks.saturating_add(1);
                    },
                    EntryType::Hardlink => {
                        self.hardlinks = self.hardlinks.saturating_add(1);
                    },
                    _ => {
                        self.files = self.files.saturating_add(1);
                        if f.sparse {
                            self.sparse_files = self.sparse_files.saturating_add(1);
                        }
                    },
                }
                assert(self@.skipped =~= before.skipped);
            },
        }
    }
}

/// How many entries a summary accounts for.
pub open spec fn accounted(summary: SummaryView) -> int {
    summary.files + summary.dirs + summary.symlinks + summary.hardlinks + summary.skipped.len()
}

/// No entry is silently dropped: whatever extraction comes to, the summary
/// accounts for one more entry, and says why if it was skipped.
pub proof fn law_no_entry_is_silently_dropped(
    summary: SummaryView,
    f: Facts,
    path: Seq<u8>,
    skipped: Option<SkipReason>,
)
    requires
        accounted(summary) < u64::MAX,
    ensures
        accounted(summary.plus(SummaryView::nothing().with(f, path, skipped))) == accounted(summary)
            + 1,
        skipped matches Some(reason) ==> summary.plus(
            SummaryView::nothing().with(f, path, skipped),
        ).skipped == summary.skipped.push((path, reason)),
{
    let one = SummaryView::nothing().with(f, path, skipped);
    if let Some(reason) = skipped {
        assert(summary.skipped + one.skipped =~= summary.skipped.push((path, reason)));
    }
}

/// Secure extraction behavior.
#[derive(Clone, Copy, Debug)]
#[non_exhaustive]
pub struct UnpackOptions {
    /// Leading path components removed after all name overrides are resolved.
    pub strip_components: usize,
    /// Restore entry modification times.
    pub preserve_mtime: bool,
    /// Restore Unix permission bits.
    pub preserve_permissions: bool,
    /// Replace existing non-directory entries.
    pub overwrite: bool,
}

impl Default for UnpackOptions {
    fn default() -> (options: Self)
        ensures
            options == (UnpackOptions {
                strip_components: 0,
                preserve_mtime: true,
                preserve_permissions: true,
                overwrite: true,
            }),
    {
        UnpackOptions {
            strip_components: 0,
            preserve_mtime: true,
            preserve_permissions: true,
            overwrite: true,
        }
    }
}

/// What the path of an entry allows.
pub open spec fn output_fact(platform: Platform, path: Seq<u8>, strip: usize) -> PathFact {
    match secure_path(platform, path, strip as int) {
        Err(fault) => PathFact::Refused(fault),
        Ok(None) => PathFact::Stripped,
        Ok(Some(components)) => if is_reserved(platform, components) {
            PathFact::Reserved
        } else {
            PathFact::Beneath((components.len() - 1) as usize)
        },
    }
}

/// What the link target of an entry allows as the path of an existing file.
pub open spec fn source_fact(
    platform: Platform,
    target: Option<Seq<u8>>,
    strip: usize,
) -> PathFact {
    match target {
        None => PathFact::Stripped,
        Some(path) => match secure_path(platform, path, strip as int) {
            Err(fault) => PathFact::Refused(fault),
            Ok(None) => PathFact::Stripped,
            Ok(Some(components)) => PathFact::Beneath((components.len() - 1) as usize),
        },
    }
}

/// The components of a path beneath the destination, if there are any.
pub open spec fn components_of(platform: Platform, path: Seq<u8>, strip: usize) -> Seq<Seq<u8>> {
    match secure_path(platform, path, strip as int) {
        Ok(Some(components)) => components,
        _ => Seq::empty(),
    }
}

/// What is known of a member and of the options before extraction.
pub open spec fn facts_of(member: Member, options: UnpackOptions, platform: Platform) -> Facts {
    Facts {
        kind: member.kind,
        sparse: member.sparse is Some,
        size: member.logical_size,
        mode: member.header.mode,
        mtime: member.header.mtime,
        path: output_fact(platform, member.header.path, options.strip_components),
        has_target: member.header.link_name is Some,
        source: source_fact(platform, member.header.link_name, options.strip_components),
        overwrite: options.overwrite,
        preserve_mtime: options.preserve_mtime,
        preserve_permissions: options.preserve_permissions,
        platform,
    }
}

/// Why a member is refused for its path alone: only a directory may have a path
/// that only a directory can have, and no hard link leads to such a path.
pub open spec fn suffix_fault(member: Member, platform: Platform) -> Option<Fault> {
    if !(member.kind is Directory) && requires_directory(platform, member.header.path) {
        Some(Fault::DirectorySuffix)
    } else if member.kind is Hardlink && (member.header.link_name matches Some(target)
        && requires_directory(platform, target)) {
        Some(Fault::HardlinkNeedsDirectory)
    } else {
        None
    }
}

/// Refuses a member for its path alone.
fn validate_directory_suffixes(entry: &Entry, platform: Platform) -> (verdict: Result<(), Fault>)
    ensures
        verdict == match suffix_fault(entry@.member, platform) {
            Some(fault) => Err::<(), Fault>(fault),
            None => Ok(()),
        },
{
    let kind = entry.entry_type();
    if !matches!(kind, EntryType::Directory) && path_requires_directory(
        entry.header().path(),
        platform,
    ) {
        return Err(Fault::DirectorySuffix);
    }
    if matches!(kind, EntryType::Hardlink) {
        if let Some(target) = entry.header().link_name() {
            if path_requires_directory(target, platform) {
                return Err(Fault::HardlinkNeedsDirectory);
            }
        }
    }
    Ok(())
}

/// The extraction of one entry.
pub struct EntryJob {
    facts: Facts,
    stage: Stage,
    path: Vec<u8>,
    components: Vec<Vec<u8>>,
    source: Vec<Vec<u8>>,
    target: Vec<u8>,
    error: Option<std::io::Error>,
    segment: usize,
    within: u64,
    events: Ghost<Seq<Event>>,
}

/// What is known of the extraction of an entry.
pub struct JobView {
    /// What was known before it.
    pub facts: Facts,
    /// How far it is.
    pub stage: Stage,
    /// The path of the entry.
    pub path: Seq<u8>,
    /// Where it is extracted to, beneath the destination.
    pub components: Seq<Seq<u8>>,
    /// Where the file of a hard link is, beneath the destination.
    pub source: Seq<Seq<u8>>,
    /// The link target.
    pub target: Seq<u8>,
    /// The error of the last operation, if it failed.
    pub error: Option<std::io::Error>,
    /// How many segments of a sparse file were written.
    pub segment: int,
    /// How much of the next segment was written.
    pub within: int,
    /// What was asked so far, and how it went.
    pub events: Seq<Event>,
}

impl View for EntryJob {
    type V = JobView;

    closed spec fn view(&self) -> JobView {
        JobView {
            facts: self.facts,
            stage: self.stage,
            path: self.path@,
            components: parts(self.components@),
            source: parts(self.source@),
            target: self.target@,
            error: self.error,
            segment: self.segment as int,
            within: self.within as int,
            events: self.events@,
        }
    }
}

/// The extraction of a member before anything was asked.
pub open spec fn job_of(member: Member, options: UnpackOptions, platform: Platform) -> JobView {
    JobView {
        facts: facts_of(member, options, platform),
        stage: Stage::Announcing,
        path: member.header.path,
        components: components_of(platform, member.header.path, options.strip_components),
        source: match member.header.link_name {
            Some(target) => components_of(platform, target, options.strip_components),
            None => Seq::empty(),
        },
        target: match member.header.link_name {
            Some(target) => target,
            None => Seq::empty(),
        },
        error: None,
        segment: 0,
        within: 0,
        events: Seq::empty(),
    }
}

/// Whether components lead to something beneath the destination, past as many
/// directories as was said.
pub open spec fn leads_beneath(platform: Platform, fact: PathFact, list: Seq<Seq<u8>>) -> bool {
    fact matches PathFact::Beneath(count) ==> {
        &&& list.len() == count + 1
        &&& forall|i: int| 0 <= i < list.len() ==> is_normal(platform, #[trigger] list[i])
    }
}

/// Whether an extraction deals with places beneath the destination.
pub open spec fn job_is_beneath(job: JobView) -> bool {
    &&& leads_beneath(job.facts.platform, job.facts.path, job.components)
    &&& leads_beneath(job.facts.platform, job.facts.source, job.source)
}

/// Where a place is beneath the destination. A temporary name is in the
/// directory of the output.
pub open spec fn place_path(job: JobView, place: Place) -> Seq<Seq<u8>> {
    match place {
        Place::Output => job.components,
        Place::Parent(i) => job.components.take(i + 1),
        Place::Source => job.source,
        Place::SourceParent(i) => job.source.take(i + 1),
        Place::Temporary(_) => job.components.drop_last(),
    }
}

/// Whether a place is one that the extraction deals with.
pub open spec fn has_place(job: JobView, place: Place) -> bool {
    match place {
        Place::Output | Place::Temporary(_) => job.facts.path is Beneath,
        Place::Parent(i) => i < parent_count(job.facts.path),
        Place::Source => job.facts.source is Beneath,
        Place::SourceParent(i) => i < parent_count(job.facts.source),
    }
}

impl EntryJob {
    /// The stage is one that there is, and the places are beneath the
    /// destination.
    pub closed spec fn well_formed(&self) -> bool {
        &&& stage_fits(self.facts, self.stage)
        &&& after(self.facts, self.events@) == Some(Turn::Go(self.stage))
        &&& leads_beneath(self.facts.platform, self.facts.path, self@.components)
        &&& leads_beneath(self.facts.platform, self.facts.source, self@.source)
    }

    /// What was asked so far, and how it went, is a history that leads to where
    /// this extraction is. What is proved of all such histories holds of it.
    pub proof fn law_history_leads_here(&self)
        requires
            self.well_formed(),
        ensures
            after(self@.facts, self@.events) == Some(Turn::Go(self@.stage)),
    {
    }

    /// The output and the file of a hard link are beneath the destination, past as
    /// many directories as was said.
    pub proof fn lemma_leads_beneath(&self)
        requires
            self.well_formed(),
        ensures
            job_is_beneath(self@),
    {
    }

    /// Every place that extraction deals with leads to something beneath the
    /// destination, or to the directory that a temporary name is made in.
    pub proof fn law_places_are_beneath(&self, place: Place)
        requires
            self.well_formed(),
            has_place(self@, place),
        ensures
            !(place is Temporary) ==> place_path(self@, place).len() > 0,
            forall|i: int|
                0 <= i < place_path(self@, place).len() ==> is_normal(
                    self@.facts.platform,
                    #[trigger] place_path(self@, place)[i],
                ),
    {
        let list = place_path(self@, place);
        assert forall|i: int| 0 <= i < list.len() implies is_normal(
            self@.facts.platform,
            #[trigger] list[i],
        ) by {
            match place {
                Place::Source | Place::SourceParent(_) => {
                    assert(list[i] == self@.source[i]);
                },
                _ => {
                    assert(list[i] == self@.components[i]);
                },
            }
        }
    }

    /// Nothing is written through a symbolic link: before this extraction asks
    /// to change anything at its output, it has seen every directory on the way
    /// to be one, and no symbolic link, or has made it.
    pub proof fn law_nothing_is_written_through_symlinks(&self)
        requires
            self.well_formed(),
            changes_output(ask_of(self@.facts, self@.stage)),
        ensures
            forall|i: usize|
                i < parent_count(self@.facts.path) ==> #[trigger] parent_is_safe(
                    self@.events,
                    i,
                ),
    {
        law_nothing_is_written_through_symlinks(self@.facts, self@.events, self@.stage);
    }

    /// What stands at the output is removed or replaced only where that is
    /// allowed.
    pub proof fn law_nothing_is_replaced_unless_allowed(&self)
        requires
            self.well_formed(),
            ask_of(self@.facts, self@.stage) is RemoveFile || ask_of(
                self@.facts,
                self@.stage,
            ) is Rename,
        ensures
            self@.facts.overwrite,
    {
        law_nothing_is_replaced_unless_allowed(self@.facts, self@.events, self@.stage);
    }

    /// What is to be done next.
    pub fn ask(&self) -> (asked: Ask)
        ensures
            asked == ask_of(self@.facts, self@.stage),
    {
        self.facts.ask_of(self.stage)
    }

    /// What is announced of the entry.
    pub fn info(&self) -> (info: EntryInfo)
        ensures
            info.path@ == self@.path,
            info.entry_type == self@.facts.kind,
            info.size == self@.facts.size,
            info.sparse == self@.facts.sparse,
    {
        EntryInfo {
            path: slice_to_vec(self.path.as_slice()),
            entry_type: self.facts.kind,
            size: self.facts.size,
            sparse: self.facts.sparse,
        }
    }

    /// The link target.
    pub fn target(&self) -> (target: &[u8])
        ensures
            target@ == self@.target,
    {
        self.target.as_slice()
    }

    /// Where a place is beneath the destination.
    pub fn place(&self, place: Place) -> (list: Option<Vec<Vec<u8>>>)
        requires
            self.well_formed(),
        ensures
            match list {
                Some(found) => has_place(self@, place) && parts(found@) == place_path(self@, place),
                None => !has_place(self@, place),
            },
    {
        let whole = self.components.as_slice();
        let source = self.source.as_slice();
        let ghost all = parts(whole@);
        let ghost other = parts(source@);
        assert(all.take(all.len() as int) =~= all);
        assert(other.take(other.len() as int) =~= other);
        match place {
            Place::Output => {
                if matches!(self.facts.path, PathFact::Beneath(_)) {
                    Some(copy_components(whole, whole.len()))
                } else {
                    None
                }
            },
            Place::Temporary(_) => {
                if matches!(self.facts.path, PathFact::Beneath(_)) {
                    assert(all.take(all.len() - 1) =~= all.drop_last());
                    Some(copy_components(whole, whole.len() - 1))
                } else {
                    None
                }
            },
            Place::Parent(i) => {
                match self.facts.path {
                    PathFact::Beneath(count) => if i < count {
                        Some(copy_components(whole, i + 1))
                    } else {
                        None
                    },
                    _ => None,
                }
            },
            Place::Source => {
                if matches!(self.facts.source, PathFact::Beneath(_)) {
                    Some(copy_components(source, source.len()))
                } else {
                    None
                }
            },
            Place::SourceParent(i) => {
                match self.facts.source {
                    PathFact::Beneath(count) => if i < count {
                        Some(copy_components(source, i + 1))
                    } else {
                        None
                    },
                    _ => None,
                }
            },
        }
    }
}

/// A run of bytes and where it goes in the file.
#[derive(Debug)]
pub struct Piece {
    /// Where it goes.
    pub offset: u64,
    /// The bytes.
    pub bytes: Vec<u8>,
}

/// The segment that is written next, and how much of it was written, where
/// segments that are complete are passed over.
pub open spec fn unwritten(map: Seq<SparseSegment>, segment: int, within: int) -> (int, int)
    decreases map.len() - segment,
{
    if segment >= map.len() || within < map[segment].len {
        (segment, within)
    } else {
        unwritten(map, segment + 1, 0)
    }
}

/// How many stored bytes of a sparse file were written.
pub open spec fn written_before(map: Seq<SparseSegment>, segment: int, within: int) -> int {
    stored_len(map.take(segment)) + within
}

/// Whether an archive stands where the writing of the contents is: it did not
/// move on, and what is left is what still has to be written.
pub open spec fn fills_in_step(job: JobView, entry: EntryView, archive: ReaderView) -> bool {
    match entry.member.sparse {
        None => entry.in_step(archive),
        Some(map) => {
            let gone = written_before(map, job.segment, job.within);
            &&& 0 <= job.segment <= map.len()
            &&& 0 <= job.within
            &&& job.within <= if job.segment < map.len() {
                map[job.segment].len as int
            } else {
                0
            }
            &&& archive.turns == entry.turns
            &&& archive.delivered.len() == entry.start + gone
            &&& archive.pending == stored_len(map) - gone
        },
    }
}

/// Whether something has still to be written.
pub open spec fn has_unwritten(job: JobView, entry: EntryView) -> bool {
    match entry.member.sparse {
        None => entry.pos < entry.member.logical_size,
        Some(map) => unwritten(map, job.segment, job.within).0 < map.len(),
    }
}

/// An archive that stands at the start of an entry stands where the writing of
/// its contents begins.
pub proof fn law_new_job_fills_in_step(job: JobView, entry: EntryView, archive: ReaderView)
    requires
        stands_before(entry, archive),
        job.segment == 0,
        job.within == 0,
    ensures
        fills_in_step(job, entry, archive),
{
    match entry.member.sparse {
        None => {
            law_found_entry_is_in_step(entry, archive);
        },
        Some(map) => {
            assert(map.take(0) =~= Seq::empty());
        },
    }
}

impl EntryJob {
    /// The next run of the contents for the file, or `None` once all is
    /// written. Holes are left out: a sparse file gets its length before.
    pub fn next_piece<R: Input>(&mut self, entry: &mut Entry, archive: &mut Archive<R>) -> (piece:
        Result<Option<Piece>, Error>)
        requires
            old(self).well_formed(),
            old(entry).well_formed(),
            old(archive).well_formed(),
        ensures
            final(self).well_formed(),
            final(entry).well_formed(),
            final(archive).well_formed(),
            old(archive)@.reads_on(final(archive)@),
            piece_step(
                old(self)@,
                old(entry)@,
                old(archive)@,
                piece,
                final(self)@,
                final(entry)@,
                final(archive)@,
            ),
    {
        let ghost me = entry@;
        let ghost before = archive@;
        let ghost view = self@;
        proof {
            lemma_prefix_of_itself(before.delivered);
            entry.lemma_in_order();
        }
        let mut buf: Vec<u8> = vec![0u8; 65536];
        if entry.sparse_map().is_none() {
            let offset: u64 = entry.position();
            let n: usize = entry.read(archive, buf.as_mut_slice())?;
            if n == 0 {
                return Ok(None);
            }
            let bytes: Vec<u8> = copy_range(buf.as_slice(), 0, n);
            proof {
                let left = me.member.run_end(me.pos as int) - me.pos;
                let want = if left < 65536 {
                    left
                } else {
                    65536
                };
                assert(buf@.take(want).take(n as int) =~= bytes@);
                assert(buf@.take(n as int) =~= bytes@);
            }
            return Ok(Some(Piece { offset, bytes }));
        }
        let ghost map = me.member.sparse->0;
        let segment = match self.find_unwritten(entry) {
            Some(segment) => segment,
            None => {
                return Ok(None);
            },
        };
        let ghost k = self.segment as int;
        let within: u64 = self.within;
        let left: u64 = segment.len - within;
        let want: usize = if left < 65536 {
            left as usize
        } else {
            65536
        };
        let (part, spare) = buf.split_at_mut(want);
        let outcome = entry.read_physical(archive, part);
        proof {
            assert(map.take(k + 1).drop_last() =~= map.take(k));
            lemma_stored_len_grows(map, k + 1, map.len() as int);
            assert(map.take(map.len() as int) =~= map);
        }
        let n: usize = outcome?;
        if n == 0 {
            return Err(Error::Tar(Fault::TruncatedSparseData));
        }
        assert(buf@.subrange(0, n as int) =~= part@.take(n as int));
        let bytes: Vec<u8> = copy_range(buf.as_slice(), 0, n);
        let offset: u64 = segment.offset + within;
        self.within = within + n as u64;
        proof {
            let after = archive@;
            let start = me.start as int;
            if fills_in_step(view, me, before) {
                assert forall|s: Seq<u8>| #[trigger] after.delivered.is_prefix_of(s) implies bytes@
                    == me.member.contents(s, start).subrange(offset as int, offset + n) by {
                    let from = before.delivered.len() as int;
                    lemma_prefix_agrees(after.delivered, s, from, from + n);
                    lemma_segment_bytes(me.member, map, s, start, k, within as int, n as int);
                    assert(after.delivered.subrange(from, from + n) =~= bytes@);
                }
            }
        }
        Ok(Some(Piece { offset, bytes }))
    }

    /// Passes over segments that are complete. Returns the segment that is
    /// written next, if there is one.
    fn find_unwritten(&mut self, entry: &Entry) -> (found: Option<SparseSegment>)
        requires
            old(self).well_formed(),
            entry.well_formed(),
            entry@.member.sparse is Some,
        ensures
            final(self).well_formed(),
            final(self)@ == (JobView {
                segment: final(self)@.segment,
                within: final(self)@.within,
                ..old(self)@
            }),
            ({
                let map = entry@.member.sparse->0;
                let (k, w) = unwritten(map, old(self)@.segment, old(self)@.within);
                &&& final(self)@.segment == k
                &&& final(self)@.within == w
                &&& found == if k < map.len() {
                    Some(map[k])
                } else {
                    None
                }
                &&& k < map.len() ==> w < map[k].len && map[k].end() <= entry@.member.logical_size
                &&& 0 <= old(self)@.segment <= map.len() && 0 <= old(self)@.within <= (if old(
                    self,
                )@.segment < map.len() {
                    map[old(self)@.segment].len as int
                } else {
                    0
                }) ==> {
                    &&& k <= map.len()
                    &&& written_before(map, k, w) == written_before(
                        map,
                        old(self)@.segment,
                        old(self)@.within,
                    )
                    &&& k == map.len() ==> w == 0
                }
            }),
    {
        let ghost map = entry@.member.sparse->0;
        let ghost view = self@;
        proof {
            entry.lemma_in_order();
        }
        match entry.sparse_map() {
            Some(list) => {
                while self.segment < list.len() && self.within >= list[self.segment].len
                    invariant
                        list@ == map,
                        self.well_formed(),
                        view == old(self)@,
                        self@ == (JobView {
                            segment: self@.segment,
                            within: self@.within,
                            ..view
                        }),
                        unwritten(map, view.segment, view.within) == unwritten(
                            map,
                            self@.segment,
                            self@.within,
                        ),
                        0 <= view.segment <= map.len() && 0 <= view.within <= (if view.segment
                            < map.len() {
                            map[view.segment].len as int
                        } else {
                            0
                        }) ==> {
                            &&& self@.segment <= map.len()
                            &&& self@.within <= if self@.segment < map.len() {
                                map[self@.segment].len as int
                            } else {
                                0
                            }
                            &&& written_before(map, self@.segment, self@.within) == written_before(
                                map,
                                view.segment,
                                view.within,
                            )
                        },
                    decreases map.len() - self.segment,
                {
                    assert(map.take(self.segment + 1).drop_last() =~= map.take(
                        self.segment as int,
                    ));
                    self.segment = self.segment + 1;
                    self.within = 0;
                }
                if self.segment < list.len() {
                    assert(map[self.segment as int].end() <= entry@.member.logical_size);
                    Some(list[self.segment])
                } else {
                    None
                }
            },
            None => None,
        }
    }
}

/// Whether a run of the contents is what comes next: nothing where all is
/// written, a refusal where the archive moved on, and the contents themselves
/// where the archive stands where the writing is. The archive then stands where
/// the writing is again.
pub open spec fn piece_step(
    job: JobView,
    entry: EntryView,
    archive: ReaderView,
    piece: Result<Option<Piece>, Error>,
    job_then: JobView,
    entry_then: EntryView,
    archive_then: ReaderView,
) -> bool {
    &&& archive.reads_on(archive_then)
    &&& job_then == (JobView { segment: job_then.segment, within: job_then.within, ..job })
    &&& entry_then == (EntryView { pos: entry_then.pos, ..entry })
    &&& piece matches Ok(Some(found)) ==> archive_then.delivered == archive.delivered
        + found.bytes@
    &&& !has_unwritten(job, entry) ==> piece == Ok::<Option<Piece>, Error>(None) && archive_then
        == archive
    &&& has_unwritten(job, entry) && mark(entry.turns) != mark(archive.turns) ==> piece == Err::<
        Option<Piece>,
        Error,
    >(Error::Tar(Fault::StaleEntry)) && archive_then == archive
    &&& fills_in_step(job, entry, archive) ==> {
        &&& fills_in_step(job_then, entry_then, archive_then)
        &&& archive_then.next_at() == archive.next_at()
        &&& piece_outcome(job, entry, piece, archive_then)
    }
}

/// A run of a segment in the contents of a sparse member is a run of what is
/// stored.
proof fn lemma_segment_bytes(
    member: Member,
    map: Seq<SparseSegment>,
    s: Seq<u8>,
    start: int,
    k: int,
    within: int,
    n: int,
)
    requires
        member.sparse == Some(map),
        member.in_order(),
        0 <= start,
        0 <= k < map.len(),
        0 <= within,
        0 <= n,
        within + n <= map[k].len,
        start + written_before(map, k, within) + n <= s.len(),
    ensures
        member.contents(s, start).subrange(
            map[k].offset + within,
            map[k].offset + within + n,
        ) == s.subrange(
            start + written_before(map, k, within),
            start + written_before(map, k, within) + n,
        ),
{
    let contents = member.contents(s, start);
    let from = map[k].offset + within;
    let place = written_before(map, k, within);
    lemma_stored_len_grows(map, 0, k);
    assert(map.take(0) =~= Seq::empty());
    assert(map[k].end() <= member.logical_size);
    let part = contents.subrange(from, from + n);
    let kept = s.subrange(start + place, start + place + n);
    assert forall|i: int| 0 <= i < n implies #[trigger] part[i] == kept[i] by {
        assert(covers(map, k, from + i));
        law_expansion_places_segments(
            map,
            member.logical_size as nat,
            s.skip(start),
            k,
            from + i,
        );
        assert(s.skip(start)[place + i] == s[start + place + i]);
    }
    assert(part =~= kept);
}

/// Whether what was found to be written next, from an archive that stands where
/// the writing of the contents is, is what the contents are there; and whether
/// nothing was found only where all is written or the input fails.
pub open spec fn piece_outcome(
    job: JobView,
    entry: EntryView,
    piece: Result<Option<Piece>, Error>,
    after: ReaderView,
) -> bool {
    match piece {
        Ok(Some(found)) => {
            let from = found.offset as int;
            let to = from + found.bytes@.len();
            &&& has_unwritten(job, entry)
            &&& 0 < found.bytes@.len()
            &&& to <= entry.member.logical_size
            &&& match entry.member.sparse {
                None => from == entry.pos,
                Some(map) => {
                    let (k, w) = unwritten(map, job.segment, job.within);
                    from == map[k].offset + w && to <= map[k].end()
                },
            }
            &&& forall|s: Seq<u8>| #[trigger]
                after.delivered.is_prefix_of(s) ==> found.bytes@ == entry.member.contents(
                    s,
                    entry.start as int,
                ).subrange(from, to)
        },
        Ok(None) => !has_unwritten(job, entry),
        Err(Error::Tar(fault)) => fault == Fault::TruncatedEntryData && after.ended(),
        Err(Error::Io(error)) => after.failed(error),
    }
}

/// The error that the last operation is to be blamed for.
pub open spec fn noted(job: JobView, answer: Answer) -> Option<std::io::Error> {
    if job.stage is DroppingTemporary {
        job.error
    } else {
        error_in(answer)
    }
}

/// What an answer leads to in an extraction.
pub open spec fn turn_of(job: JobView, answer: Answer) -> Turn {
    advance(job.facts, job.stage, reply_of(answer))
}

/// The extraction after an answer. The error that ends it is handed out.
pub open spec fn job_after(job: JobView, answer: Answer) -> JobView {
    JobView {
        stage: match turn_of(job, answer) {
            Turn::Go(next) => next,
            Turn::Stop(_) => job.stage,
        },
        error: match turn_of(job, answer) {
            Turn::Stop(End::Failed) => None,
            _ => noted(job, answer),
        },
        events: match turn_of(job, answer) {
            Turn::Go(_) => job.events.push(
                Event { ask: ask_of(job.facts, job.stage), reply: reply_of(answer) },
            ),
            Turn::Stop(_) => job.events,
        },
        ..job
    }
}

/// Whether the entry counts as consumed from a stage on.
pub open spec fn consumes(turn: Turn) -> bool {
    match turn {
        Turn::Go(next) => next is MakingDirectory || next is MakingFile || next
            == Stage::LastReport(true),
        Turn::Stop(_) => false,
    }
}

/// The directory whose metadata is put off by an answer.
pub open spec fn put_off(job: JobView, answer: Answer) -> Seq<DeferredView> {
    match (job.stage, answer) {
        (Stage::DirectoryMade, Answer::Found(FileKind::Directory, id)) => seq![
            DeferredView {
                components: job.components,
                mode: job.facts.mode,
                mtime: job.facts.mtime,
                id,
            },
        ],
        _ => Seq::empty(),
    }
}

/// What an extraction that ended comes to: whether the entry was skipped and
/// why, or the error.
pub open spec fn verdict_of(end: End, error: Option<std::io::Error>) -> Result<
    Option<SkipReason>,
    Error,
> {
    match end {
        End::Refused(fault) => Err(Error::Tar(fault)),
        End::Failed => match error {
            Some(error) => Err(Error::Io(error)),
            None => Err(Error::Tar(Fault::UnexpectedAnswer)),
        },
        End::Skipped(reason) => Ok(Some(reason)),
        End::Extracted => Ok(None),
    }
}

/// Stateful secure extractor for callers that inspect or skip individual
/// entries before unpacking them.
///
/// Call [`Self::finish`] after the final entry so directory permissions and
/// modification times are applied after their children have been written.
#[derive(Debug)]
#[must_use]
pub struct EntryUnpacker {
    options: UnpackOptions,
    platform: Platform,
    deferred: Vec<DeferredDirectory>,
}

/// What is known of an extractor.
pub struct UnpackerView {
    /// Its options.
    pub options: UnpackOptions,
    /// The system that is extracted to.
    pub platform: Platform,
    /// The directories whose metadata is restored at the end.
    pub deferred: Seq<DeferredView>,
}

impl View for EntryUnpacker {
    type V = UnpackerView;

    closed spec fn view(&self) -> UnpackerView {
        UnpackerView {
            options: self.options,
            platform: self.platform,
            deferred: deferred_views(self.deferred@),
        }
    }
}

/// Why what stands somewhere is no destination, if it is none.
pub open spec fn destination_fault(kind: FileKind) -> Option<Fault> {
    match kind {
        FileKind::Directory => None,
        FileKind::Symlink => Some(Fault::DestinationIsSymlink),
        FileKind::File | FileKind::Other => Some(Fault::DestinationNotADirectory),
    }
}

impl EntryUnpacker {
    /// Creates a per-entry extractor for a destination that exists, given what
    /// stands there. Only a directory is one, and no symbolic link.
    pub fn new(destination: FileKind, options: UnpackOptions, platform: Platform) -> (unpacker:
        Result<Self, Error>)
        ensures
            match destination_fault(destination) {
                Some(fault) => unpacker == Err::<Self, Error>(Error::Tar(fault)),
                None => unpacker matches Ok(found) && found@ == (UnpackerView {
                    options,
                    platform,
                    deferred: Seq::empty(),
                }),
            },
    {
        match destination {
            FileKind::Directory => {},
            FileKind::Symlink => {
                return Err(Error::Tar(Fault::DestinationIsSymlink));
            },
            FileKind::File | FileKind::Other => {
                return Err(Error::Tar(Fault::DestinationNotADirectory));
            },
        }
        let unpacker = EntryUnpacker { options, platform, deferred: Vec::new() };
        assert(unpacker@.deferred =~= Seq::empty());
        Ok(unpacker)
    }

    /// Begins the extraction of an entry, unless its path alone forbids it.
    pub(crate) fn open(&self, entry: &Entry) -> (job: Result<EntryJob, Fault>)
        ensures
            match suffix_fault(entry@.member, self@.platform) {
                Some(fault) => job == Err::<EntryJob, Fault>(fault),
                None => job matches Ok(found) && found.well_formed() && found@ == job_of(
                    entry@.member,
                    self@.options,
                    self@.platform,
                ),
            },
    {
        let platform = self.platform;
        let strip: usize = self.options.strip_components;
        let ghost member = entry@.member;
        validate_directory_suffixes(entry, platform)?;
        let header = entry.header();
        let mut components: Vec<Vec<u8>> = Vec::new();
        let mut source: Vec<Vec<u8>> = Vec::new();
        let mut target: Vec<u8> = Vec::new();
        let mut has_target: bool = false;
        proof {
            law_accepted_paths_stay_beneath(platform, header@.path, strip as int);
            assert(parts(components@) =~= Seq::empty());
        }
        let path_fact = match secure_relative_path(header.path(), strip, platform) {
            Err(fault) => PathFact::Refused(fault),
            Ok(None) => PathFact::Stripped,
            Ok(Some(list)) => {
                components = list;
                if is_reserved_path(components.as_slice(), platform) {
                    PathFact::Reserved
                } else {
                    PathFact::Beneath(components.len() - 1)
                }
            },
        };
        let mut source_fact = PathFact::Stripped;
        if let Some(link) = header.link_name() {
            has_target = true;
            target = slice_to_vec(link);
            proof {
                law_accepted_paths_stay_beneath(platform, link@, strip as int);
            }
            source_fact = match secure_relative_path(link, strip, platform) {
                Err(fault) => PathFact::Refused(fault),
                Ok(None) => PathFact::Stripped,
                Ok(Some(list)) => {
                    source = list;
                    PathFact::Beneath(source.len() - 1)
                },
            };
        }
        let sparse: bool = entry.sparse_map().is_some();
        let facts = Facts {
            kind: entry.entry_type(),
            sparse,
            size: entry.size(),
            mode: header.mode(),
            mtime: header.mtime(),
            path: path_fact,
            has_target,
            source: source_fact,
            overwrite: self.options.overwrite,
            preserve_mtime: self.options.preserve_mtime,
            preserve_permissions: self.options.preserve_permissions,
            platform,
        };
        let job = EntryJob {
            facts,
            stage: Stage::Announcing,
            path: slice_to_vec(header.path()),
            components,
            source,
            target,
            error: None,
            segment: 0,
            within: 0,
            events: Ghost(Seq::empty()),
        };
        proof {
            assert(facts == facts_of(member, self.options, platform));
            assert(job@.components =~= components_of(platform, member.header.path, strip));
            assert(job@.source =~= job_of(member, self.options, platform).source);
            assert(job@.target =~= job_of(member, self.options, platform).target);
        }
        Ok(job)
    }

    /// Begins the extraction of one entry beneath the configured destination.
    ///
    /// Entries may be inspected and omitted by the caller before invoking
    /// this method. Absolute paths, traversal, and writes through symlinked
    /// parents are rejected. An entry is refused if it is stale, already read
    /// or previously extracted.
    pub fn unpack<R: Input>(&self, entry: &Entry, archive: &Archive<R>) -> (job: Result<
        EntryJob,
        Error,
    >)
        requires
            entry.well_formed(),
            archive.well_formed(),
        ensures
            match unpack_fault(entry@, archive@, self@.platform) {
                Some(fault) => job == Err::<EntryJob, Error>(Error::Tar(fault)),
                None => job matches Ok(found) && found.well_formed() && found@ == job_of(
                    entry@.member,
                    self@.options,
                    self@.platform,
                ),
            },
    {
        if entry.is_stale(archive) {
            return Err(Error::Tar(Fault::StaleEntry));
        }
        if entry.is_consumed() {
            return Err(Error::Tar(Fault::EntryConsumed));
        }
        match self.open(entry) {
            Ok(job) => Ok(job),
            Err(fault) => Err(Error::Tar(fault)),
        }
    }

    /// Takes the answer to what the extraction of an entry asked. Returns what
    /// the extraction came to once it has ended; until then the extraction has
    /// another thing to ask.
    pub fn answer(&mut self, job: &mut EntryJob, entry: &mut Entry, answer: Answer) -> (result:
        Option<Result<UnpackSummary, Error>>)
        requires
            old(job).well_formed(),
            old(entry).well_formed(),
        ensures
            final(job).well_formed(),
            final(job)@ == job_after(old(job)@, answer),
            final(entry).well_formed(),
            final(entry)@ == (EntryView {
                started: old(entry)@.started || consumes(turn_of(old(job)@, answer)),
                ..old(entry)@
            }),
            final(self)@ == (UnpackerView {
                deferred: old(self)@.deferred + put_off(old(job)@, answer),
                ..old(self)@
            }),
            match turn_of(old(job)@, answer) {
                Turn::Go(_) => result is None,
                Turn::Stop(end) => match verdict_of(end, noted(old(job)@, answer)) {
                    Ok(skipped) => result matches Some(Ok(summary)) && summary@
                        == SummaryView::nothing().with(old(job)@.facts, old(job)@.path, skipped),
                    Err(error) => result == Some(Err::<UnpackSummary, Error>(error)),
                },
            },
    {
        let ghost view = job@;
        let ghost given = answer;
        let facts = job.facts;
        let stage = job.stage;
        proof {
            lemma_stage_fits(facts, stage, reply_of(answer));
        }
        let reply = match &answer {
            Answer::Done => Reply::Done,
            Answer::Found(kind, _) => Reply::Found(*kind),
            Answer::Missing(_) => Reply::Missing,
            Answer::Says(yes) => Reply::Says(*yes),
            Answer::Failed(trouble, _) => Reply::Failed(*trouble),
        };
        if let Answer::Found(FileKind::Directory, id) = &answer {
            if matches!(stage, Stage::DirectoryMade) {
                let ghost before = self@.deferred;
                let components = copy_components(job.components.as_slice(), job.components.len());
                assert(parts(components@) =~= view.components);
                let directory = DeferredDirectory::new(components, facts.mode, facts.mtime, *id);
                self.deferred.push(directory);
                assert(self@.deferred =~= before.push(directory@));
            }
        }
        assert(self@.deferred =~= old(self)@.deferred + put_off(view, given));
        if !matches!(stage, Stage::DroppingTemporary(_, _, _)) {
            job.error = answer.into_error();
        }
        match facts.advance(stage, reply) {
            Turn::Go(next) => {
                let ghost event = Event { ask: ask_of(facts, stage), reply };
                assert(job.events@.push(event).drop_last() =~= job.events@);
                job.events = Ghost(job.events@.push(event));
                job.stage = next;
                if matches!(
                    next,
                    Stage::MakingDirectory | Stage::MakingFile | Stage::LastReport(true)
                ) {
                    entry.start_extraction();
                }
                None
            },
            Turn::Stop(end) => {
                let skipped = match end {
                    End::Refused(fault) => {
                        return Some(Err(Error::Tar(fault)));
                    },
                    End::Failed => {
                        return Some(
                            Err(
                                match job.error.take() {
                                    Some(error) => Error::Io(error),
                                    None => Error::Tar(Fault::UnexpectedAnswer),
                                },
                            ),
                        );
                    },
                    End::Skipped(reason) => Some(reason),
                    End::Extracted => None,
                };
                let mut summary = UnpackSummary::default();
                summary.count(facts, job.path.as_slice(), skipped);
                Some(Ok(summary))
            },
        }
    }
}

impl EntryUnpacker {
    /// Completes extraction: the metadata of the directories is left to restore.
    pub fn finish(self) -> (tasks: DirectoryTasks)
        ensures
            tasks.well_formed(),
            tasks@.facts == restore_facts(self@),
            serves(self@.deferred, tasks@.list),
            match first_stage(restore_facts(self@)) {
                Some(first) => tasks@.at == 0 && tasks@.stage == first,
                None => tasks@.at == tasks@.list.len(),
            },
    {
        let mut unpacker = self;
        unpacker.take_tasks()
    }

    /// Hands over the directories whose metadata is left to restore.
    pub(crate) fn take_tasks(&mut self) -> (tasks: DirectoryTasks)
        ensures
            tasks.well_formed(),
            tasks@.facts == restore_facts(old(self)@),
            serves(old(self)@.deferred, tasks@.list),
            match first_stage(restore_facts(old(self)@)) {
                Some(first) => tasks@.at == 0 && tasks@.stage == first,
                None => tasks@.at == tasks@.list.len(),
            },
            final(self)@ == (UnpackerView { deferred: Seq::empty(), ..old(self)@ }),
    {
        let facts = RestoreFacts {
            permissions: self.options.preserve_permissions,
            mtime: self.options.preserve_mtime,
            platform: self.platform,
        };
        let ghost before = self.deferred@;
        let mut list: Vec<DeferredDirectory> = Vec::new();
        list.append(&mut self.deferred);
        assert(list@ =~= before);
        assert(self@.deferred =~= Seq::empty());
        DirectoryTasks::new(list, facts)
    }
}

/// What an extractor restores of the metadata of directories.
pub open spec fn restore_facts(unpacker: UnpackerView) -> RestoreFacts {
    RestoreFacts {
        permissions: unpacker.options.preserve_permissions,
        mtime: unpacker.options.preserve_mtime,
        platform: unpacker.platform,
    }
}

/// Why an entry is not extracted: the archive moved on, the entry was consumed,
/// or its path alone forbids it.
pub open spec fn unpack_fault(entry: EntryView, archive: ReaderView, platform: Platform) -> Option<
    Fault,
> {
    if mark(entry.turns) != mark(archive.turns) {
        Some(Fault::StaleEntry)
    } else if entry.pos != 0 || entry.started {
        Some(Fault::EntryConsumed)
    } else {
        suffix_fault(entry.member, platform)
    }
}

/// An entry is not extracted once the archive got past what was left of it,
/// whether another entry was found then, the archive ended or a later header
/// was bad. The archive would have to move on two to the power of sixty-four
/// times for the entry to be mistaken for the current one.
pub proof fn law_entries_left_behind_are_not_extracted(
    entry: EntryView,
    before: ReaderView,
    after: ReaderView,
    platform: Platform,
)
    requires
        entry.turns <= before.turns,
        before.gets_past(after),
        before.next_at() <= after.delivered.len(),
        after.turns < entry.turns + 0x1_0000_0000_0000_0000,
    ensures
        unpack_fault(entry, after, platform) == Some(Fault::StaleEntry),
{
    lemma_marks_differ(entry.turns, after.turns);
}

} // verus!
