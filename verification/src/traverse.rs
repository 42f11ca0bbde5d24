//! The traversal: in which order files are found, and which rank each gets.
//!
//! The traverser does not touch the file system. It says which directory it
//! needs listed next, is told what the directory holds, and hands out the
//! files one by one, each with the next rank. A directory's content comes
//! before what follows the directory in its parent, so files are ranked as a
//! walk that goes into each directory as it meets it would find them.

use crate::config::{check_mode, Mode, PathError, SearchError};
use crate::events::{SearchTask, SearchTaskView};
use vstd::prelude::*;

verus! {

/// One entry of a directory, as the file system lists it.
#[derive(Clone, Debug, PartialEq, Eq)]
pub struct DirEntry {
    pub path: String,
    pub is_dir: bool,
}

pub struct DirEntryView {
    pub path: Seq<char>,
    pub is_dir: bool,
}

impl View for DirEntry {
    type V = DirEntryView;

    open spec fn view(&self) -> DirEntryView {
        DirEntryView { path: self.path@, is_dir: self.is_dir }
    }
}

/// The views of a list of entries, in order.
pub open spec fn entry_views(entries: Seq<DirEntry>) -> Seq<DirEntryView> {
    entries.map_values(|entry: DirEntry| entry@)
}

/// What the traverser asks for next.
#[derive(Clone, Debug, PartialEq, Eq)]
pub enum Step {
    /// Search this file.
    Search(SearchTask),
    /// List this directory, and tell the traverser what it holds.
    ReadDir(String),
    /// This directory is passed over, since the run is not recursive.
    Skip(String),
    /// Every file has been handed out.
    Finished,
}

pub enum StepView {
    Search(SearchTaskView),
    ReadDir(Seq<char>),
    Skip(Seq<char>),
    Finished,
}

impl View for Step {
    type V = StepView;

    open spec fn view(&self) -> StepView {
        match self {
            Step::Search(task) => StepView::Search(task@),
            Step::ReadDir(path) => StepView::ReadDir(path@),
            Step::Skip(path) => StepView::Skip(path@),
            Step::Finished => StepView::Finished,
        }
    }
}

/// A directory whose listing the traverser waits for.
pub struct AwaitedView {
    pub path: Seq<char>,
    /// Whether it is the directory that the run starts from.
    pub is_root: bool,
}

/// The state of a traversal.
pub struct TraverserView {
    /// Whether directories inside directories are walked.
    pub recursive: bool,
    /// The rank that the next file gets.
    pub next_index: usize,
    /// The directory that is to be listed, if the traverser waits for one.
    pub awaited: Option<AwaitedView>,
    /// The entries that are still to be looked at, the next one first.
    pub pending: Seq<DirEntryView>,
    /// The directories that could not be listed, in the order found.
    pub failed: Seq<Seq<char>>,
}

/// The result of a step: the new state and what is asked for.
pub struct Advance {
    pub state: TraverserView,
    pub step: StepView,
}

/// The state at the start of a run on `path`. A directory is listed first; a
/// single file is the one entry to look at.
pub open spec fn started(path: Seq<char>, mode: Mode, recursive: bool) -> TraverserView {
    match mode {
        Mode::File => TraverserView {
            recursive,
            next_index: 0,
            awaited: None,
            pending: seq![DirEntryView { path, is_dir: false }],
            failed: Seq::empty(),
        },
        Mode::Directory => TraverserView {
            recursive,
            next_index: 0,
            awaited: Some(AwaitedView { path, is_root: true }),
            pending: Seq::empty(),
            failed: Seq::empty(),
        },
    }
}

/// One step. While a listing is awaited, the directory is asked for again.
/// Else the next entry is looked at: a file is handed out under the next
/// rank; a directory is to be listed in a recursive run and passed over in
/// any other. Without an entry left the traversal is over.
pub open spec fn advanced(state: TraverserView) -> Advance {
    if let Some(awaited) = state.awaited {
        Advance { state, step: StepView::ReadDir(awaited.path) }
    } else if state.pending.len() == 0 {
        Advance { state, step: StepView::Finished }
    } else {
        let entry = state.pending.first();
        let rest = state.pending.drop_first();
        if !entry.is_dir {
            Advance {
                state: TraverserView {
                    next_index: (state.next_index + 1) as usize,
                    pending: rest,
                    ..state
                },
                step: StepView::Search(
                    SearchTaskView { sequence_index: state.next_index, file_path: entry.path },
                ),
            }
        } else if state.recursive {
            Advance {
                state: TraverserView {
                    awaited: Some(AwaitedView { path: entry.path, is_root: false }),
                    pending: rest,
                    ..state
                },
                step: StepView::ReadDir(entry.path),
            }
        } else {
            Advance {
                state: TraverserView { pending: rest, ..state },
                step: StepView::Skip(entry.path),
            }
        }
    }
}

/// The state after a listing has arrived: its entries are looked at before
/// everything that was pending, and nothing is awaited any more.
pub open spec fn listed(state: TraverserView, entries: Seq<DirEntryView>) -> TraverserView {
    TraverserView { awaited: None, pending: entries + state.pending, ..state }
}

/// The state after the awaited directory could not be listed: it is noted
/// as failed, unless it is the directory that the run starts from, and
/// nothing is awaited any more.
pub open spec fn gave_up(state: TraverserView) -> TraverserView {
    match state.awaited {
        Some(awaited) => TraverserView {
            awaited: None,
            failed: if awaited.is_root {
                state.failed
            } else {
                state.failed.push(awaited.path)
            },
            ..state
        },
        None => state,
    }
}

struct Awaited {
    path: String,
    is_root: bool,
}

/// Hands out the files of a run in discovery order.
pub struct Traverser {
    recursive: bool,
    next_index: usize,
    awaited: Option<Awaited>,
    /// The entries still to be looked at, the next one last.
    stack: Vec<DirEntry>,
    failed: Vec<String>,
}

/// The entries of a stack from its top down.
spec fn from_top(stack: Seq<DirEntry>) -> Seq<DirEntryView> {
    Seq::new(stack.len(), |i: int| stack[stack.len() - 1 - i]@)
}

impl View for Traverser {
    type V = TraverserView;

    closed spec fn view(&self) -> TraverserView {
        TraverserView {
            recursive: self.recursive,
            next_index: self.next_index,
            awaited: match self.awaited {
                Some(awaited) => Some(
                    AwaitedView { path: awaited.path@, is_root: awaited.is_root },
                ),
                None => None,
            },
            pending: from_top(self.stack@),
            failed: self.failed@.map_values(|path: String| path@),
        }
    }
}

impl Traverser {
    /// Starts a run on `path`. A recursive run on a single file is refused.
    pub fn new(path: String, mode: Mode, recursive: bool) -> (made: Result<Traverser, SearchError>)
        ensures
            made is Err <==> recursive && mode == Mode::File,
            made matches Err(error) ==> error == SearchError::Config,
            made matches Ok(traverser) ==> traverser@ == started(path@, mode, recursive),
    {
        match check_mode(recursive, mode) {
            Err(error) => Err(error),
            Ok(()) => {
                let mut traverser = Traverser {
                    recursive,
                    next_index: 0,
                    awaited: None,
                    stack: Vec::new(),
                    failed: Vec::new(),
                };
                match mode {
                    Mode::File => {
                        traverser.stack.push(DirEntry { path, is_dir: false });
                    },
                    Mode::Directory => {
                        traverser.awaited = Some(Awaited { path, is_root: true });
                    },
                }
                assert(traverser@.pending =~= started(path@, mode, recursive).pending);
                assert(traverser@.failed =~= Seq::empty());
                Ok(traverser)
            },
        }
    }

    /// The rank that the next file gets: the number of files handed out.
    pub fn next_index(&self) -> (next: usize)
        ensures
            next == self@.next_index,
    {
        self.next_index
    }

    /// How many directories could not be listed.
    pub fn failed_count(&self) -> (count: usize)
        ensures
            count == self@.failed.len(),
    {
        self.failed.len()
    }

    /// Says what is to be done next. Ranks are given in the order in which
    /// files are handed out, from 0 on and without a gap.
    pub fn next_step(&mut self) -> (step: Step)
        requires
            old(self)@.next_index < usize::MAX,
        ensures
            final(self)@ == advanced(old(self)@).state,
            step@ == advanced(old(self)@).step,
    {
        if let Some(awaited) = &self.awaited {
            return Step::ReadDir(awaited.path.clone());
        }
        let ghost before = self.stack@;
        match self.stack.pop() {
            None => {
                assert(self@.pending =~= old(self)@.pending);
                Step::Finished
            },
            Some(entry) => {
                assert(entry@ == old(self)@.pending.first());
                assert(self@.pending =~= old(self)@.pending.drop_first()) by {
                    assert(self.stack@ == before.drop_last());
                }
                let DirEntry { path, is_dir } = entry;
                if !is_dir {
                    let sequence_index = self.next_index;
                    self.next_index = sequence_index + 1;
                    Step::Search(SearchTask { sequence_index, file_path: path })
                } else if self.recursive {
                    self.awaited = Some(Awaited { path: path.clone(), is_root: false });
                    Step::ReadDir(path)
                } else {
                    Step::Skip(path)
                }
            },
        }
    }

    /// Takes the listing of the directory that was asked for.
    pub fn entries_read(&mut self, entries: Vec<DirEntry>)
        ensures
            final(self)@ == listed(old(self)@, entry_views(entries@)),
    {
        let mut entries = entries;
        let ghost all = entries@;
        let ghost below = self.stack@;
        self.awaited = None;
        while entries.len() > 0
            invariant
                entries@ == all.take(entries.len() as int),
                entries.len() <= all.len(),
                self.stack@.len() == below.len() + (all.len() - entries.len()),
                forall|j: int| 0 <= j < below.len() ==> self.stack@[j] == below[j],
                forall|j: int|
                    below.len() <= j < self.stack@.len() ==> #[trigger] self.stack@[j] == all[all.len()
                        - 1 - (j - below.len())],
                self.recursive == old(self).recursive,
                self.next_index == old(self).next_index,
                self.awaited is None,
                self.failed == old(self).failed,
            decreases entries.len(),
        {
            let ghost left = entries.len();
            let entry = entries.pop().unwrap();
            assert(entry == all[left - 1]);
            self.stack.push(entry);
            assert(entries@ =~= all.take(entries.len() as int));
        }
        assert(self@.pending =~= entry_views(all) + old(self)@.pending);
    }

    /// Takes note that the directory that was asked for could not be
    /// listed. For the directory that the run starts from this is an error
    /// that ends the run; any other is passed over.
    pub fn read_failed(&mut self) -> (noted: Result<(), SearchError>)
        ensures
            final(self)@ == gave_up(old(self)@),
            noted is Err <==> (old(self)@.awaited matches Some(awaited) && awaited.is_root),
            noted matches Err(error) ==> error == SearchError::Path(PathError::Unreadable),
    {
        let awaited = self.awaited.take();
        match awaited {
            None => {
                assert(self@.failed =~= old(self)@.failed);
                Ok(())
            },
            Some(Awaited { path, is_root }) => {
                if is_root {
                    assert(self@.failed =~= old(self)@.failed);
                    Err(SearchError::Path(PathError::Unreadable))
                } else {
                    self.failed.push(path);
                    assert(self@.failed =~= old(self)@.failed.push(path@));
                    Ok(())
                }
            },
        }
    }
}

/// One call on a traverser.
pub enum Call {
    /// `next_step`.
    Step,
    /// `entries_read` with these entries.
    Listed(Seq<DirEntryView>),
    /// `read_failed`.
    GaveUp,
}

/// The state after one call.
pub open spec fn called(state: TraverserView, call: Call) -> TraverserView {
    match call {
        Call::Step => advanced(state).state,
        Call::Listed(entries) => listed(state, entries),
        Call::GaveUp => gave_up(state),
    }
}

/// The state after a list of calls, one after the other.
pub open spec fn called_all(state: TraverserView, calls: Seq<Call>) -> TraverserView
    decreases calls.len(),
{
    if calls.len() == 0 {
        state
    } else {
        called(called_all(state, calls.drop_last()), calls.last())
    }
}

/// The files that a list of calls hands out, in order.
pub open spec fn handed_out(state: TraverserView, calls: Seq<Call>) -> Seq<SearchTaskView>
    decreases calls.len(),
{
    if calls.len() == 0 {
        Seq::empty()
    } else {
        let before = handed_out(state, calls.drop_last());
        match (calls.last(), advanced(called_all(state, calls.drop_last())).step) {
            (Call::Step, StepView::Search(task)) => before.push(task),
            _ => before,
        }
    }
}

/// Ranks are given in the order in which files are handed out, without a gap
/// and without a repeat: in whatever way steps, listings and failures
/// follow one another, the file handed out as number `k` of a run has rank
/// `k`.
pub proof fn lemma_ranks_count_up(state: TraverserView, calls: Seq<Call>)
    requires
        state.next_index + calls.len() <= usize::MAX,
    ensures
        handed_out(state, calls).len() <= calls.len(),
        called_all(state, calls).next_index == state.next_index + handed_out(state, calls).len(),
        forall|k: int|
            0 <= k < handed_out(state, calls).len() ==> (#[trigger] handed_out(
                state,
                calls,
            )[k]).sequence_index == state.next_index + k,
    decreases calls.len(),
{
    if calls.len() > 0 {
        lemma_ranks_count_up(state, calls.drop_last());
    }
}

/// The paths of the entries that are files, in order.
pub open spec fn files_among(entries: Seq<DirEntryView>) -> Seq<Seq<char>>
    decreases entries.len(),
{
    if entries.len() == 0 {
        Seq::empty()
    } else if entries.last().is_dir {
        files_among(entries.drop_last())
    } else {
        files_among(entries.drop_last()).push(entries.last().path)
    }
}

/// `count` steps in a row.
pub open spec fn steps(count: nat) -> Seq<Call> {
    Seq::new(count, |i: int| Call::Step)
}

/// The paths of a list of tasks, in order.
pub open spec fn paths_of(tasks: Seq<SearchTaskView>) -> Seq<Seq<char>> {
    tasks.map_values(|task: SearchTaskView| task.file_path)
}

/// A run that is not recursive hands out the files of a listing in the
/// order of the listing, and passes over the directories among them.
pub proof fn lemma_listing_order_is_kept(state: TraverserView, count: nat)
    requires
        state.awaited is None,
        !state.recursive,
        count <= state.pending.len(),
    ensures
        paths_of(handed_out(state, steps(count))) == files_among(state.pending.take(count as int)),
        called_all(state, steps(count)).pending == state.pending.skip(count as int),
        called_all(state, steps(count)).awaited is None,
        !called_all(state, steps(count)).recursive,
    decreases count,
{
    if count == 0 {
        assert(state.pending.skip(0) =~= state.pending);
        assert(state.pending.take(0) =~= Seq::empty());
        assert(paths_of(handed_out(state, steps(0))) =~= Seq::empty());
    } else {
        let fewer = (count - 1) as nat;
        lemma_listing_order_is_kept(state, fewer);
        assert(steps(count).drop_last() =~= steps(fewer));
        let before = called_all(state, steps(fewer));
        let entry = state.pending[count - 1];
        assert(before.pending.first() == entry);
        assert(before.pending.drop_first() =~= state.pending.skip(count as int));
        assert(state.pending.take(count as int).drop_last() =~= state.pending.take(fewer as int));
        assert(state.pending.take(count as int).last() == entry);
        let tasks = handed_out(state, steps(fewer));
        if !entry.is_dir {
            let task = SearchTaskView { sequence_index: before.next_index, file_path: entry.path };
            assert(handed_out(state, steps(count)) == tasks.push(task));
            assert(paths_of(tasks.push(task)) =~= paths_of(tasks).push(entry.path));
        } else {
            assert(handed_out(state, steps(count)) == tasks);
        }
    }
}

} // verus!
