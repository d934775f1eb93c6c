//! The viewer's search session: the open file, the search results and the
//! cursor among them, the stages of successive refinement and their windows,
//! and the status line. The user interface performs what the session decides
//! and hands back what the background work found.

use vstd::prelude::*;
use vstd::string::*;
use std::collections::HashSet;
use std::sync::Arc;
use vstd::arithmetic::div_mod::{lemma_fundamental_div_mod, lemma_fundamental_div_mod_converse};
use crate::bindings::{lowercase_of, trim, trimmed_of};
use crate::file_handler::FileHandler;
use crate::search::{all_lines, matching_lines, refine_lines};

verus! {

broadcast use vstd::std_specs::hash::group_hash_axioms;

/// One stage of results: stage `id` found `line_indices` for `keyword`.
pub struct SearchStage {
    pub id: usize,
    pub keyword: String,
    pub line_indices: Vec<usize>,
}

/// The window that shows a stage, with the keyword typed in it for the next
/// refinement and whether it is open.
pub struct SearchWindowState {
    pub stage_index: usize,
    pub refine_query: String,
    pub open: bool,
}

/// What the status line reports.
pub enum Status {
    /// Nothing is open yet.
    Ready,
    /// A file was opened and indexed.
    Opened { file_name: String, total_lines: usize, file_size: u64, encoding_name: String },
    /// The search was cleared on an open file.
    Cleared { file_name: String, total_lines: usize, encoding_name: String },
    /// Opening a file failed.
    OpenFailed { error: String },
    /// A file is being indexed.
    Indexing { file_name: String },
    /// A search is running.
    Searching { keyword: String },
    /// A search or refinement found nothing.
    NoResult { keyword: String },
    /// A search found `count` lines.
    Found { count: usize, keyword: String },
    /// Refinement stage `stage_id` found `count` lines.
    StageFound { stage_id: usize, count: usize, keyword: String },
}

/// How a line number is marked in the margin.
#[derive(Clone, Copy, Debug, PartialEq, Eq, Structural)]
pub enum RowMark {
    /// The current result.
    Selected,
    /// Another search result.
    Matched,
    /// Not a result.
    Plain,
}

/// A search the session has started: the file to search and the keyword.
pub struct SearchRequest {
    pub handler: Arc<FileHandler>,
    pub keyword: String,
}

/// The index that moving `delta` results from `current` lands on, wrapping
/// around the `len` results in both directions.
pub open spec fn wrapped_index(current: int, delta: int, len: int) -> int {
    (current + delta) % len
}

/// The viewer's session state.
pub struct ViewerState {
    pub file_handler: Option<Arc<FileHandler>>,
    pub status: Status,
    pub search_query: String,
    pub search_results: Vec<usize>,
    pub search_result_set: HashSet<usize>,
    pub current_result: usize,
    pub scroll_to_line: Option<usize>,
    pub is_searching: bool,
    pub stages: Vec<SearchStage>,
    pub windows: Vec<SearchWindowState>,
    pub pending_keyword: String,
    pub nil_dialog: bool,
    pub about_open: bool,
}

impl ViewerState {
    /// The session's invariant: an open file is well-formed, the result set
    /// holds exactly the results, the cursor points at a result (or is 0 when
    /// there is none), stage `i` has id `i + 1`, and window `i` shows stage
    /// `i`.
    pub open spec fn wf(&self) -> bool {
        &&& (self.file_handler matches Some(h) ==> h.wf())
        &&& self.search_result_set@ == self.search_results@.to_set()
        &&& (self.search_results@.len() == 0 ==> self.current_result == 0)
        &&& (self.search_results@.len() > 0 ==> self.current_result < self.search_results@.len())
        &&& self.windows@.len() == self.stages@.len()
        &&& forall|i: int| 0 <= i < self.stages@.len() ==> #[trigger] self.stages@[i].id == i + 1
        &&& forall|i: int|
            0 <= i < self.windows@.len() ==> #[trigger] self.windows@[i].stage_index == i
    }

    /// No results, stages, windows, pending keyword, dialog or running
    /// search are left.
    pub open spec fn results_cleared(&self) -> bool {
        &&& self.search_results@.len() == 0
        &&& self.search_result_set@ == Set::<usize>::empty()
        &&& self.current_result == 0
        &&& self.scroll_to_line is None
        &&& self.stages@.len() == 0
        &&& self.windows@.len() == 0
        &&& self.pending_keyword@.len() == 0
        &&& !self.nil_dialog
        &&& !self.is_searching
    }

    /// `self` is `before` after `indices` were shown as the results for
    /// `keyword`: the cursor is on the first result; no result opens the
    /// "Nil result" dialog, otherwise a new stage and an open window for it
    /// are added; the status line reports what was found.
    pub open spec fn stage_applied(
        &self,
        before: ViewerState,
        keyword: Seq<char>,
        indices: Seq<usize>,
        first_search: bool,
    ) -> bool {
        &&& self.search_results@ == indices
        &&& self.search_result_set@ == indices.to_set()
        &&& self.current_result == 0
        &&& self.scroll_to_line == (if indices.len() > 0 {
            Some(indices[0])
        } else {
            None
        })
        &&& self.file_handler == before.file_handler
        &&& self.search_query == before.search_query
        &&& self.pending_keyword == before.pending_keyword
        &&& self.about_open == before.about_open
        &&& indices.len() == 0 ==> {
            &&& self.status matches Status::NoResult { keyword: k } && k@ == keyword
            &&& self.nil_dialog
            &&& self.stages == before.stages
            &&& self.windows == before.windows
        }
        &&& indices.len() > 0 ==> {
            &&& self.stages@.len() == before.stages@.len() + 1
            &&& self.stages@.drop_last() == before.stages@
            &&& self.stages@.last().id == self.stages@.len()
            &&& self.stages@.last().keyword@ == keyword
            &&& self.stages@.last().line_indices@ == indices
            &&& self.windows@.drop_last() == before.windows@
            &&& self.windows@.last().stage_index == before.stages@.len()
            &&& self.windows@.last().open
            &&& self.windows@.last().refine_query@.len() == 0
            &&& self.nil_dialog == before.nil_dialog
            &&& first_search ==> (self.status matches Status::Found { count, keyword: k } && count
                == indices.len() && k@ == keyword)
            &&& !first_search ==> (self.status matches Status::StageFound {
                stage_id,
                count,
                keyword: k,
            } && stage_id == self.stages@.len() && count == indices.len() && k@ == keyword)
        }
    }

    /// A session with nothing open.
    pub fn new() -> (state: ViewerState)
        ensures
            state.wf(),
            state.results_cleared(),
            state.status is Ready,
            state.file_handler is None,
            state.search_query@.len() == 0,
            !state.about_open,
    {
        proof {
            assert(Seq::<usize>::empty().to_set() =~= Set::<usize>::empty());
        }
        ViewerState {
            file_handler: None,
            status: Status::Ready,
            search_query: String::new(),
            search_results: Vec::new(),
            search_result_set: HashSet::new(),
            current_result: 0,
            scroll_to_line: None,
            is_searching: false,
            stages: Vec::new(),
            windows: Vec::new(),
            pending_keyword: String::new(),
            nil_dialog: false,
            about_open: false,
        }
    }

    /// Forgets all results, stages and windows, and any search in progress.
    pub fn reset_results(&mut self)
        requires
            old(self).file_handler matches Some(h) ==> h.wf(),
        ensures
            final(self).wf(),
            final(self).results_cleared(),
            final(self).file_handler == old(self).file_handler,
            final(self).status == old(self).status,
            final(self).search_query == old(self).search_query,
            final(self).about_open == old(self).about_open,
    {
        self.search_results.clear();
        self.search_result_set.clear();
        self.current_result = 0;
        self.scroll_to_line = None;
        self.stages.clear();
        self.windows.clear();
        self.pending_keyword = String::new();
        self.nil_dialog = false;
        self.is_searching = false;
        assert(self.search_results@.to_set() =~= Set::<usize>::empty());
    }

    /// Empties the search box and the results; the status line goes back to
    /// describing the open file.
    pub fn clear_search(&mut self)
        requires
            old(self).wf(),
        ensures
            final(self).wf(),
            final(self).results_cleared(),
            final(self).search_query@.len() == 0,
            final(self).file_handler == old(self).file_handler,
            final(self).about_open == old(self).about_open,
            match old(self).file_handler {
                Some(h) => final(self).status matches Status::Cleared {
                    file_name,
                    total_lines,
                    encoding_name,
                } && file_name@ == h.spec_file_name() && total_lines == h.offsets().len()
                    && encoding_name@ == h.encoding().label(),
                None => final(self).status == old(self).status,
            },
    {
        self.search_query = String::new();
        self.reset_results();
        match &self.file_handler {
            Some(handler) => {
                let file_name = handler.file_name().clone();
                let total_lines = handler.total_lines();
                let encoding_name = handler.encoding_name().clone();
                self.status = Status::Cleared { file_name, total_lines, encoding_name };
            },
            None => {},
        }
    }

    /// A file named `file_name` starts being opened: the open file and all
    /// results are dropped.
    pub fn begin_open(&mut self, file_name: String)
        requires
            old(self).wf(),
        ensures
            final(self).wf(),
            final(self).results_cleared(),
            final(self).status == (Status::Indexing { file_name }),
            final(self).file_handler is None,
            final(self).search_query == old(self).search_query,
            final(self).about_open == old(self).about_open,
    {
        self.status = Status::Indexing { file_name };
        self.file_handler = None;
        self.reset_results();
    }

    /// Opening finished with `handler`: it becomes the open file and the
    /// status line describes it.
    pub fn file_opened(&mut self, handler: FileHandler)
        requires
            old(self).wf(),
            handler.wf(),
        ensures
            final(self).wf(),
            final(self).results_cleared(),
            final(self).file_handler matches Some(h) && *h == handler,
            final(self).status matches Status::Opened {
                file_name,
                total_lines,
                file_size,
                encoding_name,
            } && file_name@ == handler.spec_file_name() && total_lines == handler.offsets().len()
                && file_size == handler.spec_file_size() && encoding_name@
                == handler.encoding().label(),
            final(self).search_query == old(self).search_query,
            final(self).about_open == old(self).about_open,
    {
        let file_name = handler.file_name().clone();
        let total_lines = handler.total_lines();
        let file_size = handler.file_size();
        let encoding_name = handler.encoding_name().clone();
        self.status = Status::Opened { file_name, total_lines, file_size, encoding_name };
        self.file_handler = Some(Arc::new(handler));
        self.reset_results();
    }

    /// Opening failed with `error`: no file is open.
    pub fn file_failed(&mut self, error: String)
        requires
            old(self).wf(),
        ensures
            final(self).wf(),
            *final(self) == (ViewerState {
                status: Status::OpenFailed { error },
                file_handler: None,
                ..*old(self)
            }),
    {
        self.status = Status::OpenFailed { error };
        self.file_handler = None;
    }

    /// Starts a search for the trimmed search box: refused (`None`) when the
    /// keyword is empty, no file is open or a search is running; otherwise
    /// the results are reset, the session waits for the search, and the file
    /// and keyword to search are returned.
    pub fn start_search(&mut self) -> (request: Option<SearchRequest>)
        requires
            old(self).wf(),
        ensures
            final(self).wf(),
            request is None <==> (trimmed_of(old(self).search_query@).len() == 0
                || old(self).file_handler is None || old(self).is_searching),
            request is None ==> *final(self) == *old(self),
            request matches Some(r) ==> {
                &&& old(self).file_handler == Some(r.handler)
                &&& r.keyword@ == trimmed_of(old(self).search_query@)
                &&& final(self).is_searching
                &&& final(self).pending_keyword@ == r.keyword@
                &&& final(self).status matches Status::Searching { keyword } && keyword@
                    == r.keyword@
                &&& final(self).search_results@.len() == 0
                &&& final(self).search_result_set@ == Set::<usize>::empty()
                &&& final(self).current_result == 0
                &&& final(self).scroll_to_line is None
                &&& final(self).stages@.len() == 0
                &&& final(self).windows@.len() == 0
                &&& !final(self).nil_dialog
                &&& final(self).file_handler == old(self).file_handler
                &&& final(self).search_query == old(self).search_query
                &&& final(self).about_open == old(self).about_open
            },
    {
        let keyword = String::from_str(trim(self.search_query.as_str()));
        if keyword.as_str().is_empty() || self.file_handler.is_none() || self.is_searching {
            return None;
        }
        let handler = match &self.file_handler {
            Some(h) => h.clone(),
            None => {
                return None;
            },
        };
        self.reset_results();
        self.is_searching = true;
        self.pending_keyword = keyword.clone();
        self.status = Status::Searching { keyword: keyword.clone() };
        Some(SearchRequest { handler, keyword })
    }

    /// The running search finished with `indices`: they become the first
    /// stage of results for the pending keyword.
    pub fn search_finished(&mut self, indices: Vec<usize>)
        requires
            old(self).wf(),
            old(self).stages@.len() < usize::MAX,
        ensures
            final(self).wf(),
            !final(self).is_searching,
            final(self).stage_applied(*old(self), old(self).pending_keyword@, indices@, true),
    {
        self.is_searching = false;
        let keyword = self.pending_keyword.clone();
        self.apply_stage(keyword, indices, true);
    }

    /// Refines stage `stage_index` by `keyword`: its lines that also contain
    /// the trimmed keyword, ignoring case, become a new stage. Nothing happens
    /// when the trimmed keyword is empty, there is no such stage or no file
    /// is open.
    pub fn refine_search_in_stage(&mut self, stage_index: usize, keyword: String)
        requires
            old(self).wf(),
            old(self).stages@.len() < usize::MAX,
        ensures
            final(self).wf(),
            (trimmed_of(keyword@).len() == 0 || stage_index >= old(self).stages@.len()
                || old(self).file_handler is None) ==> *final(self) == *old(self),
            !(trimmed_of(keyword@).len() == 0 || stage_index >= old(self).stages@.len()
                || old(self).file_handler is None) ==> {
                &&& final(self).stage_applied(
                    *old(self),
                    trimmed_of(keyword@),
                    matching_lines(
                        &*old(self).file_handler->0,
                        old(self).stages@[stage_index as int].line_indices@,
                        lowercase_of(trimmed_of(keyword@)),
                    ),
                    false,
                )
                &&& final(self).is_searching == old(self).is_searching
            },
    {
        let keyword = String::from_str(trim(keyword.as_str()));
        if keyword.as_str().is_empty() || stage_index >= self.stages.len() {
            return;
        }
        let indices = match &self.file_handler {
            Some(handler) => refine_lines(
                &**handler,
                self.stages[stage_index].line_indices.as_slice(),
                keyword.as_str(),
            ),
            None => {
                return;
            },
        };
        self.apply_stage(keyword, indices, false);
    }

    /// Shows `indices` as the current results for `keyword` and moves to the
    /// first one. No result opens the "Nil result" dialog; otherwise the
    /// results become a new stage with its own window.
    pub fn apply_stage(&mut self, keyword: String, indices: Vec<usize>, first_search: bool)
        requires
            old(self).wf(),
            old(self).stages@.len() < usize::MAX,
        ensures
            final(self).wf(),
            final(self).stage_applied(*old(self), keyword@, indices@, first_search),
            final(self).is_searching == old(self).is_searching,
            indices@.len() == 0 ==> final(self).nil_dialog,
            indices@.len() > 0 ==> final(self).windows@.last().open
                && final(self).windows@.last().stage_index == final(self).stages@.len() - 1,
    {
        let mut set: HashSet<usize> = HashSet::new();
        let mut k: usize = 0;
        while k < indices.len()
            invariant
                k <= indices@.len(),
                set@ == indices@.take(k as int).to_set(),
            decreases indices@.len() - k,
        {
            set.insert(indices[k]);
            proof {
                let pre = indices@.take(k as int);
                let post = indices@.take(k + 1);
                let v = indices@[k as int];
                assert(post =~= pre.push(v));
                assert forall|x: usize| post.contains(x) <==> pre.contains(x) || x == v by {
                    if post.contains(x) {
                        let j = choose|j: int| 0 <= j < post.len() && post[j] == x;
                        if j < k {
                            assert(pre[j] == x);
                        }
                    }
                    if pre.contains(x) {
                        let j = choose|j: int| 0 <= j < pre.len() && pre[j] == x;
                        assert(post[j] == x);
                    }
                    if x == v {
                        assert(post[k as int] == x);
                    }
                }
                assert(post.to_set() =~= pre.to_set().insert(v));
            }
            k = k + 1;
        }
        assert(indices@.take(indices@.len() as int) =~= indices@);
        self.search_result_set = set;
        self.current_result = 0;
        self.scroll_to_line = if indices.len() > 0 {
            Some(indices[0])
        } else {
            None
        };
        if indices.len() == 0 {
            self.search_results = indices;
            self.status = Status::NoResult { keyword };
            self.nil_dialog = true;
            return;
        }
        let count = indices.len();
        self.search_results = indices.clone();
        let ghost old_stages = self.stages@;
        let ghost old_windows = self.windows@;
        let stage_id = self.stages.len() + 1;
        self.stages.push(SearchStage { id: stage_id, keyword: keyword.clone(), line_indices: indices });
        self.windows.push(
            SearchWindowState {
                stage_index: self.stages.len() - 1,
                refine_query: String::new(),
                open: true,
            },
        );
        assert(self.stages@.drop_last() =~= old_stages);
        assert(self.windows@.drop_last() =~= old_windows);
        assert forall|i: int| 0 <= i < self.stages@.len() implies #[trigger] self.stages@[i].id == i
            + 1 by {
            if i < old_stages.len() {
                assert(self.stages@[i] == old_stages[i]);
            }
        }
        assert forall|i: int| 0 <= i < self.windows@.len() implies #[trigger] self.windows@[i].stage_index
            == i by {
            if i < old_windows.len() {
                assert(self.windows@[i] == old_windows[i]);
            }
        }
        self.status = if first_search {
            Status::Found { count, keyword }
        } else {
            Status::StageFound { stage_id, count, keyword }
        };
    }

    /// Moves the cursor `delta` results forward (backward when negative),
    /// wrapping around, and scrolls to the result it lands on. Nothing
    /// happens when there is no result.
    pub fn go_to_result(&mut self, delta: isize)
        requires
            old(self).wf(),
            old(self).search_results@.len() > 0 ==> isize::MIN <= old(self).current_result + delta
                <= isize::MAX,
        ensures
            final(self).wf(),
            old(self).search_results@.len() == 0 ==> *final(self) == *old(self),
            old(self).search_results@.len() > 0 ==> *final(self) == (ViewerState {
                current_result: wrapped_index(
                    old(self).current_result as int,
                    delta as int,
                    old(self).search_results@.len() as int,
                ) as usize,
                scroll_to_line: Some(
                    old(self).search_results@[wrapped_index(
                        old(self).current_result as int,
                        delta as int,
                        old(self).search_results@.len() as int,
                    )],
                ),
                ..*old(self)
            }),
    {
        if self.search_results.len() == 0 {
            return;
        }
        let len = self.search_results.len();
        let cur = self.current_result;
        let next = if delta >= 0 {
            let magnitude = delta as usize;
            let d = magnitude % len;
            let ghost q = magnitude as int / len as int;
            proof {
                lemma_fundamental_div_mod(magnitude as int, len as int);
                assert(q * len + len == (q + 1) * len) by (nonlinear_arith);
                assert(len * q == q * len) by (nonlinear_arith);
            }
            if d >= len - cur {
                let r = d - (len - cur);
                proof {
                    lemma_fundamental_div_mod_converse(cur + delta, len as int, q + 1, r as int);
                }
                r
            } else {
                let r = cur + d;
                proof {
                    lemma_fundamental_div_mod_converse(cur + delta, len as int, q, r as int);
                }
                r
            }
        } else {
            let magnitude = (-(delta + 1)) as usize + 1;
            let d = magnitude % len;
            let ghost q = magnitude as int / len as int;
            proof {
                lemma_fundamental_div_mod(magnitude as int, len as int);
                assert(len * q == q * len) by (nonlinear_arith);
                assert((-q) * len == -(q * len)) by (nonlinear_arith);
                assert((-q - 1) * len == -(q * len) - len) by (nonlinear_arith);
            }
            if d <= cur {
                let r = cur - d;
                proof {
                    lemma_fundamental_div_mod_converse(cur + delta, len as int, -q, r as int);
                }
                r
            } else {
                let r = cur + (len - d);
                proof {
                    lemma_fundamental_div_mod_converse(cur + delta, len as int, -q - 1, r as int);
                }
                r
            }
        };
        self.current_result = next;
        self.scroll_to_line = Some(self.search_results[next]);
    }

    /// How line `row` is marked: the current result, another result, or
    /// neither.
    pub fn row_mark(&self, row: usize) -> (mark: RowMark)
        requires
            self.wf(),
        ensures
            mark == (if self.search_results@.len() > 0 && self.search_results@[self.current_result as int]
                == row {
                RowMark::Selected
            } else if self.search_results@.contains(row) {
                RowMark::Matched
            } else {
                RowMark::Plain
            }),
    {
        if self.current_result < self.search_results.len() && self.search_results[self.current_result]
            == row {
            RowMark::Selected
        } else if self.search_result_set.contains(&row) {
            RowMark::Matched
        } else {
            RowMark::Plain
        }
    }
}

/// Moving one result forward and then one back returns to the same result,
/// and so does one back and then one forward.
pub proof fn lemma_step_and_back(current: int, len: int)
    requires
        0 <= current < len,
    ensures
        wrapped_index(wrapped_index(current, 1, len), -1, len) == current,
        wrapped_index(wrapped_index(current, -1, len), 1, len) == current,
        0 <= wrapped_index(current, 1, len) < len,
        0 <= wrapped_index(current, -1, len) < len,
{
    if current + 1 < len {
        lemma_fundamental_div_mod_converse(current + 1, len, 0, current + 1);
        lemma_fundamental_div_mod_converse(current, len, 0, current);
    } else {
        lemma_fundamental_div_mod_converse(current + 1, len, 1, 0);
        lemma_fundamental_div_mod_converse(-1, len, -1, len - 1);
    }
    if current > 0 {
        lemma_fundamental_div_mod_converse(current - 1, len, 0, current - 1);
        lemma_fundamental_div_mod_converse(current, len, 0, current);
    } else {
        lemma_fundamental_div_mod_converse(-1, len, -1, len - 1);
        lemma_fundamental_div_mod_converse(len, len, 1, 0);
    }
}

/// Whether it came from the first search or from a refinement, a result
/// that finds nothing leaves the "Nil result" dialog open, and one that finds
/// lines adds a stage for exactly those lines, shown in a window that is open.
pub proof fn lemma_stage_outcome_shown(
    after: ViewerState,
    before: ViewerState,
    keyword: Seq<char>,
    indices: Seq<usize>,
    first_search: bool,
)
    requires
        after.wf(),
        after.stage_applied(before, keyword, indices, first_search),
    ensures
        indices.len() == 0 ==> after.nil_dialog && after.stages@.len() == before.stages@.len(),
        indices.len() > 0 ==> {
            &&& after.windows@.len() > 0
            &&& after.windows@.last().open
            &&& after.windows@.last().stage_index == after.stages@.len() - 1
            &&& after.stages@.len() == before.stages@.len() + 1
            &&& after.stages@.last().line_indices@ == indices
        },
{
}

} // verus!
