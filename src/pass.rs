//! One generation pass over the fragments of a source directory, as a state
//! machine: the caller performs each action on the file system and hands the
//! outcome back as an event.
use crate::render::{page_of, render_page};
use vstd::prelude::*;

verus! {

broadcast use vstd::string::group_string_axioms;

/// The errors of the generator.
pub enum PageError {
    /// Wrong number of command-line arguments.
    Config,
    /// A file-system operation failed; the text says which and why.
    Io(String),
    /// The change subscription on the templates directory could not be set up.
    WatchSetup(String),
    /// The change-notification channel reported a failure.
    WatchChannel(String),
}

/// What the caller learned of one directory entry of the source directory.
pub struct EntryInfo {
    /// The entry's file name (invalid text replaced where `name_is_text` is false).
    pub name: String,
    /// Whether the file name is valid text.
    pub name_is_text: bool,
    /// Whether the entry is a regular file.
    pub is_file: bool,
}

/// The outcome of the last action, handed to the pass.
pub enum Event {
    /// The action succeeded (directory created or opened, page written).
    Completed,
    /// The directory listing produced this entry.
    Entry(EntryInfo),
    /// The directory listing has no more entries.
    NoMoreEntries,
    /// The fragment asked for was read and holds this text.
    Content(String),
    /// The action failed with this message.
    Failed(String),
}

/// What the caller must do next.
pub enum Action {
    /// Create the pages directory, with any missing parents.
    CreatePagesDir,
    /// Open the templates directory for listing.
    OpenTemplatesDir,
    /// Fetch the next entry of the listing.
    FetchEntry,
    /// Read the fragment of this file name in the templates directory.
    ReadFragment(String),
    /// Write this page under this file name in the pages directory.
    WritePage(String, String),
    /// The pass is over; its outcome is `Pass::outcome`.
    Finish,
}

/// Where a pass stands.
pub enum Phase {
    CreateDest,
    OpenSource,
    NextEntry,
    Reading(String),
    Writing(String, String),
    /// Over: `None` on success, else the failure's message.
    Done(Option<String>),
}

/// The mathematical state of a pass.
pub enum Stage {
    CreateDest,
    OpenSource,
    NextEntry,
    Reading(Seq<char>),
    Writing(Seq<char>, Seq<char>),
    Finished(Option<Seq<char>>),
}

/// The mathematical form of an event.
pub enum EventView {
    Completed,
    Entry(Seq<char>, bool, bool),
    NoMoreEntries,
    Content(Seq<char>),
    Failed(Seq<char>),
}

/// The mathematical form of an action.
pub enum ActionView {
    CreatePagesDir,
    OpenTemplatesDir,
    FetchEntry,
    ReadFragment(Seq<char>),
    WritePage(Seq<char>, Seq<char>),
    Finish,
}

impl View for Phase {
    type V = Stage;

    open spec fn view(&self) -> Stage {
        match self {
            Phase::CreateDest => Stage::CreateDest,
            Phase::OpenSource => Stage::OpenSource,
            Phase::NextEntry => Stage::NextEntry,
            Phase::Reading(n) => Stage::Reading(n@),
            Phase::Writing(n, p) => Stage::Writing(n@, p@),
            Phase::Done(None) => Stage::Finished(None),
            Phase::Done(Some(m)) => Stage::Finished(Some(m@)),
        }
    }
}

impl View for Event {
    type V = EventView;

    open spec fn view(&self) -> EventView {
        match self {
            Event::Completed => EventView::Completed,
            Event::Entry(e) => EventView::Entry(e.name@, e.name_is_text, e.is_file),
            Event::NoMoreEntries => EventView::NoMoreEntries,
            Event::Content(c) => EventView::Content(c@),
            Event::Failed(m) => EventView::Failed(m@),
        }
    }
}

impl View for Action {
    type V = ActionView;

    open spec fn view(&self) -> ActionView {
        match self {
            Action::CreatePagesDir => ActionView::CreatePagesDir,
            Action::OpenTemplatesDir => ActionView::OpenTemplatesDir,
            Action::FetchEntry => ActionView::FetchEntry,
            Action::ReadFragment(n) => ActionView::ReadFragment(n@),
            Action::WritePage(n, p) => ActionView::WritePage(n@, p@),
            Action::Finish => ActionView::Finish,
        }
    }
}

/// Whether a file name has the extension `html`: it ends in `.html` with at
/// least one character before the dot.
pub open spec fn is_fragment_name(n: Seq<char>) -> bool {
    n.len() > 5 && n.skip(n.len() - 5) == seq!['.', 'h', 't', 'm', 'l']
}

/// The message of the failure for a fragment whose file name is not text.
pub open spec fn bad_name_message(n: Seq<char>) -> Seq<char> {
    "file name is not valid text: "@ + n
}

/// The next stage of a pass in `st` on event `ev`, with layout `layout`. An
/// event that does not answer the stage's action leaves the stage as it is.
pub open spec fn next_stage(layout: Seq<char>, st: Stage, ev: EventView) -> Stage {
    match st {
        Stage::CreateDest => match ev {
            EventView::Completed => Stage::OpenSource,
            EventView::Failed(m) => Stage::Finished(Some(m)),
            _ => st,
        },
        Stage::OpenSource => match ev {
            EventView::Completed => Stage::NextEntry,
            EventView::Failed(m) => Stage::Finished(Some(m)),
            _ => st,
        },
        Stage::NextEntry => match ev {
            EventView::Entry(n, text, file) => if file && is_fragment_name(n) {
                if text {
                    Stage::Reading(n)
                } else {
                    Stage::Finished(Some(bad_name_message(n)))
                }
            } else {
                Stage::NextEntry
            },
            EventView::NoMoreEntries => Stage::Finished(None),
            EventView::Failed(m) => Stage::Finished(Some(m)),
            _ => st,
        },
        Stage::Reading(n) => match ev {
            EventView::Content(c) => Stage::Writing(n, page_of(c, layout)),
            EventView::Failed(m) => Stage::Finished(Some(m)),
            _ => st,
        },
        Stage::Writing(_, _) => match ev {
            EventView::Completed => Stage::NextEntry,
            EventView::Failed(m) => Stage::Finished(Some(m)),
            _ => st,
        },
        Stage::Finished(_) => st,
    }
}

/// The action that stage `st` asks for.
pub open spec fn action_of(st: Stage) -> ActionView {
    match st {
        Stage::CreateDest => ActionView::CreatePagesDir,
        Stage::OpenSource => ActionView::OpenTemplatesDir,
        Stage::NextEntry => ActionView::FetchEntry,
        Stage::Reading(n) => ActionView::ReadFragment(n),
        Stage::Writing(n, p) => ActionView::WritePage(n, p),
        Stage::Finished(_) => ActionView::Finish,
    }
}

/// Whether the file name `n` has the extension `html`.
pub fn has_html_extension(n: &str) -> (r: bool)
    ensures
        r == is_fragment_name(n@),
{
    let len = n.unicode_len();
    if len <= 5 {
        return false;
    }
    let tail = n.substring_char(len - 5, len);
    proof {
        reveal_strlit(".html");
    }
    let ext = String::from_str(".html");
    let t = String::from_str(tail);
    let r = t == ext;
    assert(".html"@ =~= seq!['.', 'h', 't', 'm', 'l']);
    assert(n@.skip(len - 5) =~= tail@);
    r
}

/// One generation pass.
pub struct Pass {
    layout: String,
    phase: Phase,
}

impl Pass {
    /// The layout the pass renders into.
    pub closed spec fn layout(&self) -> Seq<char> {
        self.layout@
    }

    /// Where the pass stands.
    pub closed spec fn stage(&self) -> Stage {
        self.phase@
    }

    /// A pass that renders into `layout`, at its start.
    pub fn new(layout: &str) -> (r: Pass)
        ensures
            r.layout() == layout@,
            r.stage() == Stage::CreateDest,
    {
        Pass { layout: String::from_str(layout), phase: Phase::CreateDest }
    }

    /// The action the pass asks for now.
    pub fn action(&self) -> (r: Action)
        ensures
            r@ == action_of(self.stage()),
    {
        match &self.phase {
            Phase::CreateDest => Action::CreatePagesDir,
            Phase::OpenSource => Action::OpenTemplatesDir,
            Phase::NextEntry => Action::FetchEntry,
            Phase::Reading(n) => Action::ReadFragment(n.clone()),
            Phase::Writing(n, p) => Action::WritePage(n.clone(), p.clone()),
            Phase::Done(_) => Action::Finish,
        }
    }

    /// Whether the pass is over.
    pub fn is_finished(&self) -> (r: bool)
        ensures
            r == (self.stage() is Finished),
    {
        match &self.phase {
            Phase::Done(_) => true,
            _ => false,
        }
    }

    /// Moves the pass on by the outcome `ev` of its last action.
    pub fn handle(&mut self, ev: Event)
        ensures
            final(self).layout() == old(self).layout(),
            final(self).stage() == next_stage(old(self).layout(), old(self).stage(), ev@),
    {
        let mut phase = Phase::CreateDest;
        std::mem::swap(&mut phase, &mut self.phase);
        let next = match phase {
            Phase::CreateDest => match ev {
                Event::Completed => Phase::OpenSource,
                Event::Failed(m) => Phase::Done(Some(m)),
                _ => Phase::CreateDest,
            },
            Phase::OpenSource => match ev {
                Event::Completed => Phase::NextEntry,
                Event::Failed(m) => Phase::Done(Some(m)),
                _ => Phase::OpenSource,
            },
            Phase::NextEntry => match ev {
                Event::Entry(e) => {
                    if e.is_file && has_html_extension(e.name.as_str()) {
                        if e.name_is_text {
                            Phase::Reading(e.name)
                        } else {
                            proof {
                                reveal_strlit("file name is not valid text: ");
                            }
                            let mut m = String::from_str("file name is not valid text: ");
                            m.append(e.name.as_str());
                            Phase::Done(Some(m))
                        }
                    } else {
                        Phase::NextEntry
                    }
                },
                Event::NoMoreEntries => Phase::Done(None),
                Event::Failed(m) => Phase::Done(Some(m)),
                _ => Phase::NextEntry,
            },
            Phase::Reading(n) => match ev {
                Event::Content(c) => {
                    let page = render_page(c.as_str(), self.layout.as_str());
                    Phase::Writing(n, page)
                },
                Event::Failed(m) => Phase::Done(Some(m)),
                _ => Phase::Reading(n),
            },
            Phase::Writing(n, p) => match ev {
                Event::Completed => Phase::NextEntry,
                Event::Failed(m) => Phase::Done(Some(m)),
                _ => Phase::Writing(n, p),
            },
            Phase::Done(r) => Phase::Done(r),
        };
        self.phase = next;
    }

    /// The outcome of a finished pass.
    pub fn outcome(self) -> (r: Result<(), PageError>)
        requires
            self.stage() is Finished,
        ensures
            self.stage() == Stage::Finished(None) ==> r is Ok,
            forall|m: Seq<char>| self.stage() == Stage::Finished(Some(m)) ==> (r is Err && r->Err_0 is Io && r->Err_0->Io_0@ == m),
    {
        match self.phase {
            Phase::Done(None) => Ok(()),
            Phase::Done(Some(m)) => Err(PageError::Io(m)),
            _ => Ok(()),
        }
    }
}

/// One entry of a source directory as a pass meets it: what its listing
/// says, and what reading it gives (`Err` with the failure's message).
pub struct SourceEntry {
    pub name: Seq<char>,
    pub name_is_text: bool,
    pub is_file: bool,
    pub content: Result<Seq<char>, Seq<char>>,
}

/// Whether the pass reads and renders entry `e`.
pub open spec fn is_fragment(e: SourceEntry) -> bool {
    e.is_file && is_fragment_name(e.name)
}

/// A page the pass writes: a file name and its text.
pub type PageWrite = (Seq<char>, Seq<char>);

/// The pages written, in order, and the stage reached, when a pass that
/// stands at `NextEntry` meets the entries `es` in this order and every
/// page is written without failure.
pub open spec fn run_entries(layout: Seq<char>, es: Seq<SourceEntry>) -> (Seq<PageWrite>, Stage)
    decreases es.len(),
{
    if es.len() == 0 {
        (seq![], next_stage(layout, Stage::NextEntry, EventView::NoMoreEntries))
    } else {
        let e = es[0];
        let s1 = next_stage(layout, Stage::NextEntry, EventView::Entry(e.name, e.name_is_text, e.is_file));
        if s1 is NextEntry {
            run_entries(layout, es.drop_first())
        } else if s1 is Reading {
            let s2 = next_stage(
                layout,
                s1,
                match e.content {
                    Ok(c) => EventView::Content(c),
                    Err(m) => EventView::Failed(m),
                },
            );
            if s2 is Writing {
                let rest = run_entries(layout, es.drop_first());
                (seq![(s2->Writing_0, s2->Writing_1)] + rest.0, rest.1)
            } else {
                (seq![], s2)
            }
        } else {
            (seq![], s1)
        }
    }
}

/// Whether page write `w` is the page of the fragment `es[j]`, for some `j`
/// below `bound`.
pub open spec fn written_from(layout: Seq<char>, es: Seq<SourceEntry>, w: PageWrite, bound: int) -> bool {
    exists|j: int|
        0 <= j < bound && j < es.len() && is_fragment(#[trigger] es[j]) && es[j].content is Ok && w.0
            == es[j].name && w.1 == page_of(es[j].content->Ok_0, layout)
}

/// The destination directory `d` after the writes `ws`, in order.
pub open spec fn apply_writes(d: Map<Seq<char>, Seq<char>>, ws: Seq<PageWrite>) -> Map<Seq<char>, Seq<char>>
    decreases ws.len(),
{
    if ws.len() == 0 {
        d
    } else {
        apply_writes(d, ws.drop_last()).insert(ws.last().0, ws.last().1)
    }
}

proof fn lemma_written_shift(layout: Seq<char>, es: Seq<SourceEntry>, w: PageWrite, bound: int)
    requires
        es.len() > 0,
        written_from(layout, es.drop_first(), w, bound),
    ensures
        written_from(layout, es, w, bound + 1),
{
    let j = choose|j: int|
        0 <= j < bound && j < es.drop_first().len() && is_fragment(#[trigger] es.drop_first()[j])
            && es.drop_first()[j].content is Ok && w.0 == es.drop_first()[j].name && w.1 == page_of(
            es.drop_first()[j].content->Ok_0,
            layout,
        );
    assert(es[j + 1] == es.drop_first()[j]);
}

/// Every page that a pass writes is the page of a regular file of the source
/// directory whose name has the extension `html`, under that file's name:
/// other files and directories never reach the destination.
pub proof fn law_only_fragments_written(layout: Seq<char>, es: Seq<SourceEntry>)
    ensures
        forall|k: int|
            0 <= k < run_entries(layout, es).0.len() ==> written_from(
                layout,
                es,
                #[trigger] run_entries(layout, es).0[k],
                es.len() as int,
            ),
    decreases es.len(),
{
    if es.len() > 0 {
        let rest = es.drop_first();
        law_only_fragments_written(layout, rest);
        let ws = run_entries(layout, es).0;
        let wr = run_entries(layout, rest).0;
        assert forall|k: int| 0 <= k < ws.len() implies written_from(layout, es, #[trigger] ws[k], es.len() as int) by {
            let e = es[0];
            let s1 = next_stage(layout, Stage::NextEntry, EventView::Entry(e.name, e.name_is_text, e.is_file));
            if s1 is NextEntry {
                lemma_written_shift(layout, es, wr[k], rest.len() as int);
            } else if k == 0 {
                assert(is_fragment(es[0]));
            } else {
                assert(ws[k] == wr[k - 1]);
                lemma_written_shift(layout, es, wr[k - 1], rest.len() as int);
            }
        }
    }
}

/// A pass that meets a fragment it cannot read, or whose name is not text,
/// fails, and writes no page for any entry that comes after it.
pub proof fn law_failure_stops_pass(layout: Seq<char>, es: Seq<SourceEntry>, j: int)
    requires
        0 <= j < es.len(),
        is_fragment(es[j]),
        es[j].content is Err || !es[j].name_is_text,
    ensures
        run_entries(layout, es).1 is Finished,
        run_entries(layout, es).1 != Stage::Finished(None),
        forall|k: int|
            0 <= k < run_entries(layout, es).0.len() ==> written_from(
                layout,
                es,
                #[trigger] run_entries(layout, es).0[k],
                j,
            ),
    decreases es.len(),
{
    let rest = es.drop_first();
    let e = es[0];
    let s1 = next_stage(layout, Stage::NextEntry, EventView::Entry(e.name, e.name_is_text, e.is_file));
    if j > 0 {
        assert(rest[j - 1] == es[j]);
        law_failure_stops_pass(layout, rest, j - 1);
        let ws = run_entries(layout, es).0;
        let wr = run_entries(layout, rest).0;
        assert forall|k: int| 0 <= k < ws.len() implies written_from(layout, es, #[trigger] ws[k], j) by {
            if s1 is NextEntry {
                lemma_written_shift(layout, es, wr[k], j - 1);
            } else if k == 0 {
                assert(is_fragment(es[0]));
            } else {
                assert(ws[k] == wr[k - 1]);
                lemma_written_shift(layout, es, wr[k - 1], j - 1);
            }
        }
    }
}

proof fn lemma_apply_writes_union(d: Map<Seq<char>, Seq<char>>, ws: Seq<PageWrite>)
    ensures
        apply_writes(d, ws) == d.union_prefer_right(apply_writes(Map::empty(), ws)),
    decreases ws.len(),
{
    if ws.len() == 0 {
        assert(d.union_prefer_right(Map::empty()) =~= d);
    } else {
        lemma_apply_writes_union(d, ws.drop_last());
        let a = apply_writes(Map::<Seq<char>, Seq<char>>::empty(), ws.drop_last());
        assert(d.union_prefer_right(a).insert(ws.last().0, ws.last().1) =~= d.union_prefer_right(
            a.insert(ws.last().0, ws.last().1),
        ));
    }
}

/// Running a pass twice on an unchanged source directory leaves the
/// destination as one run does: the second run writes the same pages over
/// the first run's.
pub proof fn law_pass_idempotent(d: Map<Seq<char>, Seq<char>>, layout: Seq<char>, es: Seq<SourceEntry>)
    ensures
        ({
            let ws = run_entries(layout, es).0;
            apply_writes(apply_writes(d, ws), ws) == apply_writes(d, ws)
        }),
{
    let ws = run_entries(layout, es).0;
    let a = apply_writes(Map::<Seq<char>, Seq<char>>::empty(), ws);
    lemma_apply_writes_union(d, ws);
    lemma_apply_writes_union(apply_writes(d, ws), ws);
    assert(d.union_prefer_right(a).union_prefer_right(a) =~= d.union_prefer_right(a));
}

} // verus!
