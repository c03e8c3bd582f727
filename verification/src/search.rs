//! Recursive search with an external ripgrep process.
//!
//! Two modes: file names that contain the query, and files whose contents do. What
//! ripgrep prints is read line by line, gathered into batches and cut off at a cap. In
//! name mode, matching directories are appended, since ripgrep lists only files.

use crate::path::{join_text, path_texts, plain_name, WinPath};
use crate::text::{
    from_chars, parse_number, parse_number_chars, rsplit_once, split_at_last, to_chars, trim,
    trim_chars,
};
use vstd::prelude::*;

verus! {

/// Stop after this many results and report the search as capped.
pub const RESULT_CAP: usize = 5000;

/// Results accumulated before a batch is delivered.
pub const BATCH: usize = 128;

/// What the query matches against.
#[derive(Debug, Clone, Copy, PartialEq, Eq, Structural)]
pub enum SearchMode {
    /// Match against file names.
    Name,
    /// Match against file contents.
    Contents,
}

impl Default for SearchMode {
    fn default() -> (r: SearchMode)
        ensures
            r == SearchMode::Name,
    {
        SearchMode::Name
    }
}

impl SearchMode {
    /// Every mode, in the order the picker lists them.
    pub fn all() -> (r: Vec<SearchMode>)
        ensures
            r@ == seq![SearchMode::Name, SearchMode::Contents],
    {
        let mut v: Vec<SearchMode> = Vec::new();
        v.push(SearchMode::Name);
        v.push(SearchMode::Contents);
        assert(v@ =~= seq![SearchMode::Name, SearchMode::Contents]);
        v
    }

    /// What the picker calls the mode.
    pub fn label(&self) -> (r: String)
        ensures
            r@ == (match self {
                SearchMode::Name => "Name"@,
                SearchMode::Contents => "Contents"@,
            }),
    {
        match self {
            SearchMode::Name => "Name".to_string(),
            SearchMode::Contents => "Contents".to_string(),
        }
    }
}

/// One search result.
#[derive(Debug)]
pub struct SearchHit {
    pub path: WinPath,
    /// Matching-line count for a contents search; `None` otherwise.
    pub matches: Option<u64>,
    /// True for a directory, false for a file.
    pub is_dir: bool,
}

/// A search result as plain values.
pub ghost struct Hit {
    pub path: Seq<char>,
    pub matches: Option<u64>,
    pub is_dir: bool,
}

impl View for SearchHit {
    type V = Hit;

    open spec fn view(&self) -> Hit {
        Hit { path: self.path@, matches: self.matches, is_dir: self.is_dir }
    }
}

impl Clone for SearchHit {
    fn clone(&self) -> (r: SearchHit)
        ensures
            r == *self,
    {
        SearchHit { path: self.path.clone(), matches: self.matches, is_dir: self.is_dir }
    }
}

/// The views of a list of results.
pub open spec fn hit_views(v: Seq<SearchHit>) -> Seq<Hit> {
    v.map_values(|h: SearchHit| h@)
}

/// The full identity of a search.
#[derive(Debug)]
pub struct SearchSpec {
    /// Never repeated, so that even the same query run again is a new search.
    pub token: u64,
    pub root: WinPath,
    pub query: String,
    pub mode: SearchMode,
}

impl Clone for SearchSpec {
    fn clone(&self) -> (r: SearchSpec)
        ensures
            r == *self,
    {
        SearchSpec {
            token: self.token,
            root: self.root.clone(),
            query: self.query.clone(),
            mode: self.mode,
        }
    }
}

/// Streamed output of a running search.
#[derive(Debug)]
pub enum SearchEvent {
    /// A chunk of newly found results.
    Batch(Vec<SearchHit>),
    /// The search finished; `capped` if it stopped early.
    Done { capped: bool },
    /// The search could not run.
    Failed(String),
}

/// How a character of a name query is written in a glob so that it stands for itself.
pub open spec fn glob_char(c: char) -> Seq<char> {
    if c == '*' || c == '?' || c == '[' || c == ']' || c == '{' || c == '}' {
        seq!['[', c, ']']
    } else if c == '\\' {
        seq!['/']
    } else {
        seq![c]
    }
}

/// A name query with every character standing for itself.
pub open spec fn glob_text(s: Seq<char>) -> Seq<char>
    decreases s.len(),
{
    if s.len() == 0 {
        seq![]
    } else {
        glob_text(s.drop_last()) + glob_char(s.last())
    }
}

/// Escape glob metacharacters so that a name query is matched literally. Each becomes a
/// single-member character class; a backslash becomes a forward slash.
pub fn escape_glob(query: &str) -> (r: String)
    ensures
        r@ == glob_text(query@),
{
    let chars = to_chars(query);
    let mut out = String::new();
    assert(chars@.take(0) =~= seq![]);
    for i in 0..chars.len()
        invariant
            out@ == glob_text(chars@.take(i as int)),
    {
        let c: char = chars[i];
        let ghost prev = out@;
        assert(chars@.take(i + 1).drop_last() =~= chars@.take(i as int));
        if c == '*' || c == '?' || c == '[' || c == ']' || c == '{' || c == '}' {
            out.push('[');
            out.push(c);
            out.push(']');
        } else if c == '\\' {
            out.push('/');
        } else {
            out.push(c);
        }
        assert(out@ =~= prev + glob_char(c));
    }
    assert(chars@.take(chars@.len() as int) =~= chars@);
    out
}

/// The arguments that ripgrep is started with.
pub open spec fn command_args(query: Seq<char>, mode: SearchMode, root: Seq<char>) -> Seq<
    Seq<char>,
> {
    match mode {
        SearchMode::Name => seq![
            "--files"@,
            "--no-ignore"@,
            "--hidden"@,
            "--iglob"@,
            seq!['*'] + glob_text(query) + seq!['*'],
            "--"@,
            root,
        ],
        SearchMode::Contents => seq![
            "--count-matches"@,
            "--no-ignore"@,
            "--hidden"@,
            "--smart-case"@,
            "--fixed-strings"@,
            "-e"@,
            query,
            "--"@,
            root,
        ],
    }
}

/// Assemble the ripgrep arguments for a search.
pub fn build_command(query: &str, mode: SearchMode, root: &WinPath) -> (r: Vec<String>)
    ensures
        crate::text::strings(r@) == command_args(query@, mode, root@),
{
    let mut args: Vec<String> = Vec::new();
    match mode {
        SearchMode::Name => {
            args.push("--files".to_string());
            args.push("--no-ignore".to_string());
            args.push("--hidden".to_string());
            args.push("--iglob".to_string());
            let mut glob = String::new();
            glob.push('*');
            glob.append(&escape_glob(query));
            glob.push('*');
            assert(glob@ =~= seq!['*'] + glob_text(query@) + seq!['*']);
            args.push(glob);
        },
        SearchMode::Contents => {
            args.push("--count-matches".to_string());
            args.push("--no-ignore".to_string());
            args.push("--hidden".to_string());
            args.push("--smart-case".to_string());
            args.push("--fixed-strings".to_string());
            args.push("-e".to_string());
            args.push(query.to_string());
        },
    }
    args.push("--".to_string());
    args.push(root.text.clone());
    assert(crate::text::strings(args@) =~= command_args(query@, mode, root@));
    args
}

/// The result that a line of ripgrep's output reports.
pub open spec fn line_hit(line: Seq<char>, mode: SearchMode) -> Option<Hit> {
    if line.len() == 0 {
        None
    } else {
        match mode {
            SearchMode::Name => Some(Hit { path: line, matches: None, is_dir: false }),
            SearchMode::Contents => match rsplit_once(line, ':') {
                Some((path, count)) => if path.len() == 0 {
                    None
                } else {
                    Some(Hit { path, matches: parse_number(trim(count)), is_dir: false })
                },
                None => None,
            },
        }
    }
}

/// Parse one line of ripgrep's output into a result, or `None` to skip it. A contents
/// line is `path:count`, split at the last colon.
pub fn parse_line(line: &str, mode: SearchMode) -> (r: Option<SearchHit>)
    ensures
        match r {
            Some(h) => line_hit(line@, mode) == Some(h@),
            None => line_hit(line@, mode) is None,
        },
{
    let chars = to_chars(line);
    if chars.len() == 0 {
        return None;
    }
    match mode {
        SearchMode::Name => Some(
            SearchHit { path: WinPath::from_chars(&chars), matches: None, is_dir: false },
        ),
        SearchMode::Contents => match split_at_last(&chars, ':') {
            Some((path, count)) => {
                if path.len() == 0 {
                    return None;
                }
                Some(
                    SearchHit {
                        path: WinPath::from_chars(&path),
                        matches: parse_number_chars(&trim_chars(&count)),
                        is_dir: false,
                    },
                )
            },
            None => None,
        },
    }
}

/// The results that lines of ripgrep's output report, in order.
pub open spec fn lines_hits(lines: Seq<Seq<char>>, mode: SearchMode) -> Seq<Hit>
    decreases lines.len(),
{
    if lines.len() == 0 {
        seq![]
    } else {
        let before = lines_hits(lines.drop_last(), mode);
        match line_hit(lines.last(), mode) {
            Some(h) => before.push(h),
            None => before,
        }
    }
}

// ---------------------------------------------------------------- a search, step by step

/// What came of starting ripgrep.
#[derive(Debug)]
pub enum Launch {
    /// It runs, and its output can be read.
    Started,
    /// It runs, but has no output to read.
    NoOutput,
    /// It did not start, with the reason.
    Failed(String),
}

/// What came of the work that a search asked for.
#[derive(Debug)]
pub enum SearchReply {
    /// Whether ripgrep is there.
    Ripgrep(bool),
    Launched(Launch),
    /// A line of ripgrep's output.
    Line(String),
    /// The output has ended.
    EndOfOutput,
    /// The directories that were found.
    Dirs(Vec<WinPath>),
}

/// What a search asks for.
#[derive(Debug)]
pub enum SearchTask {
    /// Look for ripgrep; answered by `Ripgrep`.
    FindRipgrep,
    /// Start ripgrep with these arguments; answered by `Launched`.
    Launch(Vec<String>),
    /// Read a line of ripgrep's output; answered by `Line` or `EndOfOutput`.
    ReadLine,
    /// Stop ripgrep, and look for directories below `root` that match `query`, at most `cap`
    /// of them; answered by `Dirs`.
    FindDirs { root: WinPath, query: String, cap: usize },
    /// Nothing more: the search is over.
    Nothing,
}

/// How far a search has come.
#[derive(Debug, Clone, Copy, PartialEq, Eq, Structural)]
pub enum Phase {
    Finding,
    Launching,
    Reading,
    Walking,
    Over,
}

/// A reply as plain values.
pub ghost enum Reply {
    Ripgrep(bool),
    Started,
    NoOutput,
    NotStarted(Seq<char>),
    Line(Seq<char>),
    EndOfOutput,
    Dirs(Seq<Seq<char>>),
}

impl View for SearchReply {
    type V = Reply;

    open spec fn view(&self) -> Reply {
        match self {
            SearchReply::Ripgrep(found) => Reply::Ripgrep(*found),
            SearchReply::Launched(Launch::Started) => Reply::Started,
            SearchReply::Launched(Launch::NoOutput) => Reply::NoOutput,
            SearchReply::Launched(Launch::Failed(error)) => Reply::NotStarted(error@),
            SearchReply::Line(text) => Reply::Line(text@),
            SearchReply::EndOfOutput => Reply::EndOfOutput,
            SearchReply::Dirs(dirs) => Reply::Dirs(path_texts(dirs@)),
        }
    }
}

/// What a search asks for, as plain values.
pub ghost enum Ask {
    FindRipgrep,
    Launch(Seq<Seq<char>>),
    ReadLine,
    FindDirs { root: Seq<char>, query: Seq<char>, cap: int },
    Nothing,
}

impl View for SearchTask {
    type V = Ask;

    open spec fn view(&self) -> Ask {
        match self {
            SearchTask::FindRipgrep => Ask::FindRipgrep,
            SearchTask::Launch(args) => Ask::Launch(crate::text::strings(args@)),
            SearchTask::ReadLine => Ask::ReadLine,
            SearchTask::FindDirs { root, query, cap } => Ask::FindDirs {
                root: root@,
                query: query@,
                cap: *cap as int,
            },
            SearchTask::Nothing => Ask::Nothing,
        }
    }
}

/// An event as plain values.
pub ghost enum Event {
    Batch(Seq<Hit>),
    Done { capped: bool },
    Failed(Seq<char>),
}

impl View for SearchEvent {
    type V = Event;

    open spec fn view(&self) -> Event {
        match self {
            SearchEvent::Batch(hits) => Event::Batch(hit_views(hits@)),
            SearchEvent::Done { capped } => Event::Done { capped: *capped },
            SearchEvent::Failed(error) => Event::Failed(error@),
        }
    }
}

/// The views of a list of events.
pub open spec fn event_views(v: Seq<SearchEvent>) -> Seq<Event> {
    v.map_values(|e: SearchEvent| e@)
}

/// Results as batches, in order: all but the last are full, and none is empty.
pub open spec fn batched(hits: Seq<Hit>) -> Seq<Event>
    decreases hits.len(),
{
    if hits.len() == 0 {
        seq![]
    } else {
        let n = (hits.len() - 1) / BATCH as int * BATCH;
        batched(hits.take(n)).push(Event::Batch(hits.skip(n)))
    }
}

/// What the user is told when ripgrep is missing.
pub open spec fn missing_text() -> Seq<char> {
    "ripgrep (rg.exe) was not found. Install it (e.g. with the bundled install-ripgrep.ps1) and try again."@
}

/// What the user is told when ripgrep does not start.
pub open spec fn launch_error(error: Seq<char>) -> Seq<char> {
    "Failed to launch ripgrep: "@ + error
}

/// The directory results for `paths`, in order.
pub open spec fn dir_hits(paths: Seq<Seq<char>>) -> Seq<Hit> {
    paths.map_values(|p: Seq<char>| Hit { path: p, matches: None, is_dir: true })
}

/// A running search as plain values.
pub ghost struct Run {
    pub phase: Phase,
    pub root: Seq<char>,
    /// What is searched for, without white space around it.
    pub query: Seq<char>,
    pub mode: SearchMode,
    /// Results that were found and not yet delivered.
    pub batch: Seq<Hit>,
    /// How many files were found.
    pub total: int,
}

/// A search after a reply, and what it then delivers.
pub ghost struct Told {
    pub run: Run,
    pub events: Seq<Event>,
}

impl Run {
    /// The batch is not full, and the cap has not been passed.
    pub open spec fn wf(self) -> bool {
        &&& self.batch.len() < BATCH
        &&& self.batch.len() <= self.total <= RESULT_CAP
        &&& self.phase == Phase::Finding || self.phase == Phase::Launching ==> self.total == 0
        &&& self.phase == Phase::Reading ==> self.total < RESULT_CAP
        &&& self.phase != Phase::Reading ==> self.batch.len() == 0
        &&& self.phase == Phase::Walking ==> self.dir_room() > 0
    }

    /// How many directories may still be appended: in name mode what the files left of the
    /// cap, in contents mode none.
    pub open spec fn dir_room(self) -> int {
        match self.mode {
            SearchMode::Name => RESULT_CAP - self.total,
            SearchMode::Contents => 0,
        }
    }

    /// What the search waits for.
    pub open spec fn task(self) -> Ask {
        match self.phase {
            Phase::Finding => Ask::FindRipgrep,
            Phase::Launching => Ask::Launch(command_args(self.query, self.mode, self.root)),
            Phase::Reading => Ask::ReadLine,
            Phase::Walking => Ask::FindDirs {
                root: self.root,
                query: self.query,
                cap: self.dir_room(),
            },
            Phase::Over => Ask::Nothing,
        }
    }

    /// At a phase, with nothing to deliver.
    pub open spec fn at(self, phase: Phase) -> Told {
        Told { run: Run { phase, ..self }, events: seq![] }
    }

    /// Over, with these last events.
    pub open spec fn over(self, events: Seq<Event>) -> Told {
        Told { run: Run { phase: Phase::Over, ..self }, events }
    }

    /// With the files done: what is left is delivered, and directories follow where there may
    /// be any.
    pub open spec fn files_done(self) -> Told {
        let rest = batched(self.batch);
        let run = Run { batch: seq![], ..self };
        if run.dir_room() > 0 {
            Told { run: Run { phase: Phase::Walking, ..run }, events: rest }
        } else {
            run.over(rest.push(Event::Done { capped: run.total == RESULT_CAP }))
        }
    }

    /// With a file found: a full batch is delivered, and at the cap the files are done.
    pub open spec fn found(self, hit: Hit) -> Told {
        let run = Run { batch: self.batch.push(hit), total: self.total + 1, ..self };
        if run.total == RESULT_CAP {
            run.files_done()
        } else if run.batch.len() == BATCH {
            Told { run: Run { batch: seq![], ..run }, events: seq![Event::Batch(run.batch)] }
        } else {
            Told { run, events: seq![] }
        }
    }

    /// With a reply to what it waits for; any other reply changes nothing.
    pub open spec fn answered(self, reply: Reply) -> Told {
        match (self.phase, reply) {
            (Phase::Finding, Reply::Ripgrep(found)) => if !found {
                self.over(seq![Event::Failed(missing_text())])
            } else if self.query.len() == 0 {
                self.over(seq![Event::Done { capped: false }])
            } else {
                self.at(Phase::Launching)
            },
            (Phase::Launching, Reply::Started) => self.at(Phase::Reading),
            (Phase::Launching, Reply::NoOutput) => self.over(
                seq![Event::Done { capped: false }],
            ),
            (Phase::Launching, Reply::NotStarted(error)) => self.over(
                seq![Event::Failed(launch_error(error))],
            ),
            (Phase::Reading, Reply::Line(text)) => match line_hit(text, self.mode) {
                Some(hit) => self.found(hit),
                None => self.at(self.phase),
            },
            (Phase::Reading, Reply::EndOfOutput) => self.files_done(),
            (Phase::Walking, Reply::Dirs(dirs)) => self.over(
                batched(dir_hits(dirs)).push(
                    Event::Done { capped: dirs.len() >= self.dir_room() },
                ),
            ),
            _ => self.at(self.phase),
        }
    }

    /// After a number of replies, with all that was delivered.
    pub open spec fn told(self, replies: Seq<Reply>) -> Told
        decreases replies.len(),
    {
        if replies.len() == 0 {
            Told { run: self, events: seq![] }
        } else {
            let before = self.told(replies.drop_last());
            let last = before.run.answered(replies.last());
            Told { run: last.run, events: before.events + last.events }
        }
    }
}

/// A search that has not begun.
pub open spec fn fresh_run(root: Seq<char>, query: Seq<char>, mode: SearchMode) -> Run {
    Run { phase: Phase::Finding, root, query: trim(query), mode, batch: seq![], total: 0 }
}

/// A running search: what was found and not yet delivered, and how much there was.
#[derive(Debug)]
pub struct SearchRun {
    pub phase: Phase,
    pub root: WinPath,
    pub query: String,
    pub mode: SearchMode,
    pub batch: Vec<SearchHit>,
    pub total: usize,
}

impl View for SearchRun {
    type V = Run;

    open spec fn view(&self) -> Run {
        Run {
            phase: self.phase,
            root: self.root@,
            query: self.query@,
            mode: self.mode,
            batch: hit_views(self.batch@),
            total: self.total as int,
        }
    }
}

impl SearchRun {
    /// A search that has not begun.
    pub fn new(search: &SearchSpec) -> (r: SearchRun)
        ensures
            r@.wf(),
            r@ == fresh_run(search.root@, search.query@, search.mode),
    {
        let r = SearchRun {
            phase: Phase::Finding,
            root: search.root.clone(),
            query: from_chars(&trim_chars(&to_chars(&search.query))),
            mode: search.mode,
            batch: Vec::new(),
            total: 0,
        };
        assert(r@.batch =~= seq![]);
        r
    }

    /// What the search waits for.
    pub fn task(&self) -> (r: SearchTask)
        requires
            self@.wf(),
        ensures
            r@ == self@.task(),
    {
        match self.phase {
            Phase::Finding => SearchTask::FindRipgrep,
            Phase::Launching => SearchTask::Launch(
                build_command(&self.query, self.mode, &self.root),
            ),
            Phase::Reading => SearchTask::ReadLine,
            Phase::Walking => SearchTask::FindDirs {
                root: self.root.clone(),
                query: self.query.clone(),
                cap: self.dir_cap(),
            },
            Phase::Over => SearchTask::Nothing,
        }
    }

    /// How many directories may still be appended.
    pub fn dir_cap(&self) -> (r: usize)
        requires
            self@.wf(),
        ensures
            r == self@.dir_room(),
    {
        match self.mode {
            SearchMode::Name => RESULT_CAP - self.total,
            SearchMode::Contents => 0,
        }
    }

    /// Take the reply to what the search waits for, and say what to deliver.
    pub fn answer(&mut self, reply: SearchReply) -> (r: Vec<SearchEvent>)
        requires
            old(self)@.wf(),
        ensures
            final(self)@.wf(),
            final(self)@ == old(self)@.answered(reply@).run,
            event_views(r@) == old(self)@.answered(reply@).events,
    {
        let mut out: Vec<SearchEvent> = Vec::new();
        assert(event_views(out@) =~= seq![]);
        match (self.phase, reply) {
            (Phase::Finding, SearchReply::Ripgrep(found)) => {
                if !found {
                    self.phase = Phase::Over;
                    return one_event(
                        SearchEvent::Failed(
                            "ripgrep (rg.exe) was not found. Install it (e.g. with the bundled install-ripgrep.ps1) and try again.".to_string(),
                        ),
                    );
                }
                if to_chars(&self.query).len() == 0 {
                    self.phase = Phase::Over;
                    return one_event(SearchEvent::Done { capped: false });
                }
                self.phase = Phase::Launching;
            },
            (Phase::Launching, SearchReply::Launched(launch)) => match launch {
                Launch::Started => {
                    self.phase = Phase::Reading;
                },
                Launch::NoOutput => {
                    self.phase = Phase::Over;
                    return one_event(SearchEvent::Done { capped: false });
                },
                Launch::Failed(error) => {
                    self.phase = Phase::Over;
                    let mut text = "Failed to launch ripgrep: ".to_string();
                    text.append(&error);
                    return one_event(SearchEvent::Failed(text));
                },
            },
            (Phase::Reading, SearchReply::Line(text)) => {
                if let Some(hit) = parse_line(&text, self.mode) {
                    return self.take_hit(hit);
                }
            },
            (Phase::Reading, SearchReply::EndOfOutput) => {
                return self.end_files();
            },
            (Phase::Walking, SearchReply::Dirs(dirs)) => {
                let capped: bool = dirs.len() >= self.dir_cap();
                self.phase = Phase::Over;
                let mut events = dir_batches(&dirs);
                let ghost before = event_views(events@);
                events.push(SearchEvent::Done { capped });
                assert(event_views(events@) =~= before.push(Event::Done { capped }));
                return events;
            },
            _ => {},
        }
        out
    }

    fn take_hit(&mut self, hit: SearchHit) -> (r: Vec<SearchEvent>)
        requires
            old(self)@.wf(),
            old(self).phase == Phase::Reading,
        ensures
            final(self)@.wf(),
            final(self)@ == old(self)@.found(hit@).run,
            event_views(r@) == old(self)@.found(hit@).events,
    {
        let ghost was = hit_views(self.batch@);
        self.batch.push(hit);
        self.total += 1;
        assert(hit_views(self.batch@) =~= was.push(hit@));
        if self.total == RESULT_CAP {
            return self.end_files();
        }
        if self.batch.len() == BATCH {
            let mut full: Vec<SearchHit> = Vec::new();
            core::mem::swap(&mut self.batch, &mut full);
            assert(hit_views(self.batch@) =~= seq![]);
            return one_event(SearchEvent::Batch(full));
        }
        let out: Vec<SearchEvent> = Vec::new();
        assert(event_views(out@) =~= seq![]);
        out
    }

    fn end_files(&mut self) -> (r: Vec<SearchEvent>)
        requires
            old(self).batch@.len() <= BATCH,
            old(self).batch@.len() <= old(self).total <= RESULT_CAP,
        ensures
            final(self)@.wf(),
            final(self)@ == old(self)@.files_done().run,
            event_views(r@) == old(self)@.files_done().events,
    {
        let mut out: Vec<SearchEvent> = Vec::new();
        let mut rest: Vec<SearchHit> = Vec::new();
        core::mem::swap(&mut self.batch, &mut rest);
        let ghost left = hit_views(rest@);
        assert(hit_views(self.batch@) =~= seq![]);
        if rest.len() > 0 {
            out.push(SearchEvent::Batch(rest));
            proof {
                lemma_batched_join(seq![], left);
                assert(Seq::<Hit>::empty() + left =~= left);
                assert(event_views(out@) =~= batched(left));
            }
        } else {
            assert(event_views(out@) =~= batched(left));
        }
        let cap: usize = match self.mode {
            SearchMode::Name => RESULT_CAP - self.total,
            SearchMode::Contents => 0,
        };
        if cap > 0 {
            self.phase = Phase::Walking;
        } else {
            self.phase = Phase::Over;
            let capped: bool = self.total == RESULT_CAP;
            out.push(SearchEvent::Done { capped });
            assert(event_views(out@) =~= batched(left).push(Event::Done { capped }));
        }
        out
    }
}

fn one_event(event: SearchEvent) -> (r: Vec<SearchEvent>)
    ensures
        event_views(r@) == seq![event@],
{
    let mut out: Vec<SearchEvent> = Vec::new();
    out.push(event);
    assert(event_views(out@) =~= seq![event@]);
    out
}

/// Behind full batches comes the next.
proof fn lemma_batched_join(full: Seq<Hit>, next: Seq<Hit>)
    requires
        full.len() % BATCH as nat == 0,
        1 <= next.len() <= BATCH,
    ensures
        batched(full + next) == batched(full).push(Event::Batch(next)),
{
    let all = full + next;
    let n = (all.len() - 1) / BATCH as int * BATCH;
    assert(n == full.len());
    assert(all.take(n) =~= full);
    assert(all.skip(n) =~= next);
}

/// The directories that were found, as batches of results.
pub fn dir_batches(dirs: &Vec<WinPath>) -> (r: Vec<SearchEvent>)
    ensures
        event_views(r@) == batched(dir_hits(path_texts(dirs@))),
{
    let mut out: Vec<SearchEvent> = Vec::new();
    let mut batch: Vec<SearchHit> = Vec::new();
    let ghost all = dir_hits(path_texts(dirs@));
    assert(hit_views(batch@) =~= all.subrange(0, 0));
    assert(all.take(0) =~= seq![]);
    assert(event_views(out@) =~= batched(all.take(0)));
    for i in 0..dirs.len()
        invariant
            all == dir_hits(path_texts(dirs@)),
            all.len() == dirs@.len(),
            batch@.len() < BATCH,
            batch@.len() <= i,
            (i - batch@.len()) % BATCH as int == 0,
            hit_views(batch@) == all.subrange(i - batch@.len(), i as int),
            event_views(out@) == batched(all.take(i - batch@.len())),
    {
        let ghost from = i - batch@.len();
        let ghost prev = hit_views(batch@);
        let ghost sent = event_views(out@);
        batch.push(SearchHit { path: dirs[i].clone(), matches: None, is_dir: true });
        assert(hit_views(batch@) =~= prev.push(all[i as int]));
        assert(hit_views(batch@) =~= all.subrange(from, i + 1));
        if batch.len() >= BATCH {
            let mut full: Vec<SearchHit> = Vec::new();
            core::mem::swap(&mut batch, &mut full);
            let ghost view = hit_views(full@);
            out.push(SearchEvent::Batch(full));
            proof {
                lemma_batched_join(all.take(from), view);
                assert(all.take(from) + view =~= all.take(i + 1));
                assert(event_views(out@) =~= sent.push(Event::Batch(view)));
                assert(hit_views(batch@) =~= all.subrange(i + 1, i + 1));
            }
        }
    }
    let ghost from = dirs@.len() - batch@.len();
    let ghost sent = event_views(out@);
    assert(all.take(all.len() as int) =~= all);
    if batch.len() > 0 {
        let ghost view = hit_views(batch@);
        out.push(SearchEvent::Batch(batch));
        proof {
            lemma_batched_join(all.take(from), view);
            assert(all.take(from) + view =~= all);
            assert(event_views(out@) =~= sent.push(Event::Batch(view)));
        }
    }
    out
}

/// Whether an event is a batch of files: some, and no more than a batch holds.
pub open spec fn file_batch(e: Event) -> bool {
    e matches Event::Batch(hits) && 1 <= hits.len() <= BATCH && forall|i: int|
        0 <= i < hits.len() ==> !(#[trigger] hits[i]).is_dir
}

/// Whether an event is a batch of directories: some, and no more than a batch holds.
pub open spec fn dir_batch(e: Event) -> bool {
    e matches Event::Batch(hits) && 1 <= hits.len() <= BATCH && forall|i: int|
        0 <= i < hits.len() ==> (#[trigger] hits[i]).is_dir
}

/// Whether events are batches of files, the first `k`, and then of directories.
pub open spec fn files_first(events: Seq<Event>, k: int) -> bool {
    &&& 0 <= k <= events.len()
    &&& forall|i: int| 0 <= i < k ==> file_batch(#[trigger] events[i])
    &&& forall|i: int| k <= i < events.len() ==> dir_batch(#[trigger] events[i])
}

/// Whatever the replies are, a search delivers batches of files, then batches of directories,
/// and then one final event. The final event comes exactly when the search is over, and nothing
/// follows it; directories come only in name mode, and only at the end.
pub proof fn law_files_come_before_directories(
    root: Seq<char>,
    query: Seq<char>,
    mode: SearchMode,
    replies: Seq<Reply>,
)
    ensures
        ({
            let told = fresh_run(root, query, mode).told(replies);
            let e = told.events;
            &&& told.run.wf()
            &&& told.run.phase != Phase::Over ==> files_first(e, e.len() as int)
            &&& told.run.phase == Phase::Over ==> e.len() > 0 && !(e.last() is Batch) && exists|
                k: int,
            |
                #[trigger] files_first(e.drop_last(), k) && (mode == SearchMode::Contents ==> k
                    == e.len() - 1)
        }),
    decreases replies.len(),
{
    let start = fresh_run(root, query, mode);
    if replies.len() > 0 {
        let rest = replies.drop_last();
        law_files_come_before_directories(root, query, mode, rest);
        lemma_mode_stays(start, rest);
        let before = start.told(rest);
        let reply = replies.last();
        let last = before.run.answered(reply);
        let told = start.told(replies);
        lemma_files_stay_files(start, rest);
        lemma_answer_in_order(before.run, reply);
        let e = told.events;
        let b = before.events;
        if before.run.phase == Phase::Over {
            assert(e =~= b);
        } else if last.run.phase == Phase::Over {
            let k = choose|k: int| files_first(last.events.drop_last(), k) && (mode
                == SearchMode::Contents ==> k == last.events.len() - 1);
            assert(e.drop_last() =~= b + last.events.drop_last());
            assert(e.last() == last.events.last());
            assert(files_first(e.drop_last(), b.len() + k));
        } else {
            assert(files_first(e, e.len() as int));
        }
    }
}

proof fn lemma_mode_stays(start: Run, replies: Seq<Reply>)
    ensures
        start.told(replies).run.mode == start.mode,
    decreases replies.len(),
{
    if replies.len() > 0 {
        lemma_mode_stays(start, replies.drop_last());
    }
}

/// What a search holds back is files.
spec fn holds_files(run: Run) -> bool {
    forall|i: int| 0 <= i < run.batch.len() ==> !(#[trigger] run.batch[i]).is_dir
}

proof fn lemma_files_stay_files(start: Run, replies: Seq<Reply>)
    requires
        holds_files(start),
    ensures
        holds_files(start.told(replies).run),
    decreases replies.len(),
{
    if replies.len() > 0 {
        lemma_files_stay_files(start, replies.drop_last());
    }
}

/// What one reply leads to is in order.
proof fn lemma_answer_in_order(run: Run, reply: Reply)
    requires
        run.wf(),
        holds_files(run),
    ensures
        ({
            let last = run.answered(reply);
            let e = last.events;
            &&& last.run.wf()
            &&& run.phase == Phase::Over ==> last.run == run && e.len() == 0
            &&& last.run.phase != Phase::Over ==> files_first(e, e.len() as int)
            &&& last.run.phase == Phase::Over && run.phase != Phase::Over ==> e.len() > 0 && !(
            e.last() is Batch) && exists|k: int|
                #[trigger] files_first(e.drop_last(), k) && (run.mode == SearchMode::Contents ==> k
                    == e.len() - 1)
        }),
{
    let last = run.answered(reply);
    let e = last.events;
    match (run.phase, reply) {
        (Phase::Reading, Reply::Line(text)) => {
            if let Some(hit) = line_hit(text, run.mode) {
                let more = Run { batch: run.batch.push(hit), total: run.total + 1, ..run };
                if more.total == RESULT_CAP {
                    lemma_rest_in_order(more);
                } else if more.batch.len() == BATCH {
                    assert(file_batch(e[0]));
                }
            }
        },
        (Phase::Reading, Reply::EndOfOutput) => {
            lemma_rest_in_order(run);
        },
        (Phase::Walking, Reply::Dirs(dirs)) => {
            let hits = dir_hits(dirs);
            lemma_batched(hits);
            assert(e.drop_last() =~= batched(hits));
            assert forall|i: int| 0 <= i < batched(hits).len() implies dir_batch(
                #[trigger] batched(hits)[i],
            ) by {}
            assert(files_first(e.drop_last(), 0));
        },
        _ => {
            if last.run.phase == Phase::Over && run.phase != Phase::Over {
                assert(e.drop_last() =~= seq![]);
                assert(files_first(e.drop_last(), 0));
            }
        },
    }
}

proof fn lemma_rest_in_order(run: Run)
    requires
        holds_files(run),
        run.batch.len() <= BATCH,
        run.batch.len() <= run.total <= RESULT_CAP,
    ensures
        ({
            let last = run.files_done();
            let e = last.events;
            &&& last.run.wf()
            &&& last.run.phase != Phase::Over ==> files_first(e, e.len() as int)
            &&& last.run.phase == Phase::Over ==> e.len() > 0 && !(e.last() is Batch)
                && files_first(e.drop_last(), e.len() - 1)
        }),
{
    let rest = batched(run.batch);
    let e = run.files_done().events;
    lemma_batched(run.batch);
    assert forall|i: int| 0 <= i < rest.len() implies file_batch(#[trigger] rest[i]) by {}
    if run.files_done().run.phase == Phase::Over {
        assert(e.drop_last() =~= rest);
    }
}

/// Batches hold some of the results each, and no more than a batch holds.
proof fn lemma_batched(hits: Seq<Hit>)
    ensures
        forall|i: int|
            0 <= i < batched(hits).len() ==> {
                let b = #[trigger] batched(hits)[i];
                b matches Event::Batch(part) && 1 <= part.len() <= BATCH && forall|j: int|
                    0 <= j < part.len() ==> hits.contains(#[trigger] part[j])
            },
    decreases hits.len(),
{
    if hits.len() > 0 {
        let n = (hits.len() - 1) / BATCH as int * BATCH;
        let front = hits.take(n);
        let back = hits.skip(n);
        lemma_batched(front);
        assert forall|i: int| 0 <= i < batched(hits).len() implies {
            let b = #[trigger] batched(hits)[i];
            b matches Event::Batch(part) && 1 <= part.len() <= BATCH && forall|j: int|
                0 <= j < part.len() ==> hits.contains(#[trigger] part[j])
        } by {
            if i < batched(front).len() {
                assert(batched(hits)[i] == batched(front)[i]);
                let part = batched(front)[i]->Batch_0;
                assert forall|j: int| 0 <= j < part.len() implies hits.contains(
                    #[trigger] part[j],
                ) by {
                    assert(front.contains(part[j]));
                    let k = choose|k: int| 0 <= k < front.len() && front[k] == part[j];
                    assert(hits[k] == part[j]);
                }
            } else {
                assert(batched(hits)[i] == Event::Batch(back));
                assert forall|j: int| 0 <= j < back.len() implies hits.contains(
                    #[trigger] back[j],
                ) by {
                    assert(hits[n + j] == back[j]);
                }
            }
        }
    }
}

/// The replies of a search that runs from start to end: ripgrep starts, prints its lines, and
/// the directories are found.
pub open spec fn full_replies(lines: Seq<Seq<char>>, dirs: Seq<Seq<char>>) -> Seq<Reply> {
    read_replies(lines).push(Reply::EndOfOutput).push(Reply::Dirs(dirs))
}

/// The replies up to the last line of ripgrep's output.
pub open spec fn read_replies(lines: Seq<Seq<char>>) -> Seq<Reply>
    decreases lines.len(),
{
    if lines.len() == 0 {
        seq![Reply::Ripgrep(true), Reply::Started]
    } else {
        read_replies(lines.drop_last()).push(Reply::Line(lines.last()))
    }
}

/// What a search that runs from start to end delivers: the files that ripgrep's lines report,
/// in order and each once, up to the cap; in name mode then the directories, where the files
/// left room for any; all in full batches but for the last of the files and the last of the
/// directories; and at the end whether the cap was reached.
pub open spec fn stream(
    lines: Seq<Seq<char>>,
    mode: SearchMode,
    dirs: Seq<Seq<char>>,
) -> Seq<Event> {
    let all = lines_hits(lines, mode);
    if all.len() >= RESULT_CAP {
        batched(all.take(RESULT_CAP as int)).push(Event::Done { capped: true })
    } else if mode == SearchMode::Contents {
        batched(all).push(Event::Done { capped: false })
    } else {
        batched(all) + batched(dir_hits(dirs)).push(
            Event::Done { capped: all.len() + dirs.len() >= RESULT_CAP },
        )
    }
}

/// A search that runs from start to end delivers exactly its stream of events, and is over.
pub proof fn law_search_delivers_its_stream(
    root: Seq<char>,
    query: Seq<char>,
    mode: SearchMode,
    lines: Seq<Seq<char>>,
    dirs: Seq<Seq<char>>,
)
    requires
        trim(query).len() > 0,
    ensures
        ({
            let told = fresh_run(root, query, mode).told(full_replies(lines, dirs));
            &&& told.events == stream(lines, mode, dirs)
            &&& told.run.phase == Phase::Over
        }),
{
    let start = fresh_run(root, query, mode);
    let read = read_replies(lines);
    let ended = read.push(Reply::EndOfOutput);
    let full = ended.push(Reply::Dirs(dirs));
    lemma_lines_read(root, query, mode, lines);
    lemma_mode_stays(start, read);
    let a = start.told(read);
    let all = lines_hits(lines, mode);
    assert(ended.drop_last() =~= read);
    assert(full.drop_last() =~= ended);
    let b = start.told(ended);
    if all.len() >= RESULT_CAP {
        assert(b.events =~= a.events);
        assert(start.told(full).events =~= a.events);
    } else {
        let n = all.len() as int / BATCH as int * BATCH;
        let rest = all.skip(n);
        if rest.len() > 0 {
            lemma_batched_join(all.take(n), rest);
            lemma_batched_join(seq![], rest);
            assert(Seq::<Hit>::empty() + rest =~= rest);
        } else {
            assert(all.take(n) =~= all);
        }
        assert(all.take(n) + rest =~= all);
        assert(a.events + batched(rest) =~= batched(all));
        if mode == SearchMode::Contents {
            assert(b.events =~= batched(all).push(Event::Done { capped: false }));
            assert(start.told(full).events =~= b.events);
        } else {
            assert(b.events =~= batched(all));
            assert(start.told(full).events =~= stream(lines, mode, dirs));
        }
    }
}

/// One more result, found by a search that holds back what of `had` does not fill a batch.
proof fn lemma_one_more(run: Run, had: Seq<Hit>, hit: Hit)
    requires
        run.phase == Phase::Reading,
        had.len() < RESULT_CAP,
        run.batch == had.skip(had.len() as int / BATCH as int * BATCH),
        run.total == had.len(),
    ensures
        ({
            let all = had.push(hit);
            let m = had.len() as int / BATCH as int * BATCH;
            let n = all.len() as int / BATCH as int * BATCH;
            let now = run.found(hit);
            let sent = batched(had.take(m)) + now.events;
            if all.len() == RESULT_CAP {
                now.run.phase == Phase::Over && sent == batched(all).push(
                    Event::Done { capped: true },
                )
            } else {
                &&& now.run == (Run { batch: all.skip(n), total: all.len() as int, ..run })
                &&& sent == batched(all.take(n))
            }
        }),
{
    let all = had.push(hit);
    let m = had.len() as int / BATCH as int * BATCH;
    let n = all.len() as int / BATCH as int * BATCH;
    let now = run.found(hit);
    let sent = batched(had.take(m)) + now.events;
    let batch = had.skip(m).push(hit);
    assert(all.take(m) =~= had.take(m));
    assert(had.take(m) + batch =~= all);
    assert(batch =~= all.skip(m));
    lemma_batched_join(had.take(m), batch);
    if all.len() == RESULT_CAP {
        lemma_batched_join(seq![], batch);
        assert(Seq::<Hit>::empty() + batch =~= batch);
        assert(batched(seq![]) =~= seq![]);
        assert(now.events =~= seq![Event::Batch(batch), Event::Done { capped: true }]);
        assert(sent =~= batched(all).push(Event::Done { capped: true }));
    } else if batch.len() == BATCH {
        assert(n == all.len());
        assert(all.take(n) =~= all);
        assert(all.skip(n) =~= seq![]);
        assert(sent =~= batched(all));
    } else {
        assert(n == m);
        assert(sent =~= batched(all.take(n)));
    }
}

/// Where a search stands once ripgrep runs.
proof fn lemma_reading_begins(root: Seq<char>, query: Seq<char>, mode: SearchMode)
    requires
        trim(query).len() > 0,
    ensures
        ({
            let start = fresh_run(root, query, mode);
            let told = start.told(seq![Reply::Ripgrep(true), Reply::Started]);
            &&& told.run == (Run { phase: Phase::Reading, ..start })
            &&& told.events == Seq::<Event>::empty()
        }),
{
    let start = fresh_run(root, query, mode);
    let replies = seq![Reply::Ripgrep(true), Reply::Started];
    let first = seq![Reply::Ripgrep(true)];
    assert(replies.drop_last() =~= first);
    assert(first.drop_last() =~= seq![]);
    assert(start.told(seq![]) == (Told { run: start, events: seq![] }));
    assert(start.told(first).events =~= seq![]);
    assert(start.told(replies).events =~= seq![]);
}

/// Where a search stands once lines were read: below the cap it has delivered the full
/// batches and holds the rest back; at the cap it is over.
#[verifier::spinoff_prover]
proof fn lemma_lines_read(
    root: Seq<char>,
    query: Seq<char>,
    mode: SearchMode,
    lines: Seq<Seq<char>>,
)
    requires
        trim(query).len() > 0,
    ensures
        ({
            let told = fresh_run(root, query, mode).told(read_replies(lines));
            let all = lines_hits(lines, mode);
            let n = all.len() as int / BATCH as int * BATCH;
            if all.len() >= RESULT_CAP {
                &&& told.run.phase == Phase::Over
                &&& told.events == batched(all.take(RESULT_CAP as int)).push(
                    Event::Done { capped: true },
                )
            } else {
                &&& told.run == (Run {
                    phase: Phase::Reading,
                    root,
                    query: trim(query),
                    mode,
                    batch: all.skip(n),
                    total: all.len() as int,
                })
                &&& told.events == batched(all.take(n))
            }
        }),
    decreases lines.len(),
{
    let start = fresh_run(root, query, mode);
    let replies = read_replies(lines);
    let all = lines_hits(lines, mode);
    let n = all.len() as int / BATCH as int * BATCH;
    let told = start.told(replies);
    if lines.len() == 0 {
        lemma_reading_begins(root, query, mode);
        assert(all.skip(0) =~= seq![]);
        assert(all.take(0) =~= seq![]);
    } else {
        let before = lines.drop_last();
        lemma_lines_read(root, query, mode, before);
        assert(replies.drop_last() =~= read_replies(before));
        let b = start.told(read_replies(before));
        let had = lines_hits(before, mode);
        if had.len() >= RESULT_CAP {
            assert(all.take(RESULT_CAP as int) =~= had.take(RESULT_CAP as int));
            assert(told.events =~= b.events);
        } else if let Some(hit) = line_hit(lines.last(), mode) {
            lemma_one_more(b.run, had, hit);
            assert(all == had.push(hit));
            if all.len() == RESULT_CAP {
                assert(all.take(RESULT_CAP as int) =~= all);
            }
        } else {
            assert(all == had);
            assert(told.events =~= b.events);
        }
    }
}

/// The directories in which package managers and the install script put ripgrep.
pub open spec fn install_dirs(local: Option<Seq<char>>, profile: Option<Seq<char>>) -> Seq<
    Seq<char>,
> {
    let a = match local {
        Some(base) => seq![
            join_text(join_text(base, "Programs"@), "ripgrep"@),
            join_text(join_text(join_text(base, "Microsoft"@), "WinGet"@), "Links"@),
        ],
        None => seq![],
    };
    let b = match profile {
        Some(base) => seq![join_text(join_text(base, "scoop"@), "shims"@)],
        None => seq![],
    };
    a + b + seq!["C:\\ProgramData\\chocolatey\\bin"@]
}

/// The view of an optional path.
pub open spec fn opt_text(p: Option<WinPath>) -> Option<Seq<char>> {
    match p {
        Some(w) => Some(w@),
        None => None,
    }
}

proof fn lemma_plain_names()
    ensures
        plain_name("Programs"@),
        plain_name("ripgrep"@),
        plain_name("Microsoft"@),
        plain_name("WinGet"@),
        plain_name("Links"@),
        plain_name("scoop"@),
        plain_name("shims"@),
        plain_name("rg.exe"@),
{
    reveal_strlit("Programs");
    reveal_strlit("ripgrep");
    reveal_strlit("Microsoft");
    reveal_strlit("WinGet");
    reveal_strlit("Links");
    reveal_strlit("scoop");
    reveal_strlit("shims");
    reveal_strlit("rg.exe");
    assert(seq!['.'].len() == 1);
    assert(seq!['.', '.'].len() == 2);
}

/// The directories in which package managers and the install script put ripgrep, given
/// the local application data folder and the user profile.
pub fn install_candidates(local: &Option<WinPath>, profile: &Option<WinPath>) -> (r: Vec<WinPath>)
    ensures
        path_texts(r@) == install_dirs(opt_text(*local), opt_text(*profile)),
{
    proof {
        lemma_plain_names();
    }
    let mut dirs: Vec<WinPath> = Vec::new();
    if let Some(base) = local {
        dirs.push(base.join("Programs").join("ripgrep"));
        dirs.push(base.join("Microsoft").join("WinGet").join("Links"));
    }
    if let Some(base) = profile {
        dirs.push(base.join("scoop").join("shims"));
    }
    dirs.push(WinPath::new("C:\\ProgramData\\chocolatey\\bin"));
    assert(path_texts(dirs@) =~= install_dirs(opt_text(*local), opt_text(*profile)));
    dirs
}

/// Where ripgrep is looked for: beside the executable, then on the search path, then in
/// the common install locations.
pub open spec fn ripgrep_places(
    exe_dir: Option<Seq<char>>,
    path_dirs: Seq<Seq<char>>,
    local: Option<Seq<char>>,
    profile: Option<Seq<char>>,
) -> Seq<Seq<char>> {
    let first = match exe_dir {
        Some(d) => seq![d],
        None => seq![],
    };
    (first + path_dirs + install_dirs(local, profile)).map_values(
        |d: Seq<char>| join_text(d, "rg.exe"@),
    )
}

/// Where to look for ripgrep, best place first.
pub fn ripgrep_candidates(
    exe_dir: &Option<WinPath>,
    path_dirs: &Vec<WinPath>,
    local: &Option<WinPath>,
    profile: &Option<WinPath>,
) -> (r: Vec<WinPath>)
    ensures
        path_texts(r@) == ripgrep_places(
            opt_text(*exe_dir),
            path_texts(path_dirs@),
            opt_text(*local),
            opt_text(*profile),
        ),
{
    proof {
        lemma_plain_names();
    }
    let mut dirs: Vec<WinPath> = Vec::new();
    if let Some(d) = exe_dir {
        dirs.push(d.clone());
    }
    let ghost first = path_texts(dirs@);
    assert(path_texts(dirs@) =~= first + path_texts(path_dirs@).take(0));
    for i in 0..path_dirs.len()
        invariant
            path_texts(dirs@) == first + path_texts(path_dirs@).take(i as int),
    {
        let ghost prev = path_texts(dirs@);
        dirs.push(path_dirs[i].clone());
        assert(path_texts(dirs@) =~= prev.push(path_dirs@[i as int]@));
        assert(path_texts(path_dirs@).take(i + 1) =~= path_texts(path_dirs@).take(i as int).push(
            path_dirs@[i as int]@,
        ));
        assert(path_texts(dirs@) =~= first + path_texts(path_dirs@).take(i + 1));
    }
    assert(path_texts(path_dirs@).take(path_dirs@.len() as int) =~= path_texts(path_dirs@));
    let mut more = install_candidates(local, profile);
    let ghost so_far = path_texts(dirs@);
    let ghost added = path_texts(more@);
    dirs.append(&mut more);
    assert(path_texts(dirs@) =~= so_far + added);
    let ghost expected = match opt_text(*exe_dir) {
        Some(d) => seq![d],
        None => seq![],
    };
    assert(first =~= expected);
    let mut out: Vec<WinPath> = Vec::new();
    let ghost all = path_texts(dirs@);
    let ghost joined = all.map_values(|d: Seq<char>| join_text(d, "rg.exe"@));
    assert(path_texts(out@) =~= joined.take(0));
    for i in 0..dirs.len()
        invariant
            plain_name("rg.exe"@),
            all == path_texts(dirs@),
            joined == all.map_values(|d: Seq<char>| join_text(d, "rg.exe"@)),
            path_texts(out@) == joined.take(i as int),
    {
        let ghost prev = path_texts(out@);
        out.push(dirs[i].join("rg.exe"));
        assert(path_texts(out@) =~= prev.push(joined[i as int]));
        assert(joined.take(i + 1) =~= joined.take(i as int).push(joined[i as int]));
    }
    assert(joined.take(joined.len() as int) =~= joined);
    out
}

/// The best place at which ripgrep was found, given for each place whether there is a
/// file.
pub fn ripgrep_path(places: &Vec<WinPath>, present: &Vec<bool>) -> (r: Option<WinPath>)
    requires
        places@.len() == present@.len(),
    ensures
        match r {
            Some(p) => exists|i: int|
                0 <= i < places@.len() && p == #[trigger] places@[i] && present@[i] && forall|
                    j: int,
                |
                    0 <= j < i ==> !#[trigger] present@[j],
            None => forall|j: int| 0 <= j < present@.len() ==> !#[trigger] present@[j],
        },
{
    for i in 0..places.len()
        invariant
            places@.len() == present@.len(),
            forall|j: int| 0 <= j < i ==> !#[trigger] present@[j],
    {
        if present[i] {
            let p = places[i].clone();
            assert(p == places@[i as int]);
            return Some(p);
        }
    }
    None
}

/// A query is never read as a flag: it stands right behind the option that takes it, and
/// the folder right behind `--`, which ends the options.
pub proof fn law_query_is_never_a_flag(query: Seq<char>, mode: SearchMode, root: Seq<char>)
    ensures
        ({
            let args = command_args(query, mode, root);
            let n = args.len();
            &&& args[n - 1] == root
            &&& args[n - 2] == "--"@
            &&& mode == SearchMode::Contents ==> args[n - 3] == query && args[n - 4] == "-e"@
            &&& mode == SearchMode::Name ==> args[n - 3] == seq!['*'] + glob_text(query) + seq![
                '*',
            ] && args[n - 4] == "--iglob"@
        }),
{
}

/// In an escaped query no character is left that a glob would read as a wildcard: each
/// opening bracket starts a class of one character, and `*`, `?`, `{` and `}` stand only
/// inside such a class.
pub proof fn law_escaped_query_has_no_wildcards(s: Seq<char>, i: int)
    requires
        0 <= i < glob_text(s).len(),
        ({
            let c = glob_text(s)[i];
            c == '*' || c == '?' || c == '{' || c == '}'
        }),
    ensures
        1 <= i < glob_text(s).len() - 1,
        glob_text(s)[i - 1] == '[',
        glob_text(s)[i + 1] == ']',
    decreases s.len(),
{
    if s.len() > 0 {
        let before = glob_text(s.drop_last());
        let all = glob_text(s);
        assert(all =~= before + glob_char(s.last()));
        if i < before.len() {
            law_escaped_query_has_no_wildcards(s.drop_last(), i);
        } else {
            assert(all[i] == glob_char(s.last())[i - before.len()]);
        }
    }
}

/// What ripgrep prints is read back: in name mode a line is a path, and in contents mode a path
/// with how often it matches behind the last colon, whatever colons the path has itself.
pub proof fn law_lines_are_read_back(path: Seq<char>, n: u64)
    requires
        path.len() > 0,
    ensures
        line_hit(path, SearchMode::Name) == Some(Hit { path, matches: None, is_dir: false }),
        line_hit(path + seq![':'] + crate::text::decimal(n as nat), SearchMode::Contents) == Some(
            Hit { path, matches: Some(n), is_dir: false },
        ),
        line_hit(seq![], SearchMode::Name) is None,
        line_hit(seq![], SearchMode::Contents) is None,
{
    let digits = crate::text::decimal(n as nat);
    let line = path + seq![':'] + digits;
    crate::text::lemma_decimal(n as nat);
    crate::text::law_decimal_reads_back(n, n);
    let at = path.len() as int;
    assert forall|j: int| at < j < line.len() implies line[j] != ':' by {
        assert(line[j] == digits[j - at - 1]);
        assert(crate::text::is_digit(digits[j - at - 1]));
    }
    crate::text::lemma_last_of(line, ':', at);
    assert(line.take(at) =~= path);
    assert(line.skip(at + 1) =~= digits);
    assert(crate::text::is_digit(digits[0]) && crate::text::is_digit(digits[digits.len() - 1]));
    crate::text::lemma_trim_fixed(digits);
}

/// Every line that reports something gives one result, in the order of the lines, and the
/// others none.
pub proof fn law_each_line_gives_its_result(
    lines: Seq<Seq<char>>,
    line: Seq<char>,
    mode: SearchMode,
)
    ensures
        lines_hits(seq![], mode).len() == 0,
        line_hit(line, mode) is None ==> lines_hits(lines.push(line), mode) == lines_hits(
            lines,
            mode,
        ),
        line_hit(line, mode) matches Some(h) ==> lines_hits(lines.push(line), mode) == lines_hits(
            lines,
            mode,
        ).push(h),
{
    assert(lines.push(line).drop_last() =~= lines);
}

/// Escaping goes character by character: a wildcard stands in brackets of its own, a backslash
/// becomes a slash, and any other character stays as it is.
pub proof fn law_escaping_goes_by_character(s: Seq<char>, t: Seq<char>, c: char)
    ensures
        glob_text(seq![]).len() == 0,
        glob_text(s + t) == glob_text(s) + glob_text(t),
        c == '*' || c == '?' || c == '[' || c == ']' || c == '{' || c == '}' ==> glob_text(seq![c])
            == seq!['[', c, ']'],
        c == '\\' ==> glob_text(seq![c]) == seq!['/'],
        !(c == '*' || c == '?' || c == '[' || c == ']' || c == '{' || c == '}' || c == '\\')
            ==> glob_text(seq![c]) == seq![c],
    decreases t.len(),
{
    assert(seq![c].drop_last() =~= seq![]);
    assert(seq![c].last() == c);
    reveal_with_fuel(glob_text, 2);
    assert(glob_text(seq![c]) =~= glob_char(c));
    if t.len() == 0 {
        assert(s + t =~= s);
        assert(glob_text(s) + glob_text(t) =~= glob_text(s));
    } else {
        law_escaping_goes_by_character(s, t.drop_last(), c);
        assert((s + t).drop_last() =~= s + t.drop_last());
        assert(glob_text(s + t) =~= glob_text(s) + glob_text(t));
    }
}

/// Ripgrep is looked for beside the executable first, then in the folders of the search path in
/// their order, and then where it is commonly installed.
pub proof fn law_ripgrep_is_looked_for_in_order(
    exe_dir: Seq<char>,
    path_dirs: Seq<Seq<char>>,
    local: Option<Seq<char>>,
    profile: Option<Seq<char>>,
)
    ensures
        ({
            let places = ripgrep_places(Some(exe_dir), path_dirs, local, profile);
            let installs = install_dirs(local, profile);
            &&& places.len() == 1 + path_dirs.len() + installs.len()
            &&& places[0] == join_text(exe_dir, "rg.exe"@)
            &&& forall|i: int|
                0 <= i < path_dirs.len() ==> #[trigger] places[1 + i] == join_text(
                    path_dirs[i],
                    "rg.exe"@,
                )
            &&& forall|i: int|
                0 <= i < installs.len() ==> places[1 + path_dirs.len() + i] == join_text(
                    #[trigger] installs[i],
                    "rg.exe"@,
                )
            &&& ripgrep_places(None, path_dirs, local, profile) == places.skip(1)
        }),
{
    let places = ripgrep_places(Some(exe_dir), path_dirs, local, profile);
    assert(ripgrep_places(None, path_dirs, local, profile) =~= places.skip(1));
}

/// The results that events hold, in order.
pub open spec fn results_of(events: Seq<Event>) -> Seq<Hit>
    decreases events.len(),
{
    if events.len() == 0 {
        seq![]
    } else {
        results_of(events.drop_last()) + match events.last() {
            Event::Batch(hits) => hits,
            _ => seq![],
        }
    }
}

/// Batches hold all the results in their order, 128 each but for the last.
pub proof fn law_batches_hold_all_results(hits: Seq<Hit>)
    ensures
        results_of(batched(hits)) == hits,
        forall|i: int|
            0 <= i < batched(hits).len() ==> {
                let b = #[trigger] batched(hits)[i];
                b is Batch && 1 <= b->Batch_0.len() <= 128 && (i + 1 < batched(hits).len()
                    ==> b->Batch_0.len() == 128)
            },
    decreases hits.len(),
{
    if hits.len() > 0 {
        let n = (hits.len() - 1) / BATCH as int * BATCH;
        let front = hits.take(n);
        law_batches_hold_all_results(front);
        let all = batched(hits);
        assert(all.drop_last() =~= batched(front));
        assert(front + hits.skip(n) =~= hits);
        lemma_full_batches(front);
        assert forall|i: int| 0 <= i < all.len() implies {
            let b = #[trigger] all[i];
            b is Batch && 1 <= b->Batch_0.len() <= 128 && (i + 1 < all.len() ==> b->Batch_0.len()
                == 128)
        } by {
            if i < batched(front).len() {
                assert(all[i] == batched(front)[i]);
            }
        }
    }
}

proof fn lemma_full_batches(hits: Seq<Hit>)
    requires
        hits.len() % BATCH as nat == 0,
    ensures
        forall|i: int|
            0 <= i < batched(hits).len() ==> {
                let b = #[trigger] batched(hits)[i];
                b is Batch && b->Batch_0.len() == BATCH
            },
    decreases hits.len(),
{
    if hits.len() > 0 {
        let n = (hits.len() - 1) / BATCH as int * BATCH;
        assert(hits.len() - n == BATCH);
        let front = hits.take(n);
        lemma_full_batches(front);
        let all = batched(hits);
        assert forall|i: int| 0 <= i < all.len() implies {
            let b = #[trigger] all[i];
            b is Batch && b->Batch_0.len() == BATCH
        } by {
            if i < batched(front).len() {
                assert(all[i] == batched(front)[i]);
            }
        }
    }
}

proof fn lemma_results_join(a: Seq<Event>, b: Seq<Event>)
    ensures
        results_of(a + b) == results_of(a) + results_of(b),
    decreases b.len(),
{
    if b.len() == 0 {
        assert(a + b =~= a);
        assert(results_of(a) + results_of(b) =~= results_of(a));
    } else {
        lemma_results_join(a, b.drop_last());
        assert((a + b).drop_last() =~= a + b.drop_last());
        assert(results_of(a + b) =~= results_of(a) + results_of(b));
    }
}

/// A whole search delivers the files that its lines report, the first 5000 of them, and in name
/// mode then the directories that were found; never a result twice or out of order. It ends by
/// saying whether it reached 5000.
pub proof fn law_search_delivers_everything_up_to_the_cap(
    lines: Seq<Seq<char>>,
    mode: SearchMode,
    dirs: Seq<Seq<char>>,
)
    requires
        lines_hits(lines, mode).len() < 5000 && mode == SearchMode::Name ==> lines_hits(
            lines,
            mode,
        ).len() + dirs.len() <= 5000,
    ensures
        ({
            let all = lines_hits(lines, mode);
            let got = results_of(stream(lines, mode, dirs));
            &&& got.len() <= 5000
            &&& stream(lines, mode, dirs).last() == (Event::Done { capped: got.len() == 5000 })
            &&& all.len() >= 5000 ==> got == all.take(5000)
            &&& all.len() < 5000 && mode == SearchMode::Contents ==> got == all
            &&& all.len() < 5000 && mode == SearchMode::Name ==> {
                &&& got.len() == all.len() + dirs.len()
                &&& got.take(all.len() as int) == all
                &&& forall|i: int|
                    0 <= i < dirs.len() ==> got[all.len() + i] == (Hit {
                        path: #[trigger] dirs[i],
                        matches: None,
                        is_dir: true,
                    })
            }
        }),
{
    let all = lines_hits(lines, mode);
    let s = stream(lines, mode, dirs);
    let got = results_of(s);
    if all.len() >= RESULT_CAP {
        let kept = all.take(RESULT_CAP as int);
        law_batches_hold_all_results(kept);
        assert(s.drop_last() =~= batched(kept));
        assert(got =~= kept);
    } else if mode == SearchMode::Contents {
        law_batches_hold_all_results(all);
        assert(s.drop_last() =~= batched(all));
        assert(got =~= all);
    } else {
        let found = dir_hits(dirs);
        law_batches_hold_all_results(all);
        law_batches_hold_all_results(found);
        assert(s.drop_last() =~= batched(all) + batched(found));
        lemma_results_join(batched(all), batched(found));
        assert(got =~= all + found);
        assert(got.take(all.len() as int) =~= all);
    }
}

/// Ripgrep is told to look at hidden and ignored files too. By name it only lists files; by
/// contents it counts matches, and takes the query literally, in either case where it is written
/// in lowercase.
pub proof fn law_ripgrep_looks_everywhere(query: Seq<char>, mode: SearchMode, root: Seq<char>)
    ensures
        ({
            let args = command_args(query, mode, root);
            &&& args.contains("--no-ignore"@)
            &&& args.contains("--hidden"@)
            &&& mode == SearchMode::Name ==> args.contains("--files"@) && args.len() == 7
            &&& mode == SearchMode::Contents ==> {
                &&& args.contains("--count-matches"@)
                &&& args.contains("--fixed-strings"@)
                &&& args.contains("--smart-case"@)
                &&& args.len() == 9
            }
        }),
{
    let args = command_args(query, mode, root);
    match mode {
        SearchMode::Name => {
            assert(args[0] == "--files"@ && args[1] == "--no-ignore"@ && args[2] == "--hidden"@);
        },
        SearchMode::Contents => {
            assert(args[0] == "--count-matches"@ && args[1] == "--no-ignore"@);
            assert(args[2] == "--hidden"@ && args[3] == "--smart-case"@);
            assert(args[4] == "--fixed-strings"@);
        },
    }
}

/// A search asks for one thing at a time: first for ripgrep; then to start it, with the query
/// without white space around it and the searched folder; then for its lines; and in name mode
/// at last for the directories below that folder, no more than the files left of 5000.
pub proof fn law_search_asks_for_what_it_needs(
    root: Seq<char>,
    query: Seq<char>,
    mode: SearchMode,
    run: Run,
)
    requires
        run.root == root,
        run.query == trim(query),
        run.mode == mode,
    ensures
        fresh_run(root, query, mode).task() == Ask::FindRipgrep,
        trim(query).len() > 0 ==> fresh_run(root, query, mode).answered(
            Reply::Ripgrep(true),
        ).run.task() == Ask::Launch(command_args(trim(query), mode, root)),
        run.phase == Phase::Launching ==> run.answered(Reply::Started).run.task() == Ask::ReadLine,
        run.phase == Phase::Walking && mode == SearchMode::Name ==> run.task() == (Ask::FindDirs {
            root,
            query: trim(query),
            cap: 5000 - run.total,
        }),
        run.phase == Phase::Over ==> run.task() == Ask::Nothing,
{
}

/// A search that cannot run says so once and is over: without ripgrep, and where ripgrep does
/// not start. A blank query, and a ripgrep without output, end it without results.
pub proof fn law_search_that_cannot_run_says_so(
    root: Seq<char>,
    query: Seq<char>,
    mode: SearchMode,
    run: Run,
    error: Seq<char>,
)
    requires
        run.phase == Phase::Launching,
    ensures
        ({
            let t = fresh_run(root, query, mode).answered(Reply::Ripgrep(false));
            &&& t.run.phase == Phase::Over
            &&& t.events.len() == 1
            &&& t.events[0] matches Event::Failed(text) && text.len() > 0
        }),
        trim(query).len() == 0 ==> ({
            let t = fresh_run(root, query, mode).answered(Reply::Ripgrep(true));
            t.run.phase == Phase::Over && t.events == seq![Event::Done { capped: false }]
        }),
        ({
            let t = run.answered(Reply::NotStarted(error));
            &&& t.run.phase == Phase::Over
            &&& t.events == seq![Event::Failed("Failed to launch ripgrep: "@ + error)]
        }),
        ({
            let t = run.answered(Reply::NoOutput);
            t.run.phase == Phase::Over && t.events == seq![Event::Done { capped: false }]
        }),
{
    reveal_strlit(
        "ripgrep (rg.exe) was not found. Install it (e.g. with the bundled install-ripgrep.ps1) and try again.",
    );
}

} // verus!
