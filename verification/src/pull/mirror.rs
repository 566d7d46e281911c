//! Mirroring a remote directory tree, entry by entry and depth first.
use crate::order::reversed;
use crate::paths::joined;
use crate::pull::error::Error;
use crate::pull::fetch::RemoteEntry;
use crate::pull::run::join_text;
use crate::text::chars_of;
use vstd::prelude::*;

verus! {

/// What was mirrored so far.
#[derive(Clone, Copy)]
pub struct Stats {
    /// How many files, whether fetched, there already or failed.
    pub files: u64,
    /// How many directories.
    pub dirs: u64,
    /// How many bytes were fetched.
    pub bytes: u64,
}

/// An entry of a remote listing, as values.
pub struct EntryView {
    /// The name.
    pub name: Seq<char>,
    /// Whether it is a directory.
    pub dir: bool,
    /// The size of a file.
    pub size: Option<u64>,
}

/// An entry of a remote listing, as values.
pub open spec fn entry_view(e: RemoteEntry) -> EntryView {
    EntryView { name: e.name@, dir: e.names_dir(), size: e.size }
}

/// A listing, as values.
pub open spec fn entry_views(entries: Seq<RemoteEntry>) -> Seq<EntryView> {
    entries.map_values(|e: RemoteEntry| entry_view(e))
}

/// An entry that is still to be mirrored, by the remote and the local directory that it is in.
pub struct Task {
    /// The remote directory.
    pub remote: Seq<char>,
    /// The local directory.
    pub local: Seq<char>,
    /// The entry.
    pub entry: EntryView,
}

/// The remote path of an entry.
pub open spec fn remote_child(remote: Seq<char>, name: Seq<char>) -> Seq<char> {
    if remote.len() == 0 {
        name
    } else {
        remote + "/"@ + name
    }
}

/// The local path of an entry.
pub open spec fn local_child(local: Seq<char>, name: Seq<char>) -> Seq<char> {
    joined(local, name, '/')
}

/// The entries of a directory, as tasks.
pub open spec fn tasks_of(
    remote: Seq<char>,
    local: Seq<char>,
    entries: Seq<EntryView>,
) -> Seq<Task> {
    Seq::new(entries.len(), |i: int| Task { remote, local, entry: entries[i] })
}

/// What is waited for: paths are those of an entry.
pub enum WaitView {
    /// Nothing.
    Nothing,
    /// A local directory to be made.
    Creating { remote: Seq<char>, local: Seq<char> },
    /// A remote directory to be listed.
    Listing { remote: Seq<char>, local: Seq<char> },
    /// The size of a local file.
    Checking { remote: Seq<char>, local: Seq<char>, size: u64 },
    /// A remote file to be fetched.
    Fetching { remote: Seq<char>, local: Seq<char> },
}

/// The state of a mirroring.
pub struct MirrorModel {
    /// What is waited for.
    pub wait: WaitView,
    /// The entries that come next.
    pub tasks: Seq<Task>,
    /// What was mirrored.
    pub stats: Stats,
}

/// What happened.
pub enum MirrorEvent {
    /// The mirroring begins.
    Start,
    /// A local directory was made, or not.
    Created(Result<(), Error>),
    /// A remote directory was listed, or not.
    Listed(Result<Vec<RemoteEntry>, Error>),
    /// The size of a local file, where there is one.
    Checked(Option<u64>),
    /// A remote file was fetched, with this many bytes, or not.
    Fetched(Result<u64, Error>),
}

/// What to do next.
pub enum MirrorAction {
    /// Make a local directory.
    CreateDir { local: String },
    /// List a remote directory.
    List { remote: String },
    /// Look up the size of a local file.
    Check { local: String },
    /// Fetch a remote file.
    Fetch { remote: String, local: String },
    /// It is over.
    Done,
    /// It failed.
    Fail(Error),
}

/// What to do next, as values.
pub enum ActionView {
    /// Make a local directory.
    CreateDir { local: Seq<char> },
    /// List a remote directory.
    List { remote: Seq<char> },
    /// Look up the size of a local file.
    Check { local: Seq<char> },
    /// Fetch a remote file.
    Fetch { remote: Seq<char>, local: Seq<char> },
    /// It is over.
    Done,
    /// It failed.
    Fail(Error),
}

impl MirrorAction {
    /// The action, as values.
    pub open spec fn view(&self) -> ActionView {
        match self {
            MirrorAction::CreateDir { local } => ActionView::CreateDir { local: local@ },
            MirrorAction::List { remote } => ActionView::List { remote: remote@ },
            MirrorAction::Check { local } => ActionView::Check { local: local@ },
            MirrorAction::Fetch { remote, local } => ActionView::Fetch {
                remote: remote@,
                local: local@,
            },
            MirrorAction::Done => ActionView::Done,
            MirrorAction::Fail(error) => ActionView::Fail(*error),
        }
    }
}

/// The next entry is taken up: a directory is made, a file with a size is compared with the local
/// one, and a file without is fetched.
pub open spec fn take_up(tasks: Seq<Task>, stats: Stats) -> (MirrorModel, ActionView) {
    if tasks.len() == 0 {
        (MirrorModel { wait: WaitView::Nothing, tasks, stats }, ActionView::Done)
    } else {
        let task = tasks[0];
        let remote = remote_child(task.remote, task.entry.name);
        let local = local_child(task.local, task.entry.name);
        let rest = tasks.drop_first();
        if task.entry.dir {
            (
                MirrorModel { wait: WaitView::Creating { remote, local }, tasks: rest, stats },
                ActionView::CreateDir { local },
            )
        } else if task.entry.size is Some {
            (
                MirrorModel {
                    wait: WaitView::Checking { remote, local, size: task.entry.size->0 },
                    tasks: rest,
                    stats,
                },
                ActionView::Check { local },
            )
        } else {
            (
                MirrorModel { wait: WaitView::Fetching { remote, local }, tasks: rest, stats },
                ActionView::Fetch { remote, local },
            )
        }
    }
}

/// One more file, with this many bytes fetched.
pub open spec fn one_file(stats: Stats, bytes: u64) -> Stats {
    Stats { files: (stats.files + 1) as u64, dirs: stats.dirs, bytes: (stats.bytes + bytes) as u64 }
}

/// One more directory.
pub open spec fn one_dir(stats: Stats) -> Stats {
    Stats { files: stats.files, dirs: (stats.dirs + 1) as u64, bytes: stats.bytes }
}

/// A mirroring that failed.
pub open spec fn failed(m: MirrorModel, error: Error) -> (MirrorModel, ActionView) {
    (
        MirrorModel { wait: WaitView::Nothing, tasks: Seq::empty(), stats: m.stats },
        ActionView::Fail(error),
    )
}

/// Whether an event answers what is waited for.
pub open spec fn fits(m: MirrorModel, event: MirrorEvent) -> bool {
    match event {
        MirrorEvent::Start => m.wait is Nothing,
        MirrorEvent::Created(_) => m.wait is Creating,
        MirrorEvent::Listed(_) => m.wait is Listing,
        MirrorEvent::Checked(_) => m.wait is Checking,
        MirrorEvent::Fetched(_) => m.wait is Fetching,
    }
}

/// Whether what was mirrored can still be counted after an event.
pub open spec fn countable(stats: Stats, event: MirrorEvent) -> bool {
    match event {
        MirrorEvent::Created(_) => stats.dirs < u64::MAX,
        MirrorEvent::Checked(_) => stats.files < u64::MAX,
        MirrorEvent::Fetched(Ok(n)) => stats.files < u64::MAX && stats.bytes + n <= u64::MAX,
        MirrorEvent::Fetched(Err(_)) => stats.files < u64::MAX,
        _ => true,
    }
}

/// What to do on an event. A directory that cannot be made or listed ends the mirroring. A file
/// whose local copy has its size is left alone; one that cannot be fetched is counted and passed
/// over.
pub open spec fn mirror_step(m: MirrorModel, event: MirrorEvent) -> (MirrorModel, ActionView) {
    match (event, m.wait) {
        (MirrorEvent::Created(Ok(_)), WaitView::Creating { remote, local }) => (
            MirrorModel {
                wait: WaitView::Listing { remote, local },
                tasks: m.tasks,
                stats: one_dir(m.stats),
            },
            ActionView::List { remote },
        ),
        (MirrorEvent::Created(Err(error)), _) => failed(m, error),
        (MirrorEvent::Listed(Ok(entries)), WaitView::Listing { remote, local }) => take_up(
            tasks_of(remote, local, entry_views(entries@)) + m.tasks,
            m.stats,
        ),
        (MirrorEvent::Listed(Err(error)), _) => failed(m, error),
        (MirrorEvent::Checked(found), WaitView::Checking { remote, local, size }) => if found
            == Some(size) {
            take_up(m.tasks, one_file(m.stats, 0))
        } else {
            (
                MirrorModel {
                    wait: WaitView::Fetching { remote, local },
                    tasks: m.tasks,
                    stats: m.stats,
                },
                ActionView::Fetch { remote, local },
            )
        },
        (MirrorEvent::Fetched(Ok(n)), _) => take_up(m.tasks, one_file(m.stats, n)),
        (MirrorEvent::Fetched(Err(_)), _) => take_up(m.tasks, one_file(m.stats, 0)),
        _ => take_up(m.tasks, m.stats),
    }
}

/// The entries of a directory that are still to be mirrored, the next one last.
struct Frame {
    remote: String,
    local: String,
    rest: Vec<RemoteEntry>,
}

impl Frame {
    spec fn tasks(&self) -> Seq<Task> {
        tasks_of(self.remote@, self.local@, entry_views(self.rest@).reverse())
    }
}

spec fn stack_tasks(frames: Seq<Frame>) -> Seq<Task>
    decreases frames.len(),
{
    if frames.len() == 0 {
        Seq::empty()
    } else {
        frames.last().tasks() + stack_tasks(frames.drop_last())
    }
}

enum Wait {
    Nothing,
    Creating { remote: String, local: String },
    Listing { remote: String, local: String },
    Checking { remote: String, local: String, size: u64 },
    Fetching { remote: String, local: String },
}

/// A mirroring of a remote directory tree. It is driven by its events: each says what to do next.
pub struct Mirror {
    frames: Vec<Frame>,
    wait: Wait,
    stats: Stats,
}

impl Mirror {
    /// The state of the mirroring.
    pub closed spec fn model(&self) -> MirrorModel {
        MirrorModel {
            wait: match self.wait {
                Wait::Nothing => WaitView::Nothing,
                Wait::Creating { remote, local } => WaitView::Creating {
                    remote: remote@,
                    local: local@,
                },
                Wait::Listing { remote, local } => WaitView::Listing {
                    remote: remote@,
                    local: local@,
                },
                Wait::Checking { remote, local, size } => WaitView::Checking {
                    remote: remote@,
                    local: local@,
                    size,
                },
                Wait::Fetching { remote, local } => WaitView::Fetching {
                    remote: remote@,
                    local: local@,
                },
            },
            tasks: stack_tasks(self.frames@),
            stats: self.stats,
        }
    }

    /// A mirroring of the directory `remote`, with these entries, into the directory `local`.
    pub fn new(remote: &str, local: &str, entries: Vec<RemoteEntry>) -> (r: Mirror)
        ensures
            r.model() == (MirrorModel {
                wait: WaitView::Nothing,
                tasks: tasks_of(remote@, local@, entry_views(entries@)),
                stats: Stats { files: 0, dirs: 0, bytes: 0 },
            }),
    {
        let mut r = Mirror {
            frames: Vec::new(),
            wait: Wait::Nothing,
            stats: Stats { files: 0, dirs: 0, bytes: 0 },
        };
        r.push(remote.to_string(), local.to_string(), entries);
        assert(r.model().tasks =~= tasks_of(remote@, local@, entry_views(entries@)));
        r
    }

    fn push(&mut self, remote: String, local: String, entries: Vec<RemoteEntry>)
        ensures
            final(self).model() == (MirrorModel {
                tasks: tasks_of(remote@, local@, entry_views(entries@)) + old(self).model().tasks,
                ..old(self).model()
            }),
    {
        let ghost frames0 = self.frames@;
        let rest = reversed(entries);
        self.frames.push(Frame { remote, local, rest });
        proof {
            assert(entry_views(rest@).reverse() =~= entry_views(entries@));
            assert(self.frames@.drop_last() =~= frames0);
        }
    }

    /// What was mirrored so far.
    pub fn stats(&self) -> (r: Stats)
        ensures
            r == self.model().stats,
    {
        self.stats
    }

    /// Whether an event answers what is waited for, and what was mirrored can still be counted
    /// after it.
    pub fn accepts(&self, event: &MirrorEvent) -> (r: bool)
        ensures
            r == (fits(self.model(), *event) && countable(self.model().stats, *event)),
    {
        match event {
            MirrorEvent::Start => match &self.wait {
                Wait::Nothing => true,
                _ => false,
            },
            MirrorEvent::Created(_) => match &self.wait {
                Wait::Creating { remote, local } => self.stats.dirs < u64::MAX,
                _ => false,
            },
            MirrorEvent::Listed(_) => match &self.wait {
                Wait::Listing { remote, local } => true,
                _ => false,
            },
            MirrorEvent::Checked(_) => match &self.wait {
                Wait::Checking { remote, local, size } => self.stats.files < u64::MAX,
                _ => false,
            },
            MirrorEvent::Fetched(Ok(n)) => match &self.wait {
                Wait::Fetching { remote, local } => self.stats.files < u64::MAX
                    && self.stats.bytes <= u64::MAX - *n,
                _ => false,
            },
            MirrorEvent::Fetched(Err(_)) => match &self.wait {
                Wait::Fetching { remote, local } => self.stats.files < u64::MAX,
                _ => false,
            },
        }
    }

    /// Takes up the next entry.
    fn take_up(&mut self) -> (r: MirrorAction)
        requires
            old(self).wait is Nothing,
        ensures
            (final(self).model(), r.view()) == take_up(
                old(self).model().tasks,
                old(self).model().stats,
            ),
    {
        loop
            invariant
                self.wait is Nothing,
                self.stats == old(self).stats,
                stack_tasks(self.frames@) == old(self).model().tasks,
            decreases self.frames@.len(),
        {
            let ghost before = stack_tasks(self.frames@);
            let ghost frames0 = self.frames@;
            match self.frames.pop() {
                None => {
                    return MirrorAction::Done;
                },
                Some(frame) => {
                    let mut frame = frame;
                    let ghost frame0 = frame;
                    proof {
                        assert(frames0.drop_last() =~= self.frames@);
                    }
                    match frame.rest.pop() {
                        None => {
                            proof {
                                assert(frame0.tasks() =~= Seq::<Task>::empty());
                                assert(before =~= stack_tasks(self.frames@));
                            }
                        },
                        Some(entry) => {
                            let remote = if chars_of(frame.remote.as_str()).len() == 0 {
                                entry.name.clone()
                            } else {
                                let mut out = frame.remote.clone();
                                out.append("/");
                                out.append(entry.name.as_str());
                                out
                            };
                            let local = join_text(frame.local.as_str(), entry.name.as_str());
                            self.frames.push(frame);
                            proof {
                                let task = Task {
                                    remote: frame.remote@,
                                    local: frame.local@,
                                    entry: entry_view(entry),
                                };
                                assert(frame0.rest@ =~= frame.rest@.push(entry));
                                let a = entry_views(frame0.rest@).reverse();
                                let b = entry_views(frame.rest@).reverse();
                                assert(a =~= seq![entry_view(entry)] + b);
                                assert(frame0.tasks() =~= seq![task] + frame.tasks());
                                assert(self.frames@.drop_last() =~= frames0.drop_last());
                                assert(before =~= seq![task] + stack_tasks(self.frames@));
                                assert(before[0] == task);
                                assert(before.drop_first() =~= stack_tasks(self.frames@));
                            }
                            if entry.is_dir() {
                                let asked = local.clone();
                                self.wait = Wait::Creating { remote, local };
                                return MirrorAction::CreateDir { local: asked };
                            }
                            match entry.size {
                                Some(size) => {
                                    let asked = local.clone();
                                    self.wait = Wait::Checking { remote, local, size };
                                    return MirrorAction::Check { local: asked };
                                },
                                None => {
                                    let asked = remote.clone();
                                    let to = local.clone();
                                    self.wait = Wait::Fetching { remote, local };
                                    return MirrorAction::Fetch { remote: asked, local: to };
                                },
                            }
                        },
                    }
                },
            }
        }
    }

    fn fail(&mut self, error: Error) -> (r: MirrorAction)
        ensures
            (final(self).model(), r.view()) == failed(old(self).model(), error),
    {
        self.frames = Vec::new();
        self.wait = Wait::Nothing;
        assert(stack_tasks(self.frames@) =~= Seq::<Task>::empty());
        MirrorAction::Fail(error)
    }

    fn count_file(&mut self, bytes: u64)
        requires
            old(self).stats.files < u64::MAX,
            old(self).stats.bytes + bytes <= u64::MAX,
        ensures
            final(self).stats == one_file(old(self).stats, bytes),
            final(self).frames == old(self).frames,
            final(self).wait == old(self).wait,
    {
        self.stats = Stats {
            files: self.stats.files + 1,
            dirs: self.stats.dirs,
            bytes: self.stats.bytes + bytes,
        };
    }

    /// Takes an event and says what to do next.
    pub fn step(&mut self, event: MirrorEvent) -> (r: MirrorAction)
        requires
            fits(old(self).model(), event),
            countable(old(self).model().stats, event),
        ensures
            (final(self).model(), r.view()) == mirror_step(old(self).model(), event),
    {
        let mut wait = Wait::Nothing;
        core::mem::swap(&mut self.wait, &mut wait);
        match event {
            MirrorEvent::Start => self.take_up(),
            MirrorEvent::Created(Err(error)) => self.fail(error),
            MirrorEvent::Created(Ok(_)) => match wait {
                Wait::Creating { remote, local } => {
                    self.stats = Stats {
                        files: self.stats.files,
                        dirs: self.stats.dirs + 1,
                        bytes: self.stats.bytes,
                    };
                    let asked = remote.clone();
                    self.wait = Wait::Listing { remote, local };
                    MirrorAction::List { remote: asked }
                },
                _ => self.take_up(),
            },
            MirrorEvent::Listed(Err(error)) => self.fail(error),
            MirrorEvent::Listed(Ok(entries)) => match wait {
                Wait::Listing { remote, local } => {
                    self.push(remote, local, entries);
                    self.take_up()
                },
                _ => self.take_up(),
            },
            MirrorEvent::Checked(found) => match wait {
                Wait::Checking { remote, local, size } => {
                    let same = match found {
                        Some(n) => n == size,
                        None => false,
                    };
                    if same {
                        self.count_file(0);
                        self.take_up()
                    } else {
                        let asked = remote.clone();
                        let to = local.clone();
                        self.wait = Wait::Fetching { remote, local };
                        MirrorAction::Fetch { remote: asked, local: to }
                    }
                },
                _ => self.take_up(),
            },
            MirrorEvent::Fetched(Ok(n)) => {
                self.count_file(n);
                self.take_up()
            },
            MirrorEvent::Fetched(Err(_)) => {
                self.count_file(0);
                self.take_up()
            },
        }
    }
}

/// What is done for an entry.
pub enum Deed {
    /// A local directory is made.
    MakeDir { local: Seq<char> },
    /// A local file is brought up to date with a remote one.
    Update { remote: Seq<char>, local: Seq<char> },
}

/// What a remote server lists for each of its directories.
pub struct Share {
    /// The listing of a directory.
    pub list: spec_fn(Seq<char>) -> Seq<EntryView>,
}

/// The entries below an entry.
pub open spec fn below(share: Share, task: Task) -> Seq<Task> {
    if task.entry.dir {
        let remote = remote_child(task.remote, task.entry.name);
        tasks_of(remote, local_child(task.local, task.entry.name), (share.list)(remote))
    } else {
        Seq::empty()
    }
}

/// What is done for an entry itself.
pub open spec fn deed(task: Task) -> Deed {
    let local = local_child(task.local, task.entry.name);
    if task.entry.dir {
        Deed::MakeDir { local }
    } else {
        Deed::Update { remote: remote_child(task.remote, task.entry.name), local }
    }
}

/// What is done for a list of entries, depth first. None where `fuel` entries are not enough.
pub open spec fn deeds(share: Share, tasks: Seq<Task>, fuel: nat) -> Option<Seq<Deed>>
    decreases fuel,
{
    if tasks.len() == 0 {
        Some(Seq::empty())
    } else if fuel == 0 {
        None
    } else {
        match deeds(share, below(share, tasks[0]) + tasks.drop_first(), (fuel - 1) as nat) {
            Some(rest) => Some(seq![deed(tasks[0])] + rest),
            None => None,
        }
    }
}

/// The entries still to come in a state.
pub open spec fn to_come(share: Share, m: MirrorModel) -> Seq<Task> {
    match m.wait {
        WaitView::Creating { remote, local } => tasks_of(remote, local, (share.list)(remote))
            + m.tasks,
        WaitView::Listing { remote, local } => tasks_of(remote, local, (share.list)(remote))
            + m.tasks,
        _ => m.tasks,
    }
}

/// Whether an event leads on from comparing a file to fetching it.
pub open spec fn goes_on(before: MirrorModel, event: MirrorEvent) -> bool {
    match (before.wait, event) {
        (WaitView::Checking { remote, local, size }, MirrorEvent::Checked(found)) => found != Some(
            size,
        ),
        _ => false,
    }
}

/// The deed that begins with an action.
pub open spec fn begun(
    before: MirrorModel,
    event: MirrorEvent,
    after: MirrorModel,
    action: ActionView,
) -> Seq<Deed> {
    match action {
        ActionView::CreateDir { local } => seq![Deed::MakeDir { local }],
        ActionView::Check { local } => match after.wait {
            WaitView::Checking { remote, local, size } => seq![Deed::Update { remote, local }],
            _ => Seq::empty(),
        },
        ActionView::Fetch { remote, local } => if goes_on(before, event) {
            Seq::empty()
        } else {
            seq![Deed::Update { remote, local }]
        },
        _ => Seq::empty(),
    }
}

/// Whether an event is what happens when directories can be made and the server lists its
/// directories. Files may be there or not, and may be fetched or not.
pub open spec fn in_order(share: Share, m: MirrorModel, event: MirrorEvent) -> bool {
    match event {
        MirrorEvent::Created(r) => r is Ok,
        MirrorEvent::Listed(r) => r is Ok && (m.wait matches WaitView::Listing { remote, local }
            ==> entry_views(r->Ok_0@) == (share.list)(remote)),
        _ => true,
    }
}

/// A mirroring does what the tree asks for, each entry once and depth first, and goes on when a
/// file cannot be fetched: what was to be done before a step is what the step begins, and then what
/// is to be done after it.
pub proof fn law_mirror_step(share: Share, m: MirrorModel, event: MirrorEvent, n: nat)
    requires
        fits(m, event),
        in_order(share, m, event),
        deeds(share, to_come(share, m), n) is Some,
    ensures
        ({
            let (after, action) = mirror_step(m, event);
            &&& deeds(share, to_come(share, after), n) is Some
            &&& deeds(share, to_come(share, m), n)->0 == begun(m, event, after, action) + deeds(
                share,
                to_come(share, after),
                n,
            )->0
            &&& action is Done <==> to_come(share, m).len() == 0 && !goes_on(m, event) && !(
            event is Created)
            &&& !(action is Fail)
        }),
{
    let tasks = to_come(share, m);
    let all = deeds(share, tasks, n)->0;
    let (after, action) = mirror_step(m, event);
    if event is Created || goes_on(m, event) {
        assert(to_come(share, after) =~= tasks);
        assert(begun(m, event, after, action) =~= Seq::<Deed>::empty());
        assert(Seq::<Deed>::empty() + all =~= all);
    } else {
        assert(after.tasks =~= if tasks.len() == 0 {
            tasks
        } else {
            tasks.drop_first()
        });
        if tasks.len() == 0 {
            assert(Seq::<Deed>::empty() + all =~= all);
        } else {
            let next = below(share, tasks[0]) + tasks.drop_first();
            assert(to_come(share, after) =~= next);
            lemma_more_fuel(share, next, (n - 1) as nat, n);
            assert(begun(m, event, after, action) =~= seq![deed(tasks[0])]);
        }
    }
}

/// One step of a mirroring: the state and the event before it.
pub struct MirrorMove {
    /// The state before.
    pub before: MirrorModel,
    /// The event.
    pub event: MirrorEvent,
}

impl MirrorMove {
    /// The state after.
    pub open spec fn after(self) -> MirrorModel {
        mirror_step(self.before, self.event).0
    }

    /// The action.
    pub open spec fn action(self) -> ActionView {
        mirror_step(self.before, self.event).1
    }
}

/// Whether steps follow each other, with directories that can be made and listed.
pub open spec fn follow(share: Share, moves: Seq<MirrorMove>) -> bool {
    &&& forall|i: int|
        0 <= i < moves.len() ==> fits((#[trigger] moves[i]).before, moves[i].event) && in_order(
            share,
            moves[i].before,
            moves[i].event,
        )
    &&& forall|i: int| 0 < i < moves.len() ==> (#[trigger] moves[i]).before == moves[i - 1].after()
}

/// The deeds that steps begin.
pub open spec fn all_begun(moves: Seq<MirrorMove>) -> Seq<Deed>
    decreases moves.len(),
{
    if moves.len() == 0 {
        Seq::empty()
    } else {
        let last = moves.last();
        all_begun(moves.drop_last()) + begun(last.before, last.event, last.after(), last.action())
    }
}

/// A mirroring that comes to its end has done what the whole tree asks for, each entry once and
/// depth first, and nothing else.
pub proof fn law_whole_mirror(share: Share, moves: Seq<MirrorMove>, n: nat)
    requires
        moves.len() > 0,
        follow(share, moves),
        moves.last().action() is Done,
        deeds(share, to_come(share, moves[0].before), n) is Some,
    ensures
        Some(all_begun(moves)) == deeds(share, to_come(share, moves[0].before), n),
{
    lemma_mirrored_so_far(share, moves, n);
    let last = moves.last();
    if moves.len() > 1 {
        let some = moves.drop_last();
        lemma_follow_part(share, moves);
        lemma_mirrored_so_far(share, some, n);
        assert(some.last() == moves[moves.len() - 2]);
    }
    assert(fits(last.before, last.event));
    law_mirror_step(share, last.before, last.event, n);
    assert(to_come(share, last.after()).len() == 0);
    assert(all_begun(moves) + Seq::<Deed>::empty() =~= all_begun(moves));
}

/// The first steps of some that follow each other do so too.
proof fn lemma_follow_part(share: Share, moves: Seq<MirrorMove>)
    requires
        moves.len() > 0,
        follow(share, moves),
    ensures
        follow(share, moves.drop_last()),
{
    let some = moves.drop_last();
    assert forall|i: int| 0 <= i < some.len() implies fits(
        (#[trigger] some[i]).before,
        some[i].event,
    ) && in_order(share, some[i].before, some[i].event) by {
        assert(some[i] == moves[i]);
    }
    assert forall|i: int| 0 < i < some.len() implies (#[trigger] some[i]).before == some[i
        - 1].after() by {
        assert(moves[i].before == moves[i - 1].after());
    }
}

/// What steps have begun, and what is to come after them, is what was to come before them.
proof fn lemma_mirrored_so_far(share: Share, moves: Seq<MirrorMove>, n: nat)
    requires
        moves.len() > 0,
        follow(share, moves),
        deeds(share, to_come(share, moves[0].before), n) is Some,
    ensures
        deeds(share, to_come(share, moves.last().after()), n) is Some,
        deeds(share, to_come(share, moves[0].before), n)->0 == all_begun(moves) + deeds(
            share,
            to_come(share, moves.last().after()),
            n,
        )->0,
    decreases moves.len(),
{
    let last = moves.last();
    let some = moves.drop_last();
    assert(fits(last.before, last.event));
    let now = begun(last.before, last.event, last.after(), last.action());
    if moves.len() == 1 {
        law_mirror_step(share, last.before, last.event, n);
        assert(all_begun(some) =~= Seq::<Deed>::empty());
        assert(all_begun(moves) =~= now);
    } else {
        lemma_follow_part(share, moves);
        lemma_mirrored_so_far(share, some, n);
        assert(some.last() == moves[moves.len() - 2]);
        assert(moves[moves.len() - 1].before == moves[moves.len() - 2].after());
        law_mirror_step(share, last.before, last.event, n);
        let rest = deeds(share, to_come(share, last.after()), n)->0;
        assert(all_begun(some) + (now + rest) =~= all_begun(moves) + rest);
    }
}

/// How many of some deeds make a directory.
pub open spec fn dirs_in(deeds: Seq<Deed>) -> nat
    decreases deeds.len(),
{
    if deeds.len() == 0 {
        0
    } else {
        dirs_in(deeds.drop_last()) + if deeds.last() is MakeDir {
            1nat
        } else {
            0nat
        }
    }
}

/// How many of some deeds bring a file up to date.
pub open spec fn files_in(deeds: Seq<Deed>) -> nat {
    (deeds.len() - dirs_in(deeds)) as nat
}

/// How many bytes an event says were fetched.
pub open spec fn fetched(event: MirrorEvent) -> nat {
    match event {
        MirrorEvent::Fetched(Ok(n)) => n as nat,
        _ => 0,
    }
}

/// How many bytes were fetched in some steps.
pub open spec fn all_fetched(moves: Seq<MirrorMove>) -> nat
    decreases moves.len(),
{
    if moves.len() == 0 {
        0
    } else {
        all_fetched(moves.drop_last()) + fetched(moves.last().event)
    }
}

/// Whether what is mirrored can be counted in every step.
pub open spec fn all_countable(moves: Seq<MirrorMove>) -> bool {
    forall|i: int|
        0 <= i < moves.len() ==> countable((#[trigger] moves[i]).before.stats, moves[i].event)
}

/// The counts at the end of a mirroring: the directories of the tree, its other entries, whether
/// they were fetched or not, and all bytes that were fetched.
pub proof fn law_counts(share: Share, moves: Seq<MirrorMove>, n: nat)
    requires
        moves.len() > 0,
        follow(share, moves),
        all_countable(moves),
        moves[0].before.wait is Nothing,
        moves[0].before.stats == (Stats { files: 0, dirs: 0, bytes: 0 }),
        moves.last().action() is Done,
        deeds(share, to_come(share, moves[0].before), n) is Some,
    ensures
        ({
            let stats = moves.last().after().stats;
            let tree = deeds(share, to_come(share, moves[0].before), n)->0;
            &&& stats.dirs == dirs_in(tree)
            &&& stats.files == files_in(tree)
            &&& stats.bytes == all_fetched(moves)
        }),
{
    law_whole_mirror(share, moves, n);
    lemma_counted_so_far(share, moves);
}

/// One for a directory that is being made, which is begun but not counted yet.
spec fn making(m: MirrorModel) -> nat {
    if m.wait is Creating {
        1
    } else {
        0
    }
}

/// One for a file that is begun but not counted yet.
spec fn updating(m: MirrorModel) -> nat {
    if m.wait is Checking || m.wait is Fetching {
        1
    } else {
        0
    }
}

/// What is counted so far is what was begun, but for what is under way.
proof fn lemma_counted_so_far(share: Share, moves: Seq<MirrorMove>)
    requires
        moves.len() > 0,
        follow(share, moves),
        all_countable(moves),
        moves[0].before.wait is Nothing,
        moves[0].before.stats == (Stats { files: 0, dirs: 0, bytes: 0 }),
    ensures
        ({
            let after = moves.last().after();
            let all = all_begun(moves);
            &&& after.stats.dirs + making(after) == dirs_in(all)
            &&& after.stats.files + updating(after) == all.len() - dirs_in(all)
            &&& after.stats.bytes == all_fetched(moves)
        }),
    decreases moves.len(),
{
    let last = moves.last();
    let some = moves.drop_last();
    let now = begun(last.before, last.event, last.after(), last.action());
    assert(fits(last.before, last.event));
    assert(in_order(share, last.before, last.event));
    assert(countable(last.before.stats, last.event));
    lemma_dirs_concat(all_begun(some), now);
    assert(now.len() <= 1);
    assert(dirs_in(now) == if now.len() == 1 && now[0] is MakeDir {
        1nat
    } else {
        0nat
    }) by {
        if now.len() == 1 {
            assert(now.drop_last() =~= Seq::<Deed>::empty());
            assert(dirs_in(now.drop_last()) == 0);
        }
    }
    if moves.len() == 1 {
        assert(some =~= Seq::<MirrorMove>::empty());
        assert(all_begun(some) =~= Seq::<Deed>::empty());
        assert(dirs_in(all_begun(some)) == 0);
        assert(all_fetched(some) == 0);
    } else {
        lemma_follow_part(share, moves);
        assert(all_countable(some)) by {
            assert forall|i: int| 0 <= i < some.len() implies countable(
                (#[trigger] some[i]).before.stats,
                some[i].event,
            ) by {
                assert(some[i] == moves[i]);
            }
        }
        lemma_counted_so_far(share, some);
        assert(some.last() == moves[moves.len() - 2]);
        assert(moves[moves.len() - 1].before == moves[moves.len() - 2].after());
    }
}

/// The directories among two runs of deeds are those of both.
proof fn lemma_dirs_concat(a: Seq<Deed>, b: Seq<Deed>)
    ensures
        dirs_in(a + b) == dirs_in(a) + dirs_in(b),
        dirs_in(b) <= b.len(),
    decreases b.len(),
{
    if b.len() == 0 {
        assert(a + b =~= a);
    } else {
        lemma_dirs_concat(a, b.drop_last());
        assert((a + b).drop_last() =~= a + b.drop_last());
    }
}

/// What is done stays the same with more fuel.
proof fn lemma_more_fuel(share: Share, tasks: Seq<Task>, n: nat, more: nat)
    requires
        deeds(share, tasks, n) is Some,
        n <= more,
    ensures
        deeds(share, tasks, more) == deeds(share, tasks, n),
    decreases n,
{
    if tasks.len() > 0 {
        lemma_more_fuel(
            share,
            below(share, tasks[0]) + tasks.drop_first(),
            (n - 1) as nat,
            (more - 1) as nat,
        );
    }
}

/// A file whose local copy has the size that the server lists is not fetched again.
pub proof fn law_same_size_is_left_alone(m: MirrorModel, found: Option<u64>)
    requires
        m.wait is Checking,
        found == Some(m.wait->Checking_size),
    ensures
        mirror_step(m, MirrorEvent::Checked(found)) == take_up(m.tasks, one_file(m.stats, 0)),
{
}

/// An action names the paths of the entry that is under way: what a step asks for is what the state
/// after it waits for, with the same remote and the same local path.
pub proof fn law_actions_name_their_entry(m: MirrorModel, event: MirrorEvent)
    requires
        fits(m, event),
    ensures
        ({
            let (after, action) = mirror_step(m, event);
            match action {
                ActionView::CreateDir { local } => after.wait matches WaitView::Creating {
                    remote: _,
                    local: l,
                } && l == local,
                ActionView::List { remote } => after.wait matches WaitView::Listing {
                    remote: r,
                    local: _,
                } && r == remote,
                ActionView::Check { local } => after.wait matches WaitView::Checking {
                    remote: _,
                    local: l,
                    size: _,
                } && l == local,
                ActionView::Fetch { remote, local } => after.wait == (WaitView::Fetching {
                    remote,
                    local,
                }),
                ActionView::Done => after.wait is Nothing && after.tasks.len() == 0,
                ActionView::Fail(_) => after.wait is Nothing && after.tasks.len() == 0,
            }
        }),
{
}

/// A local file that is missing, or has another size than the remote one, is replaced: the remote
/// file that was compared is fetched to the local path that was compared, and nothing else changes.
pub proof fn law_other_size_is_fetched(
    m: MirrorModel,
    remote: Seq<char>,
    local: Seq<char>,
    size: u64,
    found: Option<u64>,
)
    requires
        m.wait == (WaitView::Checking { remote, local, size }),
        found is None || found->0 != size,
    ensures
        ({
            let (after, action) = mirror_step(m, MirrorEvent::Checked(found));
            &&& action == (ActionView::Fetch { remote, local })
            &&& after.tasks == m.tasks
            &&& after.stats == m.stats
        }),
{
}

/// A local file of the same size is not fetched: it counts as a file, no byte counts, and the next
/// entry is taken up.
pub proof fn law_same_size_is_skipped(m: MirrorModel, found: Option<u64>)
    requires
        m.wait is Checking,
        found == Some(m.wait->Checking_size),
        countable(m.stats, MirrorEvent::Checked(found)),
    ensures
        ({
            let (after, action) = mirror_step(m, MirrorEvent::Checked(found));
            &&& after.stats.files == m.stats.files + 1
            &&& after.stats.dirs == m.stats.dirs
            &&& after.stats.bytes == m.stats.bytes
            &&& m.tasks.len() == 0 ==> action is Done
            &&& m.tasks.len() > 0 ==> after.tasks == m.tasks.skip(1)
        }),
{
    if m.tasks.len() > 0 {
        assert(m.tasks.drop_first() =~= m.tasks.skip(1));
    }
}

/// A directory is listed once it was made, into the local directory that was made for it; it counts
/// as one directory.
pub proof fn law_made_is_listed(m: MirrorModel, remote: Seq<char>, local: Seq<char>)
    requires
        m.wait == (WaitView::Creating { remote, local }),
        m.stats.dirs < u64::MAX,
    ensures
        ({
            let (after, action) = mirror_step(m, MirrorEvent::Created(Ok(())));
            &&& action == (ActionView::List { remote })
            &&& after.wait == (WaitView::Listing { remote, local })
            &&& after.tasks == m.tasks
            &&& after.stats.dirs == m.stats.dirs + 1
            &&& after.stats.files == m.stats.files
            &&& after.stats.bytes == m.stats.bytes
        }),
{
}

/// A file that was not fetched is passed over as if it had been, but for its bytes.
pub proof fn law_failure_is_passed_over(m: MirrorModel, error: Error, n: u64)
    requires
        m.wait is Fetching,
        countable(m.stats, MirrorEvent::Fetched(Ok(n))),
    ensures
        ({
            let (lost, lost_action) = mirror_step(m, MirrorEvent::Fetched(Err(error)));
            let (kept, kept_action) = mirror_step(m, MirrorEvent::Fetched(Ok(n)));
            &&& lost_action == kept_action
            &&& lost.wait == kept.wait
            &&& lost.tasks == kept.tasks
            &&& lost.stats.files == kept.stats.files == m.stats.files + 1
            &&& lost.stats.dirs == kept.stats.dirs == m.stats.dirs
            &&& lost.stats.bytes == m.stats.bytes
            &&& kept.stats.bytes == m.stats.bytes + n
        }),
{
}

/// A directory that cannot be made or listed ends the mirroring with that error.
pub proof fn law_directory_failure_ends(m: MirrorModel, error: Error)
    ensures
        mirror_step(m, MirrorEvent::Created(Err(error))).1 == ActionView::Fail(error),
        mirror_step(m, MirrorEvent::Listed(Err(error))).1 == ActionView::Fail(error),
        mirror_step(m, MirrorEvent::Created(Err(error))).0.tasks.len() == 0,
        mirror_step(m, MirrorEvent::Listed(Err(error))).0.tasks.len() == 0,
{
}

/// The entries of a listing are taken up in its order, those of a directory before the entries that
/// follow it: the first of them if there is one, and else the next there was before.
pub proof fn law_listed_come_next(
    m: MirrorModel,
    remote: Seq<char>,
    local: Seq<char>,
    entries: Vec<RemoteEntry>,
)
    requires
        m.wait == (WaitView::Listing { remote, local }),
    ensures
        ({
            let (after, action) = mirror_step(m, MirrorEvent::Listed(Ok(entries)));
            let n = entries@.len();
            &&& after.stats == m.stats
            &&& n + m.tasks.len() == 0 ==> action is Done
            &&& n + m.tasks.len() > 0 ==> after.tasks.len() == n + m.tasks.len() - 1
            &&& forall|i: int|
                1 <= i < n ==> {
                    let task = #[trigger] after.tasks[i - 1];
                    &&& task.remote == remote
                    &&& task.local == local
                    &&& task.entry.name == entries@[i].name@
                    &&& task.entry.dir == entries@[i].names_dir()
                    &&& task.entry.size == entries@[i].size
                }
            &&& n == 0 && m.tasks.len() > 0 ==> after.tasks == m.tasks.skip(1)
            &&& n > 0 ==> after.tasks.skip(n - 1) == m.tasks
        }),
{
    let (after, action) = mirror_step(m, MirrorEvent::Listed(Ok(entries)));
    let n = entries@.len();
    let all = tasks_of(remote, local, entry_views(entries@)) + m.tasks;
    if n == 0 {
        assert(all =~= m.tasks);
        if m.tasks.len() > 0 {
            assert(after.tasks =~= m.tasks.skip(1));
        }
    } else {
        assert(after.tasks.skip(n - 1) =~= m.tasks);
        assert forall|i: int| 1 <= i < n implies {
            let task = #[trigger] after.tasks[i - 1];
            &&& task.remote == remote
            &&& task.local == local
            &&& task.entry.name == entries@[i].name@
            &&& task.entry.dir == entries@[i].names_dir()
            &&& task.entry.size == entries@[i].size
        } by {
            assert(after.tasks[i - 1] == all[i]);
            assert(entry_views(entries@)[i] == entry_view(entries@[i]));
        }
    }
}

/// What is done with an entry. A directory is made; a file whose size is known is compared first,
/// and one whose size is not is fetched. The remote path is the entry's name behind the remote
/// directory and a slash, or the name alone below the root; the local path is the name behind the
/// local directory and a slash.
pub proof fn law_entry_is_taken_up(m: MirrorModel, event: MirrorEvent)
    requires
        fits(m, event),
        event is Start || event is Fetched || (event matches MirrorEvent::Checked(found) && found
            == Some(m.wait->Checking_size)),
        m.tasks.len() > 0,
        m.tasks[0].local.len() > 0,
        m.tasks[0].local.last() != '/',
        m.tasks[0].entry.name.len() > 0,
        m.tasks[0].entry.name[0] != '/',
    ensures
        ({
            let (after, action) = mirror_step(m, event);
            let task = m.tasks[0];
            let remote = if task.remote.len() == 0 {
                task.entry.name
            } else {
                task.remote.push('/') + task.entry.name
            };
            let local = task.local.push('/') + task.entry.name;
            &&& after.tasks == m.tasks.skip(1)
            &&& task.entry.dir ==> action == (ActionView::CreateDir { local }) && after.wait == (
            WaitView::Creating { remote, local })
            &&& !task.entry.dir && task.entry.size is Some ==> action == (ActionView::Check {
                local,
            }) && after.wait == (WaitView::Checking {
                remote,
                local,
                size: task.entry.size->0,
            })
            &&& !task.entry.dir && task.entry.size is None ==> action == (ActionView::Fetch {
                remote,
                local,
            })
        }),
{
    reveal_strlit("/");
    let task = m.tasks[0];
    assert(m.tasks.drop_first() =~= m.tasks.skip(1));
    assert(task.remote + "/"@ + task.entry.name =~= task.remote.push('/') + task.entry.name);
}

/// The first entry of a listing is taken up at once, below the directory that was listed.
pub proof fn law_first_listed_is_taken_up(
    m: MirrorModel,
    remote: Seq<char>,
    local: Seq<char>,
    entries: Vec<RemoteEntry>,
)
    requires
        m.wait == (WaitView::Listing { remote, local }),
        entries@.len() > 0,
        local.len() > 0,
        local.last() != '/',
        entries@[0].name@.len() > 0,
        entries@[0].name@[0] != '/',
    ensures
        ({
            let (after, action) = mirror_step(m, MirrorEvent::Listed(Ok(entries)));
            let name = entries@[0].name@;
            let from = if remote.len() == 0 {
                name
            } else {
                remote.push('/') + name
            };
            let to = local.push('/') + name;
            if entries@[0].kind@ == "dir"@ {
                action == (ActionView::CreateDir { local: to }) && after.wait == (
                WaitView::Creating { remote: from, local: to })
            } else if entries@[0].size is Some {
                action == (ActionView::Check { local: to }) && after.wait == (WaitView::Checking {
                    remote: from,
                    local: to,
                    size: entries@[0].size->0,
                })
            } else {
                action == (ActionView::Fetch { remote: from, local: to })
            }
        }),
{
    reveal_strlit("/");
    let name = entries@[0].name@;
    let all = tasks_of(remote, local, entry_views(entries@)) + m.tasks;
    assert(all[0].entry == entry_view(entries@[0]));
    assert(remote + "/"@ + name =~= remote.push('/') + name);
}

/// An entry keeps its name: its remote and its local path end with it, and begin with those of its
/// directory.
pub proof fn law_paths_of_entries(remote: Seq<char>, local: Seq<char>, name: Seq<char>)
    requires
        name.len() == 0 || name[0] != '/',
    ensures
        ({
            let from = remote_child(remote, name);
            let to = local_child(local, name);
            &&& remote.is_prefix_of(from)
            &&& local.is_prefix_of(to)
            &&& from.skip(from.len() - name.len()) == name
            &&& to.skip(to.len() - name.len()) == name
            &&& from.len() <= remote.len() + 1 + name.len()
            &&& to.len() <= local.len() + 1 + name.len()
        }),
{
    reveal_strlit("/");
    let from = remote_child(remote, name);
    let to = local_child(local, name);
    assert(remote =~= from.subrange(0, remote.len() as int));
    assert(local =~= to.subrange(0, local.len() as int));
    assert(from.skip(from.len() - name.len()) =~= name);
    assert(to.skip(to.len() - name.len()) =~= name);
}

/// What is waited for and can be counted is accepted, and nothing else is.
pub proof fn law_when_steps_are_taken(m: MirrorModel, n: u64, error: Error)
    ensures
        fits(m, MirrorEvent::Start) <==> m.wait is Nothing,
        fits(m, MirrorEvent::Created(Ok(()))) <==> m.wait is Creating,
        fits(m, MirrorEvent::Created(Err(error))) <==> m.wait is Creating,
        fits(m, MirrorEvent::Checked(Some(n))) <==> m.wait is Checking,
        fits(m, MirrorEvent::Checked(None)) <==> m.wait is Checking,
        fits(m, MirrorEvent::Fetched(Ok(n))) <==> m.wait is Fetching,
        fits(m, MirrorEvent::Fetched(Err(error))) <==> m.wait is Fetching,
        fits(m, MirrorEvent::Listed(Err(error))) <==> m.wait is Listing,
{
}

/// An action and an entry stand for what is in them.
pub proof fn law_mirror_values(action: MirrorAction, entries: Seq<RemoteEntry>, i: int)
    requires
        0 <= i < entries.len(),
    ensures
        action matches MirrorAction::CreateDir { local } ==> action.view() == (
        ActionView::CreateDir { local: local@ }),
        action matches MirrorAction::List { remote } ==> action.view() == (ActionView::List {
            remote: remote@,
        }),
        action matches MirrorAction::Check { local } ==> action.view() == (ActionView::Check {
            local: local@,
        }),
        action matches MirrorAction::Fetch { remote, local } ==> action.view() == (
        ActionView::Fetch { remote: remote@, local: local@ }),
        action is Done ==> action.view() is Done,
        action matches MirrorAction::Fail(error) ==> action.view() == ActionView::Fail(error),
        entry_views(entries).len() == entries.len(),
        entry_views(entries)[i].name == entries[i].name@,
        entry_views(entries)[i].size == entries[i].size,
        entry_views(entries)[i].dir <==> entries[i].kind@ == "dir"@,
{
}

/// Every step can be counted as long as no count would go beyond its last number.
pub proof fn law_counts_fit(stats: Stats, event: MirrorEvent)
    requires
        stats.files < u64::MAX,
        stats.dirs < u64::MAX,
        event matches MirrorEvent::Fetched(Ok(m)) ==> stats.bytes + m <= u64::MAX,
    ensures
        countable(stats, event),
{
}

/// A name that is an absolute path is taken as one where it is written to, and asked for below its
/// directory all the same.
pub proof fn law_absolute_names(remote: Seq<char>, local: Seq<char>, name: Seq<char>)
    requires
        name.len() > 0,
        name[0] == '/',
    ensures
        local_child(local, name) == name,
        remote.len() > 0 ==> remote_child(remote, name) == remote.push('/') + name,
        remote.len() == 0 ==> remote_child(remote, name) == name,
{
    reveal_strlit("/");
    assert(remote + "/"@ + name =~= remote.push('/') + name);
}

} // verus!
