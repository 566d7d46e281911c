//! Walking a directory tree, depth first and by name, to pack it.
use crate::bytes::to_vec;
use crate::listing::{file_kind, is_dots, kind_of_mode, skips_name, FileKind};
use crate::order::{
    lemma_text_total, lemma_text_transitive, reversed, sort, sorted, text_le, text_precedes, Ranked,
};
use crate::paths::{join, joined};
use crate::text::{from_utf8_lossy, text_of};
use vstd::prelude::*;
use vstd::utf8::*;

verus! {

/// A record of an archive. Directories are records of their own, so that empty ones are kept.
pub enum Entry {
    /// A file: where it is, and its name in the archive.
    File { abs: Vec<u8>, name: String },
    /// A directory: its name in the archive, which ends in a slash.
    Dir { name: String },
}

/// A record of an archive, as values.
pub enum EntryView {
    /// A file.
    File { abs: Seq<u8>, name: Seq<char> },
    /// A directory.
    Dir { name: Seq<char> },
}

impl Entry {
    /// The record, as values.
    pub open spec fn view(&self) -> EntryView {
        match self {
            Entry::File { abs, name } => EntryView::File { abs: abs@, name: name@ },
            Entry::Dir { name } => EntryView::Dir { name: name@ },
        }
    }
}

/// A directory entry.
pub struct Child {
    /// The kind of file.
    pub kind: FileKind,
    /// The name.
    pub name: String,
}

/// A directory entry, as values.
pub struct ChildView {
    /// The kind of file.
    pub kind: FileKind,
    /// The name.
    pub name: Seq<char>,
}

impl Child {
    /// The entry, as values.
    pub open spec fn view(&self) -> ChildView {
        ChildView { kind: self.kind, name: self.name@ }
    }
}

/// Directory entries, as values.
pub open spec fn child_views(children: Seq<Child>) -> Seq<ChildView> {
    children.map_values(|c: Child| c.view())
}

impl Ranked for Child {
    open spec fn le(self, other: Self) -> bool {
        text_le(self.name@, other.name@)
    }

    proof fn total(a: Self, b: Self) {
        lemma_text_total(a.name@, b.name@);
    }

    proof fn transitive(a: Self, b: Self, c: Self) {
        lemma_text_transitive(a.name@, b.name@, c.name@);
    }

    fn may_precede(&self, other: &Self) -> (r: bool) {
        text_precedes(self.name.as_str(), other.name.as_str())
    }
}

/// A directory entry as it was read.
pub struct RawChild {
    /// The kind of file, where the directory says.
    pub kind: FileKind,
    /// The name.
    pub name: Vec<u8>,
}

/// The entries that are walked, in the order in which they were read: all but the directory itself
/// and its parent.
pub open spec fn kept_children(raw: Seq<RawChild>) -> Seq<ChildView>
    decreases raw.len(),
{
    if raw.len() == 0 {
        Seq::empty()
    } else if is_dots(raw.last().name@) {
        kept_children(raw.drop_last())
    } else {
        kept_children(raw.drop_last()).push(
            ChildView { kind: raw.last().kind, name: text_of(raw.last().name@) },
        )
    }
}

/// Whether entries stand in the order of their names.
pub open spec fn by_name(children: Seq<ChildView>) -> bool {
    forall|i: int, j: int|
        0 <= i < j < children.len() ==> text_le(
            (#[trigger] children[i]).name,
            (#[trigger] children[j]).name,
        )
}

/// Whether `children` are the entries of a directory that was read as `raw`, by name.
pub open spec fn children_of(raw: Seq<RawChild>, children: Seq<ChildView>) -> bool {
    by_name(children) && children.to_multiset() == kept_children(raw).to_multiset()
}

/// Sorts directory entries by name.
pub fn sort_by_name(entries: Vec<Child>) -> (r: Vec<Child>)
    ensures
        r@.to_multiset() == entries@.to_multiset(),
        r@.len() == entries@.len(),
        sorted(r@),
{
    sort(entries)
}

/// The entries of a directory that was read as `raw`, by name.
pub fn read_children(raw: Vec<RawChild>) -> (r: Vec<Child>)
    ensures
        children_of(raw@, child_views(r@)),
{
    let mut out: Vec<Child> = Vec::new();
    let mut i: usize = 0;
    assert(child_views(out@) =~= kept_children(raw@.take(0)));
    while i < raw.len()
        invariant
            0 <= i <= raw@.len(),
            child_views(out@) == kept_children(raw@.take(i as int)),
        decreases raw@.len() - i,
    {
        let entry = &raw[i];
        let ghost so_far = raw@.take(i + 1);
        assert(so_far.drop_last() =~= raw@.take(i as int));
        assert(so_far.last() == *entry);
        let ghost done = out@;
        if !skips_name(entry.name.as_slice()) {
            let child = Child { kind: entry.kind, name: from_utf8_lossy(entry.name.as_slice()) };
            out.push(child);
            assert(child_views(out@) =~= child_views(done).push(child.view()));
        }
        i = i + 1;
    }
    assert(raw@.take(raw@.len() as int) =~= raw@);
    let r = sort_by_name(out);
    proof {
        crate::listing::lemma_map_multiset(r@, out@, |c: Child| c.view());
        assert forall|i: int, j: int| 0 <= i < j < child_views(r@).len() implies text_le(
            (#[trigger] child_views(r@)[i]).name,
            (#[trigger] child_views(r@)[j]).name,
        ) by {
            assert(r@[i].le(r@[j]));
        }
    }
    r
}

/// What is still to be done in a walk.
pub enum Task {
    /// A directory to be opened, under its name in the archive.
    Visit { dir: Seq<u8>, prefix: Seq<char> },
    /// An entry of a directory.
    Item { dir: Seq<u8>, prefix: Seq<char>, child: ChildView },
}

/// The entries of a directory, as tasks.
pub open spec fn items(dir: Seq<u8>, prefix: Seq<char>, children: Seq<ChildView>) -> Seq<Task> {
    Seq::new(children.len(), |i: int| Task::Item { dir, prefix, child: children[i] })
}

/// Where an entry of a directory is.
pub open spec fn child_path(dir: Seq<u8>, name: Seq<char>) -> Seq<u8> {
    joined(dir, encode_utf8(name), 0x2f)
}

/// The name in the archive of an entry of a directory.
pub open spec fn child_name(prefix: Seq<char>, name: Seq<char>) -> Seq<char> {
    prefix + "/"@ + name
}

/// What happened since the last action of a walk.
pub enum WalkEvent {
    /// The walk begins.
    Start,
    /// A directory was opened and read, or could not be opened.
    Listed(Option<Vec<RawChild>>),
    /// The mode of a file was asked for, and is given where it could be had.
    Mode(Option<u32>),
    /// A record was handed over; more are wanted, or no more.
    Emitted(bool),
}

/// What a walk wants next.
pub enum WalkAction {
    /// A directory to be opened and read.
    Open { dir: Vec<u8> },
    /// The mode of an entry of a directory.
    Stat { dir: Vec<u8>, name: String },
    /// A record to be handed over.
    Emit(Entry),
    /// Nothing.
    Done,
}

/// What a walk wants next, as values.
pub enum ActionView {
    /// A directory to be opened and read.
    Open { dir: Seq<u8> },
    /// The mode of an entry of a directory.
    Stat { dir: Seq<u8>, name: Seq<char> },
    /// A record to be handed over.
    Emit(EntryView),
    /// Nothing.
    Done,
}

impl WalkAction {
    /// The action, as values.
    pub open spec fn view(&self) -> ActionView {
        match self {
            WalkAction::Open { dir } => ActionView::Open { dir: dir@ },
            WalkAction::Stat { dir, name } => ActionView::Stat { dir: dir@, name: name@ },
            WalkAction::Emit(entry) => ActionView::Emit(entry.view()),
            WalkAction::Done => ActionView::Done,
        }
    }
}

/// The state of a walk: the task that waits for an answer, and those after it.
pub struct WalkModel {
    /// The task that waits for an answer.
    pub current: Option<Task>,
    /// The tasks after it, in order.
    pub tasks: Seq<Task>,
}

/// The state and the action once nothing is waited for: the first task that asks for something.
pub open spec fn settle(tasks: Seq<Task>) -> (WalkModel, ActionView)
    decreases tasks.len(),
{
    if tasks.len() == 0 {
        (WalkModel { current: None, tasks }, ActionView::Done)
    } else {
        settle_task(tasks[0], tasks.drop_first(), settle(tasks.drop_first()))
    }
}

/// [`settle`] for a first task: `skipped` is what the tasks after it settle to.
pub open spec fn settle_task(
    task: Task,
    rest: Seq<Task>,
    skipped: (WalkModel, ActionView),
) -> (WalkModel, ActionView) {
    match task {
        Task::Visit { dir, prefix } => (
            WalkModel { current: Some(task), tasks: rest },
            ActionView::Open { dir },
        ),
        Task::Item { dir, prefix, child } => match child.kind {
            FileKind::Unknown => (
                WalkModel { current: Some(task), tasks: rest },
                ActionView::Stat { dir, name: child.name },
            ),
            FileKind::Dir => {
                let below = child_path(dir, child.name);
                (
                    WalkModel {
                        current: Some(
                            Task::Visit { dir: below, prefix: child_name(prefix, child.name) },
                        ),
                        tasks: rest,
                    },
                    ActionView::Open { dir: below },
                )
            },
            FileKind::File => (
                WalkModel { current: None, tasks: rest },
                ActionView::Emit(
                    EntryView::File {
                        abs: child_path(dir, child.name),
                        name: child_name(prefix, child.name),
                    },
                ),
            ),
            _ => skipped,
        },
    }
}

/// An entry whose kind was unknown, once its mode was asked for. One that could not be had leaves
/// it unknown, and an entry of unknown kind is left out.
pub open spec fn with_mode(task: Task, mode: Option<u32>) -> Seq<Task> {
    match task {
        Task::Item { dir, prefix, child } => if mode is Some && !(kind_of_mode(mode->0) is Unknown) {
            seq![
                Task::Item {
                    dir,
                    prefix,
                    child: ChildView { kind: kind_of_mode(mode->0), name: child.name },
                },
            ]
        } else {
            Seq::empty()
        },
        _ => Seq::empty(),
    }
}

/// The state and the action after a directory was read.
pub open spec fn opened(
    m: WalkModel,
    children: Seq<ChildView>,
) -> (WalkModel, ActionView) {
    match m.current {
        Some(Task::Visit { dir, prefix }) => (
            WalkModel { current: None, tasks: items(dir, prefix, children) + m.tasks },
            ActionView::Emit(EntryView::Dir { name: prefix + "/"@ }),
        ),
        _ => (WalkModel { current: None, tasks: Seq::empty() }, ActionView::Done),
    }
}

/// A walk that is over.
pub open spec fn over() -> (WalkModel, ActionView) {
    (WalkModel { current: None, tasks: Seq::empty() }, ActionView::Done)
}

/// What a walk does on an event. An event that answers nothing that was asked ends it.
pub open spec fn walk_step(m: WalkModel, event: WalkEvent, after: (WalkModel, ActionView)) -> bool {
    match event {
        WalkEvent::Start => after == (if m.current is None {
            settle(m.tasks)
        } else {
            over()
        }),
        WalkEvent::Listed(None) => after == (if m.current is Some && m.current->0 is Visit {
            settle(m.tasks)
        } else {
            over()
        }),
        WalkEvent::Listed(Some(raw)) => exists|children: Seq<ChildView>| #[trigger]
            children_of(raw@, children) && after == opened(m, children),
        WalkEvent::Mode(mode) => after == (if m.current is Some && m.current->0 is Item {
            settle(with_mode(m.current->0, mode) + m.tasks)
        } else {
            over()
        }),
        WalkEvent::Emitted(more) => after == (if m.current is None && more {
            settle(m.tasks)
        } else {
            over()
        }),
    }
}

/// The entries of a directory that are still to be walked, the next one last.
struct Frame {
    dir: Vec<u8>,
    prefix: String,
    rest: Vec<Child>,
}

/// What a walk waits for.
enum Waiting {
    Visit { dir: Vec<u8>, prefix: String },
    Item { dir: Vec<u8>, prefix: String, name: String },
}

impl Frame {
    spec fn tasks(&self) -> Seq<Task> {
        items(self.dir@, self.prefix@, child_views(self.rest@).reverse())
    }
}

spec fn stack_tasks(frames: Seq<Frame>) -> Seq<Task>
    decreases frames.len(),
{
    if frames.len() == 0 {
        Seq::empty()
    } else {
        frames.last().tasks() + stack_tasks(frames.drop_last())
    }
}

/// A walk through a directory tree. It is driven by its events: each asks for the next action.
pub struct Walk {
    first: Option<(Vec<u8>, String)>,
    frames: Vec<Frame>,
    waiting: Option<Waiting>,
}

impl Walk {
    spec fn tasks(&self) -> Seq<Task> {
        match self.first {
            Some((dir, prefix)) => seq![Task::Visit { dir: dir@, prefix: prefix@ }] + stack_tasks(
                self.frames@,
            ),
            None => stack_tasks(self.frames@),
        }
    }

    /// The walk has begun before anything is waited for.
    pub closed spec fn wf(&self) -> bool {
        self.first is Some ==> self.waiting is None && self.frames@.len() == 0
    }

    /// The state of the walk.
    pub closed spec fn model(&self) -> WalkModel {
        WalkModel {
            current: match self.waiting {
                None => None,
                Some(Waiting::Visit { dir, prefix }) => Some(
                    Task::Visit { dir: dir@, prefix: prefix@ },
                ),
                Some(Waiting::Item { dir, prefix, name }) => Some(
                    Task::Item {
                        dir: dir@,
                        prefix: prefix@,
                        child: ChildView { kind: FileKind::Unknown, name: name@ },
                    },
                ),
            },
            tasks: self.tasks(),
        }
    }

    /// A walk through the tree at `dir`, whose name in the archive is `prefix`.
    pub fn new(dir: &[u8], prefix: &str) -> (r: Walk)
        ensures
            r.wf(),
            r.model() == (WalkModel {
                current: None,
                tasks: seq![Task::Visit { dir: dir@, prefix: prefix@ }],
            }),
    {
        let r = Walk {
            first: Some((to_vec(dir), prefix.to_string())),
            frames: Vec::new(),
            waiting: None,
        };
        assert(r.tasks() =~= seq![Task::Visit { dir: dir@, prefix: prefix@ }]);
        r
    }

    /// Ends the walk.
    fn end(&mut self) -> (r: WalkAction)
        ensures
            final(self).wf(),
            (final(self).model(), r.view()) == over(),
    {
        self.first = None;
        self.frames = Vec::new();
        self.waiting = None;
        assert(self.tasks() =~= Seq::<Task>::empty());
        WalkAction::Done
    }

    /// Goes on to the next task that asks for something.
    fn settle(&mut self) -> (r: WalkAction)
        requires
            old(self).wf(),
            old(self).waiting is None,
        ensures
            final(self).wf(),
            (final(self).model(), r.view()) == settle(old(self).model().tasks),
    {
        if let Some((dir, prefix)) = self.first.take() {
            let asked = to_vec(dir.as_slice());
            proof {
                let tasks = old(self).tasks();
                assert(tasks[0] == Task::Visit { dir: dir@, prefix: prefix@ });
                assert(tasks.drop_first() =~= stack_tasks(self.frames@));
            }
            self.waiting = Some(Waiting::Visit { dir, prefix });
            return WalkAction::Open { dir: asked };
        }
        loop
            invariant
                self.waiting is None,
                self.first is None,
                settle(self.tasks()) == settle(old(self).model().tasks),
            decreases self.frames@.len() + total_rest(self.frames@),
        {
            let ghost before = self.tasks();
            let ghost frames0 = self.frames@;
            match self.frames.pop() {
                None => {
                    return WalkAction::Done;
                },
                Some(frame) => {
                    let mut frame = frame;
                    let ghost frame0 = frame;
                    proof {
                        assert(frames0.drop_last() =~= self.frames@);
                        assert(before == frame0.tasks() + stack_tasks(self.frames@));
                    }
                    match frame.rest.pop() {
                        None => {
                            proof {
                                assert(frame0.tasks() =~= Seq::<Task>::empty());
                                assert(before =~= stack_tasks(self.frames@));
                            }
                        },
                        Some(child) => {
                            let path = join(frame.dir.as_slice(), child.name.as_str().as_bytes());
                            let mut name = frame.prefix.clone();
                            name.append("/");
                            name.append(child.name.as_str());
                            let dir = to_vec(frame.dir.as_slice());
                            let prefix = frame.prefix.clone();
                            self.frames.push(frame);
                            proof {
                                assert(frame0.rest@ =~= frame.rest@.push(child));
                                lemma_pop_child(frame0, frame, child);
                                assert(self.frames@.drop_last() =~= frames0.drop_last());
                                assert(self.tasks() == frame.tasks() + stack_tasks(
                                    frames0.drop_last(),
                                ));
                                let item = Task::Item {
                                    dir: frame.dir@,
                                    prefix: frame.prefix@,
                                    child: child.view(),
                                };
                                assert(before =~= seq![item] + self.tasks());
                                assert(before[0] == item);
                                assert(before.drop_first() =~= self.tasks());
                                lemma_rest_shrinks(frames0, self.frames@);
                            }
                            match child.kind {
                                FileKind::Unknown => {
                                    let asked = to_vec(dir.as_slice());
                                    let asked_name = child.name.clone();
                                    self.waiting = Some(
                                        Waiting::Item { dir, prefix, name: child.name },
                                    );
                                    return WalkAction::Stat { dir: asked, name: asked_name };
                                },
                                FileKind::Dir => {
                                    let asked = to_vec(path.as_slice());
                                    self.waiting = Some(
                                        Waiting::Visit { dir: path, prefix: name },
                                    );
                                    return WalkAction::Open { dir: asked };
                                },
                                FileKind::File => {
                                    return WalkAction::Emit(Entry::File { abs: path, name });
                                },
                                _ => {},
                            }
                        },
                    }
                },
            }
        }
    }

    /// Takes an event and says what is wanted next.
    pub fn step(&mut self, event: WalkEvent) -> (r: WalkAction)
        requires
            old(self).wf(),
        ensures
            final(self).wf(),
            walk_step(old(self).model(), event, (final(self).model(), r.view())),
    {
        let waiting = self.waiting.take();
        let ghost m = old(self).model();
        assert(self.model().tasks == m.tasks);
        match event {
            WalkEvent::Start => match waiting {
                None => self.settle(),
                Some(_) => self.end(),
            },
            WalkEvent::Listed(None) => match waiting {
                Some(Waiting::Visit { dir, prefix }) => self.settle(),
                _ => self.end(),
            },
            WalkEvent::Listed(Some(raw)) => {
                let children = read_children(raw);
                let ghost views = child_views(children@);
                assert(children_of(raw@, views));
                match waiting {
                    Some(Waiting::Visit { dir, prefix }) => {
                        let mut name = prefix.clone();
                        name.append("/");
                        let rest = reversed(children);
                        let ghost frames0 = self.frames@;
                        let frame = Frame { dir, prefix, rest };
                        self.frames.push(frame);
                        proof {
                            assert(child_views(rest@).reverse() =~= views);
                            assert(self.frames@.drop_last() =~= frames0);
                        }
                        WalkAction::Emit(Entry::Dir { name })
                    },
                    _ => self.end(),
                }
            },
            WalkEvent::Mode(mode) => match waiting {
                Some(Waiting::Item { dir, prefix, name }) => {
                    let kind = match mode {
                        Some(mode) => file_kind(mode),
                        None => FileKind::Unknown,
                    };
                    if kind != FileKind::Unknown {
                        let mut rest: Vec<Child> = Vec::new();
                        rest.push(Child { kind, name });
                        let ghost frames0 = self.frames@;
                        self.frames.push(Frame { dir, prefix, rest });
                        proof {
                            assert(self.frames@.drop_last() =~= frames0);
                            assert(self.tasks() =~= with_mode(m.current->0, mode) + m.tasks);
                        }
                    } else {
                        assert(with_mode(m.current->0, mode) + m.tasks =~= m.tasks);
                    }
                    self.settle()
                },
                _ => self.end(),
            },
            WalkEvent::Emitted(more) => match waiting {
                None => if more {
                    self.settle()
                } else {
                    self.end()
                },
                Some(_) => self.end(),
            },
        }
    }
}

spec fn total_rest(frames: Seq<Frame>) -> nat
    decreases frames.len(),
{
    if frames.len() == 0 {
        0
    } else {
        frames.last().rest@.len() + total_rest(frames.drop_last())
    }
}

/// Taking the last entry off a frame takes the first of its tasks.
proof fn lemma_pop_child(before: Frame, after: Frame, child: Child)
    requires
        before.dir == after.dir,
        before.prefix == after.prefix,
        before.rest@ == after.rest@.push(child),
    ensures
        before.tasks() == seq![
            Task::Item { dir: after.dir@, prefix: after.prefix@, child: child.view() },
        ] + after.tasks(),
{
    let a = child_views(before.rest@).reverse();
    let b = child_views(after.rest@).reverse();
    assert(a =~= seq![child.view()] + b);
    assert(before.tasks() =~= seq![
        Task::Item { dir: after.dir@, prefix: after.prefix@, child: child.view() },
    ] + after.tasks());
}

/// Taking an entry off the last frame leaves fewer.
proof fn lemma_rest_shrinks(before: Seq<Frame>, after: Seq<Frame>)
    requires
        before.len() > 0,
        after.len() == before.len(),
        after.drop_last() == before.drop_last(),
        before.last().rest@.len() == after.last().rest@.len() + 1,
    ensures
        total_rest(before) == total_rest(after) + 1,
{
}

/// A file system that does not change during a walk.
pub struct Disk {
    /// The entries of a directory, by name; none where it cannot be opened.
    pub list: spec_fn(Seq<u8>) -> Option<Seq<ChildView>>,
    /// The mode of an entry of a directory; none where it cannot be had.
    pub mode: spec_fn(Seq<u8>, Seq<char>) -> Option<u32>,
}

/// The records that a task gives at once.
pub open spec fn records(disk: Disk, task: Task) -> Seq<EntryView> {
    match task {
        Task::Visit { dir, prefix } => if (disk.list)(dir) is Some {
            seq![EntryView::Dir { name: prefix + "/"@ }]
        } else {
            Seq::empty()
        },
        Task::Item { dir, prefix, child } => if child.kind is File {
            seq![
                EntryView::File {
                    abs: child_path(dir, child.name),
                    name: child_name(prefix, child.name),
                },
            ]
        } else {
            Seq::empty()
        },
    }
}

/// The tasks that a task leads to.
pub open spec fn subtasks(disk: Disk, task: Task) -> Seq<Task> {
    match task {
        Task::Visit { dir, prefix } => match (disk.list)(dir) {
            Some(children) => items(dir, prefix, children),
            None => Seq::empty(),
        },
        Task::Item { dir, prefix, child } => match child.kind {
            FileKind::Unknown => with_mode(task, (disk.mode)(dir, child.name)),
            FileKind::Dir => seq![
                Task::Visit {
                    dir: child_path(dir, child.name),
                    prefix: child_name(prefix, child.name),
                },
            ],
            _ => Seq::empty(),
        },
    }
}

/// The records of a list of tasks, depth first: those of the first task, then those of the tasks
/// it leads to, then those of the tasks after it. None where `fuel` tasks are not enough.
pub open spec fn walked(disk: Disk, tasks: Seq<Task>, fuel: nat) -> Option<Seq<EntryView>>
    decreases fuel,
{
    if tasks.len() == 0 {
        Some(Seq::empty())
    } else if fuel == 0 {
        None
    } else {
        match walked(
            disk,
            subtasks(disk, tasks[0]) + tasks.drop_first(),
            (fuel - 1) as nat,
        ) {
            Some(rest) => Some(records(disk, tasks[0]) + rest),
            None => None,
        }
    }
}

/// The records of two lists of tasks are those of the first and then those of the second: what lies
/// below an entry comes before the next entry.
pub proof fn law_depth_first(disk: Disk, a: Seq<Task>, b: Seq<Task>, m: nat, n: nat)
    requires
        walked(disk, a, m) is Some,
        walked(disk, b, n) is Some,
    ensures
        walked(disk, a + b, m + n) == Some(walked(disk, a, m)->0 + walked(disk, b, n)->0),
    decreases m,
{
    if a.len() == 0 {
        assert(a + b =~= b);
        lemma_more_fuel(disk, b, n, m + n);
        assert(walked(disk, a, m)->0 + walked(disk, b, n)->0 =~= walked(disk, b, n)->0);
    } else {
        let next = subtasks(disk, a[0]) + a.drop_first();
        law_depth_first(disk, next, b, (m - 1) as nat, n);
        assert((a + b)[0] == a[0]);
        assert(subtasks(disk, a[0]) + (a + b).drop_first() =~= next + b);
        assert(((m - 1) as nat + n) as nat == (m + n - 1) as nat);
        let first = records(disk, a[0]);
        let x = walked(disk, next, (m - 1) as nat)->0;
        let y = walked(disk, b, n)->0;
        assert(first + (x + y) =~= (first + x) + y);
    }
}

/// A walk that ends gives the same records with more fuel.
proof fn lemma_more_fuel(disk: Disk, tasks: Seq<Task>, n: nat, more: nat)
    requires
        walked(disk, tasks, n) is Some,
        n <= more,
    ensures
        walked(disk, tasks, more) == walked(disk, tasks, n),
    decreases n,
{
    if tasks.len() > 0 {
        lemma_more_fuel(
            disk,
            subtasks(disk, tasks[0]) + tasks.drop_first(),
            (n - 1) as nat,
            (more - 1) as nat,
        );
    }
}

/// Whether an event is what the file system answers to what a walk waits for.
pub open spec fn answers(disk: Disk, m: WalkModel, event: WalkEvent, children: Seq<ChildView>) -> bool {
    match event {
        WalkEvent::Start => m.current is None,
        WalkEvent::Emitted(more) => m.current is None && more,
        WalkEvent::Listed(None) => m.current matches Some(Task::Visit { dir, prefix }) && (
        disk.list)(dir) is None,
        WalkEvent::Listed(Some(raw)) => m.current matches Some(Task::Visit { dir, prefix }) && (
        disk.list)(dir) == Some(children),
        WalkEvent::Mode(mode) => m.current matches Some(Task::Item { dir, prefix, child })
            && child.kind is Unknown && (disk.mode)(dir, child.name) == mode,
    }
}

/// All that is still to be done in a walk.
pub open spec fn pending(m: WalkModel) -> Seq<Task> {
    match m.current {
        Some(task) => seq![task] + m.tasks,
        None => m.tasks,
    }
}

/// The record that an action hands over.
pub open spec fn handed_over(action: ActionView) -> Seq<EntryView> {
    match action {
        ActionView::Emit(entry) => seq![entry],
        _ => Seq::empty(),
    }
}

/// Settling hands over the first record there is and leaves the rest.
proof fn lemma_settle(disk: Disk, tasks: Seq<Task>, n: nat)
    requires
        walked(disk, tasks, n) is Some,
    ensures
        ({
            let (after, action) = settle(tasks);
            &&& walked(disk, pending(after), n) is Some
            &&& walked(disk, tasks, n)->0 == handed_over(action) + walked(
                disk,
                pending(after),
                n,
            )->0
            &&& action is Done <==> pending(after).len() == 0 && handed_over(action).len() == 0
            &&& action is Done ==> walked(disk, tasks, n) == Some(Seq::<EntryView>::empty())
        }),
    decreases tasks.len(),
{
    let (after, action) = settle(tasks);
    if tasks.len() == 0 {
        assert(Seq::<EntryView>::empty() + Seq::<EntryView>::empty() =~= Seq::<EntryView>::empty());
    } else {
        let rest = tasks.drop_first();
        let next = subtasks(disk, tasks[0]) + rest;
        let all = walked(disk, tasks, n)->0;
        match tasks[0] {
            Task::Visit { dir, prefix } => {
                assert(pending(after) =~= tasks);
                assert(Seq::<EntryView>::empty() + all =~= all);
            },
            Task::Item { dir, prefix, child } => {
                match child.kind {
                    FileKind::Unknown => {
                        assert(pending(after) =~= tasks);
                        assert(Seq::<EntryView>::empty() + all =~= all);
                    },
                    FileKind::Dir => {
                        assert(pending(after) =~= next);
                        lemma_more_fuel(disk, next, (n - 1) as nat, n);
                    },
                    FileKind::File => {
                        assert(next =~= rest);
                        lemma_more_fuel(disk, rest, (n - 1) as nat, n);
                    },
                    _ => {
                        assert(next =~= rest);
                        lemma_settle(disk, rest, (n - 1) as nat);
                        lemma_more_fuel(disk, pending(after), (n - 1) as nat, n);
                        assert(Seq::<EntryView>::empty() + walked(disk, rest, (n - 1) as nat)->0
                            =~= walked(disk, rest, (n - 1) as nat)->0);
                    },
                }
            },
        }
    }
}

/// A walk hands over the records of the tree, each once and depth first: what was to come before a
/// step is what the step hands over, and then what is to come after it.
pub proof fn law_walk_step(
    disk: Disk,
    m: WalkModel,
    event: WalkEvent,
    children: Seq<ChildView>,
    n: nat,
)
    requires
        answers(disk, m, event, children),
        walked(disk, pending(m), n) is Some,
    ensures
        ({
            let (after, action) = match event {
                WalkEvent::Listed(Some(_)) => opened(m, children),
                WalkEvent::Mode(mode) => settle(with_mode(m.current->0, mode) + m.tasks),
                _ => settle(m.tasks),
            };
            &&& walked(disk, pending(after), n) is Some
            &&& walked(disk, pending(m), n)->0 == handed_over(action) + walked(
                disk,
                pending(after),
                n,
            )->0
            &&& action is Done ==> walked(disk, pending(m), n) == Some(Seq::<EntryView>::empty())
        }),
{
    let tasks = pending(m);
    match m.current {
        None => {
            lemma_settle(disk, m.tasks, n);
        },
        Some(task) => {
            assert(tasks[0] == task);
            assert(tasks.drop_first() =~= m.tasks);
            let next = subtasks(disk, task) + m.tasks;
            lemma_more_fuel(disk, next, (n - 1) as nat, n);
            match event {
                WalkEvent::Listed(Some(_)) => {},
                WalkEvent::Mode(mode) => {
                    lemma_settle(disk, next, n);
                    assert(Seq::<EntryView>::empty() + walked(disk, next, n)->0 =~= walked(
                        disk,
                        next,
                        n,
                    )->0);
                },
                _ => {
                    assert(next =~= m.tasks);
                    lemma_settle(disk, m.tasks, n);
                    assert(Seq::<EntryView>::empty() + walked(disk, next, n)->0 =~= walked(
                        disk,
                        next,
                        n,
                    )->0);
                },
            }
        },
    }
}

/// One step of a walk: the state and the event before it, the entries where a directory was read,
/// and the state and the action after it.
pub struct WalkMove {
    /// The state before.
    pub before: WalkModel,
    /// The event.
    pub event: WalkEvent,
    /// The entries of the directory that was read.
    pub children: Seq<ChildView>,
    /// The state after.
    pub after: WalkModel,
    /// The action.
    pub action: ActionView,
}

/// Whether steps are a walk through the tree at `dir`, from its beginning to its end, against a
/// file system that does not change.
pub open spec fn is_walk(
    disk: Disk,
    dir: Seq<u8>,
    prefix: Seq<char>,
    moves: Seq<WalkMove>,
) -> bool {
    &&& moves.len() > 0
    &&& moves[0].before == (WalkModel {
        current: None,
        tasks: seq![Task::Visit { dir, prefix }],
    })
    &&& moves.last().action is Done
    &&& forall|i: int| 0 <= i < moves.len() ==> is_move(disk, #[trigger] moves[i])
    &&& forall|i: int| 0 < i < moves.len() ==> (#[trigger] moves[i]).before == moves[i - 1].after
}

/// Whether a step is one that a walk takes, on what the file system answers.
pub open spec fn is_move(disk: Disk, m: WalkMove) -> bool {
    &&& answers(disk, m.before, m.event, m.children)
    &&& (m.after, m.action) == (match m.event {
        WalkEvent::Listed(Some(_)) => opened(m.before, m.children),
        WalkEvent::Mode(mode) => settle(with_mode(m.before.current->0, mode) + m.before.tasks),
        _ => settle(m.before.tasks),
    })
}

/// The records that steps hand over.
pub open spec fn all_handed_over(moves: Seq<WalkMove>) -> Seq<EntryView>
    decreases moves.len(),
{
    if moves.len() == 0 {
        Seq::empty()
    } else {
        all_handed_over(moves.drop_last()) + handed_over(moves.last().action)
    }
}

/// A walk hands over the records of the whole tree, depth first, and nothing else.
pub proof fn law_whole_walk(
    disk: Disk,
    dir: Seq<u8>,
    prefix: Seq<char>,
    moves: Seq<WalkMove>,
    n: nat,
)
    requires
        is_walk(disk, dir, prefix, moves),
        walked(disk, seq![Task::Visit { dir, prefix }], n) is Some,
    ensures
        Some(all_handed_over(moves)) == walked(disk, seq![Task::Visit { dir, prefix }], n),
{
    lemma_walk_so_far(disk, moves, n);
    let last = moves.last();
    assert(is_move(disk, last));
    let some = moves.drop_last();
    if moves.len() > 1 {
        assert(forall|i: int| 0 <= i < some.len() ==> some[i] == moves[i]);
        assert(some.last() == moves[moves.len() - 2]);
        lemma_walk_so_far(disk, some, n);
    } else {
        assert(all_handed_over(some) =~= Seq::<EntryView>::empty());
        assert(all_handed_over(some) + walked(disk, pending(last.before), n)->0 =~= walked(
            disk,
            pending(last.before),
            n,
        )->0);
    }
    law_walk_step(disk, last.before, last.event, last.children, n);
    assert(all_handed_over(some) + Seq::<EntryView>::empty() =~= all_handed_over(some));
}

/// What steps have handed over, and what is to come after them, is what was to come before them.
proof fn lemma_walk_so_far(disk: Disk, moves: Seq<WalkMove>, n: nat)
    requires
        moves.len() > 0,
        forall|i: int| 0 <= i < moves.len() ==> is_move(disk, #[trigger] moves[i]),
        forall|i: int|
            0 < i < moves.len() ==> (#[trigger] moves[i]).before == moves[i - 1].after,
        walked(disk, pending(moves[0].before), n) is Some,
    ensures
        walked(disk, pending(moves.last().after), n) is Some,
        walked(disk, pending(moves[0].before), n)->0 == all_handed_over(moves) + walked(
            disk,
            pending(moves.last().after),
            n,
        )->0,
    decreases moves.len(),
{
    let last = moves.last();
    let some = moves.drop_last();
    assert(is_move(disk, last));
    if moves.len() == 1 {
        law_walk_step(disk, last.before, last.event, last.children, n);
        assert(all_handed_over(some) =~= Seq::<EntryView>::empty());
        assert(all_handed_over(moves) =~= handed_over(last.action));
    } else {
        assert forall|i: int| 0 < i < some.len() implies (#[trigger] some[i]).before == some[i
            - 1].after by {
            assert(moves[i].before == moves[i - 1].after);
        }
        assert forall|i: int| 0 <= i < some.len() implies is_move(disk, #[trigger] some[i]) by {
            assert(is_move(disk, moves[i]));
        }
        lemma_walk_so_far(disk, some, n);
        assert(some.last() == moves[moves.len() - 2]);
        assert(moves[moves.len() - 1].before == moves[moves.len() - 2].after);
        law_walk_step(disk, last.before, last.event, last.children, n);
        let rest = walked(disk, pending(last.after), n)->0;
        assert(all_handed_over(some) + (handed_over(last.action) + rest) =~= all_handed_over(moves)
            + rest);
    }
}

/// Links, and whatever else is neither a file nor a directory, are left out; so is a directory that
/// cannot be opened.
pub proof fn law_left_out(disk: Disk, task: Task)
    requires
        match task {
            Task::Visit { dir, prefix } => (disk.list)(dir) is None,
            Task::Item { dir, prefix, child } => child.kind is Symlink || child.kind is Other,
        },
    ensures
        records(disk, task) == Seq::<EntryView>::empty(),
        subtasks(disk, task) == Seq::<Task>::empty(),
{
}

/// The name of a record.
pub open spec fn record_name(entry: EntryView) -> Seq<char> {
    match entry {
        EntryView::File { abs, name } => name,
        EntryView::Dir { name } => name,
    }
}

/// Whether a task lies in the folder `top` of the archive.
pub open spec fn lies_in(task: Task, top: Seq<char>) -> bool {
    let prefix = match task {
        Task::Visit { dir, prefix } => prefix,
        Task::Item { dir, prefix, child } => prefix,
    };
    prefix == top || (top + "/"@).is_prefix_of(prefix)
}

/// Every record lies in the folder that the archive is named after, and the name of a directory
/// ends in a slash.
pub proof fn law_record_names(disk: Disk, tasks: Seq<Task>, n: nat, top: Seq<char>)
    requires
        walked(disk, tasks, n) is Some,
        forall|i: int| 0 <= i < tasks.len() ==> lies_in(#[trigger] tasks[i], top),
    ensures
        forall|i: int|
            0 <= i < walked(disk, tasks, n)->0.len() ==> {
                let entry = #[trigger] walked(disk, tasks, n)->0[i];
                &&& (top + "/"@).is_prefix_of(record_name(entry))
                &&& entry is Dir ==> record_name(entry).last() == '/'
            },
    decreases n,
{
    if tasks.len() > 0 {
        let task = tasks[0];
        let next = subtasks(disk, task) + tasks.drop_first();
        reveal_strlit("/");
        assert(lies_in(task, top));
        assert forall|i: int| 0 <= i < next.len() implies lies_in(#[trigger] next[i], top) by {
            let k = subtasks(disk, task).len();
            if i >= k {
                assert(next[i] == tasks[i - k + 1]);
            } else {
                if let Task::Item { dir, prefix, child } = task {
                    lemma_below(top, prefix, child.name);
                }
            }
        }
        law_record_names(disk, next, (n - 1) as nat, top);
        let first = records(disk, task);
        let rest = walked(disk, next, (n - 1) as nat)->0;
        assert forall|i: int| 0 <= i < walked(disk, tasks, n)->0.len() implies {
            let entry = #[trigger] walked(disk, tasks, n)->0[i];
            &&& (top + "/"@).is_prefix_of(record_name(entry))
            &&& entry is Dir ==> record_name(entry).last() == '/'
        } by {
            let entry = walked(disk, tasks, n)->0[i];
            if i < first.len() {
                match task {
                    Task::Visit { dir, prefix } => {
                        lemma_below(top, prefix, Seq::empty());
                        assert(prefix + "/"@ + Seq::<char>::empty() =~= prefix + "/"@);
                        assert((prefix + "/"@).last() == '/');
                    },
                    Task::Item { dir, prefix, child } => {
                        lemma_below(top, prefix, child.name);
                    },
                }
            } else {
                assert(entry == rest[i - first.len()]);
            }
        }
    }
}

/// A name below a folder lies in it.
proof fn lemma_below(top: Seq<char>, prefix: Seq<char>, name: Seq<char>)
    requires
        prefix == top || (top + "/"@).is_prefix_of(prefix),
    ensures
        (top + "/"@).is_prefix_of(child_name(prefix, name)),
{
    let all = child_name(prefix, name);
    let start = top + "/"@;
    if prefix == top {
        assert(start =~= all.subrange(0, start.len() as int));
    } else {
        assert(start =~= all.subrange(0, start.len() as int)) by {
            assert forall|i: int| 0 <= i < start.len() implies start[i] == all[i] by {
                assert(start[i] == prefix.subrange(0, start.len() as int)[i]);
            }
        }
    }
}

/// The entries of a directory are all that its reading gave but the directory itself and its parent,
/// each with its kind and the text of its name.
pub proof fn law_children_are_kept(raw: Seq<RawChild>, child: RawChild)
    ensures
        kept_children(Seq::<RawChild>::empty()).len() == 0,
        child.name@ == seq![0x2eu8] || child.name@ == seq![0x2eu8, 0x2eu8] ==> kept_children(
            raw.push(child),
        ) == kept_children(raw),
        child.name@ != seq![0x2eu8] && child.name@ != seq![0x2eu8, 0x2eu8] ==> kept_children(
            raw.push(child),
        ) == kept_children(raw).push(
            ChildView { kind: child.kind, name: text_of(child.name@) },
        ),
{
    assert(raw.push(child).drop_last() =~= raw);
    let name = child.name@;
    if name.len() == 1 && name[0] == 0x2e {
        assert(name =~= seq![0x2eu8]);
    }
    if name.len() == 2 && name[0] == 0x2e && name[1] == 0x2e {
        assert(name =~= seq![0x2eu8, 0x2eu8]);
    }
}

/// The archive of a directory begins with the directory itself, and then holds what its entries hold,
/// one after the other.
pub proof fn law_directory_is_archived(
    disk: Disk,
    dir: Seq<u8>,
    prefix: Seq<char>,
    children: Seq<ChildView>,
    n: nat,
)
    requires
        (disk.list)(dir) == Some(children),
        n > 0,
    ensures
        ({
            let below = Seq::new(
                children.len(),
                |i: int| Task::Item { dir, prefix, child: children[i] },
            );
            match walked(disk, below, (n - 1) as nat) {
                Some(rest) => walked(disk, seq![Task::Visit { dir, prefix }], n) == Some(
                    seq![EntryView::Dir { name: prefix.push('/') }] + rest,
                ),
                None => walked(disk, seq![Task::Visit { dir, prefix }], n) is None,
            }
        }),
{
    reveal_strlit("/");
    let task = Task::Visit { dir, prefix };
    let below = Seq::new(children.len(), |i: int| Task::Item { dir, prefix, child: children[i] });
    assert(prefix + "/"@ =~= prefix.push('/'));
    assert(seq![task].drop_first() =~= Seq::<Task>::empty());
    assert(subtasks(disk, task) =~= below);
    assert(subtasks(disk, task) + seq![task].drop_first() =~= below);
}

/// A file is archived by its own path on the disk and by its own name in the archive, each behind its
/// directory's and a slash. A directory is gone into by the same two.
pub proof fn law_entry_is_archived(
    disk: Disk,
    dir: Seq<u8>,
    prefix: Seq<char>,
    child: ChildView,
    n: nat,
)
    requires
        dir.len() > 0,
        dir.last() != 0x2f,
        encode_utf8(child.name).len() == 0 || encode_utf8(child.name)[0] != 0x2f,
        n > 0,
    ensures
        ({
            let task = Task::Item { dir, prefix, child };
            let abs = dir.push(0x2f) + encode_utf8(child.name);
            let name = prefix.push('/') + child.name;
            &&& child.kind is File ==> walked(disk, seq![task], n) == Some(
                seq![EntryView::File { abs, name }],
            )
            &&& child.kind is Dir ==> walked(disk, seq![task], n) == walked(
                disk,
                seq![Task::Visit { dir: abs, prefix: name }],
                (n - 1) as nat,
            )
            &&& child.kind is Symlink || child.kind is Other ==> walked(disk, seq![task], n) == Some(
                Seq::<EntryView>::empty(),
            )
        }),
{
    reveal_strlit("/");
    let task = Task::Item { dir, prefix, child };
    let none = Seq::<Task>::empty();
    assert(prefix + "/"@ + child.name =~= prefix.push('/') + child.name);
    assert(seq![task].drop_first() =~= none);
    assert(subtasks(disk, task) + none =~= subtasks(disk, task));
    let rest = walked(disk, subtasks(disk, task), (n - 1) as nat);
    if rest is Some {
        assert(Seq::<EntryView>::empty() + rest->0 =~= rest->0);
    }
    if !(child.kind is Dir) && !(child.kind is Unknown) {
        assert(subtasks(disk, task) =~= none);
        assert(records(disk, task) + Seq::<EntryView>::empty() =~= records(disk, task));
    }
}

/// An entry of which the directory does not tell the kind is what its mode says, and is left out where
/// that is not known either.
pub proof fn law_mode_decides(
    disk: Disk,
    dir: Seq<u8>,
    prefix: Seq<char>,
    name: Seq<char>,
    n: nat,
)
    requires
        n > 0,
    ensures
        ({
            let task = Task::Item {
                dir,
                prefix,
                child: ChildView { kind: FileKind::Unknown, name },
            };
            match (disk.mode)(dir, name) {
                Some(mode) if !(kind_of_mode(mode) is Unknown) => walked(disk, seq![task], n)
                    == walked(
                    disk,
                    seq![
                        Task::Item {
                            dir,
                            prefix,
                            child: ChildView { kind: kind_of_mode(mode), name },
                        },
                    ],
                    (n - 1) as nat,
                ),
                _ => walked(disk, seq![task], n) == Some(Seq::<EntryView>::empty()),
            }
        }),
{
    let task = Task::Item { dir, prefix, child: ChildView { kind: FileKind::Unknown, name } };
    let none = Seq::<Task>::empty();
    assert(seq![task].drop_first() =~= none);
    assert(subtasks(disk, task) + none =~= subtasks(disk, task));
    let rest = walked(disk, subtasks(disk, task), (n - 1) as nat);
    if rest is Some {
        assert(Seq::<EntryView>::empty() + rest->0 =~= rest->0);
    }
}

/// A directory that cannot be read is left out.
pub proof fn law_unreadable_is_left_out(disk: Disk, dir: Seq<u8>, prefix: Seq<char>, n: nat)
    requires
        (disk.list)(dir) is None,
        n > 0,
    ensures
        walked(disk, seq![Task::Visit { dir, prefix }], n) == Some(Seq::<EntryView>::empty()),
{
    let task = Task::Visit { dir, prefix };
    assert(seq![task].drop_first() =~= Seq::<Task>::empty());
    assert(subtasks(disk, task) + seq![task].drop_first() =~= Seq::<Task>::empty());
    let none = Seq::<EntryView>::empty();
    assert(walked(disk, Seq::<Task>::empty(), (n - 1) as nat) == Some(none));
    assert(none + none =~= none);
}

/// What the walk asks for is what it then waits for: the directory that is to be opened, and the entry
/// whose mode is to be read. What it hands over it does not wait for, and it is done with nothing left.
pub proof fn law_walk_waits_for_what_it_asks(tasks: Seq<Task>)
    ensures
        ({
            let (after, action) = settle(tasks);
            match action {
                ActionView::Open { dir } => after.current matches Some(Task::Visit {
                    dir: d,
                    prefix: _,
                }) && d == dir,
                ActionView::Stat { dir, name } => after.current matches Some(Task::Item {
                    dir: d,
                    prefix: _,
                    child,
                }) && d == dir && child.name == name && child.kind is Unknown,
                ActionView::Emit(entry) => after.current is None && entry is File,
                ActionView::Done => after.current is None && after.tasks.len() == 0,
            }
        }),
    decreases tasks.len(),
{
    if tasks.len() > 0 {
        law_walk_waits_for_what_it_asks(tasks.drop_first());
    }
}

/// A walk whose records are no longer wanted is over.
pub proof fn law_unwanted_ends(m: WalkModel, after: (WalkModel, ActionView))
    requires
        walk_step(m, WalkEvent::Emitted(false), after),
    ensures
        after.1 is Done,
        after.0.current is None,
        after.0.tasks.len() == 0,
{
}

/// The entries of a directory are gone through in the order of their names.
pub proof fn law_by_name(children: Seq<ChildView>, i: int, j: int)
    requires
        by_name(children),
        0 <= i < j < children.len(),
    ensures
        text_le(children[i].name, children[j].name),
{
}

/// A record, an entry and an action stand for what is in them.
pub proof fn law_walk_values(
    entry: Entry,
    children: Seq<Child>,
    i: int,
    action: WalkAction,
)
    requires
        0 <= i < children.len(),
    ensures
        entry matches Entry::File { abs, name } ==> (entry.view() matches EntryView::File {
            abs: a,
            name: n,
        } && a == abs@ && n == name@),
        entry matches Entry::Dir { name } ==> (entry.view() matches EntryView::Dir { name: n } && n
            == name@),
        child_views(children).len() == children.len(),
        child_views(children)[i].kind == children[i].kind,
        child_views(children)[i].name == children[i].name@,
        action matches WalkAction::Open { dir } ==> (action.view() matches ActionView::Open {
            dir: d,
        } && d == dir@),
        action matches WalkAction::Stat { dir, name } ==> (action.view() matches ActionView::Stat {
            dir: d,
            name: n,
        } && d == dir@ && n == name@),
        action matches WalkAction::Emit(e) ==> action.view() == ActionView::Emit(e.view()),
        action is Done ==> action.view() is Done,
{
}

/// A step that answers what was asked is a move of the walk: where a directory was read, with its
/// entries as they were read.
pub proof fn law_steps_are_moves(
    disk: Disk,
    m: WalkModel,
    event: WalkEvent,
    after: (WalkModel, ActionView),
    none: Seq<ChildView>,
)
    requires
        walk_step(m, event, after),
    ensures
        !(event is Listed && event->Listed_0 is Some) && answers(disk, m, event, none) ==> is_move(
            disk,
            WalkMove { before: m, event, children: none, after: after.0, action: after.1 },
        ),
        (event matches WalkEvent::Listed(Some(raw)) && (m.current matches Some(Task::Visit {
            dir,
            prefix,
        }))) ==> exists|children: Seq<ChildView>|
            {
                &&& #[trigger] by_name(children)
                &&& children.to_multiset() == kept_children(event->Listed_0->0@).to_multiset()
                &&& after == opened(m, children)
            },
{
    if let WalkEvent::Listed(Some(raw)) = event {
        let children = choose|children: Seq<ChildView>| #[trigger]
            children_of(raw@, children) && after == opened(m, children);
        assert(by_name(children));
    }
}

} // verus!
