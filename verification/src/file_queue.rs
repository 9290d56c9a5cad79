//! Which files of a package are needed.
//!
//! The work on a package alternates between looking for the files that a specifier
//! stands for and transforming a file. The queue says what is to be done next, and
//! takes note of what came of it.

use vstd::prelude::*;

use crate::npm_specifier;
use crate::process;
use crate::process::FileView;
use crate::process::MinimalFile;
use crate::str_map::StrMap;
use crate::str_map::StrSet;
use crate::text;
use crate::transform::TransformedFile;

verus! {

/// What is to be done next for a package.
#[derive(Debug)]
pub enum Task {
    /// Find the files that `specifier` stands for in `curr_file`.
    Resolve { curr_file: String, specifier: String },
    /// Read a file and transform it.
    Transform(String),
}

/// What a [`Task`] says.
#[verifier::ext_equal]
pub enum TaskView {
    Resolve { curr_file: Seq<char>, specifier: Seq<char> },
    Transform(Seq<char>),
}

impl View for Task {
    type V = TaskView;

    open spec fn view(&self) -> TaskView {
        match self {
            Task::Resolve { curr_file, specifier } => TaskView::Resolve {
                curr_file: curr_file@,
                specifier: specifier@,
            },
            Task::Transform(file) => TaskView::Transform(file@),
        }
    }
}

/// What became of a file.
#[derive(Debug)]
pub enum FileOutcome {
    Unreadable,
    /// It could be read, but not transformed.
    Untransformed(String),
    Transformed(TransformedFile),
}

/// What a [`FileOutcome`] says.
#[verifier::ext_equal]
pub enum OutcomeView {
    Unreadable,
    Untransformed(Seq<char>),
    Transformed { content: Seq<char>, dependencies: Seq<Seq<char>> },
}

impl View for FileOutcome {
    type V = OutcomeView;

    open spec fn view(&self) -> OutcomeView {
        match self {
            FileOutcome::Unreadable => OutcomeView::Unreadable,
            FileOutcome::Untransformed(content) => OutcomeView::Untransformed(content@),
            FileOutcome::Transformed(file) => OutcomeView::Transformed {
                content: file.content@,
                dependencies: file.dependencies.items(),
            },
        }
    }
}

/// The entry of a file in what is served.
pub open spec fn served_file(outcome: OutcomeView) -> FileView {
    match outcome {
        OutcomeView::Unreadable => FileView::Failed(false),
        OutcomeView::Untransformed(content) => FileView::File {
            content,
            dependencies: Seq::empty(),
            is_transpiled: false,
        },
        OutcomeView::Transformed { content, dependencies } => FileView::File {
            content,
            dependencies: process::graph_edges(dependencies),
            is_transpiled: true,
        },
    }
}

/// The specifiers that a file was found to hold.
pub open spec fn outcome_dependencies(outcome: OutcomeView) -> Seq<Seq<char>> {
    match outcome {
        OutcomeView::Transformed { dependencies, .. } => dependencies,
        _ => Seq::empty(),
    }
}

/// The tasks of looking for `specifiers`, so that the first is taken first.
pub open spec fn resolve_tasks(curr_file: Seq<char>, specifiers: Seq<Seq<char>>) -> Seq<TaskView> {
    specifiers.reverse().map_values(
        |specifier: Seq<char>| TaskView::Resolve { curr_file, specifier },
    )
}

/// The tasks of transforming `files`, so that the first is taken first.
pub open spec fn transform_tasks(files: Seq<Seq<char>>) -> Seq<TaskView> {
    files.reverse().map_values(|file: Seq<char>| TaskView::Transform(file))
}

/// What a [`FileQueue`] holds. The task that is taken next is the last.
#[verifier::ext_equal]
pub struct QueueView {
    pub files: Map<Seq<char>, FileView>,
    pub used_modules: Set<Seq<char>>,
    pub tasks: Seq<TaskView>,
}

/// True of a task that was settled before it came up: its file is known.
pub open spec fn settled(files: Map<Seq<char>, FileView>, task: TaskView) -> bool {
    match task {
        TaskView::Transform(file) => files.contains_key(file),
        TaskView::Resolve { .. } => false,
    }
}

/// `tasks` without the settled ones at its end.
pub open spec fn unsettled(files: Map<Seq<char>, FileView>, tasks: Seq<TaskView>) -> Seq<TaskView>
    decreases tasks.len(),
{
    if tasks.len() > 0 && settled(files, tasks.last()) {
        unsettled(files, tasks.drop_last())
    } else {
        tasks
    }
}

/// The queue with the files that a specifier stands for.
pub open spec fn with_found(q: QueueView, found: Seq<Seq<char>>) -> QueueView {
    QueueView { tasks: q.tasks + transform_tasks(found), ..q }
}

/// The queue with what became of a file.
pub open spec fn with_outcome(q: QueueView, file: Seq<char>, outcome: OutcomeView) -> QueueView {
    let specifiers = outcome_dependencies(outcome);
    QueueView {
        files: q.files.insert(file, served_file(outcome)),
        used_modules: q.used_modules + process::package_names(specifiers).to_set(),
        tasks: q.tasks + resolve_tasks(file, process::relative_paths(specifiers)),
    }
}

/// The files of a package that are known so far, and what is left to do.
#[derive(Debug)]
pub struct FileQueue {
    files: StrMap<MinimalFile>,
    used_modules: StrSet,
    tasks: Vec<Task>,
}

pub open spec fn task_views(tasks: Seq<Task>) -> Seq<TaskView> {
    tasks.map_values(|t: Task| t@)
}

impl View for FileQueue {
    type V = QueueView;

    closed spec fn view(&self) -> QueueView {
        QueueView {
            files: process::file_views(self.files),
            used_modules: self.used_modules@,
            tasks: task_views(self.tasks@),
        }
    }
}

impl FileQueue {
    /// The queue of a package whose `files` are known already, and whose entries
    /// are to be looked for.
    pub fn new(files: StrMap<MinimalFile>, entries: &Vec<String>) -> (q: Self)
        ensures
            q@ == (QueueView {
                files: process::file_views(files),
                used_modules: Set::empty(),
                tasks: resolve_tasks("."@, text::views(entries@)),
            }),
    {
        let mut q = FileQueue { files, used_modules: StrSet::new(), tasks: Vec::new() };
        assert(task_views(q.tasks@) =~= Seq::empty());
        q.push_specifiers(".", entries);
        assert(q@.tasks =~= resolve_tasks("."@, text::views(entries@)));
        q
    }

    fn push_specifiers(&mut self, curr_file: &str, specifiers: &Vec<String>)
        ensures
            final(self)@ == (QueueView {
                tasks: old(self)@.tasks + resolve_tasks(curr_file@, text::views(specifiers@)),
                ..old(self)@
            }),
    {
        let ghost before = self@;
        let ghost more = resolve_tasks(curr_file@, text::views(specifiers@));
        let len: usize = specifiers.len();
        let mut i: usize = 0;
        assert(before.tasks + more.take(0) =~= before.tasks);
        while i < len
            invariant
                len == specifiers@.len(),
                i <= len,
                more == resolve_tasks(curr_file@, text::views(specifiers@)),
                self@ == (QueueView { tasks: before.tasks + more.take(i as int), ..before }),
            decreases len - i,
        {
            let ghost tasks = self@.tasks;
            let task = Task::Resolve {
                curr_file: curr_file.to_string(),
                specifier: specifiers[len - 1 - i].clone(),
            };
            assert(task@ == more[i as int]);
            self.tasks.push(task);
            assert(task_views(self.tasks@) =~= tasks.push(task@));
            assert(before.tasks + more.take(i + 1) =~= (before.tasks + more.take(i as int)).push(
                task@,
            ));
            i += 1;
        }
        assert(more.take(i as int) =~= more);
    }

    /// What is to be done next; `None` when nothing is left. A file that has become
    /// known in the meantime is not done again.
    pub fn next_task(&mut self) -> (r: Option<Task>)
        ensures
            final(self)@.files == old(self)@.files,
            final(self)@.used_modules == old(self)@.used_modules,
            (match r {
                Some(task) => unsettled(old(self)@.files, old(self)@.tasks)
                    == final(self)@.tasks.push(task@),
                None => unsettled(old(self)@.files, old(self)@.tasks).len() == 0
                    && final(self)@.tasks.len() == 0,
            }),
    {
        let ghost q = self@;
        loop
            invariant
                q == old(self)@,
                self@.files == q.files,
                self@.used_modules == q.used_modules,
                unsettled(q.files, self@.tasks) == unsettled(q.files, q.tasks),
            decreases self@.tasks.len(),
        {
            let ghost tasks = self@.tasks;
            match self.tasks.pop() {
                Some(task) => {
                    assert(tasks.last() == task@);
                    assert(task_views(self.tasks@) =~= tasks.drop_last());
                    assert(tasks =~= self@.tasks.push(task@));
                    let known: bool = match &task {
                        Task::Transform(file) => process::has_file(&self.files, file.as_str()),
                        Task::Resolve { .. } => false,
                    };
                    assert(known == settled(q.files, task@));
                    if !known {
                        return Some(task);
                    }
                },
                None => {
                    return None;
                },
            }
        }
    }

    /// Takes the files that a specifier was found to stand for.
    pub fn add_found(&mut self, found: &Vec<String>)
        ensures
            final(self)@ == with_found(old(self)@, text::views(found@)),
    {
        let ghost before = self@;
        let ghost more = transform_tasks(text::views(found@));
        let len: usize = found.len();
        let mut i: usize = 0;
        assert(before.tasks + more.take(0) =~= before.tasks);
        while i < len
            invariant
                len == found@.len(),
                i <= len,
                more == transform_tasks(text::views(found@)),
                self@ == (QueueView { tasks: before.tasks + more.take(i as int), ..before }),
            decreases len - i,
        {
            let ghost tasks = self@.tasks;
            let task = Task::Transform(found[len - 1 - i].clone());
            assert(task@ == more[i as int]);
            self.tasks.push(task);
            assert(task_views(self.tasks@) =~= tasks.push(task@));
            assert(before.tasks + more.take(i + 1) =~= (before.tasks + more.take(i as int)).push(
                task@,
            ));
            i += 1;
        }
        assert(more.take(i as int) =~= more);
    }

    fn add_used_modules(&mut self, names: &StrSet)
        ensures
            final(self)@ == (QueueView {
                used_modules: old(self)@.used_modules + names.items().to_set(),
                ..old(self)@
            }),
    {
        let ghost before = self@;
        let mut i: usize = 0;
        assert(names.items().take(0).to_set() =~= Set::empty());
        assert(before.used_modules + names.items().take(0).to_set() =~= before.used_modules);
        while i < names.len()
            invariant
                i <= names.items().len(),
                self@ == (QueueView {
                    used_modules: before.used_modules + names.items().take(i as int).to_set(),
                    ..before
                }),
            decreases names.items().len() - i,
        {
            let name: &String = names.item_at(i);
            self.used_modules.insert(name.clone());
            proof {
                let p = names.items().take(i as int);
                let q = names.items().take(i + 1);
                assert(q =~= p.push(name@));
                assert forall|s: Seq<char>| #[trigger]
                    q.to_set().contains(s) <==> p.to_set().insert(name@).contains(s) by {
                    if p.contains(s) {
                        let k = choose|k: int| 0 <= k < p.len() && p[k] == s;
                        assert(q[k] == s);
                    }
                    if q.contains(s) {
                        let k = choose|k: int| 0 <= k < q.len() && q[k] == s;
                        if k < p.len() {
                            assert(p[k] == s);
                        }
                    }
                    assert(q[i as int] == name@);
                }
                assert(q.to_set() =~= p.to_set().insert(name@));
                assert(self@.used_modules =~= before.used_modules + q.to_set());
            }
            i += 1;
        }
        assert(names.items().take(i as int) =~= names.items());
    }

    /// Takes what became of a file.
    pub fn add_outcome(&mut self, file: String, outcome: FileOutcome)
        ensures
            final(self)@ == with_outcome(old(self)@, file@, outcome@),
    {
        let ghost q = self@;
        match outcome {
            FileOutcome::Transformed(transformed) => {
                let TransformedFile { content, dependencies } = transformed;
                let dependencies: Vec<String> = dependencies.into_items();
                assert(text::views(dependencies@) =~= outcome_dependencies(outcome@));
                let (paths, names) = process::deps_to_files_and_modules(&dependencies);
                self.add_used_modules(&names);
                let edges: Vec<String> = process::keep_graph_edges(&dependencies);
                let served = MinimalFile::File {
                    content,
                    dependencies: edges,
                    is_transpiled: true,
                };
                assert(served@ == served_file(outcome@));
                process::put_file(&mut self.files, file.clone(), served);
                let specifiers: Vec<String> = paths.into_items();
                assert(text::views(specifiers@) =~= paths.items());
                self.push_specifiers(file.as_str(), &specifiers);
            },
            FileOutcome::Untransformed(content) => {
                let none: Vec<String> = Vec::new();
                let served = MinimalFile::File {
                    content,
                    dependencies: none,
                    is_transpiled: false,
                };
                assert(text::views(none@) =~= Seq::empty());
                assert(served@ == served_file(outcome@));
                process::put_file(&mut self.files, file, served);
                proof {
                    lemma_nothing_more(q, file@);
                }
            },
            FileOutcome::Unreadable => {
                process::put_file(&mut self.files, file, MinimalFile::Failed(false));
                proof {
                    lemma_nothing_more(q, file@);
                }
            },
        }
    }

    /// Hands out the files and the packages that their code uses.
    pub fn into_parts(self) -> (r: (StrMap<MinimalFile>, StrSet))
        ensures
            process::file_views(r.0) == self@.files,
            r.1@ == self@.used_modules,
    {
        (self.files, self.used_modules)
    }
}

proof fn lemma_nothing_more(q: QueueView, file: Seq<char>)
    ensures
        q.used_modules + process::package_names(Seq::empty()).to_set() == q.used_modules,
        q.tasks + resolve_tasks(file, process::relative_paths(Seq::empty())) == q.tasks,
{
    assert(q.used_modules + process::package_names(Seq::empty()).to_set() =~= q.used_modules);
    assert(q.tasks + resolve_tasks(file, process::relative_paths(Seq::empty())) =~= q.tasks);
}

/// What came up together is done in its order: the first specifier is looked for first,
/// the first file is transformed first.
pub proof fn law_tasks_come_in_order(
    curr_file: Seq<char>,
    texts: Seq<Seq<char>>,
    q: QueueView,
    k: int,
)
    ensures
        resolve_tasks(curr_file, texts).len() == texts.len(),
        0 <= k < texts.len() ==> resolve_tasks(curr_file, texts)[texts.len() - 1 - k]
            == (TaskView::Resolve { curr_file, specifier: texts[k] }),
        with_found(q, texts).tasks.len() == q.tasks.len() + texts.len(),
        0 <= k < texts.len() ==> with_found(q, texts).tasks[q.tasks.len() + texts.len() - 1 - k]
            == TaskView::Transform(texts[k]),
        0 <= k < q.tasks.len() ==> with_found(q, texts).tasks[k] == q.tasks[k],
        with_found(q, texts).files == q.files,
        with_found(q, texts).used_modules == q.used_modules,
{
}

/// What becomes of a file: one that could not be read is served as failed, one that could
/// not be transformed is served as it is, and one that was transformed is served with its
/// new code and with those of its specifiers that name something. The packages that it
/// names are used from then on, and the paths that it names are looked for next, in their
/// order.
pub proof fn law_outcome_of_a_file(q: QueueView, file: Seq<char>, outcome: OutcomeView)
    ensures
        with_outcome(q, file, outcome).files == q.files.insert(
            file,
            match outcome {
                OutcomeView::Unreadable => FileView::Failed(false),
                OutcomeView::Untransformed(content) => FileView::File {
                    content,
                    dependencies: Seq::empty(),
                    is_transpiled: false,
                },
                OutcomeView::Transformed { content, dependencies } => FileView::File {
                    content,
                    dependencies: dependencies.filter(
                        |s: Seq<char>| npm_specifier::module_specifier(s) is Some,
                    ),
                    is_transpiled: true,
                },
            },
        ),
        forall|m: Seq<char>| #[trigger]
            with_outcome(q, file, outcome).used_modules.contains(m) <==> q.used_modules.contains(m)
                || (outcome matches OutcomeView::Transformed { dependencies, .. } && exists|i: int|
                0 <= i < dependencies.len() && (npm_specifier::module_specifier(
                    #[trigger] dependencies[i],
                ) matches Some(npm_specifier::SpecifierView::Package { name, .. }) && name == m)),
        q.tasks.is_prefix_of(with_outcome(q, file, outcome).tasks),
        !(outcome is Transformed) ==> with_outcome(q, file, outcome).tasks == q.tasks,
        forall|path: Seq<char>|
            #![trigger with_outcome(q, file, outcome).tasks.contains(TaskView::Resolve { curr_file: file, specifier: path })]
            outcome is Transformed && (exists|i: int|
                0 <= i < outcome->dependencies.len() && npm_specifier::module_specifier(
                    #[trigger] outcome->dependencies[i],
                ) == Some(npm_specifier::SpecifierView::Relative(path))) ==> with_outcome(
                q,
                file,
                outcome,
            ).tasks.contains(TaskView::Resolve { curr_file: file, specifier: path }),
        forall|k: int|
            q.tasks.len() <= k < with_outcome(q, file, outcome).tasks.len() ==> (
            #[trigger] with_outcome(q, file, outcome).tasks[k] matches TaskView::Resolve {
                curr_file,
                specifier,
            } && curr_file == file && exists|i: int|
                0 <= i < outcome->dependencies.len() && npm_specifier::module_specifier(
                    #[trigger] outcome->dependencies[i],
                ) == Some(npm_specifier::SpecifierView::Relative(specifier))),
{
    let after = with_outcome(q, file, outcome);
    let specifiers = outcome_dependencies(outcome);
    let paths = process::relative_paths(specifiers);
    process::law_graph_edges_are_the_specifiers_that_name_something(specifiers);
    assert forall|m: Seq<char>| #[trigger]
        after.used_modules.contains(m) <==> q.used_modules.contains(m) || (outcome
            matches OutcomeView::Transformed { dependencies, .. } && exists|i: int|
            0 <= i < dependencies.len() && (npm_specifier::module_specifier(
                #[trigger] dependencies[i],
            ) matches Some(npm_specifier::SpecifierView::Package { name, .. }) && name == m)) by {
        process::law_package_specifiers_are_packages(specifiers, m);
    }
    assert(q.tasks =~= after.tasks.subrange(0, q.tasks.len() as int));
    if !(outcome is Transformed) {
        lemma_nothing_more(q, file);
    } else {
        assert forall|path: Seq<char>|
            #![trigger after.tasks.contains(TaskView::Resolve { curr_file: file, specifier: path })]
            (exists|i: int|
                0 <= i < outcome->dependencies.len() && npm_specifier::module_specifier(
                    #[trigger] outcome->dependencies[i],
                ) == Some(npm_specifier::SpecifierView::Relative(path))) implies
            after.tasks.contains(TaskView::Resolve { curr_file: file, specifier: path }) by {
            process::law_relative_specifiers_are_paths(specifiers, path);
            let k = choose|k: int| 0 <= k < paths.len() && paths[k] == path;
            law_tasks_come_in_order(file, paths, q, k);
            assert(after.tasks[q.tasks.len() + paths.len() - 1 - k] == (TaskView::Resolve {
                curr_file: file,
                specifier: path,
            }));
        }
        assert forall|k: int| q.tasks.len() <= k < after.tasks.len() implies (
        #[trigger] after.tasks[k] matches TaskView::Resolve { curr_file, specifier } && curr_file
            == file && exists|i: int|
            0 <= i < outcome->dependencies.len() && npm_specifier::module_specifier(
                #[trigger] outcome->dependencies[i],
            ) == Some(npm_specifier::SpecifierView::Relative(specifier))) by {
            let j = paths.len() - 1 - (k - q.tasks.len());
            law_tasks_come_in_order(file, paths, q, j);
            assert(paths.contains(paths[j]));
            process::law_relative_specifiers_are_paths(specifiers, paths[j]);
        }
    }
}

/// The next task is the last one that is left, files that have become known aside; only
/// those are passed over.
pub proof fn law_only_known_files_are_passed_over(
    files: Map<Seq<char>, FileView>,
    tasks: Seq<TaskView>,
)
    ensures
        unsettled(files, tasks).is_prefix_of(tasks),
        forall|k: int|
            unsettled(files, tasks).len() <= k < tasks.len() ==> (#[trigger] tasks[k]
                matches TaskView::Transform(file) && files.contains_key(file)),
        unsettled(files, tasks).len() > 0 ==> !(unsettled(files, tasks).last()
            matches TaskView::Transform(file) && files.contains_key(file)),
    decreases tasks.len(),
{
    if tasks.len() > 0 && settled(files, tasks.last()) {
        let init = tasks.drop_last();
        law_only_known_files_are_passed_over(files, init);
        let left = unsettled(files, init);
        assert(left =~= tasks.subrange(0, left.len() as int));
        assert forall|k: int| left.len() <= k < tasks.len() implies (#[trigger] tasks[k]
            matches TaskView::Transform(file) && files.contains_key(file)) by {
            if k < init.len() {
                assert(init[k] == tasks[k]);
            }
        }
    } else {
        assert(tasks =~= tasks.subrange(0, tasks.len() as int));
    }
}

/// A package as the queue sees it: what is known of it at the start, its entries,
/// the files that a specifier stands for in a file, and what becomes of each file.
pub struct PackageModel {
    pub known: Map<Seq<char>, FileView>,
    pub entries: Seq<Seq<char>>,
    pub found: spec_fn(Seq<char>, Seq<char>) -> Seq<Seq<char>>,
    pub outcome: spec_fn(Seq<char>) -> OutcomeView,
}

impl PackageModel {
    /// The paths within the package that a file imports.
    pub open spec fn imports(self, file: Seq<char>) -> Seq<Seq<char>> {
        process::relative_paths(outcome_dependencies((self.outcome)(file)))
    }

    /// True of the files that `n` imports lead to from an entry. The imports of
    /// files that are known at the start do not count.
    pub open spec fn reached(self, n: nat, file: Seq<char>) -> bool
        decreases n,
    {
        if n == 0 {
            exists|entry: Seq<char>| #[trigger]
                self.entries.contains(entry) && (self.found)("."@, entry).contains(file)
        } else {
            exists|from: Seq<char>, path: Seq<char>|
                self.reached((n - 1) as nat, from) && !self.known.contains_key(from)
                    && #[trigger] self.imports(from).contains(path) && (self.found)(
                    from,
                    path,
                ).contains(file)
        }
    }

    /// True of the files that are needed to run the package.
    pub open spec fn reachable(self, file: Seq<char>) -> bool {
        exists|n: nat| self.reached(n, file)
    }

    /// The queue at the start.
    pub open spec fn start(self) -> QueueView {
        QueueView {
            files: self.known,
            used_modules: Set::empty(),
            tasks: resolve_tasks("."@, self.entries),
        }
    }

    /// The queue after its next task has been done.
    pub open spec fn step(self, q: QueueView) -> QueueView {
        let tasks = unsettled(q.files, q.tasks);
        if tasks.len() == 0 {
            QueueView { tasks, ..q }
        } else {
            let rest = QueueView { tasks: tasks.drop_last(), ..q };
            match tasks.last() {
                TaskView::Resolve { curr_file, specifier } => with_found(
                    rest,
                    (self.found)(curr_file, specifier),
                ),
                TaskView::Transform(file) => with_outcome(rest, file, (self.outcome)(file)),
            }
        }
    }

    /// The files of the queue are those known at the start, unchanged, and files
    /// that are reachable, as they were found to be.
    pub open spec fn files_are_right(self, q: QueueView) -> bool {
        &&& forall|f: Seq<char>| #[trigger]
            q.files.contains_key(f) ==> if self.known.contains_key(f) {
                q.files[f] == self.known[f]
            } else {
                self.reachable(f) && q.files[f] == served_file((self.outcome)(f))
            }
        &&& forall|f: Seq<char>| #[trigger] self.known.contains_key(f) ==> q.files.contains_key(f)
    }

    /// The packages of the queue are those that its transformed files name.
    pub open spec fn modules_are_right(self, q: QueueView) -> bool {
        forall|m: Seq<char>| #[trigger]
            q.used_modules.contains(m) <==> exists|f: Seq<char>| #[trigger]
                q.files.contains_key(f) && !self.known.contains_key(f) && process::package_names(
                    outcome_dependencies((self.outcome)(f)),
                ).contains(m)
    }

    /// Looking for `specifier` in `curr_file` is part of the work.
    pub open spec fn is_asked(
        self,
        q: QueueView,
        curr_file: Seq<char>,
        specifier: Seq<char>,
    ) -> bool {
        ||| curr_file == "."@ && self.entries.contains(specifier)
        ||| q.files.contains_key(curr_file) && !self.known.contains_key(curr_file) && self.imports(
            curr_file,
        ).contains(specifier)
    }

    /// Each task is part of the work.
    pub open spec fn tasks_are_right(self, q: QueueView) -> bool {
        forall|task: TaskView| #[trigger]
            q.tasks.contains(task) ==> match task {
                TaskView::Resolve { curr_file, specifier } => self.is_asked(
                    q,
                    curr_file,
                    specifier,
                ),
                TaskView::Transform(file) => self.reachable(file),
            }
    }

    /// A file is known, or is about to be.
    pub open spec fn is_awaited(self, q: QueueView, file: Seq<char>) -> bool {
        q.files.contains_key(file) || q.tasks.contains(TaskView::Transform(file))
    }

    /// All work is done, or is about to be.
    pub open spec fn nothing_is_lost(self, q: QueueView) -> bool {
        forall|curr_file: Seq<char>, specifier: Seq<char>, file: Seq<char>|
            self.is_asked(q, curr_file, specifier) && #[trigger] (self.found)(
                curr_file,
                specifier,
            ).contains(file) ==> q.tasks.contains(TaskView::Resolve { curr_file, specifier })
                || self.is_awaited(q, file)
    }

    /// What holds of the queue at every step.
    pub open spec fn in_order(self, q: QueueView) -> bool {
        &&& self.files_are_right(q)
        &&& self.modules_are_right(q)
        &&& self.tasks_are_right(q)
        &&& self.nothing_is_lost(q)
    }

    /// What the queue is like at the start is right.
    pub proof fn law_start_is_right(self)
        ensures
            self.in_order(self.start()),
    {
        let q = self.start();
        assert forall|task: TaskView| #[trigger] q.tasks.contains(task) implies match task {
            TaskView::Resolve { curr_file, specifier } => self.is_asked(q, curr_file, specifier),
            TaskView::Transform(file) => self.reachable(file),
        } by {
            let k = choose|k: int| 0 <= k < q.tasks.len() && q.tasks[k] == task;
            assert(self.entries.contains(self.entries[self.entries.len() - 1 - k]));
        }
        assert forall|curr_file: Seq<char>, specifier: Seq<char>, file: Seq<char>|
            self.is_asked(q, curr_file, specifier) && #[trigger] (self.found)(
                curr_file,
                specifier,
            ).contains(file) implies q.tasks.contains(
            TaskView::Resolve { curr_file, specifier },
        ) || self.is_awaited(q, file) by {
            let k = choose|k: int| 0 <= k < self.entries.len() && self.entries[k] == specifier;
            assert(q.tasks[self.entries.len() - 1 - k] == (TaskView::Resolve {
                curr_file,
                specifier,
            }));
        }
    }

    proof fn lemma_unsettled(self, q: QueueView)
        requires
            self.in_order(q),
        ensures
            self.in_order(QueueView { tasks: unsettled(q.files, q.tasks), ..q }),
        decreases q.tasks.len(),
    {
        if q.tasks.len() > 0 && settled(q.files, q.tasks.last()) {
            let r = QueueView { tasks: q.tasks.drop_last(), ..q };
            assert forall|task: TaskView| #[trigger] r.tasks.contains(task) implies q.tasks.contains(
                task,
            ) by {
                let k = choose|k: int| 0 <= k < r.tasks.len() && r.tasks[k] == task;
                assert(q.tasks[k] == task);
            }
            assert forall|task: TaskView| q.tasks.contains(task) && task != q.tasks.last() implies
                #[trigger] r.tasks.contains(task) by {
                let k = choose|k: int| 0 <= k < q.tasks.len() && q.tasks[k] == task;
                assert(r.tasks[k] == task);
            }
            assert forall|c: Seq<char>, s: Seq<char>| self.is_asked(r, c, s) implies self.is_asked(
                q,
                c,
                s,
            ) by {}
            assert(self.tasks_are_right(r)) by {
                assert forall|task: TaskView| #[trigger] r.tasks.contains(task) implies match task {
                    TaskView::Resolve { curr_file, specifier } => self.is_asked(
                        r,
                        curr_file,
                        specifier,
                    ),
                    TaskView::Transform(file) => self.reachable(file),
                } by {
                    assert(q.tasks.contains(task));
                }
            }
            assert(self.nothing_is_lost(r));
            self.lemma_unsettled(r);
        }
    }

    /// One entry or import more leads from a file that is reachable to another.
    proof fn lemma_found_is_reachable(
        self,
        q: QueueView,
        curr_file: Seq<char>,
        specifier: Seq<char>,
        file: Seq<char>,
    )
        requires
            self.files_are_right(q),
            self.is_asked(q, curr_file, specifier),
            (self.found)(curr_file, specifier).contains(file),
        ensures
            self.reachable(file),
    {
        if curr_file == "."@ && self.entries.contains(specifier) {
            assert(self.reached(0, file));
        } else {
            let n = choose|n: nat| self.reached(n, curr_file);
            assert(self.imports(curr_file).contains(specifier));
            assert(self.reached(n + 1, file));
        }
    }

    proof fn lemma_resolve_step(self, q: QueueView, curr_file: Seq<char>, specifier: Seq<char>)
        requires
            self.in_order(q),
            q.tasks.len() > 0,
            q.tasks.last() == (TaskView::Resolve { curr_file, specifier }),
        ensures
            self.in_order(
                with_found(
                    QueueView { tasks: q.tasks.drop_last(), ..q },
                    (self.found)(curr_file, specifier),
                ),
            ),
    {
        let found = (self.found)(curr_file, specifier);
        let rest = q.tasks.drop_last();
        let r = with_found(QueueView { tasks: rest, ..q }, found);
        let more = transform_tasks(found);
        assert(q.tasks[q.tasks.len() - 1] == q.tasks.last());
        assert(q.tasks.contains(TaskView::Resolve { curr_file, specifier }));
        assert forall|task: TaskView| q.tasks.contains(task) && task != q.tasks.last() implies
            #[trigger] r.tasks.contains(task) by {
            let k = choose|k: int| 0 <= k < q.tasks.len() && q.tasks[k] == task;
            assert(r.tasks[k] == task);
        }
        assert forall|f: Seq<char>| found.contains(f) implies #[trigger] r.tasks.contains(
            TaskView::Transform(f),
        ) by {
            let k = choose|k: int| 0 <= k < found.len() && found[k] == f;
            assert(more[found.len() - 1 - k] == TaskView::Transform(f));
            assert(r.tasks[rest.len() + found.len() - 1 - k] == TaskView::Transform(f));
        }
        assert forall|task: TaskView| #[trigger] r.tasks.contains(task) implies match task {
            TaskView::Resolve { curr_file, specifier } => self.is_asked(r, curr_file, specifier),
            TaskView::Transform(file) => self.reachable(file),
        } by {
            let k = choose|k: int| 0 <= k < r.tasks.len() && r.tasks[k] == task;
            if k < rest.len() {
                assert(q.tasks[k] == task);
                assert(q.tasks.contains(task));
            } else {
                let j = found.len() - 1 - (k - rest.len());
                assert(task == more[k - rest.len()]);
                assert(task == TaskView::Transform(found[j]));
                assert(found.contains(found[j]));
                self.lemma_found_is_reachable(q, curr_file, specifier, found[j]);
            }
        }
        assert forall|c: Seq<char>, s: Seq<char>, file: Seq<char>|
            self.is_asked(r, c, s) && #[trigger] (self.found)(c, s).contains(
                file,
            ) implies r.tasks.contains(TaskView::Resolve { curr_file: c, specifier: s })
            || self.is_awaited(r, file) by {
            assert(self.is_asked(q, c, s));
            if c == curr_file && s == specifier {
                assert(r.tasks.contains(TaskView::Transform(file)));
            } else if q.tasks.contains(TaskView::Resolve { curr_file: c, specifier: s }) {
                assert(r.tasks.contains(TaskView::Resolve { curr_file: c, specifier: s }));
            } else if q.tasks.contains(TaskView::Transform(file)) {
                assert(r.tasks.contains(TaskView::Transform(file)));
            }
        }
    }

    proof fn lemma_transform_step(self, q: QueueView, file: Seq<char>)
        requires
            self.in_order(q),
            q.tasks.len() > 0,
            q.tasks.last() == TaskView::Transform(file),
            !q.files.contains_key(file),
        ensures
            self.in_order(
                with_outcome(
                    QueueView { tasks: q.tasks.drop_last(), ..q },
                    file,
                    (self.outcome)(file),
                ),
            ),
    {
        let outcome = (self.outcome)(file);
        let rest = q.tasks.drop_last();
        let r = with_outcome(QueueView { tasks: rest, ..q }, file, outcome);
        let imports = self.imports(file);
        let more = resolve_tasks(file, imports);
        let names = process::package_names(outcome_dependencies(outcome));
        assert(q.tasks[q.tasks.len() - 1] == q.tasks.last());
        assert(q.tasks.contains(TaskView::Transform(file)));
        assert(!self.known.contains_key(file));
        assert forall|m: Seq<char>| #[trigger] r.used_modules.contains(m) <==> exists|f: Seq<char>|
         #[trigger]
            r.files.contains_key(f) && !self.known.contains_key(f) && process::package_names(
                outcome_dependencies((self.outcome)(f)),
            ).contains(m) by {
            if q.used_modules.contains(m) {
                let f = choose|f: Seq<char>| #[trigger]
                    q.files.contains_key(f) && !self.known.contains_key(f) && process::package_names(
                        outcome_dependencies((self.outcome)(f)),
                    ).contains(m);
                assert(r.files.contains_key(f));
            }
            if names.contains(m) {
                assert(r.files.contains_key(file));
            }
            if exists|f: Seq<char>| #[trigger]
                r.files.contains_key(f) && !self.known.contains_key(f) && process::package_names(
                    outcome_dependencies((self.outcome)(f)),
                ).contains(m) {
                let f = choose|f: Seq<char>| #[trigger]
                    r.files.contains_key(f) && !self.known.contains_key(f) && process::package_names(
                        outcome_dependencies((self.outcome)(f)),
                    ).contains(m);
                if f != file {
                    assert(q.files.contains_key(f));
                }
            }
        }
        assert forall|task: TaskView| q.tasks.contains(task) && task != q.tasks.last() implies
            #[trigger] r.tasks.contains(task) by {
            let k = choose|k: int| 0 <= k < q.tasks.len() && q.tasks[k] == task;
            assert(r.tasks[k] == task);
        }
        assert forall|path: Seq<char>| imports.contains(path) implies #[trigger] r.tasks.contains(
            TaskView::Resolve { curr_file: file, specifier: path },
        ) by {
            let k = choose|k: int| 0 <= k < imports.len() && imports[k] == path;
            assert(more[imports.len() - 1 - k] == (TaskView::Resolve {
                curr_file: file,
                specifier: path,
            }));
            assert(r.tasks[rest.len() + imports.len() - 1 - k] == (TaskView::Resolve {
                curr_file: file,
                specifier: path,
            }));
        }
        assert forall|task: TaskView| #[trigger] r.tasks.contains(task) implies match task {
            TaskView::Resolve { curr_file, specifier } => self.is_asked(r, curr_file, specifier),
            TaskView::Transform(file) => self.reachable(file),
        } by {
            let k = choose|k: int| 0 <= k < r.tasks.len() && r.tasks[k] == task;
            if k < rest.len() {
                assert(q.tasks[k] == task);
                assert(q.tasks.contains(task));
            } else {
                let j = imports.len() - 1 - (k - rest.len());
                assert(task == more[k - rest.len()]);
                assert(task == (TaskView::Resolve { curr_file: file, specifier: imports[j] }));
                assert(imports.contains(imports[j]));
                assert(r.files.contains_key(file));
            }
        }
        assert forall|c: Seq<char>, s: Seq<char>, f: Seq<char>|
            self.is_asked(r, c, s) && #[trigger] (self.found)(c, s).contains(
                f,
            ) implies r.tasks.contains(TaskView::Resolve { curr_file: c, specifier: s })
            || self.is_awaited(r, f) by {
            if c == file && imports.contains(s) {
                assert(r.tasks.contains(TaskView::Resolve { curr_file: c, specifier: s }));
            } else {
                assert(self.is_asked(q, c, s));
                if q.tasks.contains(TaskView::Resolve { curr_file: c, specifier: s }) {
                    assert(r.tasks.contains(TaskView::Resolve { curr_file: c, specifier: s }));
                } else if f != file && q.tasks.contains(TaskView::Transform(f)) {
                    assert(r.tasks.contains(TaskView::Transform(f)));
                } else {
                    assert(r.files.contains_key(f));
                }
            }
        }
    }

    proof fn lemma_unsettled_end(self, files: Map<Seq<char>, FileView>, tasks: Seq<TaskView>)
        ensures
            unsettled(files, tasks).len() > 0 ==> !settled(files, unsettled(files, tasks).last()),
        decreases tasks.len(),
    {
        if tasks.len() > 0 && settled(files, tasks.last()) {
            self.lemma_unsettled_end(files, tasks.drop_last());
        }
    }

    /// Each step keeps the queue right.
    pub proof fn law_step_keeps_order(self, q: QueueView)
        requires
            self.in_order(q),
        ensures
            self.in_order(self.step(q)),
    {
        self.lemma_unsettled(q);
        self.lemma_unsettled_end(q.files, q.tasks);
        let u = QueueView { tasks: unsettled(q.files, q.tasks), ..q };
        if u.tasks.len() > 0 {
            match u.tasks.last() {
                TaskView::Resolve { curr_file, specifier } => {
                    self.lemma_resolve_step(u, curr_file, specifier);
                },
                TaskView::Transform(file) => {
                    self.lemma_transform_step(u, file);
                },
            }
        }
    }

    /// The number of specifiers that are yet to be looked for.
    pub open spec fn open_specifiers(self, tasks: Seq<TaskView>) -> nat
        decreases tasks.len(),
    {
        if tasks.len() == 0 {
            0
        } else {
            self.open_specifiers(tasks.drop_last()) + if tasks.last() is Resolve {
                1nat
            } else {
                0nat
            }
        }
    }

    proof fn lemma_open_specifiers(self, a: Seq<TaskView>, b: Seq<TaskView>)
        ensures
            self.open_specifiers(a + b) == self.open_specifiers(a) + self.open_specifiers(b),
        decreases b.len(),
    {
        if b.len() == 0 {
            assert(a + b =~= a);
        } else {
            assert((a + b).drop_last() =~= a + b.drop_last());
            self.lemma_open_specifiers(a, b.drop_last());
        }
    }

    proof fn lemma_no_open_specifiers(self, tasks: Seq<TaskView>)
        requires
            forall|i: int| 0 <= i < tasks.len() ==> (#[trigger] tasks[i]) is Transform,
        ensures
            self.open_specifiers(tasks) == 0,
        decreases tasks.len(),
    {
        if tasks.len() > 0 {
            self.lemma_no_open_specifiers(tasks.drop_last());
        }
    }

    proof fn lemma_unsettled_specifiers(
        self,
        files: Map<Seq<char>, FileView>,
        tasks: Seq<TaskView>,
    )
        ensures
            self.open_specifiers(unsettled(files, tasks)) == self.open_specifiers(tasks),
        decreases tasks.len(),
    {
        if tasks.len() > 0 && settled(files, tasks.last()) {
            self.lemma_unsettled_specifiers(files, tasks.drop_last());
        }
    }

    /// No file is done twice, and no step is idle: while there is work, a step makes
    /// one more file known, or leaves one specifier less to look for.
    pub proof fn law_step_makes_progress(self, q: QueueView)
        requires
            unsettled(q.files, q.tasks).len() > 0,
        ensures
            (exists|f: Seq<char>|
                !q.files.contains_key(f) && self.step(q).files == #[trigger] q.files.insert(
                    f,
                    served_file((self.outcome)(f)),
                )) || (self.step(q).files == q.files && self.open_specifiers(self.step(q).tasks)
                + 1 == self.open_specifiers(q.tasks)),
    {
        let tasks = unsettled(q.files, q.tasks);
        self.lemma_unsettled_end(q.files, q.tasks);
        self.lemma_unsettled_specifiers(q.files, q.tasks);
        match tasks.last() {
            TaskView::Resolve { curr_file, specifier } => {
                let more = transform_tasks((self.found)(curr_file, specifier));
                self.lemma_open_specifiers(tasks.drop_last(), more);
                self.lemma_no_open_specifiers(more);
            },
            TaskView::Transform(file) => {
                assert(self.step(q).files == q.files.insert(
                    file,
                    served_file((self.outcome)(file)),
                ));
            },
        }
    }

    proof fn lemma_reached_is_known(self, q: QueueView, n: nat, file: Seq<char>)
        requires
            self.in_order(q),
            unsettled(q.files, q.tasks).len() == 0,
            self.reached(n, file),
        ensures
            q.files.contains_key(file),
        decreases n,
    {
        self.lemma_unsettled(q);
        let u = QueueView { tasks: unsettled(q.files, q.tasks), ..q };
        if n == 0 {
            let entry = choose|entry: Seq<char>| #[trigger]
                self.entries.contains(entry) && (self.found)("."@, entry).contains(file);
            assert(self.is_asked(u, "."@, entry));
            assert((self.found)("."@, entry).contains(file));
        } else {
            let (from, path) = choose|from: Seq<char>, path: Seq<char>|
                self.reached((n - 1) as nat, from) && !self.known.contains_key(from)
                    && #[trigger] self.imports(from).contains(path) && (self.found)(
                    from,
                    path,
                ).contains(file);
            self.lemma_reached_is_known(q, (n - 1) as nat, from);
            assert(self.is_asked(u, from, path));
            assert((self.found)(from, path).contains(file));
        }
    }

    /// When nothing is left to do, the files that are known are those that were known
    /// at the start and all that are reachable, and no others.
    pub proof fn law_finished_queue_holds_the_reachable_files(self, q: QueueView, file: Seq<char>)
        requires
            self.in_order(q),
            unsettled(q.files, q.tasks).len() == 0,
        ensures
            q.files.contains_key(file) <==> self.known.contains_key(file) || self.reachable(file),
    {
        if self.reachable(file) {
            let n = choose|n: nat| self.reached(n, file);
            self.lemma_reached_is_known(q, n, file);
        }
    }

    /// What a file imports is what its code, once transformed, names as a path.
    pub proof fn law_imports_are_named_paths(self, file: Seq<char>, path: Seq<char>)
        ensures
            self.imports(file).contains(path) <==> ((self.outcome)(file)
                matches OutcomeView::Transformed { dependencies, .. } && exists|i: int|
                0 <= i < dependencies.len() && npm_specifier::module_specifier(
                    #[trigger] dependencies[i],
                ) == Some(npm_specifier::SpecifierView::Relative(path))),
    {
        process::law_relative_specifiers_are_paths(
            outcome_dependencies((self.outcome)(file)),
            path,
        );
    }

    /// The files that an entry stands for are reachable, and so are those that a reachable
    /// file imports, unless it was known at the start.
    pub proof fn law_imports_of_reachable_files_are_reachable(
        self,
        from: Seq<char>,
        path: Seq<char>,
        file: Seq<char>,
    )
        ensures
            self.entries.contains(path) && (self.found)("."@, path).contains(file)
                ==> self.reachable(file),
            self.reachable(from) && !self.known.contains_key(from) && self.imports(from).contains(
                path,
            ) && (self.found)(from, path).contains(file) ==> self.reachable(file),
    {
        if self.entries.contains(path) && (self.found)("."@, path).contains(file) {
            assert(self.reached(0, file));
        }
        if self.reachable(from) && !self.known.contains_key(from) && self.imports(from).contains(
            path,
        ) && (self.found)(from, path).contains(file) {
            let n = choose|n: nat| self.reached(n, from);
            assert(self.reached((n + 1 - 1) as nat, from));
            assert(self.reached(n + 1, file));
        }
    }

    /// When nothing is left to do, a package counts as used if and only if the code of a
    /// reachable file names it, files that were known at the start aside.
    pub proof fn law_finished_queue_holds_the_used_packages(self, q: QueueView, m: Seq<char>)
        requires
            self.in_order(q),
            unsettled(q.files, q.tasks).len() == 0,
        ensures
            q.used_modules.contains(m) <==> exists|f: Seq<char>|
                #![trigger (self.outcome)(f)]
                self.reachable(f) && !self.known.contains_key(f) && ((self.outcome)(f)
                    matches OutcomeView::Transformed { dependencies, .. } && exists|i: int|
                    0 <= i < dependencies.len() && (npm_specifier::module_specifier(
                        #[trigger] dependencies[i],
                    ) matches Some(npm_specifier::SpecifierView::Package { name, .. }) && name
                        == m)),
    {
        if q.used_modules.contains(m) {
            let f = choose|f: Seq<char>| #[trigger]
                q.files.contains_key(f) && !self.known.contains_key(f) && process::package_names(
                    outcome_dependencies((self.outcome)(f)),
                ).contains(m);
            self.law_finished_queue_holds_the_reachable_files(q, f);
            process::law_package_specifiers_are_packages(
                outcome_dependencies((self.outcome)(f)),
                m,
            );
            assert(self.reachable(f));
        }
        if exists|f: Seq<char>|
            #![trigger (self.outcome)(f)]
            self.reachable(f) && !self.known.contains_key(f) && ((self.outcome)(f)
                matches OutcomeView::Transformed { dependencies, .. } && exists|i: int|
                0 <= i < dependencies.len() && (npm_specifier::module_specifier(
                    #[trigger] dependencies[i],
                ) matches Some(npm_specifier::SpecifierView::Package { name, .. }) && name == m)) {
            let f = choose|f: Seq<char>|
                #![trigger (self.outcome)(f)]
                self.reachable(f) && !self.known.contains_key(f) && ((self.outcome)(f)
                    matches OutcomeView::Transformed { dependencies, .. } && exists|i: int|
                    0 <= i < dependencies.len() && (npm_specifier::module_specifier(
                        #[trigger] dependencies[i],
                    ) matches Some(npm_specifier::SpecifierView::Package { name, .. }) && name
                        == m));
            self.law_finished_queue_holds_the_reachable_files(q, f);
            process::law_package_specifiers_are_packages(
                outcome_dependencies((self.outcome)(f)),
                m,
            );
            assert(q.files.contains_key(f));
        }
    }
}

} // verus!
