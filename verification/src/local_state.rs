//! The memory and the database together.
//!
//! The functions of [`database`] tell what becomes of the memory at each call. Here
//! stands what that means for the registry entries that are known locally, given a
//! database that gives back what was put into it, and in which nothing changes when it
//! reports a failure.

use vstd::prelude::*;

use crate::app_error::ServerError;
use crate::database;
use crate::database::WritePlan;
use crate::database::MANIFEST_CACHE_SIZE;
use crate::document::ManifestView;

verus! {

/// Whatever is kept in memory of a package is what the database holds of it.
pub open spec fn agrees(
    memory: Seq<(Seq<char>, ManifestView)>,
    db: Map<Seq<char>, ManifestView>,
) -> bool {
    forall|name: Seq<char>|
        (#[trigger] database::cached(memory, name)) is Some ==> database::cached(memory, name)
            == found(db, name)
}

/// What the database holds of a package.
pub open spec fn found(db: Map<Seq<char>, ManifestView>, name: Seq<char>) -> Option<ManifestView> {
    if db.contains_key(name) {
        Some(db[name])
    } else {
        None
    }
}

/// What is known locally.
pub struct LocalState {
    /// What is kept in memory: the view of a [`database::NpmDatabase`].
    pub memory: Seq<(Seq<char>, ManifestView)>,
    /// What the database holds, by the names of the packages.
    pub db: Map<Seq<char>, ManifestView>,
}

/// A call, and whether the database did what it was told to.
pub enum LocalCall {
    /// `write_package`.
    Write(ManifestView, bool),
    /// `delete_package`.
    Delete(Seq<char>, bool),
    /// `cached_package`, and `get_package` for what is not kept in memory.
    Read(Seq<char>, bool),
    /// `has_package`, which changes nothing in the database.
    LookUp(Seq<char>),
}

/// What came of asking the registry for a package's entry.
pub enum RegistryReply {
    /// No answer.
    Failed(ServerError),
    /// An answer with its status, and with what could be made of its text.
    Answered(u16, Result<ManifestView, ServerError>),
}

/// What `ensure_package` ends in.
pub enum EnsureOutcome {
    Done,
    /// The registry answered with this status when asked for this package.
    DownloadError(u16, Seq<char>),
    /// The registry has no version of this package, which is reported as not found.
    NoVersions(Seq<char>),
    /// What the registry, the answer's text or the database failed with.
    Failed(ServerError),
}

impl LocalState {
    /// The memory is in order and agrees with the database.
    pub open spec fn agreed(self) -> bool {
        database::sound(self.memory) && agrees(self.memory, self.db)
    }

    /// The entry that is answered for a package: the one in memory, and otherwise the
    /// one in the database. When there is none, the package is reported as not found.
    pub open spec fn known(self, name: Seq<char>) -> Option<ManifestView> {
        match database::cached(self.memory, name) {
            Some(data) => Some(data),
            None => found(self.db, name),
        }
    }

    /// True when a package is known locally.
    pub open spec fn has(self, name: Seq<char>) -> bool {
        database::known_locally(self.memory, name, self.db.contains_key(name))
    }

    /// After a package was looked up in memory.
    pub open spec fn looked_up(self, name: Seq<char>) -> LocalState {
        LocalState { memory: database::touched(self.memory, name), db: self.db }
    }

    /// After a package was deleted.
    pub open spec fn deleted(self, name: Seq<char>) -> LocalState {
        LocalState { memory: database::dropped(self.memory, name), db: self.db.remove(name) }
    }

    /// After a registry entry was written.
    pub open spec fn written(self, pkg: ManifestView) -> LocalState {
        match database::write_plan(pkg) {
            WritePlan::Delete => self.deleted(pkg.name),
            WritePlan::Store => LocalState {
                memory: database::dropped(self.memory, pkg.name),
                db: self.db.insert(pkg.name, pkg),
            },
        }
    }

    /// After the entry of a package was read: it is looked up in memory, and what is
    /// found in the database instead is kept there.
    pub open spec fn read(self, name: Seq<char>) -> LocalState {
        let seen = self.looked_up(name);
        if database::cached(self.memory, name) is None && self.db.contains_key(name) {
            LocalState {
                memory: database::stored(
                    seen.memory,
                    name,
                    self.db[name],
                    MANIFEST_CACHE_SIZE as nat,
                ),
                db: self.db,
            }
        } else {
            seen
        }
    }

    /// After a call.
    pub open spec fn after(self, call: LocalCall) -> LocalState {
        match call {
            LocalCall::Write(pkg, done) => if done {
                self.written(pkg)
            } else {
                self
            },
            LocalCall::Delete(name, done) => if done {
                self.deleted(name)
            } else {
                self
            },
            LocalCall::Read(name, done) => if done {
                self.read(name)
            } else {
                self.looked_up(name)
            },
            LocalCall::LookUp(name) => self.looked_up(name),
        }
    }

    /// After one call and then the next.
    pub open spec fn after_all(self, calls: Seq<LocalCall>) -> LocalState
        decreases calls.len(),
    {
        if calls.len() == 0 {
            self
        } else {
            self.after_all(calls.drop_last()).after(calls.last())
        }
    }

    /// What comes of seeing to it that a package is known locally: `stored` is what the
    /// database says when asked whether it knows the package, `reply` what the registry
    /// answers if it is asked, and `outcome` what the database says when told to write
    /// the entry.
    pub open spec fn ensured(
        self,
        name: Seq<char>,
        stored: bool,
        reply: RegistryReply,
        outcome: Result<usize, ServerError>,
    ) -> (LocalState, EnsureOutcome) {
        let seen = self.looked_up(name);
        if database::known_locally(self.memory, name, stored) {
            (seen, EnsureOutcome::Done)
        } else {
            match reply {
                RegistryReply::Failed(err) => (seen, EnsureOutcome::Failed(err)),
                RegistryReply::Answered(status, document) => if !database::is_success(status) {
                    (seen, EnsureOutcome::DownloadError(status, name))
                } else {
                    match (document, outcome) {
                        (Ok(pkg), Ok(_)) => (
                            seen.written(pkg),
                            match database::write_plan(pkg) {
                                WritePlan::Store => EnsureOutcome::Done,
                                WritePlan::Delete => EnsureOutcome::NoVersions(name),
                            },
                        ),
                        (Ok(_), Err(err)) => (seen, EnsureOutcome::Failed(err)),
                        (Err(err), _) => (seen, EnsureOutcome::Failed(err)),
                    }
                },
            }
        }
    }
}

/// What the last call that changed a package made of it, if there was one: its entry,
/// or nothing when it was deleted.
pub open spec fn last_change(calls: Seq<LocalCall>, name: Seq<char>) -> Option<Option<ManifestView>>
    decreases calls.len(),
{
    if calls.len() == 0 {
        None
    } else {
        match calls.last() {
            LocalCall::Write(pkg, true) if pkg.name == name => Some(
                match database::write_plan(pkg) {
                    WritePlan::Delete => None,
                    WritePlan::Store => Some(pkg),
                },
            ),
            LocalCall::Delete(deleted, true) if deleted == name => Some(None),
            _ => last_change(calls.drop_last(), name),
        }
    }
}

/// A memory that holds nothing agrees with any database.
pub proof fn law_empty_memory_agrees(db: Map<Seq<char>, ManifestView>)
    ensures
        (LocalState { memory: Seq::empty(), db }).agreed(),
{
    let memory = Seq::<(Seq<char>, ManifestView)>::empty();
    assert forall|name: Seq<char>| (#[trigger] database::cached(memory, name)) is Some implies
        database::cached(memory, name) == found(db, name) by {
        crate::str_map::lemma_key_index(memory, name, 0);
    }
}

/// While memory and database agree, what is answered for a package is what the
/// database holds of it, whether or not it is kept in memory.
pub proof fn law_answer_is_what_the_database_holds(state: LocalState, name: Seq<char>)
    requires
        state.agreed(),
    ensures
        state.known(name) == found(state.db, name),
{
}

/// Looking a package up keeps memory and database in agreement.
pub proof fn law_lookup_keeps_agreement(state: LocalState, name: Seq<char>)
    requires
        state.agreed(),
    ensures
        state.looked_up(name).agreed(),
        state.looked_up(name).db == state.db,
{
    let after = state.looked_up(name);
    database::law_lookup_keeps_the_entries(state.memory, name, name);
    assert forall|k: Seq<char>| (#[trigger] database::cached(after.memory, k)) is Some implies
        database::cached(after.memory, k) == found(after.db, k) by {
        database::law_lookup_keeps_the_entries(state.memory, name, k);
    }
}

/// Deleting a package keeps memory and database in agreement.
pub proof fn law_delete_keeps_agreement(state: LocalState, name: Seq<char>)
    requires
        state.agreed(),
    ensures
        state.deleted(name).agreed(),
        state.deleted(name).known(name) is None,
{
    let after = state.deleted(name);
    database::law_changed_package_is_forgotten(state.memory, name, name);
    assert forall|k: Seq<char>| (#[trigger] database::cached(after.memory, k)) is Some implies
        database::cached(after.memory, k) == found(after.db, k) by {
        database::law_changed_package_is_forgotten(state.memory, name, k);
        assert(k != name);
        assert(database::cached(state.memory, k) == found(state.db, k));
    }
}

/// Writing a registry entry keeps memory and database in agreement.
pub proof fn law_write_keeps_agreement(state: LocalState, pkg: ManifestView)
    requires
        state.agreed(),
    ensures
        state.written(pkg).agreed(),
        state.written(pkg).known(pkg.name) == (if pkg.versions.len() == 0 {
            None
        } else {
            Some(pkg)
        }),
{
    let after = state.written(pkg);
    law_delete_keeps_agreement(state, pkg.name);
    database::law_changed_package_is_forgotten(state.memory, pkg.name, pkg.name);
    assert forall|k: Seq<char>| (#[trigger] database::cached(after.memory, k)) is Some implies
        database::cached(after.memory, k) == found(after.db, k) by {
        database::law_changed_package_is_forgotten(state.memory, pkg.name, k);
        assert(k != pkg.name);
        assert(database::cached(state.memory, k) == found(state.db, k));
    }
}

/// Reading an entry keeps memory and database in agreement, also when the memory is
/// full; and a second reading gives the same.
pub proof fn law_read_keeps_agreement(state: LocalState, name: Seq<char>)
    requires
        state.agreed(),
    ensures
        state.read(name).agreed(),
        state.read(name).db == state.db,
        database::cached(state.read(name).memory, name) == state.known(name),
{
    let seen = state.looked_up(name);
    let after = state.read(name);
    law_lookup_keeps_agreement(state, name);
    database::law_lookup_keeps_the_entries(state.memory, name, name);
    if database::cached(state.memory, name) is None && state.db.contains_key(name) {
        let data = state.db[name];
        database::law_loaded_package_is_kept(seen.memory, name, data);
        assert forall|k: Seq<char>| (#[trigger] database::cached(after.memory, k)) is Some implies
            database::cached(after.memory, k) == found(after.db, k) by {
            if k != name {
                database::law_kept_packages_stay_as_they_are(seen.memory, name, data, k);
                assert(database::cached(seen.memory, k) == found(seen.db, k));
            }
        }
    }
}

/// Each call keeps memory and database in agreement.
pub proof fn law_calls_keep_agreement(state: LocalState, call: LocalCall)
    requires
        state.agreed(),
    ensures
        state.after(call).agreed(),
{
    match call {
        LocalCall::Write(pkg, _) => law_write_keeps_agreement(state, pkg),
        LocalCall::Delete(name, _) => law_delete_keeps_agreement(state, name),
        LocalCall::Read(name, _) => {
            law_read_keeps_agreement(state, name);
            law_lookup_keeps_agreement(state, name);
        },
        LocalCall::LookUp(name) => law_lookup_keeps_agreement(state, name),
    }
}

/// Whatever was called before, what is answered for a package is what the last call
/// that changed it made of it: the entry that was written, or nothing after it was
/// deleted or written without versions. When no call changed it, it is what the
/// database held at first.
pub proof fn law_read_gives_the_last_write(
    state: LocalState,
    calls: Seq<LocalCall>,
    name: Seq<char>,
)
    requires
        state.agreed(),
    ensures
        state.after_all(calls).agreed(),
        state.after_all(calls).known(name) == (match last_change(calls, name) {
            Some(change) => change,
            None => found(state.db, name),
        }),
    decreases calls.len(),
{
    if calls.len() > 0 {
        let before = state.after_all(calls.drop_last());
        let call = calls.last();
        law_read_gives_the_last_write(state, calls.drop_last(), name);
        law_calls_keep_agreement(before, call);
        law_answer_is_what_the_database_holds(before, name);
        law_answer_is_what_the_database_holds(before.after(call), name);
        assert(state.after_all(calls) == before.after(call));
    } else {
        law_answer_is_what_the_database_holds(state, name);
    }
}

/// For a package that is known locally the registry is not asked, so that nothing
/// depends on its answer, and the database stays as it is.
pub proof fn law_known_package_is_not_fetched(
    state: LocalState,
    name: Seq<char>,
    stored: bool,
    reply: RegistryReply,
    outcome: Result<usize, ServerError>,
)
    requires
        database::known_locally(state.memory, name, stored),
    ensures
        state.ensured(name, stored, reply, outcome) == (
            state.looked_up(name),
            EnsureOutcome::Done,
        ),
        state.ensured(name, stored, reply, outcome).0.db == state.db,
{
}

/// For a package that is not known locally any answer of the registry but a success is
/// reported with its status and the package's name, and nothing is written.
pub proof fn law_refused_download_is_reported(
    state: LocalState,
    name: Seq<char>,
    stored: bool,
    status: u16,
    document: Result<ManifestView, ServerError>,
    outcome: Result<usize, ServerError>,
)
    requires
        !database::known_locally(state.memory, name, stored),
        !database::is_success(status),
    ensures
        state.ensured(name, stored, RegistryReply::Answered(status, document), outcome).1
            == EnsureOutcome::DownloadError(status, name),
        state.ensured(name, stored, RegistryReply::Answered(status, document), outcome).0
            == state.looked_up(name),
        state.looked_up(name).db == state.db,
{
}

/// For a package that is not known locally a document without versions is reported with
/// the package's name. The package that the document is about is not known afterwards,
/// and nothing else has changed.
pub proof fn law_package_without_versions_is_not_found(
    state: LocalState,
    name: Seq<char>,
    stored: bool,
    status: u16,
    pkg: ManifestView,
    written: usize,
    other: Seq<char>,
)
    requires
        state.agreed(),
        !database::known_locally(state.memory, name, stored),
        database::is_success(status),
        pkg.versions.len() == 0,
    ensures
        state.ensured(name, stored, RegistryReply::Answered(status, Ok(pkg)), Ok(written)).1
            == EnsureOutcome::NoVersions(name),
        !state.ensured(name, stored, RegistryReply::Answered(status, Ok(pkg)), Ok(written)).0.has(
            pkg.name,
        ),
        other != pkg.name ==> state.ensured(
            name,
            stored,
            RegistryReply::Answered(status, Ok(pkg)),
            Ok(written),
        ).0.known(other) == state.known(other),
{
    let seen = state.looked_up(name);
    law_lookup_keeps_agreement(state, name);
    law_write_keeps_agreement(seen, pkg);
    law_answer_is_what_the_database_holds(state, other);
    law_answer_is_what_the_database_holds(seen.written(pkg), other);
}

/// A failure changes nothing of what is answered for any package; only a document
/// without versions does.
pub proof fn law_failed_download_changes_nothing(
    state: LocalState,
    name: Seq<char>,
    stored: bool,
    reply: RegistryReply,
    outcome: Result<usize, ServerError>,
    other: Seq<char>,
)
    requires
        state.agreed(),
        !(state.ensured(name, stored, reply, outcome).1 is Done),
        !(state.ensured(name, stored, reply, outcome).1 is NoVersions),
    ensures
        state.ensured(name, stored, reply, outcome).0.db == state.db,
        state.ensured(name, stored, reply, outcome).0.known(other) == state.known(other),
{
    law_lookup_keeps_agreement(state, name);
    law_answer_is_what_the_database_holds(state, other);
    law_answer_is_what_the_database_holds(state.looked_up(name), other);
}

/// Seeing to it that a package is known locally keeps memory and database in agreement.
pub proof fn law_ensuring_keeps_agreement(
    state: LocalState,
    name: Seq<char>,
    stored: bool,
    reply: RegistryReply,
    outcome: Result<usize, ServerError>,
)
    requires
        state.agreed(),
    ensures
        state.ensured(name, stored, reply, outcome).0.agreed(),
{
    law_lookup_keeps_agreement(state, name);
    if let RegistryReply::Answered(_, Ok(pkg)) = reply {
        law_write_keeps_agreement(state.looked_up(name), pkg);
    }
}

/// A package that was successfully seen to is known locally, and if it was not before,
/// its entry is the registry's. This takes a database that does not claim a package that
/// it has not, and a document of the registry that is about the package; one about
/// another package leaves this one as it was.
pub proof fn law_ensured_package_is_known(
    state: LocalState,
    name: Seq<char>,
    stored: bool,
    reply: RegistryReply,
    outcome: Result<usize, ServerError>,
)
    requires
        state.agreed(),
        stored ==> state.db.contains_key(name),
        !database::known_locally(state.memory, name, stored) ==> (reply matches
            RegistryReply::Answered(_, Ok(pkg)) ==> pkg.name == name || state.db.contains_key(
            name,
        )),
        state.ensured(name, stored, reply, outcome).1 is Done,
    ensures
        state.ensured(name, stored, reply, outcome).0.known(name) is Some,
        state.ensured(name, stored, reply, outcome).0.has(name),
        !database::known_locally(state.memory, name, stored) ==> (reply matches
            RegistryReply::Answered(_, Ok(pkg)) && (pkg.name == name ==> state.ensured(
            name,
            stored,
            reply,
            outcome,
        ).0.known(name) == Some(pkg))),
{
    law_lookup_keeps_agreement(state, name);
    law_answer_is_what_the_database_holds(state, name);
    law_answer_is_what_the_database_holds(state.looked_up(name), name);
    if let RegistryReply::Answered(_, Ok(pkg)) = reply {
        law_write_keeps_agreement(state.looked_up(name), pkg);
    }
}

/// What the database holds after a call: a write that was done puts an entry with versions
/// in and takes the package of one without versions out, a delete that was done takes the
/// package out, and nothing else changes anything.
pub proof fn law_what_calls_make_of_the_database(
    state: LocalState,
    pkg: ManifestView,
    name: Seq<char>,
    done: bool,
)
    ensures
        pkg.versions.len() > 0 ==> state.after(LocalCall::Write(pkg, true)).db == state.db.insert(
            pkg.name,
            pkg,
        ),
        pkg.versions.len() == 0 ==> state.after(LocalCall::Write(pkg, true)).db == state.db.remove(
            pkg.name,
        ),
        state.after(LocalCall::Write(pkg, false)) == state,
        state.after(LocalCall::Delete(name, true)).db == state.db.remove(name),
        state.after(LocalCall::Delete(name, false)) == state,
        state.after(LocalCall::Read(name, done)).db == state.db,
        state.after(LocalCall::LookUp(name)).db == state.db,
{
}

/// What is kept in memory after a call: nothing of a package that was written or deleted,
/// the entry that the database holds of one that was read, and everything as before after a
/// lookup.
pub proof fn law_what_calls_make_of_the_memory(
    state: LocalState,
    pkg: ManifestView,
    name: Seq<char>,
    other: Seq<char>,
)
    requires
        state.agreed(),
    ensures
        database::cached(state.after(LocalCall::Write(pkg, true)).memory, pkg.name) is None,
        other != pkg.name ==> database::cached(
            state.after(LocalCall::Write(pkg, true)).memory,
            other,
        ) == database::cached(state.memory, other),
        database::cached(state.after(LocalCall::Delete(name, true)).memory, name) is None,
        other != name ==> database::cached(state.after(LocalCall::Delete(name, true)).memory, other)
            == database::cached(state.memory, other),
        state.db.contains_key(name) ==> database::cached(
            state.after(LocalCall::Read(name, true)).memory,
            name,
        ) == Some(state.db[name]),
        !state.db.contains_key(name) ==> database::cached(
            state.after(LocalCall::Read(name, true)).memory,
            name,
        ) is None,
        database::cached(state.after(LocalCall::Read(name, false)).memory, other)
            == database::cached(state.memory, other),
        database::cached(state.after(LocalCall::LookUp(name)).memory, other) == database::cached(
            state.memory,
            other,
        ),
{
    database::law_changed_package_is_forgotten(state.memory, pkg.name, pkg.name);
    database::law_changed_package_is_forgotten(state.memory, pkg.name, other);
    database::law_changed_package_is_forgotten(state.memory, name, name);
    database::law_changed_package_is_forgotten(state.memory, name, other);
    database::law_lookup_keeps_the_entries(state.memory, name, other);
    database::law_lookup_keeps_the_entries(state.memory, name, name);
    if database::cached(state.memory, name) is None && state.db.contains_key(name) {
        database::law_loaded_package_is_kept(
            database::touched(state.memory, name),
            name,
            state.db[name],
        );
    } else if database::cached(state.memory, name) is Some {
        assert(database::cached(state.memory, name) == found(state.db, name));
    }
}

/// Calls count in turn, and the last change of a package is the last write or delete of it
/// that was done.
pub proof fn law_calls_in_turn(
    state: LocalState,
    calls: Seq<LocalCall>,
    call: LocalCall,
    name: Seq<char>,
)
    ensures
        state.after_all(Seq::empty()) == state,
        state.after_all(calls.push(call)) == state.after_all(calls).after(call),
        last_change(Seq::empty(), name) is None,
        last_change(calls.push(call), name) == match call {
            LocalCall::Write(pkg, done) => if done && pkg.name == name {
                Some(
                    if pkg.versions.len() > 0 {
                        Some(pkg)
                    } else {
                        None
                    },
                )
            } else {
                last_change(calls, name)
            },
            LocalCall::Delete(deleted, done) => if done && deleted == name {
                Some(None)
            } else {
                last_change(calls, name)
            },
            LocalCall::Read(_, _) => last_change(calls, name),
            LocalCall::LookUp(_) => last_change(calls, name),
        },
{
    assert(calls.push(call).drop_last() =~= calls);
}

/// What comes of seeing to it that a package is known locally, case by case. A package that
/// is kept in memory or stored is known. Otherwise the registry is asked: that it cannot be
/// reached, and any status but one of the two hundreds, is reported; so is a document that
/// is none and a database that fails. A document with versions is stored, one without is
/// deleted and reported as not found. Whatever is not stored or deleted stays.
pub proof fn law_ensuring_case_by_case(
    state: LocalState,
    name: Seq<char>,
    stored: bool,
    reply: RegistryReply,
    outcome: Result<usize, ServerError>,
)
    ensures
        ({
            let (after, result) = state.ensured(name, stored, reply, outcome);
            if stored || database::cached(state.memory, name) is Some {
                result is Done && after.db == state.db
            } else {
                match reply {
                    RegistryReply::Failed(err) => result == EnsureOutcome::Failed(err) && after.db
                        == state.db,
                    RegistryReply::Answered(status, document) => if status < 200 || status > 299 {
                        result == EnsureOutcome::DownloadError(status, name) && after.db == state.db
                    } else {
                        match document {
                            Err(err) => result == EnsureOutcome::Failed(err) && after.db
                                == state.db,
                            Ok(pkg) => match outcome {
                                Err(err) => result == EnsureOutcome::Failed(err) && after.db
                                    == state.db,
                                Ok(_) => if pkg.versions.len() > 0 {
                                    result is Done && after.db == state.db.insert(pkg.name, pkg)
                                } else {
                                    result == EnsureOutcome::NoVersions(name) && after.db
                                        == state.db.remove(pkg.name)
                                },
                            },
                        }
                    },
                }
            }
        }),
{
}

} // verus!
