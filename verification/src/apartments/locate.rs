//! File discovery: the path model, the upward search for a marker file,
//! the two-strategy search for the main directory, the two-location
//! search for the data file, and the composition of a save target.
//!
//! The library never touches the filesystem. Each search is a state
//! machine: it names the file to probe, the embedding program answers
//! whether that file exists (and supplies the working directory or the
//! program's own directory when asked), and the machine moves one step.

use vstd::prelude::*;

use crate::apartments::model::StoreError;

verus! {

/// A filesystem path as a list of components, absolute or relative.
pub struct FsPath {
    pub absolute: bool,
    pub parts: Vec<String>,
}

/// The views of a path's components.
pub open spec fn parts_view(parts: Seq<String>) -> Seq<Seq<char>> {
    parts.map_values(|s: String| s@)
}

/// Two paths name the same place.
pub open spec fn path_eq(a: FsPath, b: FsPath) -> bool {
    a.absolute == b.absolute && parts_view(a.parts@) == parts_view(b.parts@)
}

/// Whether a path is absolute.
pub fn path_is_absolute(file: &FsPath) -> (r: bool)
    ensures
        r == file.absolute,
{
    file.absolute
}

impl FsPath {
    /// A copy of this path.
    pub fn clone_path(&self) -> (r: FsPath)
        ensures
            path_eq(r, *self),
            r.parts@.len() == self.parts@.len(),
    {
        let mut parts: Vec<String> = Vec::new();
        let mut i: usize = 0;
        while i < self.parts.len()
            invariant
                i <= self.parts@.len(),
                parts@.len() == i,
                parts_view(parts@) == parts_view(self.parts@.take(i as int)),
            decreases self.parts@.len() - i,
        {
            let ghost prev = parts@;
            parts.push(self.parts[i].clone());
            proof {
                let goal = self.parts@.take(i + 1);
                assert forall|j: int| 0 <= j < i + 1 implies parts_view(parts@)[j] == parts_view(
                    goal,
                )[j] by {
                    if j < i {
                        assert(parts_view(prev)[j] == parts_view(self.parts@.take(i as int))[j]);
                        assert(parts@[j] == prev[j]);
                    }
                }
                assert(parts_view(parts@) =~= parts_view(goal));
            }
            i += 1;
        }
        proof {
            assert(self.parts@.take(self.parts@.len() as int) =~= self.parts@);
        }
        FsPath { absolute: self.absolute, parts }
    }

    /// The containing directory: the path without its last component,
    /// or nothing at a root.
    pub fn parent(&self) -> (r: Option<FsPath>)
        ensures
            match r {
                Some(p) => self.parts@.len() > 0 && p.absolute == self.absolute && parts_view(
                    p.parts@,
                ) == parts_view(self.parts@.drop_last()),
                None => self.parts@.len() == 0,
            },
    {
        if self.parts.len() == 0 {
            return None;
        }
        let mut p = self.clone_path();
        let ghost whole = p.parts@;
        p.parts.pop();
        proof {
            let goal = self.parts@.drop_last();
            assert(parts_view(whole).len() == self.parts@.len());
            assert forall|j: int| 0 <= j < p.parts@.len() implies parts_view(p.parts@)[j]
                == parts_view(goal)[j] by {
                assert(p.parts@[j] == whole[j]);
                assert(parts_view(whole)[j] == parts_view(self.parts@)[j]);
            }
            assert(parts_view(p.parts@) =~= parts_view(goal));
        }
        Some(p)
    }

    /// The path with one more component at its end.
    pub fn join(&self, name: &str) -> (r: FsPath)
        ensures
            r.absolute == self.absolute,
            r.parts@.len() == self.parts@.len() + 1,
            parts_view(r.parts@) == parts_view(self.parts@).push(name@),
    {
        let mut p = self.clone_path();
        p.parts.push(name.to_owned());
        proof {
            assert(parts_view(p.parts@) =~~= parts_view(self.parts@).push(name@));
        }
        p
    }
}

/// One step of an upward search.
pub enum UpwardOutcome {
    /// The current directory holds the target; here it is.
    Found(FsPath),
    /// The target is absent here; the search moved to the parent.
    Continue,
    /// The target is absent here and there is no parent left.
    Exhausted,
}

/// An upward search for a file: starting in one directory, each ancestor
/// is probed in turn for a file of the target name.
pub struct UpwardSearch {
    /// The directory probed next.
    pub dir: FsPath,
    /// The file name searched for.
    pub target: String,
    /// Whether the search still runs.
    pub active: bool,
}

impl UpwardSearch {
    /// A search for `target`, starting at `start`.
    pub fn new(start: FsPath, target: String) -> (s: UpwardSearch)
        ensures
            s.active,
            s.dir == start,
            s.target == target,
    {
        UpwardSearch { dir: start, target, active: true }
    }

    /// The file to probe for existence next.
    pub fn probe(&self) -> (p: FsPath)
        requires
            self.active,
        ensures
            p.absolute == self.dir.absolute,
            parts_view(p.parts@) == parts_view(self.dir.parts@).push(self.target@),
    {
        self.dir.join(self.target.as_str())
    }

    /// Takes the probe's answer and moves one step: the search ends on a
    /// hit or at a root, and climbs to the parent otherwise.
    pub fn advance(&mut self, exists: bool) -> (r: UpwardOutcome)
        requires
            old(self).active,
        ensures
            final(self).target == old(self).target,
            match r {
                UpwardOutcome::Found(d) => exists && path_eq(d, old(self).dir) && !final(self).active,
                UpwardOutcome::Continue => !exists && old(self).dir.parts@.len() > 0 && final(self).active && final(self).dir.absolute == old(self).dir.absolute && parts_view(
                    final(self).dir.parts@,
                ) == parts_view(old(self).dir.parts@.drop_last()),
                UpwardOutcome::Exhausted => !exists && old(self).dir.parts@.len() == 0 && !final(self).active,
            },
    {
        if exists {
            self.active = false;
            let d = self.dir.clone_path();
            return UpwardOutcome::Found(d);
        }
        match self.dir.parent() {
            Some(p) => {
                self.dir = p;
                UpwardOutcome::Continue
            },
            None => {
                self.active = false;
                UpwardOutcome::Exhausted
            },
        }
    }
}

/// What the main-directory search asks of the embedding program next.
pub enum LocateAction {
    /// Probe this file for existence and answer through `on_exists`.
    ProbeFile(FsPath),
    /// Resolve the running program's directory and answer through
    /// `on_exe_dir`.
    NeedExeDir,
    /// The search is over, with the main directory it found, if any.
    Done(Option<FsPath>),
}

/// The phase the main-directory search is in.
pub enum LocatePhase {
    /// Climbing from the working directory.
    Primary(UpwardSearch),
    /// The primary strategy failed; the program's directory is needed.
    AwaitFallback,
    /// Climbing from the program's directory.
    Fallback(UpwardSearch),
    /// Finished, with the main directory, if one was found.
    Finished(Option<FsPath>),
}

/// The search for the main directory: the first ancestor of the working
/// directory that holds the marker file; when there is none, the first
/// ancestor of the running program's directory that holds it.
pub struct MainLocator {
    /// The marker file name that anchors the search.
    pub marker: String,
    /// The current phase.
    pub phase: LocatePhase,
}

impl MainLocator {
    /// Starts the search from the working directory; when the working
    /// directory itself could not be resolved, the search is over at
    /// once, empty-handed.
    pub fn new(cwd: Option<FsPath>, marker: String) -> (s: MainLocator)
        ensures
            s.marker == marker,
            match cwd {
                Some(d) => s.phase matches LocatePhase::Primary(u) && u.active && u.dir == d
                    && u.target == marker,
                None => s.phase == LocatePhase::Finished(None::<FsPath>),
            },
    {
        match cwd {
            Some(d) => {
                let u = UpwardSearch::new(d, marker.clone());
                MainLocator { marker, phase: LocatePhase::Primary(u) }
            },
            None => MainLocator { marker, phase: LocatePhase::Finished(None) },
        }
    }

    /// What to do next.
    pub fn action(&self) -> (a: LocateAction)
        ensures
            match self.phase {
                LocatePhase::Primary(u) => u.active ==> (a matches LocateAction::ProbeFile(p)
                    && p.absolute == u.dir.absolute && parts_view(p.parts@) == parts_view(
                    u.dir.parts@,
                ).push(u.target@)),
                LocatePhase::AwaitFallback => a == LocateAction::NeedExeDir,
                LocatePhase::Fallback(u) => u.active ==> (a matches LocateAction::ProbeFile(p)
                    && p.absolute == u.dir.absolute && parts_view(p.parts@) == parts_view(
                    u.dir.parts@,
                ).push(u.target@)),
                LocatePhase::Finished(o) => match o {
                    Some(d) => a matches LocateAction::Done(Some(e)) && path_eq(e, d),
                    None => a == LocateAction::Done(None::<FsPath>),
                },
            },
    {
        match &self.phase {
            LocatePhase::Primary(u) => {
                if u.active {
                    LocateAction::ProbeFile(u.probe())
                } else {
                    LocateAction::Done(None)
                }
            },
            LocatePhase::AwaitFallback => LocateAction::NeedExeDir,
            LocatePhase::Fallback(u) => {
                if u.active {
                    LocateAction::ProbeFile(u.probe())
                } else {
                    LocateAction::Done(None)
                }
            },
            LocatePhase::Finished(o) => {
                match o {
                    Some(d) => LocateAction::Done(Some(d.clone_path())),
                    None => LocateAction::Done(None),
                }
            },
        }
    }

    /// Takes the answer of the probe the last action asked for. A hit
    /// finishes with that directory; a miss climbs on; an exhausted climb
    /// falls back to the program's directory, or finishes empty-handed.
    pub fn on_exists(&mut self, exists: bool)
        requires
            match old(self).phase {
                LocatePhase::Primary(u) => u.active,
                LocatePhase::Fallback(u) => u.active,
                _ => false,
            },
        ensures
            final(self).marker == old(self).marker,
            match old(self).phase {
                LocatePhase::Primary(u) => {
                    if exists {
                        final(self).phase matches LocatePhase::Finished(Some(d)) && path_eq(
                            d,
                            u.dir,
                        )
                    } else if u.dir.parts@.len() > 0 {
                        final(self).phase matches LocatePhase::Primary(v) && v.active
                            && v.target == u.target && v.dir.absolute == u.dir.absolute
                            && parts_view(v.dir.parts@) == parts_view(u.dir.parts@.drop_last())
                    } else {
                        final(self).phase == LocatePhase::AwaitFallback
                    }
                },
                LocatePhase::Fallback(u) => {
                    if exists {
                        final(self).phase matches LocatePhase::Finished(Some(d)) && path_eq(
                            d,
                            u.dir,
                        )
                    } else if u.dir.parts@.len() > 0 {
                        final(self).phase matches LocatePhase::Fallback(v) && v.active
                            && v.target == u.target && v.dir.absolute == u.dir.absolute
                            && parts_view(v.dir.parts@) == parts_view(u.dir.parts@.drop_last())
                    } else {
                        final(self).phase == LocatePhase::Finished(None::<FsPath>)
                    }
                },
                _ => false,
            },
    {
        let mut found: Option<FsPath> = None;
        let mut exhausted = false;
        let mut in_primary = false;
        match &mut self.phase {
            LocatePhase::Primary(u) => {
                in_primary = true;
                match u.advance(exists) {
                    UpwardOutcome::Found(d) => {
                        found = Some(d);
                    },
                    UpwardOutcome::Continue => {},
                    UpwardOutcome::Exhausted => {
                        exhausted = true;
                    },
                }
            },
            LocatePhase::Fallback(u) => {
                match u.advance(exists) {
                    UpwardOutcome::Found(d) => {
                        found = Some(d);
                    },
                    UpwardOutcome::Continue => {},
                    UpwardOutcome::Exhausted => {
                        exhausted = true;
                    },
                }
            },
            _ => {},
        }
        match found {
            Some(d) => {
                self.phase = LocatePhase::Finished(Some(d));
            },
            None => {
                if exhausted {
                    if in_primary {
                        self.phase = LocatePhase::AwaitFallback;
                    } else {
                        self.phase = LocatePhase::Finished(None);
                    }
                }
            },
        }
    }

    /// Takes the program's directory for the fallback strategy; when it
    /// could not be resolved, the search finishes empty-handed.
    pub fn on_exe_dir(&mut self, exe_dir: Option<FsPath>)
        requires
            old(self).phase == LocatePhase::AwaitFallback,
        ensures
            final(self).marker == old(self).marker,
            match exe_dir {
                Some(d) => final(self).phase matches LocatePhase::Fallback(u) && u.active
                    && u.dir == d && u.target == old(self).marker,
                None => final(self).phase == LocatePhase::Finished(None::<FsPath>),
            },
    {
        match exe_dir {
            Some(d) => {
                let u = UpwardSearch::new(d, self.marker.clone());
                self.phase = LocatePhase::Fallback(u);
            },
            None => {
                self.phase = LocatePhase::Finished(None);
            },
        }
    }
}

/// What the data-file search asks of the embedding program next.
pub enum DataAction {
    /// Probe this file for existence and answer through `on_exists`.
    ProbeFile(FsPath),
    /// The search is over, with the data file it found, if any.
    Done(Option<FsPath>),
}

/// The phase the data-file search is in.
pub enum DataPhase {
    /// Climbing from the `data` subdirectory of the main directory.
    Primary(UpwardSearch),
    /// Climbing from the main directory itself.
    Fallback(UpwardSearch),
    /// Finished, with the data file, if one was found.
    Finished(Option<FsPath>),
}

/// The search for the data file: first an upward climb from the `data`
/// subdirectory of the main directory, then one from the main directory.
pub struct DataFileSearch {
    /// The main directory, kept for the fallback climb.
    pub main: FsPath,
    /// The data file name searched for.
    pub target: String,
    /// The current phase.
    pub phase: DataPhase,
}

impl DataFileSearch {
    /// Starts the search under `main_dir` for a file named `file`.
    pub fn new(main_dir: FsPath, file: String) -> (s: DataFileSearch)
        ensures
            s.main == main_dir,
            s.target == file,
            (s.phase matches DataPhase::Primary(u) && u.active && u.target == file && u.dir.absolute
                == main_dir.absolute && parts_view(u.dir.parts@) == parts_view(
                main_dir.parts@,
            ).push("data"@)),
    {
        let start = main_dir.join("data");
        let u = UpwardSearch::new(start, file.clone());
        DataFileSearch { main: main_dir, target: file, phase: DataPhase::Primary(u) }
    }

    /// What to do next.
    pub fn action(&self) -> (a: DataAction)
        ensures
            match self.phase {
                DataPhase::Primary(u) => u.active ==> (a matches DataAction::ProbeFile(p)
                    && p.absolute == u.dir.absolute && parts_view(p.parts@) == parts_view(
                    u.dir.parts@,
                ).push(u.target@)),
                DataPhase::Fallback(u) => u.active ==> (a matches DataAction::ProbeFile(p)
                    && p.absolute == u.dir.absolute && parts_view(p.parts@) == parts_view(
                    u.dir.parts@,
                ).push(u.target@)),
                DataPhase::Finished(o) => match o {
                    Some(f) => a matches DataAction::Done(Some(e)) && path_eq(e, f),
                    None => a == DataAction::Done(None::<FsPath>),
                },
            },
    {
        match &self.phase {
            DataPhase::Primary(u) => {
                if u.active {
                    DataAction::ProbeFile(u.probe())
                } else {
                    DataAction::Done(None)
                }
            },
            DataPhase::Fallback(u) => {
                if u.active {
                    DataAction::ProbeFile(u.probe())
                } else {
                    DataAction::Done(None)
                }
            },
            DataPhase::Finished(o) => {
                match o {
                    Some(f) => DataAction::Done(Some(f.clone_path())),
                    None => DataAction::Done(None),
                }
            },
        }
    }

    /// Takes the answer of the probe the last action asked for. A hit
    /// finishes with the found file; an exhausted first climb restarts
    /// from the main directory; an exhausted second climb finishes
    /// empty-handed.
    pub fn on_exists(&mut self, exists: bool)
        requires
            match old(self).phase {
                DataPhase::Primary(u) => u.active,
                DataPhase::Fallback(u) => u.active,
                _ => false,
            },
        ensures
            final(self).main == old(self).main,
            final(self).target == old(self).target,
            match old(self).phase {
                DataPhase::Primary(u) => {
                    if exists {
                        (final(self).phase matches DataPhase::Finished(Some(f)) && f.absolute
                            == u.dir.absolute && parts_view(f.parts@) == parts_view(
                            u.dir.parts@,
                        ).push(old(self).target@))
                    } else if u.dir.parts@.len() > 0 {
                        (final(self).phase matches DataPhase::Primary(v) && v.active && v.target
                            == u.target && v.dir.absolute == u.dir.absolute && parts_view(
                            v.dir.parts@,
                        ) == parts_view(u.dir.parts@.drop_last()))
                    } else {
                        (final(self).phase matches DataPhase::Fallback(v) && v.active && v.target@
                            == old(self).target@ && path_eq(v.dir, old(self).main))
                    }
                },
                DataPhase::Fallback(u) => {
                    if exists {
                        (final(self).phase matches DataPhase::Finished(Some(f)) && f.absolute
                            == u.dir.absolute && parts_view(f.parts@) == parts_view(
                            u.dir.parts@,
                        ).push(old(self).target@))
                    } else if u.dir.parts@.len() > 0 {
                        (final(self).phase matches DataPhase::Fallback(v) && v.active && v.target
                            == u.target && v.dir.absolute == u.dir.absolute && parts_view(
                            v.dir.parts@,
                        ) == parts_view(u.dir.parts@.drop_last()))
                    } else {
                        final(self).phase == DataPhase::Finished(None::<FsPath>)
                    }
                },
                _ => false,
            },
    {
        let mut found: Option<FsPath> = None;
        let mut exhausted = false;
        let mut in_primary = false;
        let ghost pre = *self;
        match &mut self.phase {
            DataPhase::Primary(u) => {
                in_primary = true;
                match u.advance(exists) {
                    UpwardOutcome::Found(d) => {
                        found = Some(d);
                    },
                    UpwardOutcome::Continue => {},
                    UpwardOutcome::Exhausted => {
                        exhausted = true;
                    },
                }
            },
            DataPhase::Fallback(u) => {
                match u.advance(exists) {
                    UpwardOutcome::Found(d) => {
                        found = Some(d);
                    },
                    UpwardOutcome::Continue => {},
                    UpwardOutcome::Exhausted => {
                        exhausted = true;
                    },
                }
            },
            _ => {},
        }
        match found {
            Some(d) => {
                let f = d.join(self.target.as_str());
                self.phase = DataPhase::Finished(Some(f));
            },
            None => {
                if exhausted {
                    if in_primary {
                        let start = self.main.clone_path();
                        let u = UpwardSearch::new(start, self.target.clone());
                        self.phase = DataPhase::Fallback(u);
                    } else {
                        self.phase = DataPhase::Finished(None);
                    }
                }
            },
        }
    }
}

/// The conventional name of the persisted data file.
pub fn default_data_file_name() -> (r: String)
    ensures
        r@ == "building.yaml"@,
{
    "building.yaml".to_owned()
}

/// The conventional name of the marker file that anchors discovery.
pub fn default_marker_name() -> (r: String)
    ensures
        r@ == "Cargo.toml"@,
{
    "Cargo.toml".to_owned()
}

/// How a building is to be written: the file to write, and the directory
/// to create first, if any.
pub struct SavePlan {
    pub target: FsPath,
    pub dir_to_create: Option<FsPath>,
}

/// Composes the place a building is saved to. An absolute path is
/// written as it is. A relative path needs the main directory: without
/// one the save fails with `NotFound`; with one, the file goes under the
/// `data` subdirectory of the main directory, whose directories are
/// created as needed.
pub fn save_plan(file: &FsPath, main_dir: Option<&FsPath>) -> (r: Result<SavePlan, StoreError>)
    requires
        file.parts@.len() > 0,
    ensures
        file.absolute ==> (r matches Ok(p) && path_eq(p.target, *file) && p.dir_to_create
            is None),
        !file.absolute ==> match main_dir {
            None => r == Err::<SavePlan, StoreError>(StoreError::NotFound),
            Some(d) => (r matches Ok(p) && p.target.absolute == d.absolute && parts_view(
                p.target.parts@,
            ) == parts_view(d.parts@).push("data"@) + parts_view(file.parts@) && (
            p.dir_to_create matches Some(c) && c.absolute == d.absolute && parts_view(c.parts@)
                == (parts_view(d.parts@).push("data"@) + parts_view(file.parts@)).drop_last())),
        },
{
    if path_is_absolute(file) {
        return Ok(SavePlan { target: file.clone_path(), dir_to_create: None });
    }
    let d = match main_dir {
        Some(d) => d,
        None => {
            return Err(StoreError::NotFound);
        },
    };
    let mut target = d.join("data");
    let mut i: usize = 0;
    while i < file.parts.len()
        invariant
            i <= file.parts@.len(),
            target.absolute == d.absolute,
            parts_view(target.parts@) == parts_view(d.parts@).push("data"@) + parts_view(
                file.parts@.take(i as int),
            ),
        decreases file.parts@.len() - i,
    {
        let next = target.join(file.parts[i].as_str());
        proof {
            assert(parts_view(next.parts@) =~~= parts_view(d.parts@).push("data"@) + parts_view(
                file.parts@.take(i + 1),
            ));
        }
        target = next;
        i += 1;
    }
    proof {
        assert(file.parts@.take(file.parts@.len() as int) =~= file.parts@);
    }
    let dir = match target.parent() {
        Some(p) => p,
        None => {
            proof {
                assert(parts_view(target.parts@).len() > 0);
            }
            return Err(StoreError::NotFound);
        },
    };
    Ok(SavePlan { target, dir_to_create: Some(dir) })
}

} // verus!
