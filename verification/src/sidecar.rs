//! The Python sidecar services and their bookkeeping.

use vstd::prelude::*;
use crate::text::{decimal, decimal_u128, push_str, str_equal};
use crate::paths::{join_path, path_join};

verus! {

/// One of the AI sidecar services.
#[derive(Debug, Clone, Copy, PartialEq, Eq, Structural)]
pub enum SidecarId {
    Voice,
    AudioFx,
    SongGen,
    StemSep,
    VideoAi,
}

/// The kebab-case name of a sidecar.
pub open spec fn spec_sidecar_name(id: SidecarId) -> Seq<char> {
    match id {
        SidecarId::Voice => "voice"@,
        SidecarId::AudioFx => "audio-fx"@,
        SidecarId::SongGen => "song-gen"@,
        SidecarId::StemSep => "stem-sep"@,
        SidecarId::VideoAi => "video-ai"@,
    }
}

/// The local TCP port a sidecar listens on.
pub open spec fn spec_sidecar_port(id: SidecarId) -> u16 {
    match id {
        SidecarId::Voice => 8001,
        SidecarId::AudioFx => 8002,
        SidecarId::SongGen => 8003,
        SidecarId::StemSep => 8004,
        SidecarId::VideoAi => 8005,
    }
}

impl SidecarId {
    /// The local TCP port the sidecar listens on.
    pub fn port(&self) -> (p: u16)
        ensures
            p == spec_sidecar_port(*self),
    {
        match self {
            SidecarId::Voice => 8001,
            SidecarId::AudioFx => 8002,
            SidecarId::SongGen => 8003,
            SidecarId::StemSep => 8004,
            SidecarId::VideoAi => 8005,
        }
    }

    /// The directory of the sidecar under the sidecars directory.
    pub fn dir_name(&self) -> (s: &'static str)
        ensures
            s@ == spec_sidecar_name(*self),
    {
        match self {
            SidecarId::Voice => "voice",
            SidecarId::AudioFx => "audio-fx",
            SidecarId::SongGen => "song-gen",
            SidecarId::StemSep => "stem-sep",
            SidecarId::VideoAi => "video-ai",
        }
    }

    /// The kebab-case name of the sidecar.
    pub fn as_str(&self) -> (s: &'static str)
        ensures
            s@ == spec_sidecar_name(*self),
    {
        match self {
            SidecarId::Voice => "voice",
            SidecarId::AudioFx => "audio-fx",
            SidecarId::SongGen => "song-gen",
            SidecarId::StemSep => "stem-sep",
            SidecarId::VideoAi => "video-ai",
        }
    }
}

/// The sidecar whose kebab-case name is `s`.
pub open spec fn sidecar_named(s: Seq<char>) -> Option<SidecarId> {
    if s == "voice"@ {
        Some(SidecarId::Voice)
    } else if s == "audio-fx"@ {
        Some(SidecarId::AudioFx)
    } else if s == "song-gen"@ {
        Some(SidecarId::SongGen)
    } else if s == "stem-sep"@ {
        Some(SidecarId::StemSep)
    } else if s == "video-ai"@ {
        Some(SidecarId::VideoAi)
    } else {
        None
    }
}

/// Reads a sidecar id from its kebab-case name; any other name is refused
/// with `Unknown sidecar id: <name>`.
pub fn parse_sidecar_id(s: &str) -> (r: Result<SidecarId, String>)
    ensures
        match sidecar_named(s@) {
            Some(id) => r == Ok::<SidecarId, String>(id),
            None => r matches Err(msg) && msg@ == "Unknown sidecar id: "@ + s@,
        },
{
    if str_equal(s, "voice") {
        Ok(SidecarId::Voice)
    } else if str_equal(s, "audio-fx") {
        Ok(SidecarId::AudioFx)
    } else if str_equal(s, "song-gen") {
        Ok(SidecarId::SongGen)
    } else if str_equal(s, "stem-sep") {
        Ok(SidecarId::StemSep)
    } else if str_equal(s, "video-ai") {
        Ok(SidecarId::VideoAi)
    } else {
        let mut msg = String::from_str("Unknown sidecar id: ");
        push_str(&mut msg, s);
        Err(msg)
    }
}

/// Reading a sidecar's name back gives the sidecar.
pub proof fn lemma_sidecar_name_round_trip(id: SidecarId)
    ensures
        sidecar_named(spec_sidecar_name(id)) == Some(id),
{
    reveal_strlit("voice");
    reveal_strlit("audio-fx");
    reveal_strlit("song-gen");
    reveal_strlit("stem-sep");
    reveal_strlit("video-ai");
    assert("audio-fx"@.len() != "voice"@.len());
    assert("song-gen"@.len() != "voice"@.len());
    assert("stem-sep"@.len() != "voice"@.len());
    assert("song-gen"@[0] != "audio-fx"@[0]);
    assert("stem-sep"@[0] != "audio-fx"@[0]);
    assert("stem-sep"@[1] != "song-gen"@[1]);
    assert("video-ai"@.len() != "voice"@.len());
    assert("video-ai"@[0] != "audio-fx"@[0]);
    assert("video-ai"@[0] != "song-gen"@[0]);
    assert("video-ai"@[0] != "stem-sep"@[0]);
}

/// A name that reads as a sidecar is that sidecar's name.
pub proof fn lemma_sidecar_named_is_name(s: Seq<char>)
    ensures
        sidecar_named(s) matches Some(id) ==> spec_sidecar_name(id) == s,
{
}

/// Distinct sidecars have distinct names and distinct ports.
pub proof fn lemma_sidecars_distinct(a: SidecarId, b: SidecarId)
    ensures
        a != b ==> spec_sidecar_name(a) != spec_sidecar_name(b),
        a != b ==> spec_sidecar_port(a) != spec_sidecar_port(b),
{
    lemma_sidecar_name_round_trip(a);
    lemma_sidecar_name_round_trip(b);
}

/// The state of a sidecar as reported to the frontend.
#[derive(Debug, Clone, Copy, PartialEq, Eq, Structural)]
pub enum SidecarStatus {
    Stopped,
    Starting,
    Running,
    Degraded,
    Error,
}

/// The lowercase name of a status.
pub open spec fn spec_status_name(s: SidecarStatus) -> Seq<char> {
    match s {
        SidecarStatus::Running => "running"@,
        SidecarStatus::Starting => "starting"@,
        SidecarStatus::Degraded => "degraded"@,
        SidecarStatus::Error => "error"@,
        SidecarStatus::Stopped => "stopped"@,
    }
}

impl SidecarStatus {
    /// The lowercase name of the status, as the frontend receives it.
    pub fn as_str(&self) -> (s: &'static str)
        ensures
            s@ == spec_status_name(*self),
    {
        match self {
            SidecarStatus::Running => "running",
            SidecarStatus::Starting => "starting",
            SidecarStatus::Degraded => "degraded",
            SidecarStatus::Error => "error",
            SidecarStatus::Stopped => "stopped",
        }
    }
}


// ---------------------------------------------------------------------------
// The process table

/// A launched sidecar: the handle of its process, its port and its status.
pub struct SidecarProcess<P> {
    pub handle: P,
    pub port: u16,
    pub status: SidecarStatus,
}

/// The sidecars in the order in which they are reported.
pub open spec fn sidecar_order() -> Seq<SidecarId> {
    seq![SidecarId::Voice, SidecarId::AudioFx, SidecarId::SongGen, SidecarId::StemSep, SidecarId::VideoAi]
}

/// Keeps track of the sidecar processes that were launched, at most one
/// per sidecar, together with where the sidecars and the models live.
/// `P` is the handle of a running process.
pub struct ProcessManager<P> {
    voice: Option<SidecarProcess<P>>,
    audio_fx: Option<SidecarProcess<P>>,
    song_gen: Option<SidecarProcess<P>>,
    stem_sep: Option<SidecarProcess<P>>,
    video_ai: Option<SidecarProcess<P>>,
    sidecars_dir: String,
    model_dir: String,
}

/// How to launch a sidecar: its port, its directory, the interpreter of
/// its virtual environment, its entry script and the environment variables
/// that the process gets.
pub struct LaunchPlan {
    pub port: u16,
    pub sidecar_dir: String,
    pub venv_python: String,
    pub main_py: String,
    pub env: Vec<(String, String)>,
}

/// What starting a sidecar takes.
pub enum StartPlan {
    /// The sidecar is already starting or running: nothing to do.
    AlreadyActive,
    /// The sidecar has to be launched.
    Launch(LaunchPlan),
}

/// Whether a process counts as started: it is starting or running.
pub open spec fn is_active_status(s: SidecarStatus) -> bool {
    s == SidecarStatus::Running || s == SidecarStatus::Starting
}

/// The directory of a sidecar under `sidecars_dir`.
pub open spec fn sidecar_dir_of(sidecars_dir: Seq<char>, id: SidecarId) -> Seq<char> {
    join_path(sidecars_dir, spec_sidecar_name(id))
}

/// Whether `plan` launches sidecar `id` from `sidecars_dir` with models in `model_dir`.
pub open spec fn is_launch_plan(plan: LaunchPlan, id: SidecarId, sidecars_dir: Seq<char>, model_dir: Seq<char>) -> bool {
    let dir = sidecar_dir_of(sidecars_dir, id);
    &&& plan.port == spec_sidecar_port(id)
    &&& plan.sidecar_dir@ == dir
    &&& plan.venv_python@ == join_path(dir, "venv/bin/python"@)
    &&& plan.main_py@ == join_path(dir, "main.py"@)
    &&& plan.env@.len() == 3
    &&& plan.env@[0].0@ == "PORT"@ && plan.env@[0].1@ == decimal(spec_sidecar_port(id) as nat)
    &&& plan.env@[1].0@ == "MODEL_DIR"@ && plan.env@[1].1@ == model_dir
    &&& plan.env@[2].0@ == "HF_HUB_OFFLINE"@ && plan.env@[2].1@ == "0"@
}

/// The status row of sidecar `id`, if it has a process.
pub open spec fn status_row<P>(p: Option<SidecarProcess<P>>, id: SidecarId) -> Seq<(Seq<char>, Seq<char>)> {
    match p {
        Some(proc) => seq![(spec_sidecar_name(id), spec_status_name(proc.status))],
        None => Seq::empty(),
    }
}

/// The handle of `p`, if any, as a sequence.
pub open spec fn handle_row<P>(p: Option<SidecarProcess<P>>) -> Seq<P> {
    match p {
        Some(proc) => seq![proc.handle],
        None => Seq::empty(),
    }
}

impl<P> ProcessManager<P> {
    /// The process recorded for sidecar `id`.
    pub closed spec fn process(&self, id: SidecarId) -> Option<SidecarProcess<P>> {
        match id {
            SidecarId::Voice => self.voice,
            SidecarId::AudioFx => self.audio_fx,
            SidecarId::SongGen => self.song_gen,
            SidecarId::StemSep => self.stem_sep,
            SidecarId::VideoAi => self.video_ai,
        }
    }

    pub closed spec fn spec_sidecars_dir(&self) -> Seq<char> {
        self.sidecars_dir@
    }

    pub closed spec fn spec_model_dir(&self) -> Seq<char> {
        self.model_dir@
    }

    /// This manager with `v` recorded for sidecar `id`.
    pub closed spec fn with_process(self, id: SidecarId, v: Option<SidecarProcess<P>>) -> Self {
        match id {
            SidecarId::Voice => ProcessManager { voice: v, ..self },
            SidecarId::AudioFx => ProcessManager { audio_fx: v, ..self },
            SidecarId::SongGen => ProcessManager { song_gen: v, ..self },
            SidecarId::StemSep => ProcessManager { stem_sep: v, ..self },
            SidecarId::VideoAi => ProcessManager { video_ai: v, ..self },
        }
    }

    /// This manager once sidecar `id` has been launched as `handle`.
    pub open spec fn after_start(self, id: SidecarId, handle: P) -> Self {
        self.with_process(
            id,
            Some(SidecarProcess { handle, port: spec_sidecar_port(id), status: SidecarStatus::Starting }),
        )
    }

    /// This manager once sidecar `id` has been stopped.
    pub open spec fn after_stop(self, id: SidecarId) -> Self {
        self.with_process(id, None)
    }

    /// Recording a process for one sidecar changes that sidecar only.
    pub proof fn lemma_with_process(self, id: SidecarId, v: Option<SidecarProcess<P>>)
        ensures
            self.with_process(id, v).process(id) == v,
            forall|other: SidecarId| other != id ==> #[trigger] self.with_process(id, v).process(other) == self.process(other),
            self.with_process(id, v).spec_sidecars_dir() == self.spec_sidecars_dir(),
            self.with_process(id, v).spec_model_dir() == self.spec_model_dir(),
    {
    }

    /// The status rows of the sidecars `ids` that have a process, in that order.
    pub open spec fn rows_of(&self, ids: Seq<SidecarId>) -> Seq<(Seq<char>, Seq<char>)>
        decreases ids.len(),
    {
        if ids.len() == 0 {
            Seq::empty()
        } else {
            self.rows_of(ids.drop_last()) + status_row(self.process(ids.last()), ids.last())
        }
    }

    /// The status rows of all sidecars that have a process, in sidecar order.
    pub open spec fn status_rows(&self) -> Seq<(Seq<char>, Seq<char>)> {
        self.rows_of(sidecar_order())
    }

    /// The handles of the processes of sidecars `ids`, in that order.
    pub open spec fn handles_of(&self, ids: Seq<SidecarId>) -> Seq<P>
        decreases ids.len(),
    {
        if ids.len() == 0 {
            Seq::empty()
        } else {
            self.handles_of(ids.drop_last()) + handle_row(self.process(ids.last()))
        }
    }

    /// The handles of all recorded processes, in sidecar order.
    pub open spec fn handles(&self) -> Seq<P> {
        self.handles_of(sidecar_order())
    }

    /// A manager with no process, for sidecars under `sidecars_dir` and models under `model_dir`.
    pub fn new(sidecars_dir: String, model_dir: String) -> (pm: Self)
        ensures
            forall|id: SidecarId| pm.process(id) is None,
            pm.spec_sidecars_dir() == sidecars_dir@,
            pm.spec_model_dir() == model_dir@,
    {
        ProcessManager {
            voice: None,
            audio_fx: None,
            song_gen: None,
            stem_sep: None,
            video_ai: None,
            sidecars_dir,
            model_dir,
        }
    }

    /// The directory the sidecars live in.
    pub fn sidecars_dir(&self) -> (r: &String)
        ensures
            r@ == self.spec_sidecars_dir(),
    {
        &self.sidecars_dir
    }

    /// The directory the models are stored in.
    pub fn model_dir(&self) -> (r: &String)
        ensures
            r@ == self.spec_model_dir(),
    {
        &self.model_dir
    }

    fn slot(&self, id: &SidecarId) -> (r: &Option<SidecarProcess<P>>)
        ensures
            *r == self.process(*id),
    {
        match id {
            SidecarId::Voice => &self.voice,
            SidecarId::AudioFx => &self.audio_fx,
            SidecarId::SongGen => &self.song_gen,
            SidecarId::StemSep => &self.stem_sep,
            SidecarId::VideoAi => &self.video_ai,
        }
    }

    /// Replaces the record of sidecar `id`, handing back the one it had.
    fn replace_slot(&mut self, id: &SidecarId, v: Option<SidecarProcess<P>>) -> (prev: Option<
        SidecarProcess<P>,
    >)
        ensures
            prev == old(self).process(*id),
            *final(self) == old(self).with_process(*id, v),
            final(self).process(*id) == v,
            forall|other: SidecarId| other != *id ==> final(self).process(other) == old(self).process(other),
            final(self).spec_sidecars_dir() == old(self).spec_sidecars_dir(),
            final(self).spec_model_dir() == old(self).spec_model_dir(),
    {
        let mut v = v;
        match id {
            SidecarId::Voice => std::mem::swap(&mut self.voice, &mut v),
            SidecarId::AudioFx => std::mem::swap(&mut self.audio_fx, &mut v),
            SidecarId::SongGen => std::mem::swap(&mut self.song_gen, &mut v),
            SidecarId::StemSep => std::mem::swap(&mut self.stem_sep, &mut v),
            SidecarId::VideoAi => std::mem::swap(&mut self.video_ai, &mut v),
        }
        v
    }

    /// Whether sidecar `id` is starting or running.
    pub fn is_active(&self, id: &SidecarId) -> (r: bool)
        ensures
            r == (self.process(*id) matches Some(p) && is_active_status(p.status)),
    {
        match self.slot(id) {
            Some(p) => p.status == SidecarStatus::Running || p.status == SidecarStatus::Starting,
            None => false,
        }
    }

    /// What starting sidecar `id` takes: nothing when it is already starting
    /// or running; otherwise a launch of `<sidecars_dir>/<name>/main.py` with
    /// the sidecar's port, the model directory, and downloads allowed.
    pub fn plan_start(&self, id: &SidecarId) -> (plan: StartPlan)
        ensures
            (self.process(*id) matches Some(p) && is_active_status(p.status)) <==> plan is AlreadyActive,
            plan matches StartPlan::Launch(l) ==> is_launch_plan(
                l,
                *id,
                self.spec_sidecars_dir(),
                self.spec_model_dir(),
            ),
    {
        if self.is_active(id) {
            return StartPlan::AlreadyActive;
        }
        let sidecar_dir = path_join(self.sidecars_dir.as_str(), id.dir_name());
        let venv_python = path_join(sidecar_dir.as_str(), "venv/bin/python");
        let main_py = path_join(sidecar_dir.as_str(), "main.py");
        let port = id.port();
        let mut env: Vec<(String, String)> = Vec::new();
        env.push((String::from_str("PORT"), decimal_u128(port as u128)));
        env.push((String::from_str("MODEL_DIR"), self.model_dir.clone()));
        env.push((String::from_str("HF_HUB_OFFLINE"), String::from_str("0")));
        StartPlan::Launch(LaunchPlan { port, sidecar_dir, venv_python, main_py, env })
    }

    /// Records that sidecar `id` was launched as `handle`: it is now starting
    /// on its port.  The handle of a process recorded before for it, if any,
    /// is handed back.
    pub fn mark_started(&mut self, id: &SidecarId, handle: P) -> (prev: Option<P>)
        ensures
            *final(self) == old(self).after_start(*id, handle),
            final(self).process(*id) == Some(
                SidecarProcess { handle, port: spec_sidecar_port(*id), status: SidecarStatus::Starting },
            ),
            forall|other: SidecarId| other != *id ==> final(self).process(other) == old(self).process(other),
            prev == (match old(self).process(*id) {
                Some(p) => Some(p.handle),
                None => None::<P>,
            }),
            final(self).spec_sidecars_dir() == old(self).spec_sidecars_dir(),
            final(self).spec_model_dir() == old(self).spec_model_dir(),
    {
        let port = id.port();
        let prev = self.replace_slot(
            id,
            Some(SidecarProcess { handle, port, status: SidecarStatus::Starting }),
        );
        match prev {
            Some(p) => Some(p.handle),
            None => None,
        }
    }

    /// Forgets sidecar `id`, handing back the handle of its process so that
    /// it can be stopped; nothing when it has none.
    pub fn stop(&mut self, id: &SidecarId) -> (handle: Option<P>)
        ensures
            *final(self) == old(self).after_stop(*id),
            final(self).process(*id) is None,
            forall|other: SidecarId| other != *id ==> final(self).process(other) == old(self).process(other),
            handle == (match old(self).process(*id) {
                Some(p) => Some(p.handle),
                None => None::<P>,
            }),
            final(self).spec_sidecars_dir() == old(self).spec_sidecars_dir(),
            final(self).spec_model_dir() == old(self).spec_model_dir(),
    {
        match self.replace_slot(id, None) {
            Some(p) => Some(p.handle),
            None => None,
        }
    }

    /// The status of every sidecar that has a process, keyed by its name.
    pub fn statuses(&self) -> (rows: Vec<(String, String)>)
        ensures
            rows@.len() == self.status_rows().len(),
            forall|i: int|
                0 <= i < rows@.len() ==> (rows@[i].0@, rows@[i].1@) == #[trigger] self.status_rows()[i],
    {
        let mut rows: Vec<(String, String)> = Vec::new();
        let ids = [SidecarId::Voice, SidecarId::AudioFx, SidecarId::SongGen, SidecarId::StemSep, SidecarId::VideoAi];
        let mut k: usize = 0;
        while k < 5
            invariant
                k <= 5,
                ids@ == sidecar_order(),
                rows@.len() == self.rows_of(ids@.take(k as int)).len(),
                forall|i: int|
                    0 <= i < rows@.len() ==> (rows@[i].0@, rows@[i].1@) == #[trigger] self.rows_of(ids@.take(k as int))[i],
            decreases 5 - k,
        {
            let id = ids[k];
            let ghost before = self.rows_of(ids@.take(k as int));
            assert(ids@.take(k + 1).drop_last() =~= ids@.take(k as int));
            assert(ids@.take(k + 1).last() == id);
            let ghost after = self.rows_of(ids@.take(k + 1));
            assert(after == before + status_row(self.process(id), id));
            match self.slot(&id) {
                Some(p) => {
                    let name = String::from_str(id.as_str());
                    let status = String::from_str(p.status.as_str());
                    rows.push((name, status));
                    proof {
                        assert(after[after.len() - 1] == (spec_sidecar_name(id), spec_status_name(p.status)));
                        assert forall|i: int| 0 <= i < rows@.len() implies (rows@[i].0@, rows@[i].1@) == #[trigger] after[i] by {
                            if i < before.len() {
                                assert(after[i] == before[i]);
                            }
                        }
                    }
                },
                None => {
                    proof {
                        assert(after =~= before);
                    }
                },
            }
            k = k + 1;
        }
        assert(ids@.take(5) =~= sidecar_order());
        rows
    }

    /// Forgets every sidecar, handing back the handles of their processes
    /// in sidecar order.
    pub fn drain(&mut self) -> (handles: Vec<P>)
        ensures
            handles@ == old(self).handles(),
            forall|id: SidecarId| final(self).process(id) is None,
            final(self).spec_sidecars_dir() == old(self).spec_sidecars_dir(),
            final(self).spec_model_dir() == old(self).spec_model_dir(),
    {
        let mut handles: Vec<P> = Vec::new();
        let ghost start = *self;
        let ids = [SidecarId::Voice, SidecarId::AudioFx, SidecarId::SongGen, SidecarId::StemSep, SidecarId::VideoAi];
        let mut k: usize = 0;
        while k < 5
            invariant
                k <= 5,
                ids@ == sidecar_order(),
                start == *old(self),
                handles@ == start.handles_of(ids@.take(k as int)),
                forall|j: int| 0 <= j < k ==> self.process(#[trigger] ids@[j]) is None,
                forall|j: int| k <= j < 5 ==> self.process(#[trigger] ids@[j]) == start.process(ids@[j]),
                self.spec_sidecars_dir() == start.spec_sidecars_dir(),
                self.spec_model_dir() == start.spec_model_dir(),
            decreases 5 - k,
        {
            let id = ids[k];
            assert(ids@.take(k + 1).drop_last() =~= ids@.take(k as int));
            assert(ids@.take(k + 1).last() == id);
            let ghost before = handles@;
            if let Some(p) = self.replace_slot(&id, None) {
                handles.push(p.handle);
            }
            assert(handles@ =~= before + handle_row(start.process(id)));
            k = k + 1;
        }
        assert(ids@.take(5) =~= sidecar_order());
        assert forall|id: SidecarId| self.process(id) is None by {
            match id {
                SidecarId::Voice => assert(self.process(ids@[0]) is None),
                SidecarId::AudioFx => assert(self.process(ids@[1]) is None),
                SidecarId::SongGen => assert(self.process(ids@[2]) is None),
                SidecarId::StemSep => assert(self.process(ids@[3]) is None),
                SidecarId::VideoAi => assert(self.process(ids@[4]) is None),
            }
        }
        handles
    }
}

/// The interpreter that runs a sidecar: the one of its virtual environment
/// when that exists, else `python3` from the search path.
pub fn python_program(plan: &LaunchPlan, venv_exists: bool) -> (p: String)
    ensures
        p@ == (if venv_exists { plan.venv_python@ } else { "python3"@ }),
{
    if venv_exists {
        plan.venv_python.clone()
    } else {
        String::from_str("python3")
    }
}


// ---------------------------------------------------------------------------
// Laws of the process table

/// The rows of sidecars `ids`: every row is that of a sidecar among `ids`
/// that has a process, with its name and status.
proof fn lemma_rows_of_names<P>(pm: ProcessManager<P>, ids: Seq<SidecarId>, i: int)
    requires
        0 <= i < pm.rows_of(ids).len(),
    ensures
        exists|k: SidecarId| ids.contains(k) && pm.process(k) is Some && pm.rows_of(ids)[i].0 == spec_sidecar_name(k)
            && pm.rows_of(ids)[i].1 == spec_status_name(pm.process(k)->0.status),
    decreases ids.len(),
{
    let pre = pm.rows_of(ids.drop_last());
    let last = ids.last();
    if i < pre.len() {
        lemma_rows_of_names(pm, ids.drop_last(), i);
        let k = choose|k: SidecarId| ids.drop_last().contains(k) && pm.process(k) is Some && pre[i].0 == spec_sidecar_name(k)
            && pre[i].1 == spec_status_name(pm.process(k)->0.status);
        let q = choose|q: int| 0 <= q < ids.drop_last().len() && ids.drop_last()[q] == k;
        assert(ids[q] == k);
        assert(pm.rows_of(ids)[i] == pre[i]);
    } else {
        assert(pm.rows_of(ids)[i] == status_row(pm.process(last), last)[i - pre.len()]);
        assert(ids[ids.len() - 1] == last);
    }
}

/// Rows of sidecars listed without repetition have distinct names.
proof fn lemma_rows_of_distinct<P>(pm: ProcessManager<P>, ids: Seq<SidecarId>)
    requires
        ids.no_duplicates(),
    ensures
        forall|i: int, j: int|
            0 <= i < j < pm.rows_of(ids).len() ==> (#[trigger] pm.rows_of(ids)[i]).0 != (#[trigger] pm.rows_of(ids)[j]).0,
    decreases ids.len(),
{
    if ids.len() > 0 {
        let pre_ids = ids.drop_last();
        let last = ids.last();
        assert(pre_ids.no_duplicates());
        lemma_rows_of_distinct(pm, pre_ids);
        let pre = pm.rows_of(pre_ids);
        let rows = pm.rows_of(ids);
        assert forall|i: int, j: int| 0 <= i < j < rows.len() implies (#[trigger] rows[i]).0 != (#[trigger] rows[j]).0 by {
            if j < pre.len() {
                assert(rows[i] == pre[i] && rows[j] == pre[j]);
            } else {
                assert(rows[i] == pre[i]);
                assert(rows[j] == status_row(pm.process(last), last)[j - pre.len()]);
                lemma_rows_of_names(pm, pre_ids, i);
                let k = choose|k: SidecarId| pre_ids.contains(k) && pm.process(k) is Some && pre[i].0 == spec_sidecar_name(k)
                    && pre[i].1 == spec_status_name(pm.process(k)->0.status);
                let q = choose|q: int| 0 <= q < pre_ids.len() && pre_ids[q] == k;
                assert(ids[q] == k && ids[ids.len() - 1] == last);
                assert(k != last);
                lemma_sidecars_distinct(k, last);
            }
        }
    }
}

/// A sidecar among `ids` with a process has its row among the rows of `ids`.
proof fn lemma_rows_of_contains<P>(pm: ProcessManager<P>, ids: Seq<SidecarId>, id: SidecarId)
    requires
        ids.contains(id),
        pm.process(id) is Some,
    ensures
        pm.rows_of(ids).contains((spec_sidecar_name(id), spec_status_name(pm.process(id)->0.status))),
    decreases ids.len(),
{
    let row = (spec_sidecar_name(id), spec_status_name(pm.process(id)->0.status));
    let pre = pm.rows_of(ids.drop_last());
    if ids.last() == id {
        assert(pm.rows_of(ids)[pre.len() as int] == row);
    } else {
        let q = choose|q: int| 0 <= q < ids.len() && ids[q] == id;
        assert(ids.drop_last()[q] == id);
        lemma_rows_of_contains(pm, ids.drop_last(), id);
        let r = choose|r: int| 0 <= r < pre.len() && pre[r] == row;
        assert(pm.rows_of(ids)[r] == row);
    }
}

proof fn lemma_sidecar_order()
    ensures
        sidecar_order().no_duplicates(),
        forall|id: SidecarId| #[trigger] sidecar_order().contains(id),
{
    assert forall|id: SidecarId| #[trigger] sidecar_order().contains(id) by {
        match id {
            SidecarId::Voice => assert(sidecar_order()[0] == id),
            SidecarId::AudioFx => assert(sidecar_order()[1] == id),
            SidecarId::SongGen => assert(sidecar_order()[2] == id),
            SidecarId::StemSep => assert(sidecar_order()[3] == id),
            SidecarId::VideoAi => assert(sidecar_order()[4] == id),
        }
    }
}

/// A sidecar that has just been launched is starting, so starting it again
/// launches nothing; its status row reads `starting`.
pub proof fn lemma_start_then_active<P>(pm: ProcessManager<P>, id: SidecarId, handle: P)
    ensures
        pm.after_start(id, handle).process(id) matches Some(p) && is_active_status(p.status),
        pm.after_start(id, handle).status_rows().contains((spec_sidecar_name(id), "starting"@)),
{
    pm.lemma_with_process(id, Some(SidecarProcess { handle, port: spec_sidecar_port(id), status: SidecarStatus::Starting }));
    lemma_sidecar_order();
    assert(sidecar_order().contains(id));
    lemma_rows_of_contains(pm.after_start(id, handle), sidecar_order(), id);
}

/// A stopped sidecar has no process and no status row; starting or
/// stopping one sidecar leaves the others as they were.
pub proof fn lemma_stop_forgets<P>(pm: ProcessManager<P>, id: SidecarId, other: SidecarId, handle: P)
    ensures
        pm.after_stop(id).process(id) is None,
        forall|i: int| 0 <= i < pm.after_stop(id).status_rows().len() ==> (#[trigger] pm.after_stop(id).status_rows()[i]).0 != spec_sidecar_name(id),
        other != id ==> pm.after_stop(id).process(other) == pm.process(other),
        other != id ==> pm.after_start(id, handle).process(other) == pm.process(other),
{
    pm.lemma_with_process(id, None);
    pm.lemma_with_process(id, Some(SidecarProcess { handle, port: spec_sidecar_port(id), status: SidecarStatus::Starting }));
    let after = pm.after_stop(id);
    assert forall|i: int| 0 <= i < after.status_rows().len() implies (#[trigger] after.status_rows()[i]).0 != spec_sidecar_name(id) by {
        lemma_rows_of_names(after, sidecar_order(), i);
        let k = choose|k: SidecarId| sidecar_order().contains(k) && after.process(k) is Some && after.status_rows()[i].0 == spec_sidecar_name(k)
            && after.status_rows()[i].1 == spec_status_name(after.process(k)->0.status);
        lemma_sidecars_distinct(k, id);
    }
}

/// Every status row is that of a sidecar that has a process, with its
/// status; no sidecar has two rows.
pub proof fn lemma_status_rows_keyed<P>(pm: ProcessManager<P>)
    ensures
        forall|i: int| 0 <= i < pm.status_rows().len() ==> exists|k: SidecarId|
            pm.process(k) is Some && (#[trigger] pm.status_rows()[i]).0 == spec_sidecar_name(k)
                && pm.status_rows()[i].1 == spec_status_name(pm.process(k)->0.status),
        forall|i: int, j: int|
            0 <= i < j < pm.status_rows().len() ==> (#[trigger] pm.status_rows()[i]).0 != (#[trigger] pm.status_rows()[j]).0,
{
    assert forall|i: int| 0 <= i < pm.status_rows().len() implies exists|k: SidecarId|
        pm.process(k) is Some && (#[trigger] pm.status_rows()[i]).0 == spec_sidecar_name(k)
            && pm.status_rows()[i].1 == spec_status_name(pm.process(k)->0.status) by {
        lemma_rows_of_names(pm, sidecar_order(), i);
    }
    lemma_sidecar_order();
    lemma_rows_of_distinct(pm, sidecar_order());
}

// ---------------------------------------------------------------------------
// Health checking

/// Seconds that a sidecar has to answer its first health check.
pub const STARTUP_TIMEOUT_SECS: u64 = 30;

/// Seconds after which a single health request is given up.
pub const PROBE_TIMEOUT_SECS: u64 = 2;

/// Where the health monitoring of a sidecar is.
pub enum HealthPhase {
    /// Waiting for the first successful health check.
    Startup,
    /// The sidecar answered; checking that it keeps answering.
    Monitoring,
    /// Checking has ended.
    Finished,
}

/// What the health monitor observed.
pub enum HealthEvent {
    /// The startup deadline has passed.
    DeadlinePassed,
    /// A request to `/health` was answered with a success (`true`) or not.
    Probe(bool),
}

/// What the health monitor does next: its next phase and the status that
/// it reports to the frontend, if any.
pub struct HealthStep {
    pub next: HealthPhase,
    pub report: Option<SidecarStatus>,
}

/// The health monitor's transition.  During startup a successful check
/// reports the sidecar running and starts monitoring, a failed one waits
/// for the next, and the deadline reports an error and ends checking.
/// While monitoring, every check reports running or degraded, and the
/// first failed one ends checking.
pub open spec fn spec_health_step(phase: HealthPhase, event: HealthEvent) -> HealthStep {
    match phase {
        HealthPhase::Startup => match event {
            HealthEvent::DeadlinePassed => HealthStep { next: HealthPhase::Finished, report: Some(SidecarStatus::Error) },
            HealthEvent::Probe(true) => HealthStep { next: HealthPhase::Monitoring, report: Some(SidecarStatus::Running) },
            HealthEvent::Probe(false) => HealthStep { next: HealthPhase::Startup, report: None },
        },
        HealthPhase::Monitoring => match event {
            HealthEvent::DeadlinePassed => HealthStep { next: HealthPhase::Monitoring, report: None },
            HealthEvent::Probe(true) => HealthStep { next: HealthPhase::Monitoring, report: Some(SidecarStatus::Running) },
            HealthEvent::Probe(false) => HealthStep { next: HealthPhase::Finished, report: Some(SidecarStatus::Degraded) },
        },
        HealthPhase::Finished => HealthStep { next: HealthPhase::Finished, report: None },
    }
}

/// The next step of health monitoring (see `spec_health_step`).
pub fn health_step(phase: &HealthPhase, event: &HealthEvent) -> (step: HealthStep)
    ensures
        step == spec_health_step(*phase, *event),
{
    match phase {
        HealthPhase::Startup => match event {
            HealthEvent::DeadlinePassed => HealthStep { next: HealthPhase::Finished, report: Some(SidecarStatus::Error) },
            HealthEvent::Probe(ok) => if *ok {
                HealthStep { next: HealthPhase::Monitoring, report: Some(SidecarStatus::Running) }
            } else {
                HealthStep { next: HealthPhase::Startup, report: None }
            },
        },
        HealthPhase::Monitoring => match event {
            HealthEvent::DeadlinePassed => HealthStep { next: HealthPhase::Monitoring, report: None },
            HealthEvent::Probe(ok) => if *ok {
                HealthStep { next: HealthPhase::Monitoring, report: Some(SidecarStatus::Running) }
            } else {
                HealthStep { next: HealthPhase::Finished, report: Some(SidecarStatus::Degraded) }
            },
        },
        HealthPhase::Finished => HealthStep { next: HealthPhase::Finished, report: None },
    }
}

/// Seconds to wait before the next health check: 2 during startup, 5 while
/// monitoring, none once checking has ended.
pub fn poll_interval_secs(phase: &HealthPhase) -> (secs: Option<u64>)
    ensures
        secs == (match *phase {
            HealthPhase::Startup => Some(2u64),
            HealthPhase::Monitoring => Some(5u64),
            HealthPhase::Finished => None::<u64>,
        }),
{
    match phase {
        HealthPhase::Startup => Some(2),
        HealthPhase::Monitoring => Some(5),
        HealthPhase::Finished => None,
    }
}

/// The health endpoint of a sidecar on `port`.
pub fn health_url(port: u16) -> (url: String)
    ensures
        url@ == "http://127.0.0.1:"@ + decimal(port as nat) + "/health"@,
{
    let mut url = String::from_str("http://127.0.0.1:");
    let p = decimal_u128(port as u128);
    push_str(&mut url, p.as_str());
    push_str(&mut url, "/health");
    url
}


/// Once health checking has ended it stays ended and reports nothing.
pub proof fn lemma_health_finished_is_final(event: HealthEvent)
    ensures
        spec_health_step(HealthPhase::Finished, event) == (HealthStep { next: HealthPhase::Finished, report: None }),
{
}

/// An error is reported only when the startup deadline passes, and then
/// checking ends; a sidecar is reported degraded only while monitoring,
/// and then checking ends; monitoring is entered or kept only by a
/// successful check, which reports the sidecar running.
pub proof fn lemma_health_reports(phase: HealthPhase, event: HealthEvent)
    ensures
        spec_health_step(phase, event).report == Some(SidecarStatus::Error) <==> (phase is Startup && event is DeadlinePassed),
        spec_health_step(phase, event).report == Some(SidecarStatus::Error) ==> spec_health_step(phase, event).next is Finished,
        spec_health_step(phase, event).report == Some(SidecarStatus::Degraded) <==> (phase is Monitoring && event == HealthEvent::Probe(false)),
        spec_health_step(phase, event).report == Some(SidecarStatus::Degraded) ==> spec_health_step(phase, event).next is Finished,
        spec_health_step(phase, event).next is Monitoring && !(phase is Monitoring && event is DeadlinePassed) ==> (event
            == HealthEvent::Probe(true) && spec_health_step(phase, event).report == Some(SidecarStatus::Running)),
        spec_health_step(phase, event).report != Some(SidecarStatus::Starting)
            && spec_health_step(phase, event).report != Some(SidecarStatus::Stopped),
{
}

} // verus!
