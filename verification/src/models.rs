//! The registry of AI models that the sidecars use, and what of them is
//! found on disk.

use vstd::prelude::*;
use crate::text::{chars_of, str_equal};
use crate::paths::{join_path, path_join};

verus! {

/// Whether a model is available locally.
#[derive(Debug, Clone, Copy, PartialEq, Eq, Structural)]
pub enum ModelStatus {
    Missing,
    Downloading,
    Ready,
    Corrupt,
}

/// A model the application knows about.
#[derive(Debug, Clone)]
pub struct ModelEntry {
    pub id: String,
    pub display_name: String,
    pub hf_repo: String,
    pub filename: String,
    pub size_mb: u64,
    pub sha256: Option<String>,
    pub status: ModelStatus,
    pub local_path: Option<String>,
    pub required: bool,
}

/// The registry: the directory models are stored in and the known models,
/// at most one per id, with what the disk said of each model's file at
/// the last scan.
pub struct ModelManager {
    pub model_dir: String,
    pub models: Vec<ModelEntry>,
    pub last_scan: Vec<PathProbe>,
}

/// Where the file of model `e` is kept: `<model_dir>/<id>/<filename>`.
pub open spec fn model_file_path(model_dir: Seq<char>, e: ModelEntry) -> Seq<char> {
    join_path(join_path(model_dir, e.id@), e.filename@)
}

/// `new` is `old` with its file found at `path`: ready, with that local
/// path, and otherwise unchanged.
pub open spec fn is_found_at(new: ModelEntry, old: ModelEntry, path: Seq<char>) -> bool {
    &&& new.id == old.id
    &&& new.display_name == old.display_name
    &&& new.hf_repo == old.hf_repo
    &&& new.filename == old.filename
    &&& new.size_mb == old.size_mb
    &&& new.sha256 == old.sha256
    &&& new.required == old.required
    &&& new.status == ModelStatus::Ready
    &&& new.local_path matches Some(p) && p@ == path
}

/// The model was not found: missing, with no local path.
pub open spec fn is_missing(e: ModelEntry) -> bool {
    e.status == ModelStatus::Missing && e.local_path is None
}

/// The model is ready, its file being at `path`.
pub open spec fn is_ready_at(e: ModelEntry, path: Seq<char>) -> bool {
    e.status == ModelStatus::Ready && (e.local_path matches Some(p) && p@ == path)
}

/// No two models share an id.
pub open spec fn ids_unique(models: Seq<ModelEntry>) -> bool {
    forall|i: int, j: int| 0 <= i < models.len() && 0 <= j < models.len() && i != j ==> models[i].id@ != models[j].id@
}

/// Index of the first model at or after `i` whose id is `id`.
pub open spec fn find_model_from(models: Seq<ModelEntry>, id: Seq<char>, i: int) -> Option<int>
    decreases models.len() - i,
{
    if i < 0 || i >= models.len() {
        None
    } else if models[i].id@ == id {
        Some(i)
    } else {
        find_model_from(models, id, i + 1)
    }
}

/// Index of the model whose id is `id`.
pub open spec fn find_model(models: Seq<ModelEntry>, id: Seq<char>) -> Option<int> {
    find_model_from(models, id, 0)
}

/// What the search for a model id finds: the first model with that id.
pub proof fn lemma_find_model_from(models: Seq<ModelEntry>, id: Seq<char>, i: int)
    requires
        0 <= i,
    ensures
        find_model_from(models, id, i) matches Some(k) ==> i <= k < models.len() && models[k].id@ == id
            && forall|j: int| i <= j < k ==> models[j].id@ != id,
        find_model_from(models, id, i) is None ==> forall|j: int| i <= j < models.len() ==> models[j].id@ != id,
    decreases models.len() - i,
{
    if i < models.len() && models[i].id@ != id {
        lemma_find_model_from(models, id, i + 1);
    }
}

/// `models` with `e` registered: it replaces the model with the same id,
/// or is added at the end.
pub open spec fn registered(models: Seq<ModelEntry>, e: ModelEntry) -> Seq<ModelEntry> {
    match find_model(models, e.id@) {
        Some(k) => models.update(k, e),
        None => models.push(e),
    }
}

proof fn lemma_find_model_same_ids(a: Seq<ModelEntry>, b: Seq<ModelEntry>, id: Seq<char>, i: int)
    requires
        0 <= i,
        a.len() <= b.len(),
        forall|j: int| 0 <= j < a.len() ==> (a[j].id@ == id <==> b[j].id@ == id),
        forall|j: int| a.len() <= j < b.len() ==> b[j].id@ != id,
    ensures
        find_model_from(a, id, i) == find_model_from(b, id, i),
    decreases b.len() - i,
{
    if i < b.len() {
        lemma_find_model_same_ids(a, b, id, i + 1);
    }
}

/// Registering a model keeps ids unique; looking its id up afterwards
/// finds it, and looking up any other id finds what it found before.
pub proof fn lemma_register_then_find(models: Seq<ModelEntry>, e: ModelEntry, other: Seq<char>)
    requires
        ids_unique(models),
    ensures
        ids_unique(registered(models, e)),
        find_model(registered(models, e), e.id@) matches Some(k) && registered(models, e)[k] == e,
        other != e.id@ ==> find_model(registered(models, e), other) == find_model(models, other),
{
    let r = registered(models, e);
    lemma_find_model_from(models, e.id@, 0);
    lemma_find_model_from(r, e.id@, 0);
    match find_model(models, e.id@) {
        Some(k) => {
            assert forall|i: int, j: int| 0 <= i < r.len() && 0 <= j < r.len() && i != j implies r[i].id@ != r[j].id@ by {
                if i != k && j != k {
                    assert(r[i] == models[i] && r[j] == models[j]);
                }
            }
            lemma_find_model_same_ids(models, r, other, 0);
            lemma_find_model_same_ids(models, r, e.id@, 0);
        },
        None => {
            assert forall|i: int, j: int| 0 <= i < r.len() && 0 <= j < r.len() && i != j implies r[i].id@ != r[j].id@ by {
                if i < models.len() && j < models.len() {
                    assert(r[i] == models[i] && r[j] == models[j]);
                }
            }
            if other != e.id@ {
                lemma_find_model_same_ids(models, r, other, 0);
            }
            assert(r[models.len() as int] == e);
            assert(find_model_from(r, e.id@, models.len() as int) == Some(models.len() as int));
            assert(find_model_from(r, e.id@, 0) == find_model_from(r, e.id@, models.len() as int)) by {
                lemma_find_model_prefix_absent(r, e.id@, 0, models.len() as int);
            }
        },
    }
}

/// Once the `i`-th model is found at `path`, looking its id up gives that
/// model, ready, with `path` as its local path (what `model_path` returns).
pub proof fn lemma_found_model_is_looked_up(models: Seq<ModelEntry>, i: int, found: ModelEntry, path: Seq<char>)
    requires
        ids_unique(models),
        0 <= i < models.len(),
        is_found_at(found, models[i], path),
    ensures
        find_model(models.update(i, found), models[i].id@) == Some(i),
        is_ready_at(models.update(i, found)[i], path),
        ids_unique(models.update(i, found)),
{
    let r = models.update(i, found);
    let id = models[i].id@;
    lemma_find_model_same_ids(models, r, id, 0);
    lemma_find_model_from(models, id, 0);
    assert forall|a: int, b: int| 0 <= a < r.len() && 0 <= b < r.len() && a != b implies r[a].id@ != r[b].id@ by {
        assert(r[a].id@ == models[a].id@ && r[b].id@ == models[b].id@);
    }
}

/// What scanning does to one model whose file is at `path`: when the disk
/// has the file, the model is found there; otherwise it stays as it was.
pub open spec fn scan_outcome(new: ModelEntry, old: ModelEntry, path: Seq<char>, present: bool) -> bool {
    if present { is_found_at(new, old, path) } else { new == old }
}

/// Two entries hold the same values.
pub open spec fn same_entry(a: ModelEntry, b: ModelEntry) -> bool {
    &&& a.id@ == b.id@
    &&& a.display_name@ == b.display_name@
    &&& a.hf_repo@ == b.hf_repo@
    &&& a.filename@ == b.filename@
    &&& a.size_mb == b.size_mb
    &&& a.sha256 == b.sha256
    &&& a.status == b.status
    &&& a.local_path.is_some() == b.local_path.is_some()
    &&& (a.local_path matches Some(p) ==> p@ == b.local_path->0@)
    &&& a.required == b.required
}

/// Scanning twice while the disk does not change changes nothing the
/// second time: a model's file is looked for at the same place, and a
/// model found or not found the first time comes out the same again.
pub proof fn lemma_scan_twice(model_dir: Seq<char>, e0: ModelEntry, e1: ModelEntry, e2: ModelEntry, present: bool)
    requires
        scan_outcome(e1, e0, model_file_path(model_dir, e0), present),
        scan_outcome(e2, e1, model_file_path(model_dir, e1), present),
    ensures
        model_file_path(model_dir, e1) == model_file_path(model_dir, e0),
        same_entry(e2, e1),
{
}

/// What a scan of the models `before` under `model_dir` did, the disk
/// having answered `probes`: one probe per model, each at that model's
/// file, and each model found there when the disk had the file and left
/// as it was otherwise.
pub open spec fn is_scan(model_dir: Seq<char>, before: Seq<ModelEntry>, probes: Seq<PathProbe>, after: Seq<ModelEntry>) -> bool {
    &&& probes.len() == before.len()
    &&& after.len() == before.len()
    &&& forall|i: int|
        0 <= i < before.len() ==> (#[trigger] probes[i]).spec_path() == model_file_path(model_dir, before[i])
            && scan_outcome(after[i], before[i], probes[i].spec_path(), probes[i].spec_present())
}

/// After a scan, every model whose file the disk had is ready at its own
/// file and is what looking its id up finds; every other model is as it
/// was; and no two models share an id.
pub proof fn lemma_scan_finds_present_files(
    model_dir: Seq<char>,
    before: Seq<ModelEntry>,
    probes: Seq<PathProbe>,
    after: Seq<ModelEntry>,
)
    requires
        ids_unique(before),
        is_scan(model_dir, before, probes, after),
    ensures
        ids_unique(after),
        forall|i: int|
            0 <= i < before.len() && (#[trigger] probes[i]).spec_present() ==> is_ready_at(
                after[i],
                model_file_path(model_dir, before[i]),
            ) && find_model(after, before[i].id@) == Some(i),
        forall|i: int| 0 <= i < before.len() && !(#[trigger] probes[i]).spec_present() ==> after[i] == before[i],
{
    assert forall|j: int| 0 <= j < before.len() implies (#[trigger] after[j]).id@ == before[j].id@ by {
        assert(probes[j].spec_path() == model_file_path(model_dir, before[j]));
    }
    assert forall|a: int, b: int| 0 <= a < after.len() && 0 <= b < after.len() && a != b implies after[a].id@ != after[b].id@ by {
        assert(after[a].id@ == before[a].id@ && after[b].id@ == before[b].id@);
    }
    assert forall|i: int| 0 <= i < before.len() && (#[trigger] probes[i]).spec_present() implies is_ready_at(
        after[i],
        model_file_path(model_dir, before[i]),
    ) && find_model(after, before[i].id@) == Some(i) by {
        lemma_find_model_from(after, before[i].id@, 0);
        if find_model(after, before[i].id@) != Some(i) {
            let k = find_model(after, before[i].id@)->0;
            assert(after[k].id@ == before[k].id@);
            assert(after[i].id@ == before[i].id@);
        }
    }
}

proof fn lemma_find_model_prefix_absent(s: Seq<ModelEntry>, id: Seq<char>, i: int, m: int)
    requires
        0 <= i <= m <= s.len(),
        forall|j: int| i <= j < m ==> s[j].id@ != id,
    ensures
        find_model_from(s, id, i) == find_model_from(s, id, m),
    decreases m - i,
{
    if i < m {
        lemma_find_model_prefix_absent(s, id, i + 1, m);
    }
}

fn find_model_index(models: &Vec<ModelEntry>, id: &str) -> (r: Option<usize>)
    ensures
        match r {
            Some(k) => find_model(models@, id@) == Some(k as int),
            None => find_model(models@, id@) is None,
        },
{
    let mut i: usize = 0;
    while i < models.len()
        invariant
            i <= models.len(),
            find_model(models@, id@) == find_model_from(models@, id@, i as int),
        decreases models.len() - i,
    {
        if str_equal(models[i].id.as_str(), id) {
            return Some(i);
        }
        i = i + 1;
    }
    None
}

/// What the disk said of one path: the path that was asked about and
/// whether something is there.
pub struct PathProbe {
    path: String,
    present: bool,
}

impl PathProbe {
    /// The path that was asked about.
    pub closed spec fn spec_path(&self) -> Seq<char> {
        self.path@
    }

    /// Whether the disk had something at that path.
    pub closed spec fn spec_present(&self) -> bool {
        self.present
    }

    /// Asks the disk whether something is at `path`.
    pub fn of(path: String) -> (p: PathProbe)
        ensures
            p.spec_path() == path@,
    {
        probe_path(path)
    }

    /// The path that was asked about.
    pub fn path(&self) -> (r: &String)
        ensures
            r@ == self.spec_path(),
    {
        &self.path
    }

    fn duplicate(&self) -> (r: PathProbe)
        ensures
            r == *self,
    {
        PathProbe { path: self.path.clone(), present: self.present }
    }

    /// Whether the disk had something at that path.
    pub fn is_present(&self) -> (r: bool)
        ensures
            r == self.spec_present(),
    {
        self.present
    }
}

/// Asks the disk about `path`: a trusted wrapper of std's `Path::exists`.
/// The probe records the path it was given; whether something is there
/// depends on the file system at the time of the call, so nothing is
/// claimed of that answer.
#[verifier::external_body]
fn probe_path(path: String) -> (p: PathProbe)
    ensures
        p.spec_path() == path@,
{
    let present = std::path::Path::new(&path).exists();
    PathProbe { path, present }
}

/// The id, display name, repository, file name, size in megabytes and
/// whether it is required, of the `k`-th model the application knows.
pub open spec fn known_model_fields(k: int) -> (Seq<char>, Seq<char>, Seq<char>, Seq<char>, u64, bool) {
    if k == 0 {
        ("demucs-htdemucs"@, "Demucs v4 (Stem Separation)"@, "facebook/demucs"@, "htdemucs.th"@, 85, true)
    } else if k == 1 {
        ("musicgen-small"@, "MusicGen Small (Music Generation)"@, "facebook/musicgen-small"@, "model.safetensors"@, 1200, false)
    } else {
        ("rvc-base"@, "RVC v3 Base (Voice Cloning)"@, "lj1995/VoiceConversionWebUI"@, "hubert_base.pt"@, 190, false)
    }
}

/// `e` describes the `k`-th known model, whatever was found of it on disk.
pub open spec fn describes_known_model(e: ModelEntry, k: int) -> bool {
    let f = known_model_fields(k);
    &&& e.id@ == f.0
    &&& e.display_name@ == f.1
    &&& e.hf_repo@ == f.2
    &&& e.filename@ == f.3
    &&& e.size_mb == f.4
    &&& e.sha256 is None
    &&& e.required == f.5
}

/// `e` is the `k`-th known model as first registered: missing, with no local path.
pub open spec fn is_known_model(e: ModelEntry, k: int) -> bool {
    &&& describes_known_model(e, k)
    &&& e.status == ModelStatus::Missing
    &&& e.local_path is None
}

fn known_model(k: usize) -> (e: ModelEntry)
    requires
        k < 3,
    ensures
        is_known_model(e, k as int),
{
    if k == 0 {
        ModelEntry {
            id: String::from_str("demucs-htdemucs"),
            display_name: String::from_str("Demucs v4 (Stem Separation)"),
            hf_repo: String::from_str("facebook/demucs"),
            filename: String::from_str("htdemucs.th"),
            size_mb: 85,
            sha256: None,
            status: ModelStatus::Missing,
            local_path: None,
            required: true,
        }
    } else if k == 1 {
        ModelEntry {
            id: String::from_str("musicgen-small"),
            display_name: String::from_str("MusicGen Small (Music Generation)"),
            hf_repo: String::from_str("facebook/musicgen-small"),
            filename: String::from_str("model.safetensors"),
            size_mb: 1200,
            sha256: None,
            status: ModelStatus::Missing,
            local_path: None,
            required: false,
        }
    } else {
        ModelEntry {
            id: String::from_str("rvc-base"),
            display_name: String::from_str("RVC v3 Base (Voice Cloning)"),
            hf_repo: String::from_str("lj1995/VoiceConversionWebUI"),
            filename: String::from_str("hubert_base.pt"),
            size_mb: 190,
            sha256: None,
            status: ModelStatus::Missing,
            local_path: None,
            required: false,
        }
    }
}

/// The known models have distinct ids.
pub proof fn lemma_known_ids_distinct()
    ensures
        known_model_fields(0).0 != known_model_fields(1).0,
        known_model_fields(0).0 != known_model_fields(2).0,
        known_model_fields(1).0 != known_model_fields(2).0,
{
    reveal_strlit("demucs-htdemucs");
    reveal_strlit("musicgen-small");
    reveal_strlit("rvc-base");
    assert("demucs-htdemucs"@.len() != "musicgen-small"@.len());
    assert("demucs-htdemucs"@.len() != "rvc-base"@.len());
    assert("musicgen-small"@.len() != "rvc-base"@.len());
}

impl ModelManager {
    /// Adds `e` to the registry, replacing the model with the same id.
    pub fn register(&mut self, e: ModelEntry)
        ensures
            final(self).models@ == registered(old(self).models@, e),
            final(self).model_dir == old(self).model_dir,
    {
        match find_model_index(&self.models, e.id.as_str()) {
            Some(k) => {
                proof {
                    lemma_find_model_from(self.models@, e.id@, 0);
                }
                self.models.set(k, e);
            },
            None => {
                self.models.push(e);
            },
        }
    }

    fn register_known_models(&mut self)
        ensures
            final(self).model_dir == old(self).model_dir,
            exists|e0: ModelEntry, e1: ModelEntry, e2: ModelEntry|
                is_known_model(e0, 0) && is_known_model(e1, 1) && is_known_model(e2, 2)
                    && final(self).models@ == registered(registered(registered(old(self).models@, e0), e1), e2),
    {
        let ghost start = self.models@;
        let e0 = known_model(0);
        let ghost g0 = e0;
        self.register(e0);
        let e1 = known_model(1);
        let ghost g1 = e1;
        self.register(e1);
        let e2 = known_model(2);
        let ghost g2 = e2;
        self.register(e2);
        assert(self.models@ == registered(registered(registered(start, g0), g1), g2));
    }

    /// Records what the disk said of the `i`-th model's file: when the
    /// file is there, the model is ready and the file is its local path;
    /// otherwise nothing changes.
    pub fn apply_scan_result(&mut self, i: usize, probe: PathProbe)
        requires
            i < old(self).models.len(),
            probe.spec_path() == model_file_path(old(self).model_dir@, old(self).models@[i as int]),
        ensures
            final(self).model_dir == old(self).model_dir,
            final(self).models@.len() == old(self).models@.len(),
            forall|j: int| 0 <= j < old(self).models@.len() && j != i ==> final(self).models@[j] == old(self).models@[j],
            probe.spec_present() ==> is_found_at(final(self).models@[i as int], old(self).models@[i as int], probe.spec_path()),
            !probe.spec_present() ==> final(self).models@[i as int] == old(self).models@[i as int],
    {
        if probe.is_present() {
            let mut e = self.models.remove(i);
            e.status = ModelStatus::Ready;
            e.local_path = Some(probe.path);
            self.models.insert(i, e);
        }
    }

    /// Looks for every model's file under the model directory; the models
    /// whose file is there become ready, with that file as their local path.
    /// What the disk said of each file is kept as the last scan.
    pub fn scan_local(&mut self)
        ensures
            final(self).model_dir == old(self).model_dir,
            final(self).models@.len() == old(self).models@.len(),
            forall|i: int|
                0 <= i < old(self).models@.len() ==> final(self).models@[i] == old(self).models@[i]
                    || is_found_at(
                    final(self).models@[i],
                    old(self).models@[i],
                    model_file_path(old(self).model_dir@, old(self).models@[i]),
                ),
            is_scan(old(self).model_dir@, old(self).models@, final(self).last_scan@, final(self).models@),
    {
        let ghost start = self.models@;
        let mut probes: Vec<PathProbe> = Vec::new();
        let mut i: usize = 0;
        while i < self.models.len()
            invariant
                i <= self.models.len(),
                self.models@.len() == start.len(),
                self.model_dir == old(self).model_dir,
                start == old(self).models@,
                probes@.len() == i,
                forall|j: int|
                    i <= j < start.len() ==> self.models@[j] == start[j],
                forall|j: int|
                    0 <= j < i ==> (#[trigger] probes@[j]).spec_path() == model_file_path(self.model_dir@, start[j])
                        && scan_outcome(self.models@[j], start[j], probes@[j].spec_path(), probes@[j].spec_present()),
            decreases self.models.len() - i,
        {
            let dir = path_join(self.model_dir.as_str(), self.models[i].id.as_str());
            let path = path_join(dir.as_str(), self.models[i].filename.as_str());
            let probe = PathProbe::of(path);
            probes.push(probe.duplicate());
            self.apply_scan_result(i, probe);
            i = i + 1;
        }
        proof {
            assert forall|j: int| 0 <= j < start.len() implies self.models@[j] == start[j] || is_found_at(
                self.models@[j],
                start[j],
                model_file_path(self.model_dir@, start[j]),
            ) by {
                assert(probes@[j].spec_path() == model_file_path(self.model_dir@, start[j]));
            }
        }
        self.last_scan = probes;
    }

    /// A registry for models under `model_dir`, holding the known models
    /// (Demucs, MusicGen Small and RVC base, in that order), each ready when
    /// its file is found on disk, with what the disk said kept as the last
    /// scan.
    pub fn new(model_dir: String) -> (m: ModelManager)
        ensures
            m.model_dir@ == model_dir@,
            m.models@.len() == 3,
            ids_unique(m.models@),
            forall|k: int|
                0 <= k < 3 ==> describes_known_model(#[trigger] m.models@[k], k) && (is_missing(
                    m.models@[k],
                ) || is_ready_at(m.models@[k], model_file_path(model_dir@, m.models@[k]))),
            m.last_scan@.len() == 3,
            forall|k: int|
                0 <= k < 3 ==> (#[trigger] m.last_scan@[k]).spec_path() == model_file_path(model_dir@, m.models@[k])
                    && (m.last_scan@[k].spec_present() ==> is_ready_at(m.models@[k], m.last_scan@[k].spec_path()))
                    && (!m.last_scan@[k].spec_present() ==> is_missing(m.models@[k])),
    {
        let mut m = ModelManager { model_dir, models: Vec::new(), last_scan: Vec::new() };
        m.register_known_models();
        proof {
            lemma_known_ids_distinct();
            let (e0, e1, e2) = choose|e0: ModelEntry, e1: ModelEntry, e2: ModelEntry|
                is_known_model(e0, 0) && is_known_model(e1, 1) && is_known_model(e2, 2)
                    && m.models@ == registered(registered(registered(Seq::<ModelEntry>::empty(), e0), e1), e2);
            let s0 = Seq::<ModelEntry>::empty();
            assert(find_model(s0, e0.id@) is None);
            let s1 = s0.push(e0);
            assert(registered(s0, e0) == s1);
            lemma_find_model_from(s1, e1.id@, 0);
            assert(find_model(s1, e1.id@) is None);
            let s2 = s1.push(e1);
            assert(registered(s1, e1) == s2);
            lemma_find_model_from(s2, e2.id@, 0);
            assert(find_model(s2, e2.id@) is None);
            assert(m.models@ == s2.push(e2));
        }
        let ghost before = m.models@;
        m.scan_local();
        proof {
            assert forall|k: int| 0 <= k < 3 implies (#[trigger] m.last_scan@[k]).spec_path() == model_file_path(
                model_dir@,
                m.models@[k],
            ) && (m.last_scan@[k].spec_present() ==> is_ready_at(m.models@[k], m.last_scan@[k].spec_path()))
                && (!m.last_scan@[k].spec_present() ==> is_missing(m.models@[k])) by {
                assert(m.last_scan@[k].spec_path() == model_file_path(model_dir@, before[k]));
                assert(is_missing(before[k]));
            }
        }
        m
    }
}


// ---------------------------------------------------------------------------
// Ordering by display name

/// Lexicographic order of strings by code point (the order of `str::cmp`).
pub open spec fn lex_lt(a: Seq<char>, b: Seq<char>) -> bool
    decreases a.len(),
{
    if a.len() == 0 {
        b.len() > 0
    } else if b.len() == 0 {
        false
    } else if a[0] != b[0] {
        a[0] < b[0]
    } else {
        lex_lt(a.drop_first(), b.drop_first())
    }
}

/// No string comes before itself.
pub proof fn lemma_lex_irreflexive(a: Seq<char>)
    ensures
        !lex_lt(a, a),
    decreases a.len(),
{
    if a.len() > 0 {
        lemma_lex_irreflexive(a.drop_first());
    }
}

/// Of two different strings exactly one comes first.
pub proof fn lemma_lex_total(a: Seq<char>, b: Seq<char>)
    ensures
        a != b ==> lex_lt(a, b) || lex_lt(b, a),
        !(lex_lt(a, b) && lex_lt(b, a)),
    decreases a.len(),
{
    if a.len() > 0 && b.len() > 0 {
        if a[0] == b[0] {
            lemma_lex_total(a.drop_first(), b.drop_first());
            if a != b {
                assert(a.drop_first() != b.drop_first()) by {
                    if a.drop_first() == b.drop_first() {
                        assert(a =~= seq![a[0]] + a.drop_first());
                        assert(b =~= seq![b[0]] + b.drop_first());
                    }
                }
            }
        }
    } else if a.len() == 0 && b.len() == 0 {
        assert(a =~= b);
    }
}

/// Lexicographic order is transitive.
pub proof fn lemma_lex_transitive(a: Seq<char>, b: Seq<char>, c: Seq<char>)
    requires
        lex_lt(a, b),
        lex_lt(b, c),
    ensures
        lex_lt(a, c),
    decreases a.len(),
{
    if a.len() > 0 && b.len() > 0 && c.len() > 0 {
        if a[0] == b[0] && b[0] == c[0] {
            lemma_lex_transitive(a.drop_first(), b.drop_first(), c.drop_first());
        }
    }
}

/// Whether `a` comes strictly before `b` in lexicographic order.
pub fn lex_less(a: &str, b: &str) -> (r: bool)
    ensures
        r == lex_lt(a@, b@),
{
    let va = chars_of(a);
    let vb = chars_of(b);
    let mut i: usize = 0;
    assert(a@.skip(0) =~= a@);
    assert(b@.skip(0) =~= b@);
    while i < va.len() && i < vb.len()
        invariant
            va@ == a@,
            vb@ == b@,
            i <= va.len(),
            i <= vb.len(),
            lex_lt(a@, b@) == lex_lt(a@.skip(i as int), b@.skip(i as int)),
        decreases va.len() - i,
    {
        if va[i] != vb[i] {
            return va[i] < vb[i];
        }
        assert(a@.skip(i as int).drop_first() =~= a@.skip(i + 1));
        assert(b@.skip(i as int).drop_first() =~= b@.skip(i + 1));
        i = i + 1;
    }
    i == va.len() && i < vb.len()
}

/// Whether model `a` is listed before model `b`: by display name, and by
/// position among models with the same display name.
pub open spec fn listed_before(models: Seq<ModelEntry>, a: int, b: int) -> bool {
    ||| lex_lt(models[a].display_name@, models[b].display_name@)
    ||| models[a].display_name@ == models[b].display_name@ && a < b
}

/// `order` lists every model exactly once, sorted by display name.
pub open spec fn is_name_order(models: Seq<ModelEntry>, order: Seq<usize>) -> bool {
    &&& forall|j: int| 0 <= j < order.len() ==> #[trigger] order[j] < models.len()
    &&& forall|i: int| 0 <= i < models.len() ==> #[trigger] order.contains(i as usize)
    &&& forall|j: int, l: int|
        0 <= j < l < order.len() ==> listed_before(models, #[trigger] order[j] as int, #[trigger] order[l] as int)
}

fn name_order(models: &Vec<ModelEntry>) -> (order: Vec<usize>)
    ensures
        is_name_order(models@, order@),
{
    let mut order: Vec<usize> = Vec::new();
    let mut i: usize = 0;
    while i < models.len()
        invariant
            i <= models.len(),
            forall|j: int| 0 <= j < order.len() ==> #[trigger] order@[j] < i,
            forall|m: int| 0 <= m < i ==> #[trigger] order@.contains(m as usize),
            forall|j: int, l: int|
                0 <= j < l < order.len() ==> listed_before(models@, #[trigger] order@[j] as int, #[trigger] order@[l] as int),
        decreases models.len() - i,
    {
        let name = models[i].display_name.as_str();
        let mut p: usize = 0;
        while p < order.len() && !lex_less(name, models[order[p]].display_name.as_str())
            invariant
                p <= order.len(),
                i < models.len(),
                name@ == models@[i as int].display_name@,
                forall|j: int| 0 <= j < order.len() ==> #[trigger] order@[j] < i,
                forall|j: int| 0 <= j < p ==> !lex_lt(name@, models@[#[trigger] order@[j] as int].display_name@),
            decreases order.len() - p,
        {
            p = p + 1;
        }
        let ghost old_order = order@;
        proof {
            assert forall|j: int| p <= j < old_order.len() implies lex_lt(
                name@,
                models@[#[trigger] old_order[j] as int].display_name@,
            ) by {
                let np = models@[old_order[p as int] as int].display_name@;
                let nj = models@[old_order[j] as int].display_name@;
                if j > p {
                    assert(listed_before(models@, old_order[p as int] as int, old_order[j] as int));
                    if lex_lt(np, nj) {
                        lemma_lex_transitive(name@, np, nj);
                    }
                }
            }
        }
        order.insert(p, i);
        proof {
            assert forall|j: int| 0 <= j < order.len() implies #[trigger] order@[j] < i + 1 by {
                if j < p {
                    assert(order@[j] == old_order[j]);
                } else if j > p {
                    assert(order@[j] == old_order[j - 1]);
                }
            }
            assert forall|m: int| 0 <= m < i + 1 implies #[trigger] order@.contains(m as usize) by {
                if m == i {
                    assert(order@[p as int] == i);
                } else {
                    assert(old_order.contains(m as usize));
                    let q = choose|q: int| 0 <= q < old_order.len() && old_order[q] == m as usize;
                    if q < p {
                        assert(order@[q] == m as usize);
                    } else {
                        assert(order@[q + 1] == m as usize);
                    }
                }
            }
            assert forall|j: int, l: int|
                0 <= j < l < order.len() implies listed_before(models@, #[trigger] order@[j] as int, #[trigger] order@[l] as int) by {
                if l < p {
                    assert(order@[j] == old_order[j] && order@[l] == old_order[l]);
                } else if l == p {
                    assert(order@[j] == old_order[j]);
                    let nj = models@[old_order[j] as int].display_name@;
                    lemma_lex_total(nj, name@);
                } else if j == p {
                    assert(order@[l] == old_order[l - 1]);
                } else if j < p {
                    assert(order@[j] == old_order[j] && order@[l] == old_order[l - 1]);
                } else {
                    assert(order@[j] == old_order[j - 1] && order@[l] == old_order[l - 1]);
                }
            }
        }
        i = i + 1;
    }
    order
}

impl ModelManager {
    /// The local path of the model with id `id`, when it is known and was
    /// found on disk.
    pub fn model_path(&self, id: &str) -> (r: Option<&String>)
        ensures
            match find_model(self.models@, id@) {
                Some(k) => match self.models@[k].local_path {
                    Some(p) => r == Some(&p),
                    None => r is None,
                },
                None => r is None,
            },
    {
        match find_model_index(&self.models, id) {
            Some(k) => {
                proof {
                    lemma_find_model_from(self.models@, id@, 0);
                }
                match &self.models[k].local_path {
                    Some(p) => Some(p),
                    None => None,
                }
            },
            None => None,
        }
    }

    /// Every model, sorted by display name.
    pub fn all_models(&self) -> (r: Vec<&ModelEntry>)
        ensures
            exists|order: Seq<usize>|
                is_name_order(self.models@, order) && r@.len() == order.len() && forall|k: int|
                    0 <= k < order.len() ==> *(#[trigger] r@[k]) == self.models@[order[k] as int],
    {
        let order = name_order(&self.models);
        let mut r: Vec<&ModelEntry> = Vec::new();
        let mut k: usize = 0;
        while k < order.len()
            invariant
                k <= order.len(),
                is_name_order(self.models@, order@),
                r@.len() == k,
                forall|j: int| 0 <= j < k ==> *(#[trigger] r@[j]) == self.models@[order@[j] as int],
            decreases order.len() - k,
        {
            let idx = order[k];
            r.push(&self.models[idx]);
            k = k + 1;
        }
        r
    }
}

} // verus!
