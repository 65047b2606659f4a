//! The supervisor's units: which of them are tracked, and what their
//! configuration files say.

use vstd::prelude::*;
use crate::infra::{FileSystem, FsError};
use crate::yaml::lines_view;
use crate::text::{chars_of, ends_with, has_suffix};

verus! {

/// A unit that went from stopped to started, or back.
#[derive(Debug)]
pub struct JobEvent {
    pub unit_name: String,
    pub started: bool,
}

/// A unit that is tracked from now on.
#[derive(Debug)]
pub struct NewUnit {
    pub unit: String,
}

/// What the supervisor says of a unit that it has just loaded: the unit's name
/// and the handle under which the supervisor keeps it.
#[derive(Debug)]
pub struct NewUnitArgs {
    pub id: String,
    pub unit: String,
}

/// A tracked unit: its name, and the handle under which the supervisor keeps it.
#[derive(Debug)]
pub struct UnitData {
    pub name: String,
    pub object_path: String,
}

/// Where the supervisor says that a unit's configuration stands: the overriding
/// files, in the order in which it reports them, and the primary file.
#[derive(Debug)]
pub struct UnitFiles {
    pub drop_in_paths: Vec<String>,
    pub fragment_path: String,
}

/// The ending of a service unit's name.
pub open spec fn service_suffix() -> Seq<char> {
    ".service"@
}

/// Whether `name` is the name of a service unit.
pub open spec fn is_service(name: Seq<char>) -> bool {
    ends_with(name, service_suffix())
}

/// Whether `name` is the name of a service unit.
pub fn is_service_name(name: &str) -> (b: bool)
    ensures
        b == is_service(name@),
{
    let v = chars_of(name);
    let suffix = chars_of(".service");
    has_suffix(&v, &suffix)
}

/// The state in which the supervisor reports a started unit.
pub open spec fn active_state() -> Seq<char> {
    "active"@
}

/// Whether the supervisor's `state` is that of a started unit.
pub fn is_active_state(state: &str) -> (b: bool)
    ensures
        b == (state@ == active_state()),
{
    let v = chars_of(state);
    let active = chars_of("active");
    crate::text::same_chars(&v, &active)
}

/// The event for a unit whose state the supervisor reports as `state`.
pub fn job_event_for_state(unit_name: &str, state: &str) -> (job: JobEvent)
    ensures
        job.unit_name@ == unit_name@,
        job.started == (state@ == active_state()),
{
    JobEvent { unit_name: String::from_str(unit_name), started: is_active_state(state) }
}

/// The tracked units, each found by its name.
pub struct UnitRegistry {
    units: Vec<UnitData>,
}

impl UnitRegistry {
    /// The names of the tracked units, in the order in which they came.
    pub closed spec fn names(&self) -> Seq<Seq<char>> {
        Seq::new(self.units@.len(), |i: int| self.units@[i].name@)
    }

    /// The handles of the tracked units, in the order of `names`.
    pub closed spec fn handles(&self) -> Seq<Seq<char>> {
        Seq::new(self.units@.len(), |i: int| self.units@[i].object_path@)
    }

    /// What the registry keeps at all times: every name once, and service names only.
    pub open spec fn well_formed(&self) -> bool {
        &&& self.names().len() == self.handles().len()
        &&& self.names().no_duplicates()
        &&& forall|i: int| 0 <= i < self.names().len() ==> is_service(#[trigger] self.names()[i])
    }

    /// Whether a unit of the name `name` is tracked.
    pub open spec fn tracks(&self, name: Seq<char>) -> bool {
        self.names().contains(name)
    }

    /// A registry without units.
    pub fn new() -> (r: Self)
        ensures
            r.well_formed(),
            r.names() == Seq::<Seq<char>>::empty(),
    {
        let r = UnitRegistry { units: Vec::new() };
        assert(r.names() =~= Seq::<Seq<char>>::empty());
        assert(r.handles() =~= Seq::<Seq<char>>::empty());
        r
    }

    /// How many units are tracked.
    pub fn len(&self) -> (n: usize)
        ensures
            n == self.names().len(),
    {
        self.units.len()
    }

    /// The place of the unit `name` among the tracked units, or their number
    /// where it is not tracked.
    pub fn position(&self, name: &str) -> (i: usize)
        ensures
            i <= self.names().len(),
            i < self.names().len() ==> self.names()[i as int] == name@,
            i == self.names().len() ==> !self.tracks(name@),
    {
        let wanted = chars_of(name);
        let mut i: usize = 0;
        while i < self.units.len()
            invariant
                i <= self.units.len(),
                wanted@ == name@,
                forall|j: int| 0 <= j < i ==> self.names()[j] != name@,
            decreases self.units.len() - i,
        {
            let have = chars_of(self.units[i].name.as_str());
            if crate::text::same_chars(&have, &wanted) {
                return i;
            }
            i += 1;
        }
        i
    }

    /// Whether a unit of the name `name` is tracked.
    pub fn contains_key(&self, name: &str) -> (b: bool)
        ensures
            b == self.tracks(name@),
    {
        let i = self.position(name);
        i < self.units.len()
    }

    /// The tracked unit of the name `name`.
    pub fn get(&self, name: &str) -> (r: Option<&UnitData>)
        ensures
            match r {
                Some(unit) => self.tracks(name@) && unit.name@ == name@ && exists|i: int|
                    0 <= i < self.names().len() && #[trigger] self.names()[i] == name@
                        && unit.object_path@ == self.handles()[i],
                None => !self.tracks(name@),
            },
    {
        let i = self.position(name);
        if i < self.units.len() {
            assert(self.names()[i as int] == name@);
            Some(&self.units[i])
        } else {
            None
        }
    }

    /// The tracked unit at the place `i`.
    pub fn unit_at(&self, i: usize) -> (unit: &UnitData)
        requires
            i < self.names().len(),
        ensures
            unit.name@ == self.names()[i as int],
            unit.object_path@ == self.handles()[i as int],
    {
        &self.units[i]
    }

    /// Tracks `unit`, in the place of a unit of the same name where there is one.
    ///
    /// A unit whose name is not that of a service is not taken, and `false`
    /// comes back. No unit ever leaves the registry.
    pub fn insert(&mut self, unit: UnitData) -> (taken: bool)
        requires
            old(self).well_formed(),
        ensures
            final(self).well_formed(),
            taken == is_service(unit.name@),
            forall|name: Seq<char>| old(self).tracks(name) ==> final(self).tracks(name),
            taken ==> final(self).tracks(unit.name@),
            !taken ==> final(self).names() == old(self).names() && final(self).handles() == old(
                self,
            ).handles(),
            taken && old(self).tracks(unit.name@) ==> final(self).names() == old(self).names()
                && final(self).handles() == old(self).handles().update(
                old(self).names().index_of(unit.name@),
                unit.object_path@,
            ),
            taken && !old(self).tracks(unit.name@) ==> final(self).names() == old(self).names().push(
                unit.name@,
            ) && final(self).handles() == old(self).handles().push(unit.object_path@),
    {
        if !is_service_name(unit.name.as_str()) {
            return false;
        }
        let i = self.position(unit.name.as_str());
        let ghost before = *self;
        if i < self.units.len() {
            proof {
                let k = before.names().index_of(unit.name@);
                assert(before.names()[k] == unit.name@);
                assert(k == i);
            }
            self.units[i] = unit;
            assert(self.names() =~= before.names());
            assert(self.handles() =~= before.handles().update(i as int, unit.object_path@));
        } else {
            self.units.push(unit);
            assert(self.names() =~= before.names().push(unit.name@));
            assert(self.handles() =~= before.handles().push(unit.object_path@));
            assert(self.names()[i as int] == unit.name@);
            assert forall|name: Seq<char>| before.tracks(name) implies self.tracks(name) by {
                let k = choose|k: int| 0 <= k < before.names().len() && before.names()[k] == name;
                assert(self.names()[k] == name);
            }
            assert forall|a: int, b: int|
                0 <= a < self.names().len() && 0 <= b < self.names().len() && a != b implies self.names()[a]
                != self.names()[b] by {
                if a < before.names().len() && b < before.names().len() {
                    assert(before.names()[a] != before.names()[b]);
                } else if a < before.names().len() {
                    assert(before.names().contains(before.names()[a]));
                } else {
                    assert(before.names().contains(before.names()[b]));
                }
            }
        }
        true
    }
}

/// The directives of the section `name` that `systemd_lsp` reads from the unit
/// file `text`, each with its key and its value, in the order of the file; `None`
/// where it reads no section of that name.
pub uninterp spec fn unit_section(text: Seq<char>, name: Seq<char>) -> Option<Seq<(Seq<char>, Seq<char>)>>;

/// The longest unit file that is read, in bytes: the parser counts columns in 32 bits.
pub const MAX_UNIT_FILE_BYTES: usize = 0x7fff_ffff;

/// The keys and values that `directives` holds, in order.
pub open spec fn directives_view(directives: Seq<(String, String)>) -> Seq<(Seq<char>, Seq<char>)> {
    Seq::new(directives.len(), |i: int| (directives[i].0@, directives[i].1@))
}

/// `systemd_lsp::SystemdParser::new` and `SystemdParser::parse` on `text`, then
/// the section `name` of what was read, each directive handed on as its key and
/// value. The result depends on the two texts alone. Texts of 2 GiB and more are
/// left out: the parser adds columns in 32 bits.
#[verifier::external_body]
fn parse_section(text: &str, name: &str) -> (r: Option<Vec<(String, String)>>)
    requires
        vstd::utf8::encode_utf8(text@).len() <= MAX_UNIT_FILE_BYTES,
    ensures
        match r {
            Some(directives) => unit_section(text@, name@) == Some(directives_view(directives@)),
            None => unit_section(text@, name@) is None,
        },
{
    let unit = systemd_lsp::SystemdParser::new().parse(text);
    let section = unit.sections.get(name)?;
    Some(section.directives.iter().map(|d| (d.key.clone(), d.value.clone())).collect())
}

/// The section that holds a unit's labels for the proxy.
pub open spec fn traefik_section() -> Seq<char> {
    "X-Traefik"@
}

/// The key of a directive that holds one label.
pub open spec fn label_key() -> Seq<char> {
    "Label"@
}

/// The directives of the section `name` of the unit file `text`; none of a file
/// that is too long to be read.
pub open spec fn section_of(text: Seq<char>, name: Seq<char>) -> Option<Seq<(Seq<char>, Seq<char>)>> {
    if vstd::utf8::encode_utf8(text).len() <= MAX_UNIT_FILE_BYTES {
        unit_section(text, name)
    } else {
        None
    }
}

/// The values of the label directives among `directives`, in order.
pub open spec fn labels_in(directives: Seq<(Seq<char>, Seq<char>)>) -> Seq<Seq<char>>
    decreases directives.len(),
{
    if directives.len() == 0 {
        Seq::empty()
    } else if directives.last().0 == label_key() {
        labels_in(directives.drop_last()).push(directives.last().1)
    } else {
        labels_in(directives.drop_last())
    }
}

/// Whether the unit file `text` holds the proxy's section; a file that was not
/// read holds none.
pub open spec fn text_has_section(text: Option<Seq<char>>) -> bool {
    text matches Some(t) && section_of(t, traefik_section()) is Some
}

/// Whether one of the unit files `texts` holds the proxy's section.
pub open spec fn any_has_section(texts: Seq<Option<Seq<char>>>) -> bool {
    exists|i: int| 0 <= i < texts.len() && text_has_section(#[trigger] texts[i])
}

/// The labels of the unit file `text`: the values of the label directives of
/// the proxy's section.
pub open spec fn labels_of_text(text: Seq<char>) -> Seq<Seq<char>> {
    match section_of(text, traefik_section()) {
        Some(directives) => labels_in(directives),
        None => Seq::empty(),
    }
}

/// The labels of the unit files `texts`, file after file.
pub open spec fn labels_of_texts(texts: Seq<Seq<char>>) -> Seq<Seq<char>>
    decreases texts.len(),
{
    if texts.len() == 0 {
        Seq::empty()
    } else {
        labels_of_texts(texts.drop_last()) + labels_of_text(texts.last())
    }
}

/// The directives of the section `name` of the unit file `text`.
pub fn section_directives(text: &str, name: &str) -> (r: Option<Vec<(String, String)>>)
    ensures
        match r {
            Some(directives) => section_of(text@, name@) == Some(directives_view(directives@)),
            None => section_of(text@, name@) is None,
        },
{
    broadcast use vstd::slice::axiom_spec_len;

    if text.as_bytes().len() <= MAX_UNIT_FILE_BYTES {
        parse_section(text, name)
    } else {
        None
    }
}

/// The labels among the directives of the proxy's section.
pub fn labels_of_directives(directives: &Vec<(String, String)>) -> (labels: Vec<String>)
    ensures
        lines_view(labels@) == labels_in(directives_view(directives@)),
{
    let label = chars_of("Label");
    let mut labels: Vec<String> = Vec::new();
    let ghost all = directives_view(directives@);
    assert(lines_view(labels@) =~= labels_in(all.take(0)));
    let mut i: usize = 0;
    while i < directives.len()
        invariant
            i <= directives.len(),
            all == directives_view(directives@),
            label@ == label_key(),
            lines_view(labels@) == labels_in(all.take(i as int)),
        decreases directives.len() - i,
    {
        let key = chars_of(directives[i].0.as_str());
        let ghost before = lines_view(labels@);
        assert(all.take(i + 1).drop_last() =~= all.take(i as int));
        assert(all.take(i + 1).last() == all[i as int]);
        if crate::text::same_chars(&key, &label) {
            labels.push(directives[i].1.clone());
            assert(lines_view(labels@) =~= before.push(all[i as int].1));
        }
        i += 1;
    }
    assert(all.take(i as int) =~= all);
    labels
}

/// Those of `paths` at which `files` has a file, in order.
pub open spec fn existing(files: Map<Seq<char>, Seq<char>>, paths: Seq<Seq<char>>) -> Seq<Seq<char>>
    decreases paths.len(),
{
    if paths.len() == 0 {
        Seq::empty()
    } else if files.contains_key(paths.last()) {
        existing(files, paths.drop_last()).push(paths.last())
    } else {
        existing(files, paths.drop_last())
    }
}

/// The configuration sources of a unit: the overriding files, in the reported
/// order, then the primary file; each only where `files` has a file there.
pub open spec fn config_sources(
    files: Map<Seq<char>, Seq<char>>,
    drop_ins: Seq<Seq<char>>,
    fragment: Seq<char>,
) -> Seq<Seq<char>> {
    existing(files, drop_ins.push(fragment))
}

/// Every path of `existing` has a file.
pub proof fn lemma_existing_have_files(files: Map<Seq<char>, Seq<char>>, paths: Seq<Seq<char>>)
    ensures
        forall|i: int| 0 <= i < existing(files, paths).len() ==> files.contains_key(#[trigger] existing(files, paths)[i]),
    decreases paths.len(),
{
    if paths.len() > 0 {
        lemma_existing_have_files(files, paths.drop_last());
        let shorter = existing(files, paths.drop_last());
        assert forall|i: int| 0 <= i < existing(files, paths).len() implies files.contains_key(
            #[trigger] existing(files, paths)[i],
        ) by {
            if i < shorter.len() {
                assert(existing(files, paths)[i] == shorter[i]);
            }
        }
    }
}

/// The configuration sources of a unit whose files the supervisor reports as `unit_files`.
pub fn get_config_files_for_unit<F: FileSystem>(fs: &F, unit_files: &UnitFiles) -> (sources: Vec<String>)
    ensures
        lines_view(sources@) == config_sources(
            fs.files(),
            lines_view(unit_files.drop_in_paths@),
            unit_files.fragment_path@,
        ),
{
    let ghost drop_ins = lines_view(unit_files.drop_in_paths@);
    let ghost all = drop_ins.push(unit_files.fragment_path@);
    let mut sources: Vec<String> = Vec::new();
    assert(lines_view(sources@) =~= existing(fs.files(), all.take(0)));
    let mut i: usize = 0;
    while i < unit_files.drop_in_paths.len()
        invariant
            i <= unit_files.drop_in_paths.len(),
            drop_ins == lines_view(unit_files.drop_in_paths@),
            all == drop_ins.push(unit_files.fragment_path@),
            lines_view(sources@) == existing(fs.files(), all.take(i as int)),
        decreases unit_files.drop_in_paths.len() - i,
    {
        let ghost before = lines_view(sources@);
        assert(all.take(i + 1).drop_last() =~= all.take(i as int));
        assert(all.take(i + 1).last() == drop_ins[i as int]);
        if fs.file_exists(unit_files.drop_in_paths[i].as_str()) {
            sources.push(unit_files.drop_in_paths[i].clone());
            assert(lines_view(sources@) =~= before.push(drop_ins[i as int]));
        }
        i += 1;
    }
    let ghost before = lines_view(sources@);
    assert(all.drop_last() =~= all.take(i as int));
    if fs.file_exists(unit_files.fragment_path.as_str()) {
        sources.push(unit_files.fragment_path.clone());
        assert(lines_view(sources@) =~= before.push(unit_files.fragment_path@));
    }
    sources
}

/// Whether `texts` are what reading `sources` from `files` can give: a text
/// that was read is the text of the file at its path, and `None` stands for a
/// file that could not be read.
pub open spec fn reads_of(
    files: Map<Seq<char>, Seq<char>>,
    sources: Seq<Seq<char>>,
    texts: Seq<Option<Seq<char>>>,
) -> bool {
    &&& texts.len() == sources.len()
    &&& forall|i: int|
        0 <= i < texts.len() ==> (#[trigger] texts[i] matches Some(t) ==> files.contains_key(sources[i])
            && files[sources[i]] == t)
}

/// What the reads `reads` gave, as mathematical values.
pub open spec fn reads_view(reads: Seq<Option<String>>) -> Seq<Option<Seq<char>>> {
    Seq::new(
        reads.len(),
        |i: int|
            match reads[i] {
                Some(text) => Some(text@),
                None => None,
            },
    )
}

/// Reads the configuration sources `sources`, each in its turn: the text of
/// each, or `None` for one that could not be read.
pub fn read_sources<F: FileSystem>(fs: &F, sources: &Vec<String>) -> (reads: Vec<Option<String>>)
    ensures
        reads_of(fs.files(), lines_view(sources@), reads_view(reads@)),
        fs.dependable() ==> forall|i: int|
            0 <= i < sources.len() ==> (#[trigger] reads@[i]) is Some == fs.files().contains_key(sources@[i]@),
{
    let mut reads: Vec<Option<String>> = Vec::new();
    let mut i: usize = 0;
    while i < sources.len()
        invariant
            i <= sources.len(),
            reads.len() == i,
            forall|j: int|
                0 <= j < i ==> (#[trigger] reads@[j] matches Some(t) ==> fs.files().contains_key(sources@[j]@)
                    && fs.files()[sources@[j]@] == t@),
            fs.dependable() ==> forall|j: int|
                0 <= j < i ==> (#[trigger] reads@[j]) is Some == fs.files().contains_key(sources@[j]@),
        decreases sources.len() - i,
    {
        let read = match fs.read_to_string(sources[i].as_str()) {
            Ok(text) => Some(text),
            Err(_) => None,
        };
        reads.push(read);
        i += 1;
    }
    proof {
        let texts = reads_view(reads@);
        assert forall|j: int| 0 <= j < texts.len() implies (#[trigger] texts[j] matches Some(t)
            ==> fs.files().contains_key(lines_view(sources@)[j]) && fs.files()[lines_view(sources@)[j]] == t) by {
            assert(reads@[j] is Some == texts[j] is Some);
        }
    }
    reads
}

/// Reads the configuration sources of a unit whose files the supervisor
/// reports as `unit_files`: the text of each source, or `None` for one that
/// could not be read.
pub fn read_unit_sources<F: FileSystem>(fs: &F, unit_files: &UnitFiles) -> (reads: Vec<Option<String>>)
    ensures
        reads_of(
            fs.files(),
            config_sources(fs.files(), lines_view(unit_files.drop_in_paths@), unit_files.fragment_path@),
            reads_view(reads@),
        ),
        fs.dependable() ==> all_read(reads_view(reads@)),
{
    let sources = get_config_files_for_unit(fs, unit_files);
    let reads = read_sources(fs, &sources);
    proof {
        if fs.dependable() {
            lemma_existing_have_files(
                fs.files(),
                lines_view(unit_files.drop_in_paths@).push(unit_files.fragment_path@),
            );
            assert forall|i: int| 0 <= i < reads.len() implies (#[trigger] reads_view(reads@)[i]) is Some by {
                assert(lines_view(sources@)[i] == sources@[i]@);
                assert(reads@[i] is Some);
            }
        }
    }
    reads
}

/// Whether one of the texts that were read holds the proxy's section. A source
/// that could not be read counts as one without the section.
pub fn any_read_has_section(reads: &Vec<Option<String>>) -> (b: bool)
    ensures
        b == any_has_section(reads_view(reads@)),
{
    let ghost texts = reads_view(reads@);
    let mut i: usize = 0;
    while i < reads.len()
        invariant
            i <= reads.len(),
            texts == reads_view(reads@),
            forall|j: int| 0 <= j < i ==> !text_has_section(#[trigger] texts[j]),
        decreases reads.len() - i,
    {
        let found = match &reads[i] {
            Some(text) => section_directives(text.as_str(), "X-Traefik").is_some(),
            None => false,
        };
        assert(found == text_has_section(texts[i as int]));
        if found {
            return true;
        }
        i += 1;
    }
    false
}

/// A section that was read stands in a file: where the reads of `sources`
/// show the proxy's section, one of the sources has a file that holds it.
pub proof fn lemma_section_read_is_in_files(
    files: Map<Seq<char>, Seq<char>>,
    sources: Seq<Seq<char>>,
    texts: Seq<Option<Seq<char>>>,
)
    requires
        reads_of(files, sources, texts),
        any_has_section(texts),
    ensures
        exists|i: int|
            0 <= i < sources.len() && files.contains_key(#[trigger] sources[i]) && text_has_section(
                Some(files[sources[i]]),
            ),
{
    let k = choose|k: int| 0 <= k < texts.len() && text_has_section(#[trigger] texts[k]);
    assert(texts[k] is Some);
    assert(files.contains_key(sources[k]) && text_has_section(Some(files[sources[k]])));
}

/// Where every source was read, the reads show the proxy's section exactly
/// where one of the files holds it.
pub proof fn lemma_all_sources_read(
    files: Map<Seq<char>, Seq<char>>,
    sources: Seq<Seq<char>>,
    texts: Seq<Option<Seq<char>>>,
)
    requires
        reads_of(files, sources, texts),
        forall|i: int| 0 <= i < texts.len() ==> (#[trigger] texts[i]) is Some,
    ensures
        any_has_section(texts) == exists|i: int|
            0 <= i < sources.len() && text_has_section(Some(files[#[trigger] sources[i]])),
{
    if any_has_section(texts) {
        lemma_section_read_is_in_files(files, sources, texts);
    }
    if exists|i: int| 0 <= i < sources.len() && text_has_section(Some(files[#[trigger] sources[i]])) {
        let k = choose|k: int| 0 <= k < sources.len() && text_has_section(Some(files[#[trigger] sources[k]]));
        assert(texts[k] is Some);
        assert(texts[k] == Some(files[sources[k]]));
        assert(text_has_section(texts[k]));
    }
}

/// Whether every source was read.
pub open spec fn all_read(texts: Seq<Option<Seq<char>>>) -> bool {
    forall|i: int| 0 <= i < texts.len() ==> (#[trigger] texts[i]) is Some
}

/// The texts that were read, in order, where every source was read.
pub open spec fn read_texts(texts: Seq<Option<Seq<char>>>) -> Seq<Seq<char>> {
    Seq::new(texts.len(), |i: int| texts[i]->Some_0)
}

/// The labels that the texts read hold, text after text; `None` where a
/// source could not be read: labels are taken from all of a unit's sources or
/// not at all.
pub fn labels_of_reads(reads: &Vec<Option<String>>) -> (r: Option<Vec<String>>)
    ensures
        r is Some == all_read(reads_view(reads@)),
        r is Some ==> lines_view(r->Some_0@) == labels_of_texts(read_texts(reads_view(reads@))),
{
    let ghost texts = reads_view(reads@);
    let ghost all = read_texts(texts);
    let mut labels: Vec<String> = Vec::new();
    assert(lines_view(labels@) =~= labels_of_texts(all.take(0)));
    let mut i: usize = 0;
    while i < reads.len()
        invariant
            i <= reads.len(),
            texts == reads_view(reads@),
            all == read_texts(texts),
            forall|j: int| 0 <= j < i ==> (#[trigger] texts[j]) is Some,
            lines_view(labels@) == labels_of_texts(all.take(i as int)),
        decreases reads.len() - i,
    {
        let text = match &reads[i] {
            Some(text) => text,
            None => {
                assert(texts[i as int] is None);
                return None;
            },
        };
        let ghost before = lines_view(labels@);
        assert(all.take(i + 1).drop_last() =~= all.take(i as int));
        assert(all.take(i + 1).last() == text@);
        match section_directives(text.as_str(), "X-Traefik") {
            Some(directives) => {
                let mut found = labels_of_directives(&directives);
                let ghost added = lines_view(found@);
                labels.append(&mut found);
                assert(lines_view(labels@) =~= before + added);
            },
            None => {
                assert(before + Seq::<Seq<char>>::empty() =~= before);
            },
        }
        i += 1;
    }
    assert(all.take(i as int) =~= all);
    Some(labels)
}

/// Whether a unit with the configuration sources `sources` is trackable: one of
/// the sources holds the proxy's section. A source that cannot be read counts
/// as one without the section; which sources can be read is for the file
/// store to say, and `any_read_has_section` says what follows from each
/// answer.
pub fn has_traefik_config_in_configuration_files<F: FileSystem>(fs: &F, sources: &Vec<String>) -> (b:
    bool)
    ensures
        exists|texts: Seq<Option<Seq<char>>>| #[trigger]
            reads_of(fs.files(), lines_view(sources@), texts) && b == any_has_section(texts),
        b ==> exists|i: int|
            0 <= i < sources.len() && fs.files().contains_key(#[trigger] lines_view(sources@)[i])
                && text_has_section(Some(fs.files()[lines_view(sources@)[i]])),
        fs.dependable() ==> b == exists|i: int|
            0 <= i < sources.len() && fs.files().contains_key(#[trigger] lines_view(sources@)[i])
                && text_has_section(Some(fs.files()[lines_view(sources@)[i]])),
{
    let reads = read_sources(fs, sources);
    let b = any_read_has_section(&reads);
    proof {
        let paths = lines_view(sources@);
        let texts = reads_view(reads@);
        if b {
            lemma_section_read_is_in_files(fs.files(), paths, texts);
        }
        if fs.dependable() && exists|i: int|
            0 <= i < sources.len() && fs.files().contains_key(#[trigger] paths[i]) && text_has_section(
                Some(fs.files()[paths[i]]),
            ) {
            let k = choose|k: int|
                0 <= k < sources.len() && fs.files().contains_key(#[trigger] paths[k]) && text_has_section(
                    Some(fs.files()[paths[k]]),
                );
            assert(paths[k] == sources@[k]@);
            assert(reads@[k] is Some);
            assert(texts[k] == Some(fs.files()[paths[k]]));
            assert(text_has_section(texts[k]));
        }
    }
    b
}

/// The labels that the configuration sources `sources` hold, file after file.
///
/// Fails with the first source that cannot be read. On a dependable store
/// that is a source without a file; of any other store success is owed only
/// where there is no source to read.
pub fn get_traefik_config_from_configuration_files<F: FileSystem>(fs: &F, sources: &Vec<String>) -> (r:
    Result<Vec<String>, FsError>)
    ensures
        r matches Ok(labels) ==> {
            &&& forall|i: int| 0 <= i < sources.len() ==> fs.files().contains_key(#[trigger] sources@[i]@)
            &&& lines_view(labels@) == labels_of_texts(
                Seq::new(sources@.len(), |i: int| fs.files()[sources@[i]@]),
            )
        },
        sources.len() == 0 ==> r is Ok,
        fs.dependable() ==> r is Ok == forall|i: int|
            0 <= i < sources.len() ==> fs.files().contains_key(#[trigger] sources@[i]@),
{
    let ghost texts = Seq::new(sources@.len(), |i: int| fs.files()[sources@[i]@]);
    let mut labels: Vec<String> = Vec::new();
    assert(lines_view(labels@) =~= labels_of_texts(texts.take(0)));
    let mut i: usize = 0;
    while i < sources.len()
        invariant
            i <= sources.len(),
            texts == Seq::new(sources@.len(), |i: int| fs.files()[sources@[i]@]),
            forall|j: int| 0 <= j < i ==> fs.files().contains_key(#[trigger] sources@[j]@),
            lines_view(labels@) == labels_of_texts(texts.take(i as int)),
        decreases sources.len() - i,
    {
        let text = match fs.read_to_string(sources[i].as_str()) {
            Ok(text) => text,
            Err(e) => {
                assert(fs.dependable() ==> !fs.files().contains_key(sources@[i as int]@));
                return Err(e);
            },
        };
        let ghost before = lines_view(labels@);
        assert(texts.take(i + 1).drop_last() =~= texts.take(i as int));
        assert(texts.take(i + 1).last() == text@);
        match section_directives(text.as_str(), "X-Traefik") {
            Some(directives) => {
                let mut found = labels_of_directives(&directives);
                let ghost added = lines_view(found@);
                labels.append(&mut found);
                assert(lines_view(labels@) =~= before + added);
            },
            None => {
                assert(before + Seq::<Seq<char>>::empty() =~= before);
            },
        }
        i += 1;
    }
    assert(texts.take(i as int) =~= texts);
    Ok(labels)
}

/// The labels of a unit whose files the supervisor reports as `unit_files`.
///
/// Fails where one of the unit's configuration sources cannot be read. On a
/// dependable store that never happens; of any other store success is owed
/// only where the unit has no configuration source, and the unit then has no
/// label.
pub fn get_traefik_yaml_config_from_configuration_files<F: FileSystem>(
    fs: &F,
    unit_files: &UnitFiles,
) -> (r: Result<Vec<String>, FsError>)
    ensures
        r matches Ok(labels) ==> lines_view(labels@) == unit_labels(
            fs.files(),
            lines_view(unit_files.drop_in_paths@),
            unit_files.fragment_path@,
        ),
        config_sources(fs.files(), lines_view(unit_files.drop_in_paths@), unit_files.fragment_path@).len()
            == 0 ==> r is Ok && r->Ok_0.len() == 0,
        fs.dependable() ==> r is Ok,
{
    let sources = get_config_files_for_unit(fs, unit_files);
    let r = get_traefik_config_from_configuration_files(fs, &sources);
    proof {
        if fs.dependable() {
            lemma_existing_have_files(
                fs.files(),
                lines_view(unit_files.drop_in_paths@).push(unit_files.fragment_path@),
            );
            assert forall|i: int| 0 <= i < sources.len() implies fs.files().contains_key(
                #[trigger] sources@[i]@,
            ) by {
                assert(lines_view(sources@)[i] == sources@[i]@);
            }
        }
        if r is Ok {
            let paths = config_sources(
                fs.files(),
                lines_view(unit_files.drop_in_paths@),
                unit_files.fragment_path@,
            );
            assert(Seq::new(sources@.len(), |i: int| fs.files()[sources@[i]@]) =~= Seq::new(
                paths.len(),
                |i: int| fs.files()[paths[i]],
            ));
        }
    }
    r
}

/// The labels of a unit, given what the files hold: those of its configuration
/// sources, source after source.
pub open spec fn unit_labels(
    files: Map<Seq<char>, Seq<char>>,
    drop_ins: Seq<Seq<char>>,
    fragment: Seq<char>,
) -> Seq<Seq<char>> {
    let paths = config_sources(files, drop_ins, fragment);
    labels_of_texts(Seq::new(paths.len(), |i: int| files[paths[i]]))
}

/// What was read of a unit's configuration sources, as mathematical values;
/// `None` for a unit that the supervisor could not resolve.
pub open spec fn unit_reads_view(reads: Option<Vec<Option<String>>>) -> Option<Seq<Option<Seq<char>>>> {
    match reads {
        Some(v) => Some(reads_view(v@)),
        None => None,
    }
}

/// Whether a unit is tracked: its name is that of a service, the supervisor
/// could resolve it, and one of its configuration sources was read and holds
/// the proxy's section.
pub open spec fn trackable(name: Seq<char>, reads: Option<Seq<Option<Seq<char>>>>) -> bool {
    is_service(name) && reads is Some && any_has_section(reads->Some_0)
}

/// Decides whether the unit `name` is tracked, and makes its record if it is.
///
/// `reads` is what reading the unit's configuration sources gave, or `None`
/// where the supervisor could not resolve the unit.
pub fn create_unit(name: String, object_path: String, reads: Option<&Vec<Option<String>>>) -> (r: Option<
    UnitData,
>)
    ensures
        r is Some == trackable(
            name@,
            match reads {
                Some(v) => Some(reads_view(v@)),
                None => None,
            },
        ),
        r is Some ==> r->Some_0.name@ == name@ && r->Some_0.object_path@ == object_path@,
{
    if !is_service_name(name.as_str()) {
        return None;
    }
    match reads {
        Some(reads) => {
            if any_read_has_section(reads) {
                Some(UnitData { name, object_path })
            } else {
                None
            }
        },
        None => None,
    }
}

/// One unit of the supervisor's list: its name, its handle, and what reading
/// its configuration sources gave, or `None` where the supervisor could not
/// resolve it.
#[derive(Debug)]
pub struct ListedUnit {
    pub name: String,
    pub object_path: String,
    pub reads: Option<Vec<Option<String>>>,
}

impl ListedUnit {
    /// Whether the listed unit is tracked.
    pub open spec fn is_trackable(self) -> bool {
        trackable(self.name@, unit_reads_view(self.reads))
    }
}

/// Whether one of the first `upto` units of `listed` has the name `name` and
/// is tracked.
pub open spec fn listed_trackable(listed: Seq<ListedUnit>, upto: int, name: Seq<char>) -> bool {
    exists|i: int| 0 <= i < upto && (#[trigger] listed[i]).name@ == name && listed[i].is_trackable()
}

/// Whether `i` is the last of the first `upto` units of `listed` that has the
/// name `name` and is tracked.
pub open spec fn last_listing(listed: Seq<ListedUnit>, upto: int, name: Seq<char>, i: int) -> bool {
    &&& 0 <= i < upto
    &&& listed[i].name@ == name
    &&& listed[i].is_trackable()
    &&& forall|j: int| i < j < upto ==> !((#[trigger] listed[j]).name@ == name && listed[j].is_trackable())
}

/// Whether `handle` is the handle of the last of the first `upto` units of
/// `listed` that has the name `name` and is tracked.
pub open spec fn last_handle(listed: Seq<ListedUnit>, upto: int, name: Seq<char>, handle: Seq<char>) -> bool {
    exists|i: int| #[trigger] last_listing(listed, upto, name, i) && listed[i].object_path@ == handle
}

/// What a sequence holds after one more item.
pub proof fn lemma_push_contains(s: Seq<Seq<char>>, x: Seq<char>, n: Seq<char>)
    ensures
        s.push(x).contains(n) == (s.contains(n) || n == x),
{
    if s.contains(n) {
        let k = choose|k: int| 0 <= k < s.len() && s[k] == n;
        assert(s.push(x)[k] == n);
    }
    if n == x {
        assert(s.push(x)[s.len() as int] == n);
    }
    if s.push(x).contains(n) {
        let k = choose|k: int| 0 <= k < s.push(x).len() && s.push(x)[k] == n;
        if k < s.len() {
            assert(s[k] == n);
        }
    }
}

/// The registry of the tracked units among `listed`.
///
/// A name is in the registry exactly where a listed unit of that name is
/// tracked, and its handle is that of the last such unit.
pub fn list_units(listed: Vec<ListedUnit>) -> (registry: UnitRegistry)
    ensures
        registry.well_formed(),
        forall|name: Seq<char>|
            registry.tracks(name) == #[trigger] listed_trackable(listed@, listed.len() as int, name),
        forall|k: int|
            0 <= k < registry.names().len() ==> last_handle(
                listed@,
                listed.len() as int,
                #[trigger] registry.names()[k],
                registry.handles()[k],
            ),
{
    let mut registry = UnitRegistry::new();
    let mut n: usize = 0;
    while n < listed.len()
        invariant
            n <= listed.len(),
            registry.well_formed(),
            forall|name: Seq<char>| registry.tracks(name) == #[trigger] listed_trackable(listed@, n as int, name),
            forall|k: int|
                0 <= k < registry.names().len() ==> last_handle(
                    listed@,
                    n as int,
                    #[trigger] registry.names()[k],
                    registry.handles()[k],
                ),
        decreases listed.len() - n,
    {
        let entry = &listed[n];
        let reads = match &entry.reads {
            Some(v) => Some(v),
            None => None,
        };
        let ghost before = registry;
        let ghost here = listed@[n as int];
        match create_unit(entry.name.clone(), entry.object_path.clone(), reads) {
            Some(unit) => {
                assert(here.is_trackable());
                registry.insert(unit);
                proof {
                    let names = registry.names();
                    let place = if before.tracks(here.name@) {
                        before.names().index_of(here.name@)
                    } else {
                        before.names().len() as int
                    };
                    assert(names[place] == here.name@);
                    assert(registry.handles()[place] == here.object_path@);
                    assert forall|name: Seq<char>| registry.tracks(name) == #[trigger] listed_trackable(
                        listed@,
                        n + 1,
                        name,
                    ) by {
                        lemma_push_contains(before.names(), here.name@, name);
                        if listed_trackable(listed@, n as int, name) {
                            let i = choose|i: int|
                                0 <= i < n && (#[trigger] listed@[i]).name@ == name && listed@[i].is_trackable();
                            assert(0 <= i < n + 1 && listed@[i].name@ == name && listed@[i].is_trackable());
                        }
                        if name == here.name@ {
                            assert(listed@[n as int].name@ == name && listed@[n as int].is_trackable());
                        }
                        if listed_trackable(listed@, n + 1, name) {
                            let i = choose|i: int|
                                0 <= i < n + 1 && (#[trigger] listed@[i]).name@ == name
                                    && listed@[i].is_trackable();
                            if i < n {
                                assert(listed_trackable(listed@, n as int, name));
                            }
                        }
                    }
                    assert forall|k: int| 0 <= k < names.len() implies last_handle(
                        listed@,
                        n + 1,
                        #[trigger] names[k],
                        registry.handles()[k],
                    ) by {
                        if k == place {
                            assert(last_listing(listed@, n + 1, names[k], n as int));
                        } else {
                            assert(names[k] == before.names()[k]);
                            assert(registry.handles()[k] == before.handles()[k]);
                            assert(last_handle(listed@, n as int, before.names()[k], before.handles()[k]));
                            let i = choose|i: int| #[trigger]
                                last_listing(listed@, n as int, before.names()[k], i) && listed@[i].object_path@
                                    == before.handles()[k];
                            assert(names[k] != names[place]);
                            assert(last_listing(listed@, n + 1, names[k], i));
                        }
                    }
                }
            },
            None => {
                proof {
                    assert(!here.is_trackable());
                    assert forall|name: Seq<char>| registry.tracks(name) == #[trigger] listed_trackable(
                        listed@,
                        n + 1,
                        name,
                    ) by {
                        if listed_trackable(listed@, n as int, name) {
                            let i = choose|i: int|
                                0 <= i < n && (#[trigger] listed@[i]).name@ == name && listed@[i].is_trackable();
                            assert(0 <= i < n + 1 && listed@[i].name@ == name && listed@[i].is_trackable());
                        }
                        if listed_trackable(listed@, n + 1, name) {
                            let i = choose|i: int|
                                0 <= i < n + 1 && (#[trigger] listed@[i]).name@ == name
                                    && listed@[i].is_trackable();
                            assert(i < n);
                            assert(listed_trackable(listed@, n as int, name));
                        }
                    }
                    assert forall|k: int| 0 <= k < registry.names().len() implies last_handle(
                        listed@,
                        n + 1,
                        #[trigger] registry.names()[k],
                        registry.handles()[k],
                    ) by {
                        assert(last_handle(listed@, n as int, registry.names()[k], registry.handles()[k]));
                        let i = choose|i: int| #[trigger]
                            last_listing(listed@, n as int, registry.names()[k], i) && listed@[i].object_path@
                                == registry.handles()[k];
                        assert(last_listing(listed@, n + 1, registry.names()[k], i));
                    }
                }
            },
        }
        n += 1;
    }
    registry
}

/// Whether the supervisor has to be asked about a unit that it has just
/// loaded: only where the unit is a service that is not tracked yet.
pub fn needs_resolving(registry: &UnitRegistry, args: &NewUnitArgs) -> (b: bool)
    ensures
        b == (is_service(args.id@) && !registry.tracks(args.id@)),
{
    is_service_name(args.id.as_str()) && !registry.contains_key(args.id.as_str())
}

/// Takes note of a unit that the supervisor has just loaded: where it is not
/// tracked yet and is to be tracked, it is tracked from now on, and the event
/// to publish comes back. In every other case nothing changes.
///
/// `reads` is what reading the unit's configuration sources gave, or `None`
/// where the supervisor could not resolve the unit or was not asked.
pub fn on_unit_new(registry: &mut UnitRegistry, args: &NewUnitArgs, reads: Option<&Vec<Option<String>>>) -> (r:
    Option<NewUnit>)
    requires
        old(registry).well_formed(),
    ensures
        final(registry).well_formed(),
        forall|name: Seq<char>| old(registry).tracks(name) ==> final(registry).tracks(name),
        r is Some == (!old(registry).tracks(args.id@) && trackable(
            args.id@,
            match reads {
                Some(v) => Some(reads_view(v@)),
                None => None,
            },
        )),
        r is Some ==> {
            &&& r->Some_0.unit@ == args.id@
            &&& final(registry).names() == old(registry).names().push(args.id@)
            &&& final(registry).handles() == old(registry).handles().push(args.unit@)
        },
        r is None ==> final(registry).names() == old(registry).names() && final(registry).handles() == old(
            registry,
        ).handles(),
{
    if registry.contains_key(args.id.as_str()) {
        return None;
    }
    match create_unit(args.id.clone(), args.unit.clone(), reads) {
        Some(unit) => {
            let event = NewUnit { unit: unit.name.clone() };
            registry.insert(unit);
            Some(event)
        },
        None => None,
    }
}

/// What the event loop keeps between two events.
///
/// The loop listens to three kinds of sources: the units that come to be
/// tracked, the state changes of the tracked units, merged into one, and the
/// requests to end.
#[derive(Debug, Clone, Copy, PartialEq, Eq, Structural)]
pub struct Multiplexer {
    /// Whether the merged state changes hold a source that may still report.
    /// While they hold none they are not listened to: a merge without sources
    /// ends at once, and that end says nothing.
    pub armed: bool,
    /// Whether further units may come to be tracked.
    pub new_units_open: bool,
    /// Whether the process was asked to end.
    pub stopped: bool,
}

/// What one of the loop's sources reports.
#[derive(Debug)]
pub enum MuxEvent {
    /// A unit is tracked from now on.
    NewUnit(NewUnit),
    /// No further unit will come to be tracked.
    NewUnitsClosed,
    /// The unit `unit_name` changed its state to `state`; `None` where the new
    /// state could not be read.
    StateChanged { unit_name: String, state: Option<String> },
    /// No tracked unit will report a change any more.
    ChangesExhausted,
    /// The process was asked to end.
    Terminate,
}

/// What the loop has to do after an event.
#[derive(Debug)]
pub enum MuxAction {
    /// Add the state changes of the unit of this name to the merged ones.
    Subscribe(String),
    /// Hand the event on to the consumer.
    Forward(JobEvent),
    /// Nothing.
    Nothing,
}

/// What a `MuxEvent` holds, as mathematical values.
pub enum MuxEventView {
    NewUnit(Seq<char>),
    NewUnitsClosed,
    StateChanged(Seq<char>, Option<Seq<char>>),
    ChangesExhausted,
    Terminate,
}

/// What a `MuxAction` holds, as mathematical values.
pub enum MuxActionView {
    Subscribe(Seq<char>),
    Forward(Seq<char>, bool),
    Nothing,
}

impl View for MuxEvent {
    type V = MuxEventView;

    open spec fn view(&self) -> MuxEventView {
        match self {
            MuxEvent::NewUnit(n) => MuxEventView::NewUnit(n.unit@),
            MuxEvent::NewUnitsClosed => MuxEventView::NewUnitsClosed,
            MuxEvent::StateChanged { unit_name, state } => MuxEventView::StateChanged(
                unit_name@,
                match state {
                    Some(s) => Some(s@),
                    None => None,
                },
            ),
            MuxEvent::ChangesExhausted => MuxEventView::ChangesExhausted,
            MuxEvent::Terminate => MuxEventView::Terminate,
        }
    }
}

impl View for MuxAction {
    type V = MuxActionView;

    open spec fn view(&self) -> MuxActionView {
        match self {
            MuxAction::Subscribe(name) => MuxActionView::Subscribe(name@),
            MuxAction::Forward(job) => MuxActionView::Forward(job.unit_name@, job.started),
            MuxAction::Nothing => MuxActionView::Nothing,
        }
    }
}

impl Multiplexer {
    /// The state in which the loop starts, with `initial_units` units tracked.
    pub open spec fn initial(initial_units: nat) -> Multiplexer {
        Multiplexer { armed: initial_units > 0, new_units_open: true, stopped: false }
    }

    /// Whether the loop has ended: it was asked to, or no source is left that
    /// could report.
    pub open spec fn is_finished(self) -> bool {
        self.stopped || (!self.new_units_open && !self.armed)
    }

    /// The state after `event`.
    pub open spec fn after(self, event: MuxEventView) -> Multiplexer {
        match event {
            MuxEventView::NewUnit(_) => Multiplexer { armed: true, ..self },
            MuxEventView::NewUnitsClosed => Multiplexer { new_units_open: false, ..self },
            MuxEventView::StateChanged(_, _) => self,
            MuxEventView::ChangesExhausted => Multiplexer { armed: false, ..self },
            MuxEventView::Terminate => Multiplexer { stopped: true, ..self },
        }
    }

    /// What the loop has to do after `event`.
    pub open spec fn action(event: MuxEventView) -> MuxActionView {
        match event {
            MuxEventView::NewUnit(unit) => MuxActionView::Subscribe(unit),
            MuxEventView::StateChanged(unit, Some(state)) => MuxActionView::Forward(
                unit,
                state == active_state(),
            ),
            _ => MuxActionView::Nothing,
        }
    }

    /// The state in which the loop starts, with `initial_units` units tracked.
    pub fn new(initial_units: usize) -> (m: Self)
        ensures
            m == Self::initial(initial_units as nat),
    {
        Multiplexer { armed: initial_units > 0, new_units_open: true, stopped: false }
    }

    /// Whether the loop has ended.
    pub fn finished(&self) -> (b: bool)
        ensures
            b == self.is_finished(),
    {
        self.stopped || (!self.new_units_open && !self.armed)
    }

    /// Whether the loop listens for units that come to be tracked.
    pub fn polls_new_units(&self) -> (b: bool)
        ensures
            b == (self.new_units_open && !self.is_finished()),
    {
        self.new_units_open && !self.stopped
    }

    /// Whether the loop listens to the merged state changes.
    pub fn polls_changes(&self) -> (b: bool)
        ensures
            b == (self.armed && !self.is_finished()),
    {
        self.armed && !self.stopped
    }

    /// Takes note of `event` and says what the loop has to do.
    pub fn step(&mut self, event: MuxEvent) -> (action: MuxAction)
        ensures
            *final(self) == old(self).after(event@),
            action@ == Self::action(event@),
    {
        match event {
            MuxEvent::NewUnit(unit) => {
                self.armed = true;
                MuxAction::Subscribe(unit.unit)
            },
            MuxEvent::NewUnitsClosed => {
                self.new_units_open = false;
                MuxAction::Nothing
            },
            MuxEvent::StateChanged { unit_name, state } => match state {
                Some(state) => MuxAction::Forward(job_event_for_state(unit_name.as_str(), state.as_str())),
                None => MuxAction::Nothing,
            },
            MuxEvent::ChangesExhausted => {
                self.armed = false;
                MuxAction::Nothing
            },
            MuxEvent::Terminate => {
                self.stopped = true;
                MuxAction::Nothing
            },
        }
    }
}

} // verus!
