//! Keeping one configuration file for each started unit.

use vstd::prelude::*;
use crate::codec::yaml_encoded;
use crate::dbus::{
    all_read, config_sources, labels_of_reads, labels_of_texts, read_texts, read_unit_sources, reads_of,
    reads_view, JobEvent, UnitData, UnitFiles, UnitRegistry,
};
use crate::helpers::{sanitize_filename, sanitized};
use crate::infra::{FileSystem, FsError};
use crate::text::chars_of;
use crate::yaml::{
    all_lines_ok, build_traefik_file_yaml, built, first_bad_line, line_error, lines_view, unwrapped,
    BuildError,
};

verus! {

/// Why a unit's file was not brought up to date.
#[derive(Debug)]
pub enum EngineError {
    /// The unit's labels give no document.
    Build(BuildError),
    /// The file store refused an operation.
    Fs(FsError),
    /// The unit is not tracked.
    MissingUnit,
    /// The supervisor could not say where the unit's files stand.
    Unresolved,
    /// One of the unit's configuration sources could not be read.
    Unreadable,
}

/// The ending of a unit's configuration file.
pub open spec fn file_suffix() -> Seq<char> {
    ".yml"@
}

/// `name` below the directory `dir`: the two are set side by side, with a `/`
/// between them unless `dir` is empty or ends in one.
pub open spec fn joined(dir: Seq<char>, name: Seq<char>) -> Seq<char> {
    if dir.len() == 0 || dir.last() == '/' {
        dir + name
    } else {
        dir + seq!['/'] + name
    }
}

/// The path of the configuration file of the unit `unit` below `dir`.
pub open spec fn unit_file_path(dir: Seq<char>, unit: Seq<char>) -> Seq<char> {
    joined(dir, sanitized(unit) + file_suffix())
}

/// The files after a unit's text was written: `text` stands at `dest` unless a
/// file stood there already, which is left as it is.
pub open spec fn written(files: Map<Seq<char>, Seq<char>>, dest: Seq<char>, text: Seq<char>) -> Map<
    Seq<char>,
    Seq<char>,
> {
    if files.contains_key(dest) {
        files
    } else {
        files.insert(dest, text)
    }
}

/// The path of the configuration file of the unit `unit` below `traefik_dir`.
pub fn destination(traefik_dir: &str, unit: &str) -> (dest: String)
    ensures
        dest@ == unit_file_path(traefik_dir@, unit@),
{
    let dir = chars_of(traefik_dir);
    let mut dest = String::from_str(traefik_dir);
    if dir.len() > 0 && dir[dir.len() - 1] != '/' {
        dest.append("/");
        proof {
            reveal_strlit("/");
            assert("/"@ =~= seq!['/']);
        }
    }
    let name = sanitize_filename(unit);
    dest.append(name.as_str());
    dest.append(".yml");
    assert(dest@ =~= unit_file_path(traefik_dir@, unit@));
    dest
}

/// Writes the text `yaml` for the unit `unit`, unless the unit has a file already.
pub fn write_unit_yaml<F: FileSystem>(unit: &str, yaml: String, fs: &mut F, traefik_dir: &str) -> (r:
    Result<(), FsError>)
    ensures
        r is Ok ==> final(fs).files() == written(
            old(fs).files(),
            unit_file_path(traefik_dir@, unit@),
            yaml@,
        ),
        old(fs).files().contains_key(unit_file_path(traefik_dir@, unit@)) ==> r is Ok,
        final(fs).files().remove(unit_file_path(traefik_dir@, unit@)) == old(fs).files().remove(
            unit_file_path(traefik_dir@, unit@),
        ),
        old(fs).dependable() ==> r is Ok && final(fs).dependable(),
{
    let dest = destination(traefik_dir, unit);
    if fs.file_exists(dest.as_str()) {
        return Ok(());
    }
    fs.write(dest.as_str(), yaml.as_str())
}

/// Removes the file of the unit `unit`, if it has one.
pub fn remove_unit_yaml<F: FileSystem>(unit: &str, fs: &mut F, traefik_dir: &str) -> (r: Result<
    (),
    FsError,
>)
    ensures
        r is Ok ==> final(fs).files() == old(fs).files().remove(unit_file_path(traefik_dir@, unit@)),
        !old(fs).files().contains_key(unit_file_path(traefik_dir@, unit@)) ==> r is Ok,
        final(fs).files().remove(unit_file_path(traefik_dir@, unit@)) == old(fs).files().remove(
            unit_file_path(traefik_dir@, unit@),
        ),
        old(fs).dependable() ==> r is Ok && final(fs).dependable(),
{
    let dest = destination(traefik_dir, unit);
    if !fs.file_exists(dest.as_str()) {
        assert(fs.files().remove(dest@) =~= fs.files());
        return Ok(());
    }
    fs.remove_file(dest.as_str())
}

/// Writing a unit's text twice leaves what the first writing left: the second
/// finds the file and changes nothing.
pub proof fn lemma_write_twice(
    files: Map<Seq<char>, Seq<char>>,
    dest: Seq<char>,
    first: Seq<char>,
    second: Seq<char>,
)
    ensures
        written(files, dest, first).contains_key(dest),
        written(written(files, dest, first), dest, second) == written(files, dest, first),
{
}

/// Removing a unit's file leaves none at its path, changes nothing where there
/// was none, and a writing after it puts the new text there.
pub proof fn lemma_remove_then_write(files: Map<Seq<char>, Seq<char>>, dest: Seq<char>, text: Seq<char>)
    ensures
        !files.remove(dest).contains_key(dest),
        !files.contains_key(dest) ==> files.remove(dest) == files,
        written(files.remove(dest), dest, text) == files.insert(dest, text),
        written(files.remove(dest), dest, text)[dest] == text,
{
    assert(!files.contains_key(dest) ==> files.remove(dest) =~= files);
    assert(files.remove(dest).insert(dest, text) =~= files.insert(dest, text));
}

/// Whether `after` and `r` can follow from bringing one unit's file up to
/// date, where `labels` are the unit's labels.
///
/// `before` and `after` are the files before and behind. No file but the
/// unit's changes. For a stopped unit success means that its file is gone, and
/// is owed where it had none. For a started unit success means that the labels
/// gave a text, and that the text stands at the unit's path unless a file
/// stood there, which is never touched; success is owed where the labels give
/// a text and the file stands already. Where the labels give no text, that is
/// the error and nothing has changed, whatever the file store did: no file is
/// ever written from labels that are not all sound. Every other failure is
/// the file store's, and `dependable` says whether the store was dependable
/// before: a dependable store never fails, so that a stopped unit always
/// loses its file and a started unit with sound labels always has one.
pub open spec fn transition_outcome(
    before: Map<Seq<char>, Seq<char>>,
    after: Map<Seq<char>, Seq<char>>,
    started: bool,
    unit: Seq<char>,
    labels: Seq<Seq<char>>,
    dir: Seq<char>,
    r: Result<(), EngineError>,
    dependable: bool,
) -> bool {
    let dest = unit_file_path(dir, unit);
    let doc = unwrapped(built(labels, labels.len() as int));
    &&& after.remove(dest) == before.remove(dest)
    &&& r is Err ==> r->Err_0 is Build || (r->Err_0 is Fs && !dependable)
    &&& !started ==> {
        &&& r is Ok ==> after == before.remove(dest)
        &&& !before.contains_key(dest) ==> r is Ok
        &&& !(r matches Err(EngineError::Build(_)))
    }
    &&& started ==> {
        &&& before.contains_key(dest) ==> after == before
        &&& r is Ok ==> all_lines_ok(labels) && yaml_encoded(doc) is Some && after == written(
            before,
            dest,
            yaml_encoded(doc)->Some_0,
        )
        &&& all_lines_ok(labels) && yaml_encoded(doc) is Some ==> {
            &&& before.contains_key(dest) ==> r is Ok
            &&& !(r matches Err(EngineError::Build(_)))
        }
        &&& !(all_lines_ok(labels) && yaml_encoded(doc) is Some) ==> {
            &&& after == before
            &&& r matches Err(EngineError::Build(e))
            &&& if all_lines_ok(labels) {
                e == BuildError::Unwritable
            } else {
                exists|i: int| #[trigger] first_bad_line(labels, i) && e == line_error(labels[i])
            }
        }
    }
}

/// Brings the file of the unit `unit` up to date, where `labels` are the
/// unit's labels: written from them where the unit has started, removed where
/// it has stopped.
pub fn apply_labels<F: FileSystem>(
    started: bool,
    unit: &UnitData,
    labels: Vec<String>,
    fs: &mut F,
    traefik_dir: &str,
) -> (r: Result<(), EngineError>)
    ensures
        transition_outcome(
            old(fs).files(),
            final(fs).files(),
            started,
            unit.name@,
            lines_view(labels@),
            traefik_dir@,
            r,
            old(fs).dependable(),
        ),
        old(fs).dependable() ==> final(fs).dependable(),
{
    if started {
        let yaml = match build_traefik_file_yaml(labels) {
            Ok(yaml) => yaml,
            Err(e) => {
                return Err(EngineError::Build(e));
            },
        };
        match write_unit_yaml(unit.name.as_str(), yaml, fs, traefik_dir) {
            Ok(()) => Ok(()),
            Err(e) => Err(EngineError::Fs(e)),
        }
    } else {
        match remove_unit_yaml(unit.name.as_str(), fs, traefik_dir) {
            Ok(()) => Ok(()),
            Err(e) => Err(EngineError::Fs(e)),
        }
    }
}

/// Whether `after` and `r` can follow from bringing one unit's file up to
/// date, where `reads` is what reading the unit's configuration sources gave,
/// or `None` where the supervisor could not say where they stand.
///
/// A stopped unit loses its file whatever was read. A started unit whose
/// sources are not known, or one of whose sources could not be read, is an
/// error that changes nothing. Every other started unit is brought up to date
/// from the labels that the texts hold, as `transition_outcome` says.
pub open spec fn reads_transition(
    before: Map<Seq<char>, Seq<char>>,
    after: Map<Seq<char>, Seq<char>>,
    started: bool,
    unit: Seq<char>,
    reads: Option<Seq<Option<Seq<char>>>>,
    dir: Seq<char>,
    r: Result<(), EngineError>,
    dependable: bool,
) -> bool {
    if !started {
        transition_outcome(before, after, false, unit, Seq::empty(), dir, r, dependable)
    } else if reads is None {
        after == before && r == Err::<(), EngineError>(EngineError::Unresolved)
    } else if !all_read(reads->Some_0) {
        after == before && r == Err::<(), EngineError>(EngineError::Unreadable)
    } else {
        transition_outcome(
            before,
            after,
            true,
            unit,
            labels_of_texts(read_texts(reads->Some_0)),
            dir,
            r,
            dependable,
        )
    }
}

/// Brings the file of the unit `unit` up to date.
///
/// `reads` is what reading the unit's configuration sources gave, or `None`
/// where the supervisor could not say where they stand; it matters for a
/// started unit only.
pub fn transition<F: FileSystem>(
    started: bool,
    unit: &UnitData,
    reads: Option<&Vec<Option<String>>>,
    fs: &mut F,
    traefik_dir: &str,
) -> (r: Result<(), EngineError>)
    ensures
        reads_transition(
            old(fs).files(),
            final(fs).files(),
            started,
            unit.name@,
            match reads {
                Some(v) => Some(reads_view(v@)),
                None => None,
            },
            traefik_dir@,
            r,
            old(fs).dependable(),
        ),
        old(fs).dependable() ==> final(fs).dependable(),
{
    if !started {
        let none: Vec<String> = Vec::new();
        assert(lines_view(none@) =~= Seq::<Seq<char>>::empty());
        return apply_labels(false, unit, none, fs, traefik_dir);
    }
    let reads = match reads {
        Some(reads) => reads,
        None => {
            return Err(EngineError::Unresolved);
        },
    };
    match labels_of_reads(reads) {
        Some(labels) => apply_labels(true, unit, labels, fs, traefik_dir),
        None => Err(EngineError::Unreadable),
    }
}

/// What reading the configuration sources of a unit gives where each of them
/// can be read: the texts of the files, in the order of the sources.
pub open spec fn source_texts(
    files: Map<Seq<char>, Seq<char>>,
    drop_ins: Seq<Seq<char>>,
    fragment: Seq<char>,
) -> Seq<Option<Seq<char>>> {
    let paths = config_sources(files, drop_ins, fragment);
    Seq::new(paths.len(), |i: int| Some(files[paths[i]]))
}

/// Brings the file of the unit `unit` up to date: written from the unit's
/// labels where the unit has started, removed where it has stopped.
///
/// `unit_files` is what the supervisor reports of the unit's files; they are
/// read only for a started unit. Which of them can be read is for the file
/// store to say, and `transition` says what follows from each answer; on a
/// dependable store each of them is read.
pub fn handle_service_state_changed<F: FileSystem>(
    started: bool,
    unit: &UnitData,
    unit_files: &UnitFiles,
    fs: &mut F,
    traefik_dir: &str,
) -> (r: Result<(), EngineError>)
    ensures
        !started ==> reads_transition(
            old(fs).files(),
            final(fs).files(),
            false,
            unit.name@,
            None,
            traefik_dir@,
            r,
            old(fs).dependable(),
        ),
        old(fs).dependable() ==> final(fs).dependable(),
        started ==> exists|texts: Seq<Option<Seq<char>>>| #[trigger]
            reads_of(
                old(fs).files(),
                config_sources(
                    old(fs).files(),
                    lines_view(unit_files.drop_in_paths@),
                    unit_files.fragment_path@,
                ),
                texts,
            ) && reads_transition(
                old(fs).files(),
                final(fs).files(),
                true,
                unit.name@,
                Some(texts),
                traefik_dir@,
                r,
                old(fs).dependable(),
            ),
        started && old(fs).dependable() ==> reads_transition(
            old(fs).files(),
            final(fs).files(),
            true,
            unit.name@,
            Some(
                source_texts(old(fs).files(), lines_view(unit_files.drop_in_paths@), unit_files.fragment_path@),
            ),
            traefik_dir@,
            r,
            true,
        ),
{
    if started {
        let reads = read_unit_sources(&*fs, unit_files);
        proof {
            if fs.dependable() {
                assert(reads_view(reads@) =~= source_texts(
                    fs.files(),
                    lines_view(unit_files.drop_in_paths@),
                    unit_files.fragment_path@,
                ));
            }
        }
        transition(true, unit, Some(&reads), fs, traefik_dir)
    } else {
        transition(false, unit, None, fs, traefik_dir)
    }
}

/// Applies one event of the consumer's queue: the file of the event's unit is
/// brought up to date, unless the unit is not tracked, which is an error that
/// changes nothing.
///
/// `reads` is what reading the unit's configuration sources gave, or `None`
/// where the supervisor could not say where they stand; it matters for a
/// started unit only.
pub fn process_job<F: FileSystem>(
    registry: &UnitRegistry,
    job: &JobEvent,
    reads: Option<&Vec<Option<String>>>,
    fs: &mut F,
    traefik_dir: &str,
) -> (r: Result<(), EngineError>)
    ensures
        !registry.tracks(job.unit_name@) ==> (r matches Err(EngineError::MissingUnit)) && final(fs).files()
            == old(fs).files(),
        registry.tracks(job.unit_name@) ==> reads_transition(
            old(fs).files(),
            final(fs).files(),
            job.started,
            job.unit_name@,
            match reads {
                Some(v) => Some(reads_view(v@)),
                None => None,
            },
            traefik_dir@,
            r,
            old(fs).dependable(),
        ),
        old(fs).dependable() ==> final(fs).dependable(),
{
    match registry.get(job.unit_name.as_str()) {
        Some(unit) => transition(job.started, unit, reads, fs, traefik_dir),
        None => Err(EngineError::MissingUnit),
    }
}

/// What the supervisor and the files say of one unit when the files are
/// reconciled: whether the unit has started, and what reading its
/// configuration sources gave; each is `None` where the supervisor could not
/// say.
#[derive(Debug)]
pub struct UnitReport {
    pub name: String,
    pub running: Option<bool>,
    pub reads: Option<Vec<Option<String>>>,
}

/// The index of the first of `reports` that is about the unit `name`, or their
/// number where none is.
pub open spec fn report_index(reports: Seq<UnitReport>, name: Seq<char>, from: int) -> int
    decreases reports.len() - from,
{
    if 0 <= from < reports.len() && reports[from].name@ != name {
        report_index(reports, name, from + 1)
    } else {
        from
    }
}

/// Whether the unit `name` counts as started: the first report about it says
/// so. A unit without a report, or of which the supervisor could not say,
/// counts as stopped.
pub open spec fn counts_as_started(reports: Seq<UnitReport>, name: Seq<char>) -> bool {
    let i = report_index(reports, name, 0);
    i < reports.len() && reports[i].running == Some(true)
}

/// What reading the sources of the unit `name` gave: what the first report
/// about it says; `None` for a unit without a report.
pub open spec fn reported_reads(reports: Seq<UnitReport>, name: Seq<char>) -> Option<Seq<Option<Seq<char>>>> {
    let i = report_index(reports, name, 0);
    if i < reports.len() {
        match reports[i].reads {
            Some(v) => Some(reads_view(v@)),
            None => None,
        }
    } else {
        None
    }
}

/// Whether `states` and `outcomes` can follow from bringing the files of the
/// units `names` up to date one after the other: `states` are the files
/// before the first unit, between two units, and behind the last, and
/// `dependable` says whether the store was dependable before the first.
pub open spec fn reconciled(
    states: Seq<Map<Seq<char>, Seq<char>>>,
    names: Seq<Seq<char>>,
    reports: Seq<UnitReport>,
    dir: Seq<char>,
    outcomes: Seq<Result<(), EngineError>>,
    dependable: bool,
) -> bool {
    &&& states.len() == names.len() + 1
    &&& outcomes.len() == names.len()
    &&& forall|i: int|
        0 <= i < names.len() ==> reads_transition(
            states[i],
            states[i + 1],
            counts_as_started(reports, #[trigger] names[i]),
            names[i],
            reported_reads(reports, names[i]),
            dir,
            outcomes[i],
            dependable,
        )
}

/// The first of `reports` that is about the unit `name`.
pub fn find_report<'a>(reports: &'a Vec<UnitReport>, name: &str) -> (r: Option<&'a UnitReport>)
    ensures
        match r {
            Some(report) => report_index(reports@, name@, 0) < reports.len() && *report == reports@[report_index(
                reports@,
                name@,
                0,
            )],
            None => report_index(reports@, name@, 0) == reports.len(),
        },
{
    let wanted = chars_of(name);
    let mut i: usize = 0;
    while i < reports.len()
        invariant
            i <= reports.len(),
            wanted@ == name@,
            report_index(reports@, name@, 0) == report_index(reports@, name@, i as int),
        decreases reports.len() - i,
    {
        let have = chars_of(reports[i].name.as_str());
        if crate::text::same_chars(&have, &wanted) {
            return Some(&reports[i]);
        }
        i += 1;
    }
    None
}

/// Brings the file of every tracked unit up to date, one after the other in
/// the order of the registry.
///
/// `reports` is what the supervisor and the files said of the units. A unit
/// whose file could not be brought up to date does not stop the others: its
/// error stands in its place of the result.
pub fn reconcile<F: FileSystem>(
    registry: &UnitRegistry,
    reports: &Vec<UnitReport>,
    fs: &mut F,
    traefik_dir: &str,
) -> (outcomes: Vec<Result<(), EngineError>>)
    ensures
        exists|states: Seq<Map<Seq<char>, Seq<char>>>| #[trigger]
            reconciled(states, registry.names(), reports@, traefik_dir@, outcomes@, old(fs).dependable())
                && states[0] == old(fs).files() && states.last() == final(fs).files(),
        old(fs).dependable() ==> final(fs).dependable(),
{
    let mut outcomes: Vec<Result<(), EngineError>> = Vec::new();
    let ghost mut states: Seq<Map<Seq<char>, Seq<char>>> = seq![fs.files()];
    let ghost names = registry.names();
    let mut i: usize = 0;
    while i < registry.len()
        invariant
            i <= names.len(),
            names == registry.names(),
            states.len() == i + 1,
            outcomes.len() == i,
            states[0] == old(fs).files(),
            states.last() == fs.files(),
            old(fs).dependable() ==> fs.dependable(),
            forall|k: int|
                0 <= k < i ==> reads_transition(
                    states[k],
                    states[k + 1],
                    counts_as_started(reports@, #[trigger] names[k]),
                    names[k],
                    reported_reads(reports@, names[k]),
                    traefik_dir@,
                    outcomes@[k],
                    old(fs).dependable(),
                ),
        decreases names.len() - i,
    {
        let unit = registry.unit_at(i);
        let (started, reads) = match find_report(reports, unit.name.as_str()) {
            Some(report) => (
                match report.running {
                    Some(running) => running,
                    None => false,
                },
                match &report.reads {
                    Some(v) => Some(v),
                    None => None,
                },
            ),
            None => (false, None),
        };
        let ghost before = states;
        let ghost done = outcomes@;
        let r = transition(started, unit, reads, fs, traefik_dir);
        outcomes.push(r);
        proof {
            states = before.push(fs.files());
            assert forall|k: int| 0 <= k < i + 1 implies reads_transition(
                states[k],
                states[k + 1],
                counts_as_started(reports@, #[trigger] names[k]),
                names[k],
                reported_reads(reports@, names[k]),
                traefik_dir@,
                outcomes@[k],
                old(fs).dependable(),
            ) by {
                if k < i {
                    assert(states[k] == before[k]);
                    assert(states[k + 1] == before[k + 1]);
                    assert(outcomes@[k] == done[k]);
                }
            }
        }
        i += 1;
    }
    proof {
        assert(reconciled(states, names, reports@, traefik_dir@, outcomes@, old(fs).dependable()));
    }
    outcomes
}

/// A started unit that is started once more keeps its file as it is: the
/// second time finds the file and writes nothing, whatever the labels say by
/// then and whatever the store is like. Where the labels still give a text,
/// the second time succeeds.
pub proof fn lemma_started_twice(
    files: Seq<Map<Seq<char>, Seq<char>>>,
    unit: Seq<char>,
    first_labels: Seq<Seq<char>>,
    second_labels: Seq<Seq<char>>,
    dir: Seq<char>,
    second: Result<(), EngineError>,
    dependable: bool,
)
    requires
        files.len() == 3,
        transition_outcome(files[0], files[1], true, unit, first_labels, dir, Ok(()), dependable),
        transition_outcome(files[1], files[2], true, unit, second_labels, dir, second, dependable),
    ensures
        files[1].contains_key(unit_file_path(dir, unit)),
        files[2] == files[1],
        second_labels == first_labels ==> second is Ok,
{
}

/// A unit that stops loses its file, and one that had none loses nothing; when
/// it starts again, its file holds the text that its labels give by then.
pub proof fn lemma_stopped_then_started(
    files: Seq<Map<Seq<char>, Seq<char>>>,
    unit: Seq<char>,
    labels: Seq<Seq<char>>,
    dir: Seq<char>,
    dependable: bool,
)
    requires
        files.len() == 3,
        transition_outcome(files[0], files[1], false, unit, labels, dir, Ok(()), dependable),
        transition_outcome(files[1], files[2], true, unit, labels, dir, Ok(()), dependable),
    ensures
        !files[1].contains_key(unit_file_path(dir, unit)),
        !files[0].contains_key(unit_file_path(dir, unit)) ==> files[1] == files[0],
        files[2].contains_key(unit_file_path(dir, unit)),
        Some(files[2][unit_file_path(dir, unit)]) == yaml_encoded(
            unwrapped(built(labels, labels.len() as int)),
        ),
{
    let dest = unit_file_path(dir, unit);
    assert(!files[0].contains_key(dest) ==> files[0].remove(dest) =~= files[0]);
}

/// A started unit whose transition cannot be made leaves no trace: where its
/// sources are not known, one of them could not be read, or its labels give no
/// text, the transition fails and every file is as it was.
pub proof fn lemma_failed_start_changes_nothing(
    before: Map<Seq<char>, Seq<char>>,
    after: Map<Seq<char>, Seq<char>>,
    unit: Seq<char>,
    reads: Option<Seq<Option<Seq<char>>>>,
    dir: Seq<char>,
    r: Result<(), EngineError>,
    dependable: bool,
)
    requires
        reads_transition(before, after, true, unit, reads, dir, r, dependable),
        reads is None || !all_read(reads->Some_0) || !all_lines_ok(labels_of_texts(read_texts(reads->Some_0)))
            || yaml_encoded(
            unwrapped(
                built(
                    labels_of_texts(read_texts(reads->Some_0)),
                    labels_of_texts(read_texts(reads->Some_0)).len() as int,
                ),
            ),
        ) is None,
    ensures
        after == before,
        r is Err,
{
}

/// On a dependable store a unit that starts has its file: where its sources
/// were read and its labels give a text, the transition succeeds, and the
/// text stands at the unit's path unless a file stood there already.
pub proof fn lemma_start_on_dependable_store(
    before: Map<Seq<char>, Seq<char>>,
    after: Map<Seq<char>, Seq<char>>,
    unit: Seq<char>,
    texts: Seq<Option<Seq<char>>>,
    dir: Seq<char>,
    r: Result<(), EngineError>,
)
    requires
        reads_transition(before, after, true, unit, Some(texts), dir, r, true),
        all_read(texts),
        all_lines_ok(labels_of_texts(read_texts(texts))),
        yaml_encoded(
            unwrapped(
                built(labels_of_texts(read_texts(texts)), labels_of_texts(read_texts(texts)).len() as int),
            ),
        ) is Some,
    ensures
        r is Ok,
        after.contains_key(unit_file_path(dir, unit)),
        !before.contains_key(unit_file_path(dir, unit)) ==> Some(after[unit_file_path(dir, unit)])
            == yaml_encoded(
            unwrapped(
                built(labels_of_texts(read_texts(texts)), labels_of_texts(read_texts(texts)).len() as int),
            ),
        ),
        before.contains_key(unit_file_path(dir, unit)) ==> after == before,
{
}

/// On a dependable store a unit that stops has no file any more, and no
/// other file has changed.
pub proof fn lemma_stop_on_dependable_store(
    before: Map<Seq<char>, Seq<char>>,
    after: Map<Seq<char>, Seq<char>>,
    unit: Seq<char>,
    reads: Option<Seq<Option<Seq<char>>>>,
    dir: Seq<char>,
    r: Result<(), EngineError>,
)
    requires
        reads_transition(before, after, false, unit, reads, dir, r, true),
    ensures
        r is Ok,
        after == before.remove(unit_file_path(dir, unit)),
        !after.contains_key(unit_file_path(dir, unit)),
{
}

} // verus!
