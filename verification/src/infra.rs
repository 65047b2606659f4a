//! The file store that the configuration files live in.

use vstd::prelude::*;
use vstd::hash_map::StringHashMap;

verus! {

/// Why a file operation failed.
#[derive(Debug)]
pub struct FsError {
    pub message: String,
}

/// A store of text files, found by their paths.
///
/// `files` is what the store holds: each regular file's path, with its text.
/// Directories are no part of it. An operation that fails may have changed the
/// file that it was asked to change, and no other. When an operation fails is
/// for the store to say, but for a store that is `dependable`.
pub trait FileSystem {
    /// The regular files of the store: each path with the text of its file.
    spec fn files(&self) -> Map<Seq<char>, Seq<char>>;

    /// Whether the store is one on which an operation fails only for want of a
    /// file: every file of it can be read, and writing, removing and making a
    /// directory succeed. A store that cannot vouch for this says `false`, and
    /// nothing is then held of when its operations succeed.
    spec fn dependable(&self) -> bool;

    /// Reads the file at `path` as text.
    fn read_to_string(&self, path: &str) -> (r: Result<String, FsError>)
        ensures
            r matches Ok(text) ==> self.files().contains_key(path@) && self.files()[path@] == text@,
            self.dependable() ==> r is Ok == self.files().contains_key(path@),
    ;

    /// Makes `contents` the text of the file at `path`.
    fn write(&mut self, path: &str, contents: &str) -> (r: Result<(), FsError>)
        ensures
            r is Ok ==> final(self).files() == old(self).files().insert(path@, contents@),
            final(self).files().remove(path@) == old(self).files().remove(path@),
            old(self).dependable() ==> r is Ok && final(self).dependable(),
    ;

    /// Whether a regular file stands at `path`.
    fn file_exists(&self, path: &str) -> (b: bool)
        ensures
            b == self.files().contains_key(path@),
    ;

    /// Removes the file at `path`, if there is one.
    fn remove_file(&mut self, path: &str) -> (r: Result<(), FsError>)
        ensures
            r is Ok ==> final(self).files() == old(self).files().remove(path@),
            final(self).files().remove(path@) == old(self).files().remove(path@),
            old(self).dependable() ==> r is Ok && final(self).dependable(),
    ;

    /// Makes the directory `path` and the directories above it.
    fn create_dir_all(&mut self, path: &str) -> (r: Result<(), FsError>)
        ensures
            final(self).files() == old(self).files(),
            old(self).dependable() ==> r is Ok && final(self).dependable(),
    ;
}

/// A file store in memory. A file of it either has a text or is one that
/// cannot be read.
pub struct MemoryFileSystem {
    texts: StringHashMap<Option<String>>,
}

impl MemoryFileSystem {
    /// Whether the store has a file at `path` that can be read.
    pub closed spec fn readable(&self, path: Seq<char>) -> bool {
        self.texts@.contains_key(path) && self.texts@[path] is Some
    }

    /// A file that can be read is a file, and on a dependable store every
    /// file can be read.
    pub proof fn lemma_readable_is_file(&self, path: Seq<char>)
        ensures
            self.readable(path) ==> self.files().contains_key(path),
            self.dependable() && self.files().contains_key(path) ==> self.readable(path),
    {
    }

    /// An empty store.
    pub fn new() -> (fs: Self)
        ensures
            fs.files() == Map::<Seq<char>, Seq<char>>::empty(),
            fs.dependable(),
    {
        let fs = MemoryFileSystem { texts: StringHashMap::new() };
        assert(fs.files() =~= Map::<Seq<char>, Seq<char>>::empty());
        fs
    }

    /// Puts a file with the text `content` at `path`.
    pub fn add_file(&mut self, path: &str, content: &str)
        ensures
            final(self).files() == old(self).files().insert(path@, content@),
            final(self).readable(path@),
            forall|p: Seq<char>| p != path@ ==> final(self).readable(p) == old(self).readable(p),
            old(self).dependable() ==> final(self).dependable(),
    {
        self.texts.insert(String::from_str(path), Some(String::from_str(content)));
        assert(self.files() =~= old(self).files().insert(path@, content@));
    }

    /// Puts a file that cannot be read at `path`. In `files` it counts as a
    /// file without text.
    pub fn add_unreadable_file(&mut self, path: &str)
        ensures
            final(self).files() == old(self).files().insert(path@, Seq::<char>::empty()),
            !final(self).readable(path@),
            !final(self).dependable(),
            forall|p: Seq<char>| p != path@ ==> final(self).readable(p) == old(self).readable(p),
    {
        self.texts.insert(String::from_str(path), None);
        assert(self.files() =~= old(self).files().insert(path@, Seq::<char>::empty()));
        assert(self.texts@.contains_key(path@) && self.texts@[path@] is None);
    }

    /// The text of the file at `path`, where there is a file that can be read.
    pub fn get_file_content(&self, path: &str) -> (r: Option<String>)
        ensures
            r is Some == self.readable(path@),
            r is Some ==> self.files().contains_key(path@) && self.files()[path@] == r->Some_0@,
    {
        match self.texts.get(path) {
            Some(Some(text)) => Some(text.clone()),
            _ => None,
        }
    }

    /// Whether a file stands at `path`.
    pub fn file_exists_in_memory(&self, path: &str) -> (b: bool)
        ensures
            b == self.files().contains_key(path@),
    {
        self.texts.contains_key(path)
    }
}

impl FileSystem for MemoryFileSystem {
    /// The store is dependable where it holds no file that cannot be read.
    closed spec fn dependable(&self) -> bool {
        forall|p: Seq<char>| self.texts@.contains_key(p) ==> (#[trigger] self.texts@[p]) is Some
    }

    closed spec fn files(&self) -> Map<Seq<char>, Seq<char>> {
        Map::new(
            |p: Seq<char>| self.texts@.contains_key(p),
            |p: Seq<char>|
                match self.texts@[p] {
                    Some(text) => text@,
                    None => Seq::empty(),
                },
        )
    }

    fn read_to_string(&self, path: &str) -> (r: Result<String, FsError>)
        ensures
            r is Ok == self.readable(path@),
    {
        match self.texts.get(path) {
            Some(Some(text)) => Ok(text.clone()),
            Some(None) => Err(FsError { message: String::from_str("file cannot be read") }),
            None => Err(FsError { message: String::from_str("file not found") }),
        }
    }

    fn write(&mut self, path: &str, contents: &str) -> (r: Result<(), FsError>)
        ensures
            r is Ok,
            final(self).readable(path@),
            forall|p: Seq<char>| p != path@ ==> final(self).readable(p) == old(self).readable(p),
    {
        self.texts.insert(String::from_str(path), Some(String::from_str(contents)));
        assert(self.files() =~= old(self).files().insert(path@, contents@));
        assert(self.files().remove(path@) =~= old(self).files().remove(path@));
        Ok(())
    }

    fn file_exists(&self, path: &str) -> (b: bool) {
        self.texts.contains_key(path)
    }

    fn remove_file(&mut self, path: &str) -> (r: Result<(), FsError>)
        ensures
            r is Ok,
            forall|p: Seq<char>| p != path@ ==> final(self).readable(p) == old(self).readable(p),
    {
        self.texts.remove(path);
        assert(self.files() =~= old(self).files().remove(path@));
        assert(self.files().remove(path@) =~= old(self).files().remove(path@));
        Ok(())
    }

    fn create_dir_all(&mut self, path: &str) -> (r: Result<(), FsError>)
        ensures
            r is Ok,
    {
        Ok(())
    }
}

} // verus!
