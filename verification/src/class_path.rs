//! The class path: where class files are looked up, in order.
use vstd::prelude::*;

use crate::jar_file_class_path_entry::JarFileError;

verus! {

/// Something that can find the bytes of a class file given the class's name: a jar file
/// or a directory.
pub trait ClassPathEntry {
    fn resolve(&self, class_name: &str) -> Result<Option<Vec<u8>>, ClassLoadingError>;
}

/// An error met while reading a class file.
#[derive(Debug)]
pub struct ClassLoadingError {
    message: String,
}

impl ClassLoadingError {
    /// An error with the given description.
    pub fn new(message: String) -> (res: Self)
        ensures
            res.spec_message() == message@,
    {
        Self { message }
    }

    pub closed spec fn spec_message(&self) -> Seq<char> {
        self.message@
    }

    /// The description of the error.
    pub fn message(&self) -> (res: &str)
        ensures
            res@ == self.spec_message(),
    {
        self.message.as_str()
    }
}

/// A class path entry that cannot be used.
#[derive(Debug, PartialEq, Eq)]
pub enum ClassPathParseError {
    InvalidEntry(String),
}

impl ClassPathParseError {
    /// The description of the error, naming the entry.
    pub fn message(&self) -> (res: String)
        ensures
            res@ == match self {
                ClassPathParseError::InvalidEntry(p) => "invalid classpath entry: "@ + p@,
            },
    {
        match self {
            ClassPathParseError::InvalidEntry(p) => {
                let mut s = String::from_str("invalid classpath entry: ");
                s.append(p.as_str());
                s
            },
        }
    }
}

/// The entries where class files are looked up, in order.
pub struct ClassPath {
    entries: Vec<Box<dyn ClassPathEntry>>,
}

/// The pieces of `s` between the separators `sep`, in order: there is one more piece
/// than there are separators.
pub open spec fn split_at_separator(s: Seq<char>, sep: char) -> Seq<Seq<char>>
    decreases s.len(),
{
    if s.len() == 0 {
        seq![Seq::<char>::empty()]
    } else if s.last() == sep {
        split_at_separator(s.drop_last(), sep).push(Seq::<char>::empty())
    } else {
        let r = split_at_separator(s.drop_last(), sep);
        r.update(r.len() - 1, r.last().push(s.last()))
    }
}

proof fn lemma_split_nonempty(s: Seq<char>, sep: char)
    ensures
        split_at_separator(s, sep).len() >= 1,
    decreases s.len(),
{
    if s.len() > 0 {
        lemma_split_nonempty(s.drop_last(), sep);
    }
}

/// The pieces joined back, with `sep` between two pieces.
pub open spec fn join_with_separator(pieces: Seq<Seq<char>>, sep: char) -> Seq<char>
    decreases pieces.len(),
{
    if pieces.len() <= 1 {
        if pieces.len() == 1 {
            pieces[0]
        } else {
            Seq::empty()
        }
    } else {
        join_with_separator(pieces.drop_last(), sep) + seq![sep] + pieces.last()
    }
}

/// Splitting a class path at its separators and joining the pieces back gives the class
/// path; no piece holds a separator.
pub proof fn law_split_join(s: Seq<char>, sep: char)
    ensures
        join_with_separator(split_at_separator(s, sep), sep) == s,
        forall|i: int| 0 <= i < split_at_separator(s, sep).len() ==> !(#[trigger] split_at_separator(s, sep)[i]).contains(sep),
    decreases s.len(),
{
    if s.len() > 0 {
        let init = s.drop_last();
        law_split_join(init, sep);
        lemma_split_nonempty(init, sep);
        let r = split_at_separator(init, sep);
        if s.last() == sep {
            let r2 = r.push(Seq::<char>::empty());
            assert(r2.drop_last() =~= r);
            assert(join_with_separator(r2, sep) =~= s);
            assert forall|i: int| 0 <= i < r2.len() implies !(#[trigger] r2[i]).contains(sep) by {
                if i < r.len() {
                    assert(r2[i] == r[i]);
                }
            }
        } else {
            let r2 = r.update(r.len() - 1, r.last().push(s.last()));
            if r.len() == 1 {
                assert(join_with_separator(r2, sep) =~= s);
            } else {
                assert(r2.drop_last() =~= r.drop_last());
                let j0 = join_with_separator(r.drop_last(), sep);
                assert(join_with_separator(r, sep) == j0 + seq![sep] + r.last());
                assert(join_with_separator(r2, sep) == j0 + seq![sep] + r2.last());
                assert(r2.last() == r.last().push(s.last()));
                assert(s =~= init.push(s.last()));
                assert(join_with_separator(r2, sep) =~= s);
            }
            assert forall|i: int| 0 <= i < r2.len() implies !(#[trigger] r2[i]).contains(sep) by {
                if i < r.len() - 1 {
                    assert(r2[i] == r[i]);
                } else {
                    assert(!r[i].contains(sep));
                    if r2[i].contains(sep) {
                        let j = choose|j: int| 0 <= j < r2[i].len() && r2[i][j] == sep;
                        if j < r[i].len() {
                            assert(r[i][j] == sep);
                        }
                    }
                }
            }
        }
    }
}

impl ClassPath {
    pub fn new() -> (res: Self)
        ensures
            res.len() == 0,
            res.entry_list() == Seq::<Box<dyn ClassPathEntry>>::empty(),
    {
        ClassPath { entries: Vec::new() }
    }

    /// The number of entries.
    pub closed spec fn len(&self) -> nat {
        self.entries@.len()
    }

    /// The entries, in the order in which they are searched.
    pub closed spec fn entry_list(&self) -> Seq<Box<dyn ClassPathEntry>> {
        self.entries@
    }

    /// The paths of the entries listed in a class path: they are separated by `:`.
    pub fn entry_paths(string: &str) -> (res: Vec<String>)
        ensures
            res@.len() == split_at_separator(string@, ':').len(),
            forall|i: int| 0 <= i < res@.len() ==> #[trigger] res@[i]@ == split_at_separator(string@, ':')[i],
    {
        let n = string.unicode_len();
        let mut paths: Vec<String> = Vec::new();
        let mut start: usize = 0;
        let mut i: usize = 0;
        proof {
            assert(string@.subrange(0, 0) =~= Seq::<char>::empty());
            assert(paths@.map_values(|p: String| p@).push(string@.subrange(0, 0)) =~= seq![Seq::<char>::empty()]);
        }
        while i < n
            invariant
                n == string@.len(),
                start <= i <= n,
                split_at_separator(string@.subrange(0, i as int), ':') == paths@.map_values(
                    |p: String| p@,
                ).push(string@.subrange(start as int, i as int)),
            decreases n - i,
        {
            let c = string.get_char(i);
            proof {
                let pre = string@.subrange(0, i + 1);
                assert(pre.drop_last() =~= string@.subrange(0, i as int));
                assert(pre.last() == c);
                lemma_split_nonempty(string@.subrange(0, i as int), ':');
            }
            if c == ':' {
                let piece = String::from_str(string.substring_char(start, i));
                let ghost before = paths@;
                paths.push(piece);
                proof {
                    assert(paths@.map_values(|p: String| p@) =~= before.map_values(|p: String| p@).push(piece@));
                    assert(string@.subrange((i + 1) as int, (i + 1) as int) =~= Seq::<char>::empty());
                }
                start = i + 1;
            } else {
                proof {
                    assert(string@.subrange(start as int, i + 1) =~= string@.subrange(start as int, i as int).push(c));
                }
            }
            i = i + 1;
        }
        let ghost before = paths@;
        let last = String::from_str(string.substring_char(start, n));
        paths.push(last);
        proof {
            assert(string@.subrange(0, n as int) =~= string@);
            assert(paths@.map_values(|p: String| p@) =~= before.map_values(|p: String| p@).push(last@));
            let m = paths@.map_values(|p: String| p@);
            assert forall|k: int| 0 <= k < paths@.len() implies #[trigger] paths@[k]@ == split_at_separator(string@, ':')[k] by {
                assert(m[k] == paths@[k]@);
            }
        }
        paths
    }

    /// The class path entry of a `.jar` file, given what opening the file as a `.jar`
    /// gave: the entry, or an error naming the path.
    pub fn try_parse_entry_as_jar(path: &str, opened: Result<Box<dyn ClassPathEntry>, JarFileError>) -> (res: Result<
        Box<dyn ClassPathEntry>,
        ClassPathParseError,
    >)
        ensures
            match opened {
                Ok(entry) => res == Ok::<Box<dyn ClassPathEntry>, ClassPathParseError>(entry),
                Err(_) => res matches Err(ClassPathParseError::InvalidEntry(p)) && p@ == path@,
            },
    {
        match opened {
            Ok(entry) => Ok(entry),
            Err(_) => Err(ClassPathParseError::InvalidEntry(path.to_owned())),
        }
    }

    /// The class path entry of a directory, given what opening the path as a directory
    /// gave: the entry, or an error naming the path.
    pub fn try_parse_entry_as_directory(path: &str, opened: Option<Box<dyn ClassPathEntry>>) -> (res: Result<
        Box<dyn ClassPathEntry>,
        ClassPathParseError,
    >)
        ensures
            match opened {
                Some(entry) => res == Ok::<Box<dyn ClassPathEntry>, ClassPathParseError>(entry),
                None => res matches Err(ClassPathParseError::InvalidEntry(p)) && p@ == path@,
            },
    {
        match opened {
            Some(entry) => Ok(entry),
            None => Err(ClassPathParseError::InvalidEntry(path.to_owned())),
        }
    }

    /// One step of reading the entries of a class path, all or nothing: a parsed entry
    /// joins those read so far; an entry that could not be parsed stops the reading with
    /// its error, and nothing is added.
    pub fn add_parsed_entry(
        entries: &mut Vec<Box<dyn ClassPathEntry>>,
        parsed: Result<Box<dyn ClassPathEntry>, ClassPathParseError>,
    ) -> (res: Result<(), ClassPathParseError>)
        ensures
            match parsed {
                Ok(entry) => res is Ok && final(entries)@ == old(entries)@.push(entry),
                Err(e) => res == Err::<(), ClassPathParseError>(e) && final(entries)@ == old(entries)@,
            },
    {
        match parsed {
            Ok(entry) => {
                entries.push(entry);
                Ok(())
            },
            Err(e) => Err(e),
        }
    }

    /// Appends entries, after those already there.
    pub fn push(&mut self, mut entries: Vec<Box<dyn ClassPathEntry>>)
        ensures
            final(self).len() == old(self).len() + entries@.len(),
            final(self).entry_list() == old(self).entry_list() + entries@,
    {
        self.entries.append(&mut entries);
    }

    /// What the search does with the answer of one entry: an entry that does not have the
    /// class lets the search go on (`None`); a class file found, or an error, ends it with
    /// that answer.
    pub fn resolve_step(answer: Result<Option<Vec<u8>>, ClassLoadingError>) -> (res: Option<
        Result<Option<Vec<u8>>, ClassLoadingError>,
    >)
        ensures
            answer matches Ok(None) <==> res is None,
            answer matches Ok(Some(b)) ==> res == Some(Ok::<Option<Vec<u8>>, ClassLoadingError>(Some(b))),
            answer is Err ==> res == Some(answer),
    {
        match answer {
            Ok(None) => None,
            Ok(Some(bytes)) => Some(Ok(Some(bytes))),
            Err(e) => Some(Err(e)),
        }
    }

    /// Looks up the class file of the class with the given name in the entries, in order:
    /// the first entry that has it gives it, and an error of an entry stops the search.
    pub fn resolve(&self, class_name: &str) -> (res: Result<Option<Vec<u8>>, ClassLoadingError>)
        ensures
            self.len() == 0 ==> res matches Ok(None),
            res matches Ok(Some(_)) ==> self.len() > 0,
            res is Err ==> self.len() > 0,
    {
        let mut i: usize = 0;
        while i < self.entries.len()
            invariant
                i <= self.entries@.len(),
            decreases self.entries@.len() - i,
        {
            let answer = self.entries[i].resolve(class_name);
            match Self::resolve_step(answer) {
                Some(found) => {
                    return found;
                },
                None => {},
            }
            i = i + 1;
        }
        Ok(None)
    }
}

} // verus!
