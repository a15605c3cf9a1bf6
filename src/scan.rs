//! The scan engine: classifying files, and walking folders depth first.
use vstd::prelude::*;
use vstd::string::*;

use crate::configuration::{extension_set, lower_of, lowercase, Configuration};
use crate::path::{extension, extension_of};

verus! {

/// The character sequences of a list of strings.
pub open spec fn strings(v: Seq<String>) -> Seq<Seq<char>> {
    v.map_values(|s: String| s@)
}

/// Whether the accepted extensions `exts` let a file with extension `ext` in:
/// an empty list accepts every file; otherwise the file needs an extension
/// whose lower-case form is listed.
pub open spec fn accepts(exts: Seq<Seq<char>>, ext: Option<Seq<char>>) -> bool {
    exts.len() == 0 || match ext {
        Some(e) => exts.contains(lower_of(e)),
        None => false,
    }
}

/// Found paths and excluded extensions after the file at `path` is considered:
/// an accepted file is appended to the found paths; a rejected one with an
/// extension adds that extension to the excluded ones unless it is there already.
pub open spec fn classify(
    exts: Seq<Seq<char>>,
    acc: (Seq<Seq<char>>, Seq<Seq<char>>),
    path: Seq<char>,
) -> (Seq<Seq<char>>, Seq<Seq<char>>) {
    let (found, excluded) = acc;
    if accepts(exts, extension_of(path)) {
        (found.push(path), excluded)
    } else {
        match extension_of(path) {
            Some(e) => (found, if excluded.contains(e) {
                excluded
            } else {
                excluded.push(e)
            }),
            None => (found, excluded),
        }
    }
}

/// Found paths and excluded extensions after each of `files` is considered, in order.
pub open spec fn classify_all(exts: Seq<Seq<char>>, files: Seq<Seq<char>>) -> (
    Seq<Seq<char>>,
    Seq<Seq<char>>,
)
    decreases files.len(),
{
    if files.len() == 0 {
        (Seq::empty(), Seq::empty())
    } else {
        classify(exts, classify_all(exts, files.drop_last()), files.last())
    }
}

/// What a scan found.
#[derive(Debug)]
pub struct ScanResult {
    /// Paths of the accepted files, in the order they were found.
    pub found_file_paths: Vec<String>,
    /// Extensions of the rejected files, each once.
    pub excluded_extensions: Vec<String>,
}

impl ScanResult {
    /// The found paths and excluded extensions as character sequences.
    pub open spec fn model(&self) -> (Seq<Seq<char>>, Seq<Seq<char>>) {
        (strings(self.found_file_paths@), strings(self.excluded_extensions@))
    }

    /// An empty result.
    pub fn new() -> (r: Self)
        ensures
            r.found_file_paths@.len() == 0,
            r.excluded_extensions@.len() == 0,
    {
        ScanResult { found_file_paths: Vec::new(), excluded_extensions: Vec::new() }
    }

    /// The lines to display about this result: under a verbose configuration a
    /// heading followed by one line per excluded extension, else none.
    pub fn report(&self, config: &Configuration) -> (r: Vec<String>)
        ensures
            !config.verbose ==> r@.len() == 0,
            config.verbose ==> {
                &&& r@.len() == self.excluded_extensions@.len() + 1
                &&& r@[0]@ == "Excluded extensions:"@
                &&& forall|i: int|
                    0 <= i < self.excluded_extensions@.len() ==> #[trigger] r@[i + 1]@ == "  - "@
                        + self.excluded_extensions@[i]@
            },
    {
        let mut lines: Vec<String> = Vec::new();
        if config.verbose {
            lines.push(String::from_str("Excluded extensions:"));
            let n = self.excluded_extensions.len();
            for i in 0..n
                invariant
                    n == self.excluded_extensions@.len(),
                    lines@.len() == i + 1,
                    lines@[0]@ == "Excluded extensions:"@,
                    forall|j: int|
                        0 <= j < i ==> #[trigger] lines@[j + 1]@ == "  - "@
                            + self.excluded_extensions@[j]@,
            {
                let line = String::from_str("  - ").concat(self.excluded_extensions[i].as_str());
                lines.push(line);
            }
        }
        lines
    }
}

/// Whether `s` is among `v`.
fn holds(v: &Vec<String>, s: &String) -> (r: bool)
    ensures
        r == strings(v@).contains(s@),
{
    let n = v.len();
    for i in 0..n
        invariant
            n == v@.len(),
            forall|j: int| 0 <= j < i ==> v@[j]@ != s@,
    {
        if v[i] == *s {
            assert(strings(v@)[i as int] == s@);
            return true;
        }
    }
    false
}

/// Whether the accepted extensions `exts` list the lower-case form of `ext`.
fn listed(exts: &Vec<String>, ext: &str) -> (r: bool)
    ensures
        r == strings(exts@).contains(lower_of(ext@)),
{
    let lower = lowercase(ext);
    holds(exts, &lower)
}

/// An entry of a folder listing.
#[derive(Debug)]
pub enum Entry {
    /// A folder, by its path.
    Folder(String),
    /// Anything else, by its path.
    File(String),
}

/// What a scan asks of its caller next.
#[derive(Debug)]
pub enum Step {
    /// List the folder at this path, and hand the listing to `enter_folder`.
    ReadFolder(String),
    /// The scan is complete: take its result with `finish`.
    Finished,
}

/// Why a folder could not be listed.
#[derive(Debug)]
pub enum ListingError {
    /// The folder could not be opened or read; the text says why.
    Unreadable(String),
    /// An entry's path has no usable string form; the text is its lossy form.
    PathEncoding(String),
}

/// Why a scan was aborted.
#[derive(Debug)]
pub enum ScanError {
    /// The folder at `path` could not be listed.
    DirectoryRead { path: String, cause: String },
    /// A path met during the scan has no usable string form.
    PathEncoding { path: String },
}

/// A sequence laid out as a stack, its first item on top: the sequence reversed.
pub open spec fn stacked<A>(entries: Seq<A>) -> Seq<A> {
    Seq::new(entries.len(), |i: int| entries[entries.len() - 1 - i])
}

/// The root folders of a scan, as entries.
pub open spec fn folders(roots: Seq<String>) -> Seq<Entry> {
    roots.map_values(|r: String| Entry::Folder(r))
}

/// Pending entries, files considered, and the folder to read next, once the
/// files on top of the stack `pending` have been considered after `seen`.
pub open spec fn settle(pending: Seq<Entry>, seen: Seq<Seq<char>>) -> (
    Seq<Entry>,
    Seq<Seq<char>>,
    Option<String>,
)
    decreases pending.len(),
{
    if pending.len() == 0 {
        (pending, seen, None)
    } else {
        match pending.last() {
            Entry::Folder(f) => (pending.drop_last(), seen, Some(f)),
            Entry::File(p) => settle(pending.drop_last(), seen.push(p@)),
        }
    }
}

/// A scan in progress: a depth-first walk over the folders of a configuration.
///
/// The scan keeps a stack of entries still to visit. Files on top are
/// considered at once; a folder on top is handed to the caller to list, and
/// its entries go on top of the stack, so each folder is walked whole before
/// its next sibling.
pub struct Scan {
    configuration: Configuration,
    result: ScanResult,
    pending: Vec<Entry>,
    reading: Option<String>,
    seen: Ghost<Seq<Seq<char>>>,
}

impl Scan {
    /// The configuration the scan runs under.
    pub closed spec fn configuration(&self) -> Configuration {
        self.configuration
    }

    /// What the scan has found so far.
    pub closed spec fn result(&self) -> ScanResult {
        self.result
    }

    /// The entries still to visit; the last one is visited first.
    pub closed spec fn pending(&self) -> Seq<Entry> {
        self.pending@
    }

    /// The folder the caller has been asked to list, if any.
    pub closed spec fn reading(&self) -> Option<String> {
        self.reading
    }

    /// The paths of the files considered so far, in order.
    pub closed spec fn seen(&self) -> Seq<Seq<char>> {
        self.seen@
    }

    /// The result is that of considering the files seen, in order.
    pub open spec fn wf(&self) -> bool {
        self.result().model() == classify_all(extension_set(&self.configuration()), self.seen())
    }

    /// Starts a scan of the configured folders, in their order.
    pub fn scan(configuration: Configuration) -> (s: Scan)
        ensures
            s.wf(),
            s.configuration() == configuration,
            s.pending() == stacked(folders(configuration.scan@)),
            s.reading() is None,
            s.seen() == Seq::<Seq<char>>::empty(),
    {
        let mut s = Scan {
            configuration,
            result: ScanResult::new(),
            pending: Vec::new(),
            reading: None,
            seen: Ghost(Seq::empty()),
        };
        assert(s.result.model() =~= (Seq::<Seq<char>>::empty(), Seq::<Seq<char>>::empty()));
        s.start();
        assert(s.pending@ =~= stacked(folders(s.configuration.scan@)));
        s
    }

    /// Considers the file at `path`, and records it as seen.
    fn consider_file_path(&mut self, path: String)
        requires
            old(self).wf(),
        ensures
            final(self).wf(),
            final(self).configuration == old(self).configuration,
            final(self).pending == old(self).pending,
            final(self).reading == old(self).reading,
            final(self).seen@ == old(self).seen@.push(path@),
    {
        let ghost before = self.seen@;
        match extension(path.as_str()) {
            None => self.consider_file_without_extension(path.clone()),
            Some(ext) => self.consider_file_with_extension(ext, path.clone()),
        }
        self.seen = Ghost(self.seen@.push(path@));
        assert(self.seen@.drop_last() =~= before);
    }

    /// Considers a file without an extension: it is accepted only when every
    /// extension is.
    fn consider_file_without_extension(&mut self, path: String)
        requires
            extension_of(path@) is None,
        ensures
            final(self).result.model() == classify(
                extension_set(&old(self).configuration),
                old(self).result.model(),
                path@,
            ),
            final(self).configuration == old(self).configuration,
            final(self).pending == old(self).pending,
            final(self).reading == old(self).reading,
            final(self).seen == old(self).seen,
    {
        if self.configuration.extensions.len() == 0 {
            let ghost before = self.result.found_file_paths@;
            self.result.found_file_paths.push(path);
            assert(strings(self.result.found_file_paths@) =~= strings(before).push(path@));
        }
    }

    /// Considers a file with extension `extension`: it is accepted when every
    /// extension is, or when its extension is listed; else its extension is
    /// recorded as excluded.
    fn consider_file_with_extension(&mut self, extension: String, path: String)
        requires
            extension_of(path@) == Some(extension@),
        ensures
            final(self).result.model() == classify(
                extension_set(&old(self).configuration),
                old(self).result.model(),
                path@,
            ),
            final(self).configuration == old(self).configuration,
            final(self).pending == old(self).pending,
            final(self).reading == old(self).reading,
            final(self).seen == old(self).seen,
    {
        if self.configuration.extensions.len() == 0 || listed(
            &self.configuration.extensions,
            extension.as_str(),
        ) {
            let ghost before = self.result.found_file_paths@;
            self.result.found_file_paths.push(path);
            assert(strings(self.result.found_file_paths@) =~= strings(before).push(path@));
        } else if !holds(&self.result.excluded_extensions, &extension) {
            let ghost before = self.result.excluded_extensions@;
            self.result.excluded_extensions.push(extension);
            assert(strings(self.result.excluded_extensions@) =~= strings(before).push(
                extension@,
            ));
        }
    }

    /// Considers the files on top of the stack, then takes the folder under
    /// them, if any, and asks for its listing; with nothing left, the scan is
    /// finished.
    pub fn next_step(&mut self) -> (step: Step)
        requires
            old(self).wf(),
            old(self).reading() is None,
        ensures
            final(self).wf(),
            final(self).configuration() == old(self).configuration(),
            final(self).pending() == settle(old(self).pending(), old(self).seen()).0,
            final(self).seen() == settle(old(self).pending(), old(self).seen()).1,
            final(self).reading() == settle(old(self).pending(), old(self).seen()).2,
            match settle(old(self).pending(), old(self).seen()).2 {
                Some(f) => step == Step::ReadFolder(f),
                None => step == Step::Finished,
            },
    {
        loop
            invariant
                self.wf(),
                self.reading is None,
                self.configuration == old(self).configuration,
                settle(self.pending@, self.seen@) == settle(old(self).pending@, old(self).seen@),
            decreases self.pending@.len(),
        {
            let ghost pending = self.pending@;
            match self.pending.pop() {
                None => {
                    return Step::Finished;
                },
                Some(Entry::Folder(folder)) => {
                    assert(pending.drop_last() =~= self.pending@);
                    self.reading = Some(folder.clone());
                    return Step::ReadFolder(folder);
                },
                Some(Entry::File(path)) => {
                    assert(pending.drop_last() =~= self.pending@);
                    self.consider_file_path(path);
                },
            }
        }
    }

    /// Takes the listing of the folder being read: its entries go on top of
    /// the stack, the first on top. A folder that could not be listed aborts
    /// the scan with an error that names it.
    pub fn enter_folder(self, listing: Result<Vec<Entry>, ListingError>) -> (r: Result<
        Scan,
        ScanError,
    >)
        requires
            self.wf(),
            self.reading() is Some,
        ensures
            match listing {
                Ok(entries) => r matches Ok(s) && {
                    &&& s.wf()
                    &&& s.configuration() == self.configuration()
                    &&& s.pending() == self.pending() + stacked(entries@)
                    &&& s.seen() == self.seen()
                    &&& s.reading() is None
                },
                Err(ListingError::Unreadable(cause)) => r == Err::<Scan, ScanError>(
                    ScanError::DirectoryRead { path: self.reading().unwrap(), cause },
                ),
                Err(ListingError::PathEncoding(path)) => r == Err::<Scan, ScanError>(
                    ScanError::PathEncoding { path },
                ),
            },
    {
        let mut s = self;
        match listing {
            Ok(entries) => {
                let n = entries.len();
                let ghost base = s.pending@;
                let ghost all = entries@;
                let mut rest = entries;
                while rest.len() > 0
                    invariant
                        s.wf(),
                        s.reading == self.reading,
                        s.configuration == self.configuration,
                        s.seen == self.seen,
                        n == all.len(),
                        rest@.len() <= n,
                        rest@ == all.take(rest@.len() as int),
                        s.pending@ == base + stacked(all).take(n - rest@.len()),
                    decreases rest@.len(),
                {
                    let ghost k = rest@.len() as int;
                    let ghost before = s.pending@;
                    let e = rest.pop().unwrap();
                    assert(e == all[k - 1]);
                    s.pending.push(e);
                    assert(rest@ =~= all.take(k - 1));
                    assert(stacked(all).take(n - k + 1) =~= stacked(all).take(n - k).push(all[k - 1]));
                    assert(s.pending@ =~= base + stacked(all).take(n - k + 1));
                }
                assert(stacked(all).take(n as int) =~= stacked(all));
                s.reading = None;
                Ok(s)
            },
            Err(ListingError::Unreadable(cause)) => {
                let path = s.reading.unwrap();
                Err(ScanError::DirectoryRead { path, cause })
            },
            Err(ListingError::PathEncoding(path)) => Err(ScanError::PathEncoding { path }),
        }
    }

    /// The result of a finished scan: the files considered, classified in order.
    pub fn finish(self) -> (r: ScanResult)
        requires
            self.wf(),
            self.pending().len() == 0,
            self.reading() is None,
        ensures
            r.model() == classify_all(extension_set(&self.configuration()), self.seen()),
    {
        self.result
    }

    /// Puts the configured folders on the stack, the first on top.
    fn start(&mut self)
        ensures
            final(self).configuration == old(self).configuration,
            final(self).result == old(self).result,
            final(self).reading == old(self).reading,
            final(self).seen == old(self).seen,
            final(self).pending@ == old(self).pending@ + stacked(folders(old(self).configuration.scan@)),
    {
        let n = self.configuration.scan.len();
        for i in 0..n
            invariant
                n == self.configuration.scan@.len(),
                self.configuration == old(self).configuration,
                self.result == old(self).result,
                self.reading == old(self).reading,
                self.seen == old(self).seen,
                self.pending@ == old(self).pending@ + stacked(folders(self.configuration.scan@)).take(i as int),
        {
            let folder = self.configuration.scan[n - 1 - i].clone();
            self.pending.push(Entry::Folder(folder));
            assert(self.pending@ =~= old(self).pending@ + stacked(folders(self.configuration.scan@)).take(i + 1));
        }
        assert(stacked(folders(self.configuration.scan@)).take(n as int) =~= stacked(folders(self.configuration.scan@)));
    }
}

} // verus!
