//! The parameters a scan runs under.
use vstd::prelude::*;

verus! {

/// What `str::to_lowercase` yields for a string: a function of its characters alone.
pub uninterp spec fn lower_of(s: Seq<char>) -> Seq<char>;

/// Relies on `str::to_lowercase`: the lower-case form of `s`, which depends on
/// the characters of `s` alone, and is empty exactly when `s` is.
#[verifier::external_body]
pub(crate) fn lowercase(s: &str) -> (r: String)
    ensures
        r@ == lower_of(s@),
        s@.len() == 0 ==> r@.len() == 0,
{
    s.to_lowercase()
}

/// The resolved parameters of a scan.
#[derive(Clone, Debug, Default)]
pub struct Configuration {
    /// Path to a YAML configuration file.
    pub config: Option<String>,
    /// Display debug information.
    pub debug: bool,
    /// Display progress and information to the console.
    pub verbose: bool,
    /// File path of the output playlist. If none, the playlist goes to the console.
    pub output: Option<String>,
    /// Folders to scan, in order.
    pub scan: Vec<String>,
    /// File extensions to include in the playlist. Empty means all files.
    pub extensions: Vec<String>,
    /// Randomize the generated playlist.
    pub randomize: bool,
    /// Limits the maximum number of files in the playlist.
    pub maximum: Option<u64>,
    /// Perform duplicate detection.
    pub detect_duplicates: bool,
}

/// The accepted extensions of a configuration, as character sequences.
pub open spec fn extension_set(c: &Configuration) -> Seq<Seq<char>> {
    c.extensions@.map_values(|e: String| e@)
}

/// The given extensions, each in lower case.
pub open spec fn lowered(exts: Seq<String>) -> Seq<Seq<char>> {
    exts.map_values(|e: String| lower_of(e@))
}

/// The first option if it holds a value, else the second.
pub open spec fn first_some<T>(a: Option<T>, b: Option<T>) -> Option<T> {
    if a is Some {
        a
    } else {
        b
    }
}

impl Configuration {
    /// Puts every accepted extension in lower case; nothing else changes.
    pub fn normalize(self) -> (r: Self)
        ensures
            extension_set(&r) == lowered(self.extensions@),
            r.config == self.config,
            r.debug == self.debug,
            r.verbose == self.verbose,
            r.output == self.output,
            r.scan@ == self.scan@,
            r.randomize == self.randomize,
            r.maximum == self.maximum,
            r.detect_duplicates == self.detect_duplicates,
    {
        let mut lower: Vec<String> = Vec::new();
        let n = self.extensions.len();
        for i in 0..n
            invariant
                n == self.extensions@.len(),
                lower@.len() == i,
                forall|j: int| 0 <= j < i ==> #[trigger] lower@[j]@ == lower_of(self.extensions@[j]@),
        {
            lower.push(lowercase(self.extensions[i].as_str()));
        }
        let mut c = self;
        c.extensions = lower;
        assert(extension_set(&c) =~= lowered(self.extensions@));
        c
    }

    /// Merges `other` into this configuration: options of `other` that are set
    /// win, flags are or-ed, and lists are concatenated, this one's first.
    pub fn merge(self, other: Configuration) -> (r: Self)
        ensures
            r.config == first_some(other.config, self.config),
            r.debug == (self.debug || other.debug),
            r.verbose == (self.verbose || other.verbose),
            r.output == first_some(other.output, self.output),
            r.scan@ == self.scan@ + other.scan@,
            r.extensions@ == self.extensions@ + other.extensions@,
            r.randomize == (self.randomize || other.randomize),
            r.maximum == first_some(other.maximum, self.maximum),
            r.detect_duplicates == (self.detect_duplicates || other.detect_duplicates),
    {
        let Configuration {
            config,
            debug,
            verbose,
            output,
            mut scan,
            mut extensions,
            randomize,
            maximum,
            detect_duplicates,
        } = other;
        let mut c = self;
        if config.is_some() {
            c.config = config;
        }
        c.debug = c.debug || debug;
        c.detect_duplicates = c.detect_duplicates || detect_duplicates;
        c.extensions.append(&mut extensions);
        if maximum.is_some() {
            c.maximum = maximum;
        }
        if output.is_some() {
            c.output = output;
        }
        c.randomize = c.randomize || randomize;
        c.scan.append(&mut scan);
        c.verbose = c.verbose || verbose;
        c
    }
}

} // verus!
