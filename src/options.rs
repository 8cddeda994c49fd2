//! Merge options and the policies they select.
use vstd::prelude::*;

verus! {

/// How to handle several inputs that hold the same internal path.
#[derive(Clone, Copy, Debug, PartialEq, Eq, Structural)]
pub enum OverwritePolicy {
    LastWins,
    FirstWins,
    ErrorIfConflict,
    SkipIfExists,
}

/// How to synthesize the supported-format bounds of the output descriptor.
#[derive(Clone, Copy, Debug, PartialEq, Eq, Structural)]
pub enum SupportedFormatsPolicy {
    /// `[1, highest]`
    OneToHighest,
    /// `[lowest, highest]`
    LowestToHighest,
    /// `[1, latest]`; no table of latest formats exists, so it behaves as `OneToHighest`.
    OneToLatest,
}

/// Options that control a merge.
#[derive(Clone, Debug)]
pub struct MergeOptions {
    pub overwrite: OverwritePolicy,
    pub dry_run: bool,
    pub buffer_size: usize,
    pub atomic: bool,
    pub preserve_timestamps: bool,
    /// When set, the pack format written to the generated descriptor.
    pub pack_format_override: Option<u32>,
    /// How the supported-format bounds are synthesized.
    pub supported_formats_policy: SupportedFormatsPolicy,
    /// When set, the description written to the generated descriptor.
    pub description_override: Option<String>,
    /// When true, a remote input that cannot be fetched is skipped instead of failing the merge.
    pub tolerate_missing_inputs: bool,
}

pub const DEFAULT_BUFFER_SIZE: usize = 32 * 1024;

impl Default for MergeOptions {
    fn default() -> (r: Self)
        ensures
            r.overwrite == OverwritePolicy::LastWins,
            !r.dry_run,
            r.buffer_size == DEFAULT_BUFFER_SIZE,
            r.atomic,
            !r.preserve_timestamps,
            r.pack_format_override is None,
            r.supported_formats_policy == SupportedFormatsPolicy::OneToHighest,
            r.description_override is None,
            !r.tolerate_missing_inputs,
    {
        MergeOptions {
            overwrite: OverwritePolicy::LastWins,
            dry_run: false,
            buffer_size: DEFAULT_BUFFER_SIZE,
            atomic: true,
            preserve_timestamps: false,
            pack_format_override: None,
            supported_formats_policy: SupportedFormatsPolicy::OneToHighest,
            description_override: None,
            tolerate_missing_inputs: false,
        }
    }
}

/// The code of `c` once ASCII capitals are lowered.
pub open spec fn ascii_lower_code(c: char) -> u32 {
    if 'A' <= c && c <= 'Z' {
        (c as u32 + 32) as u32
    } else {
        c as u32
    }
}

/// `s` equals `word` once ASCII capitals of `s` are lowered.
pub open spec fn lowered_eq(s: Seq<char>, word: Seq<char>) -> bool {
    &&& s.len() == word.len()
    &&& forall|i: int| 0 <= i < s.len() ==> ascii_lower_code(#[trigger] s[i]) == word[i] as u32
}

/// Compares `s` with `word`, ignoring the case of ASCII letters in `s`.
pub fn lowered_equals(s: &str, word: &str) -> (r: bool)
    ensures
        r == lowered_eq(s@, word@),
{
    let n = s.unicode_len();
    if n != word.unicode_len() {
        return false;
    }
    let mut i: usize = 0;
    while i < n
        invariant
            n == s@.len(),
            n == word@.len(),
            i <= n,
            forall|j: int| 0 <= j < i ==> ascii_lower_code(#[trigger] s@[j]) == word@[j] as u32,
        decreases n - i,
    {
        let c = s.get_char(i);
        let w = word.get_char(i);
        let code: u32 = if 'A' <= c && c <= 'Z' {
            c as u32 + 32
        } else {
            c as u32
        };
        if code != w as u32 {
            return false;
        }
        i = i + 1;
    }
    true
}

/// The overwrite policy that a configuration word names, case aside.
pub open spec fn overwrite_policy_named(s: Seq<char>) -> Option<OverwritePolicy> {
    if lowered_eq(s, "last"@) || lowered_eq(s, "lastwins"@) || lowered_eq(s, "last_wins"@) {
        Some(OverwritePolicy::LastWins)
    } else if lowered_eq(s, "first"@) || lowered_eq(s, "firstwins"@) || lowered_eq(
        s,
        "first_wins"@,
    ) {
        Some(OverwritePolicy::FirstWins)
    } else if lowered_eq(s, "error"@) || lowered_eq(s, "errorifconflict"@) || lowered_eq(
        s,
        "error_if_conflict"@,
    ) {
        Some(OverwritePolicy::ErrorIfConflict)
    } else if lowered_eq(s, "skip"@) || lowered_eq(s, "skipifexists"@) || lowered_eq(
        s,
        "skip_if_exists"@,
    ) {
        Some(OverwritePolicy::SkipIfExists)
    } else {
        None
    }
}

/// The supported-formats policy that a configuration word names, case aside.
pub open spec fn formats_policy_named(s: Seq<char>) -> Option<SupportedFormatsPolicy> {
    if lowered_eq(s, "one-to-highest"@) || lowered_eq(s, "one_to_highest"@) || lowered_eq(
        s,
        "1-to-highest"@,
    ) || lowered_eq(s, "1-to-high"@) || lowered_eq(s, "one"@) {
        Some(SupportedFormatsPolicy::OneToHighest)
    } else if lowered_eq(s, "lowest-to-highest"@) || lowered_eq(s, "lowest_to_highest"@)
        || lowered_eq(s, "lowest"@) {
        Some(SupportedFormatsPolicy::LowestToHighest)
    } else if lowered_eq(s, "one-to-latest"@) || lowered_eq(s, "one_to_latest"@) {
        Some(SupportedFormatsPolicy::OneToLatest)
    } else {
        None
    }
}

/// `c` with an ASCII capital lowered.
pub open spec fn ascii_lower(c: char) -> char {
    if 'A' <= c && c <= 'Z' {
        ((c as u8) + 32) as u8 as char
    } else {
        c
    }
}

/// The text with its ASCII capitals lowered, as `str::to_ascii_lowercase` gives it.
pub open spec fn ascii_lowered(s: Seq<char>) -> Seq<char> {
    s.map_values(|c: char| ascii_lower(c))
}

/// Builds the message for a word that names no policy: `what` and the word, lowered.
fn unknown_word_message(what: &str, word: &str) -> (r: String)
    ensures
        r@ == what@ + ascii_lowered(word@),
{
    let mut m = String::from_str(what);
    let ghost start = m@;
    let n = word.unicode_len();
    let mut i: usize = 0;
    while i < n
        invariant
            i <= n,
            n == word@.len(),
            m@ == start + ascii_lowered(word@.take(i as int)),
        decreases n - i,
    {
        let c = word.get_char(i);
        let lc = if 'A' <= c && c <= 'Z' {
            ((c as u8) + 32) as u8 as char
        } else {
            c
        };
        m.push(lc);
        assert(ascii_lowered(word@.take(i as int + 1)) =~= ascii_lowered(word@.take(i as int)).push(
            ascii_lower(c),
        ));
        i = i + 1;
    }
    assert(word@.take(n as int) == word@);
    m
}

impl OverwritePolicy {
    /// Reads a policy from its configuration word (`last`, `first`, `error`, `skip` and their
    /// long forms), ignoring ASCII case.
    pub fn parse(s: &str) -> (r: Option<OverwritePolicy>)
        ensures
            r == overwrite_policy_named(s@),
    {
        if lowered_equals(s, "last") || lowered_equals(s, "lastwins") || lowered_equals(
            s,
            "last_wins",
        ) {
            Some(OverwritePolicy::LastWins)
        } else if lowered_equals(s, "first") || lowered_equals(s, "firstwins") || lowered_equals(
            s,
            "first_wins",
        ) {
            Some(OverwritePolicy::FirstWins)
        } else if lowered_equals(s, "error") || lowered_equals(s, "errorifconflict")
            || lowered_equals(s, "error_if_conflict") {
            Some(OverwritePolicy::ErrorIfConflict)
        } else if lowered_equals(s, "skip") || lowered_equals(s, "skipifexists") || lowered_equals(
            s,
            "skip_if_exists",
        ) {
            Some(OverwritePolicy::SkipIfExists)
        } else {
            None
        }
    }
}

impl OverwritePolicy {
    /// Reads a policy from its configuration word, or gives the message naming the
    /// unknown word, lowered.
    pub fn from_name(s: &str) -> (r: Result<OverwritePolicy, String>)
        ensures
            match overwrite_policy_named(s@) {
                Some(p) => r == Ok::<OverwritePolicy, String>(p),
                None => r matches Err(m) && m@ == "unknown overwrite policy: "@ + ascii_lowered(s@),
            },
    {
        match OverwritePolicy::parse(s) {
            Some(p) => Ok(p),
            None => Err(unknown_word_message("unknown overwrite policy: ", s)),
        }
    }
}

impl std::str::FromStr for OverwritePolicy {
    type Err = String;

    fn from_str(s: &str) -> std::result::Result<Self, Self::Err> {
        OverwritePolicy::from_name(s)
    }
}

impl SupportedFormatsPolicy {
    /// Reads a policy from its configuration word (`one-to-highest`, `lowest-to-highest`,
    /// `one-to-latest` and their other spellings), ignoring ASCII case.
    pub fn parse(s: &str) -> (r: Option<SupportedFormatsPolicy>)
        ensures
            r == formats_policy_named(s@),
    {
        if lowered_equals(s, "one-to-highest") || lowered_equals(s, "one_to_highest")
            || lowered_equals(s, "1-to-highest") || lowered_equals(s, "1-to-high")
            || lowered_equals(s, "one") {
            Some(SupportedFormatsPolicy::OneToHighest)
        } else if lowered_equals(s, "lowest-to-highest") || lowered_equals(s, "lowest_to_highest")
            || lowered_equals(s, "lowest") {
            Some(SupportedFormatsPolicy::LowestToHighest)
        } else if lowered_equals(s, "one-to-latest") || lowered_equals(s, "one_to_latest") {
            Some(SupportedFormatsPolicy::OneToLatest)
        } else {
            None
        }
    }
}

impl SupportedFormatsPolicy {
    /// Reads a policy from its configuration word, or gives the message naming the
    /// unknown word, lowered.
    pub fn from_name(s: &str) -> (r: Result<SupportedFormatsPolicy, String>)
        ensures
            match formats_policy_named(s@) {
                Some(p) => r == Ok::<SupportedFormatsPolicy, String>(p),
                None => r matches Err(m) && m@ == "unknown supported formats policy: "@
                    + ascii_lowered(s@),
            },
    {
        match SupportedFormatsPolicy::parse(s) {
            Some(p) => Ok(p),
            None => Err(unknown_word_message("unknown supported formats policy: ", s)),
        }
    }
}

impl std::str::FromStr for SupportedFormatsPolicy {
    type Err = String;

    fn from_str(s: &str) -> std::result::Result<Self, Self::Err> {
        SupportedFormatsPolicy::from_name(s)
    }
}

} // verus!
