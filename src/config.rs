//! Run configuration as given by a configuration file or by command-line flags,
//! and how the two combine into merge options.
use vstd::prelude::*;
use crate::error::MergeError;
use crate::options::{
    MergeOptions, OverwritePolicy, SupportedFormatsPolicy, DEFAULT_BUFFER_SIZE,
    overwrite_policy_named, formats_policy_named,
};

verus! {

/// Configuration values; each one left out defers to another layer or to the default.
pub struct Config {
    /// Inputs (paths or URLs), applied in order.
    pub inputs: Option<Vec<String>>,
    /// Overwrite policy: last, first, error, skip.
    pub overwrite: Option<String>,
    pub dry_run: Option<bool>,
    pub buffer_size: Option<usize>,
    pub atomic: Option<bool>,
    pub preserve_timestamps: Option<bool>,
    /// Forced pack format.
    pub pack_format: Option<u32>,
    /// Supported-formats policy: one-to-highest, lowest-to-highest, one-to-latest.
    pub supported_formats: Option<String>,
    /// Output path.
    pub out: Option<String>,
    /// Write the output as a directory instead of an archive.
    pub dir: Option<bool>,
    /// Description for the generated descriptor.
    pub description: Option<String>,
    /// Skip remote inputs that cannot be fetched instead of failing.
    pub tolerate_missing_inputs: Option<bool>,
}

pub open spec fn or_else<T>(a: Option<T>, b: Option<T>) -> Option<T> {
    match a {
        Some(x) => Some(x),
        None => b,
    }
}

pub open spec fn or_default<T>(a: Option<T>, d: T) -> T {
    match a {
        Some(x) => x,
        None => d,
    }
}

pub open spec fn string_views_of(v: Option<Vec<String>>) -> Seq<Seq<char>> {
    match v {
        Some(xs) => xs@.map_values(|s: String| s@),
        None => Seq::empty(),
    }
}

fn first_of<T: Copy>(a: Option<T>, b: Option<T>) -> (r: Option<T>)
    ensures
        r == or_else(a, b),
{
    match a {
        Some(x) => Some(x),
        None => b,
    }
}

fn first_text(a: &Option<String>, b: &Option<String>) -> (r: Option<String>)
    ensures
        r == or_else(*a, *b),
{
    match a {
        Some(x) => Some(x.clone()),
        None => match b {
            Some(y) => Some(y.clone()),
            None => None,
        },
    }
}

fn append_all(out: &mut Vec<String>, v: &Option<Vec<String>>)
    ensures
        final(out)@.map_values(|s: String| s@) == old(out)@.map_values(|s: String| s@)
            + string_views_of(*v),
{
    match v {
        Some(xs) => {
            let ghost start = out@.map_values(|s: String| s@);
            let mut i: usize = 0;
            while i < xs.len()
                invariant
                    i <= xs@.len(),
                    out@.map_values(|s: String| s@) == start + xs@.take(i as int).map_values(
                        |s: String| s@,
                    ),
                decreases xs@.len() - i,
            {
                let ghost before = out@;
                let c = xs[i].clone();
                out.push(c);
                assert(out@.map_values(|s: String| s@) =~= before.map_values(|s: String| s@).push(
                    xs@[i as int]@,
                ));
                assert(xs@.take(i as int + 1).map_values(|s: String| s@) =~= xs@.take(
                    i as int,
                ).map_values(|s: String| s@).push(xs@[i as int]@));
                assert(out@.map_values(|s: String| s@) =~= start + xs@.take(i as int + 1).map_values(
                    |s: String| s@,
                ));
                i = i + 1;
            }
            assert(xs@.take(xs@.len() as int) == xs@);
        },
        None => {
            assert(old(out)@.map_values(|s: String| s@) + Seq::<Seq<char>>::empty() =~= out@.map_values(
                |s: String| s@,
            ));
        },
    }
}

impl Config {
    /// A configuration that sets nothing.
    pub fn empty() -> (r: Config)
        ensures
            r.inputs is None && r.overwrite is None && r.dry_run is None && r.buffer_size is None
                && r.atomic is None && r.preserve_timestamps is None && r.pack_format is None
                && r.supported_formats is None && r.out is None && r.dir is None
                && r.description is None && r.tolerate_missing_inputs is None,
    {
        Config {
            inputs: None,
            overwrite: None,
            dry_run: None,
            buffer_size: None,
            atomic: None,
            preserve_timestamps: None,
            pack_format: None,
            supported_formats: None,
            out: None,
            dir: None,
            description: None,
            tolerate_missing_inputs: None,
        }
    }

    /// This configuration laid over `base`: each value set here wins over `base`'s.
    /// The inputs of both are kept, `base`'s first.
    pub fn layered_over(&self, base: &Config) -> (r: Config)
        ensures
            string_views_of(r.inputs) == string_views_of(base.inputs) + string_views_of(self.inputs),
            r.inputs is Some <==> (base.inputs is Some || self.inputs is Some),
            r.overwrite == or_else(self.overwrite, base.overwrite),
            r.dry_run == or_else(self.dry_run, base.dry_run),
            r.buffer_size == or_else(self.buffer_size, base.buffer_size),
            r.atomic == or_else(self.atomic, base.atomic),
            r.preserve_timestamps == or_else(self.preserve_timestamps, base.preserve_timestamps),
            r.pack_format == or_else(self.pack_format, base.pack_format),
            r.supported_formats == or_else(self.supported_formats, base.supported_formats),
            r.out == or_else(self.out, base.out),
            r.dir == or_else(self.dir, base.dir),
            r.description == or_else(self.description, base.description),
            r.tolerate_missing_inputs == or_else(
                self.tolerate_missing_inputs,
                base.tolerate_missing_inputs,
            ),
    {
        let inputs = if base.inputs.is_none() && self.inputs.is_none() {
            None
        } else {
            let mut all: Vec<String> = Vec::new();
            assert(all@.map_values(|s: String| s@) =~= Seq::<Seq<char>>::empty());
            append_all(&mut all, &base.inputs);
            append_all(&mut all, &self.inputs);
            Some(all)
        };
        Config {
            inputs,
            overwrite: first_text(&self.overwrite, &base.overwrite),
            dry_run: first_of(self.dry_run, base.dry_run),
            buffer_size: first_of(self.buffer_size, base.buffer_size),
            atomic: first_of(self.atomic, base.atomic),
            preserve_timestamps: first_of(self.preserve_timestamps, base.preserve_timestamps),
            pack_format: first_of(self.pack_format, base.pack_format),
            supported_formats: first_text(&self.supported_formats, &base.supported_formats),
            out: first_text(&self.out, &base.out),
            dir: first_of(self.dir, base.dir),
            description: first_text(&self.description, &base.description),
            tolerate_missing_inputs: first_of(
                self.tolerate_missing_inputs,
                base.tolerate_missing_inputs,
            ),
        }
    }

    /// The merge options that this configuration sets, with the defaults for values
    /// left out. A policy word that names no policy is an `InvalidInput` error.
    pub fn merge_options(&self) -> (r: Result<MergeOptions, MergeError>)
        ensures
            r is Ok <==> (match self.overwrite {
                Some(w) => overwrite_policy_named(w@) is Some,
                None => true,
            } && match self.supported_formats {
                Some(w) => formats_policy_named(w@) is Some,
                None => true,
            }),
            r matches Ok(o) ==> {
                &&& o.overwrite == match self.overwrite {
                    Some(w) => overwrite_policy_named(w@)->0,
                    None => OverwritePolicy::LastWins,
                }
                &&& o.supported_formats_policy == match self.supported_formats {
                    Some(w) => formats_policy_named(w@)->0,
                    None => SupportedFormatsPolicy::OneToHighest,
                }
                &&& o.dry_run == or_default(self.dry_run, false)
                &&& o.buffer_size == or_default(self.buffer_size, DEFAULT_BUFFER_SIZE)
                &&& o.atomic == or_default(self.atomic, true)
                &&& o.preserve_timestamps == or_default(self.preserve_timestamps, false)
                &&& o.pack_format_override == self.pack_format
                &&& o.description_override == self.description
                &&& o.tolerate_missing_inputs == or_default(self.tolerate_missing_inputs, false)
            },
    {
        let overwrite = match &self.overwrite {
            Some(w) => match OverwritePolicy::parse(w.as_str()) {
                Some(p) => p,
                None => return Err(MergeError::invalid("unknown overwrite policy: ", w.as_str())),
            },
            None => OverwritePolicy::LastWins,
        };
        let supported_formats_policy = match &self.supported_formats {
            Some(w) => match SupportedFormatsPolicy::parse(w.as_str()) {
                Some(p) => p,
                None => return Err(
                    MergeError::invalid("unknown supported formats policy: ", w.as_str()),
                ),
            },
            None => SupportedFormatsPolicy::OneToHighest,
        };
        let description = match &self.description {
            Some(d) => Some(d.clone()),
            None => None,
        };
        Ok(MergeOptions {
            overwrite,
            dry_run: match self.dry_run {
                Some(b) => b,
                None => false,
            },
            buffer_size: match self.buffer_size {
                Some(n) => n,
                None => DEFAULT_BUFFER_SIZE,
            },
            atomic: match self.atomic {
                Some(b) => b,
                None => true,
            },
            preserve_timestamps: match self.preserve_timestamps {
                Some(b) => b,
                None => false,
            },
            pack_format_override: self.pack_format,
            supported_formats_policy,
            description_override: description,
            tolerate_missing_inputs: match self.tolerate_missing_inputs {
                Some(b) => b,
                None => false,
            },
        })
    }
}

} // verus!
