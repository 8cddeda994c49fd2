//! The merge engine: sources are absorbed in order into one session, whose table
//! and findings then give the output files.
use vstd::prelude::*;
use vstd::slice::slice_to_vec;
use vstd::utf8::encode_utf8;
use serde_json::Value;
use crate::archive::{
    WrittenEntry, zip_image, zip_readable, written_entries, written_names, entry_size_limit,
    name_length_limit,
    new_writer, start_entry, write_bytes, finish_writer,
};
use crate::descriptor::{
    DESCRIPTOR_NAME, pack_formats_of, peek_descriptor, descriptor_formats, make_pack_mcmeta,
    descriptor_model, description_or_default,
};
use crate::error::MergeError;
use crate::formats::{
    final_format_of, supported_bounds_of, max_format_of, final_pack_format, supported_formats,
    actual_max_format,
};
use crate::json::{JsonModel, json_of, json_parse, json_text, field, models};
use crate::options::{MergeOptions, OverwritePolicy};
use crate::output::{DEFAULT_ICON, readme_text, make_readme, default_pack_png_bytes};
use crate::overlays::{merge_overlays, overlay_map, declarations, merged_block};
use crate::path::{sanitized, sanitize_zip_entry_name};
use crate::sources::{
    PackInput, entry_views, raw_archive_entries, fetched_archive, fetch_error_message,
    check_fetched, read_archive,
};
use crate::table::{
    EntryView, MergeTable, merged, ordered_paths, strictly_ascending, string_views, conflict_message,
};

verus! {

/// Unix permissions of every entry written to an output archive.
pub const ENTRY_PERMISSIONS: u32 = 0o644;

/// The entries that survive sanitization, under their sanitized paths, in order.
pub open spec fn collected(raw: Seq<EntryView>) -> Seq<EntryView>
    decreases raw.len(),
{
    if raw.len() == 0 {
        Seq::empty()
    } else {
        let init = collected(raw.drop_last());
        match sanitized(raw.last().0) {
            Some(p) => init.push((p, raw.last().1)),
            None => init,
        }
    }
}

/// The content of the first entry named like the descriptor, if there is one.
pub open spec fn descriptor_in(raw: Seq<EntryView>) -> Option<Seq<u8>>
    decreases raw.len(),
{
    if raw.len() == 0 {
        None
    } else if raw[0].0 == DESCRIPTOR_NAME@ {
        Some(raw[0].1)
    } else {
        descriptor_in(raw.drop_first())
    }
}

/// The state of a merge: the table, and the formats, max formats and overlays
/// blocks that the inputs declared, in input order.
pub struct SessionModel {
    pub table: Map<Seq<char>, Seq<u8>>,
    pub formats: Seq<u32>,
    pub max_formats: Seq<u32>,
    pub overlays: Seq<JsonModel>,
}

pub open spec fn empty_session() -> SessionModel {
    SessionModel {
        table: Map::empty(),
        formats: Seq::empty(),
        max_formats: Seq::empty(),
        overlays: Seq::empty(),
    }
}

/// The session once the finding of a descriptor text, if any, is recorded.
pub open spec fn with_finding(s: SessionModel, text: Option<Seq<u8>>) -> SessionModel {
    match text {
        None => s,
        Some(b) => match json_parse(b) {
            None => s,
            Some(m) => match pack_formats_of(m) {
                None => s,
                Some((pf, mf)) => SessionModel {
                    table: s.table,
                    formats: s.formats.push(pf),
                    max_formats: match mf {
                        Some(x) => s.max_formats.push(x),
                        None => s.max_formats,
                    },
                    overlays: match field(m, "overlays"@) {
                        Some(o) => s.overlays.push(o),
                        None => s.overlays,
                    },
                },
            },
        },
    }
}

/// The session after one source's entries: its descriptor is inspected, then its
/// sanitized entries enter the table under `policy`. `Err` with the first path that
/// the policy refuses.
pub open spec fn absorb(s: SessionModel, raw: Seq<EntryView>, policy: OverwritePolicy) -> Result<
    SessionModel,
    Seq<char>,
> {
    let s1 = with_finding(s, descriptor_in(raw));
    match merged(s1.table, collected(raw), policy) {
        Ok(m) => Ok(
            SessionModel {
                table: m,
                formats: s1.formats,
                max_formats: s1.max_formats,
                overlays: s1.overlays,
            },
        ),
        Err(p) => Err(p),
    }
}

/// Why a merge fails.
pub enum MergeFailure {
    /// The conflict policy refused this path.
    Conflict(Seq<char>),
    /// An input's bytes hold no readable archive.
    Unreadable,
    /// A remote input delivered no archive; the message says why.
    Unfetched(Seq<char>),
    /// This output file cannot be an archive entry: its content or its name is too long.
    Unwritable(Seq<char>),
}

/// The session after the entries of an archive input.
pub open spec fn absorb_archive(s: SessionModel, b: Seq<u8>, policy: OverwritePolicy) -> Result<
    SessionModel,
    MergeFailure,
> {
    if !zip_readable(b) {
        Err(MergeFailure::Unreadable)
    } else {
        match absorb(s, raw_archive_entries(b), policy) {
            Ok(t) => Ok(t),
            Err(p) => Err(MergeFailure::Conflict(p)),
        }
    }
}

/// The session after one input. A remote input that delivered no archive is
/// skipped when missing inputs are tolerated, and fails the merge otherwise.
pub open spec fn source_step(s: SessionModel, p: PackInput, opts: MergeOptions) -> Result<
    SessionModel,
    MergeFailure,
> {
    match p {
        PackInput::Dir(d) => match absorb(s, entry_views(d.files@), opts.overwrite) {
            Ok(t) => Ok(t),
            Err(q) => Err(MergeFailure::Conflict(q)),
        },
        PackInput::ZipFile(z) => absorb_archive(s, z.bytes@, opts.overwrite),
        PackInput::ZipBytes(b) => absorb_archive(s, b@, opts.overwrite),
        PackInput::Url(u) => match fetched_archive(u.outcome) {
            Some(b) => absorb_archive(s, b, opts.overwrite),
            None => if opts.tolerate_missing_inputs {
                Ok(s)
            } else {
                Err(MergeFailure::Unfetched(fetch_error_message(u.url@, u.outcome)))
            },
        },
    }
}

/// The session after all inputs, in order, or the failure of the first input
/// that fails.
pub open spec fn run_sources(ps: Seq<PackInput>, opts: MergeOptions) -> Result<
    SessionModel,
    MergeFailure,
>
    decreases ps.len(),
{
    if ps.len() == 0 {
        Ok(empty_session())
    } else {
        match run_sources(ps.drop_last(), opts) {
            Ok(s) => source_step(s, ps.last(), opts),
            Err(f) => Err(f),
        }
    }
}

/// The error that a failure gives: a conflict or a failed fetch as an
/// `InvalidInput` error with its message, an unreadable archive as a `Zip` error,
/// a file that cannot be an archive entry as an `InvalidInput` error naming it.
pub open spec fn reports<T>(r: Result<T, MergeError>, f: MergeFailure) -> bool {
    match f {
        MergeFailure::Conflict(p) => r matches Err(MergeError::InvalidInput(m)) && m@
            == conflict_message(p),
        MergeFailure::Unfetched(msg) => r matches Err(MergeError::InvalidInput(m)) && m@ == msg,
        MergeFailure::Unreadable => r matches Err(MergeError::Zip(_)),
        MergeFailure::Unwritable(n) => r matches Err(MergeError::InvalidInput(m)) && m@
            == unwritable_message(n),
    }
}

/// Sources absorbed one after another fill the table as the concatenation of their
/// entries would, so the laws of `merged` over one sequence hold for a whole merge.
pub proof fn sources_merge_as_one_sequence(
    base: Map<Seq<char>, Seq<u8>>,
    a: Seq<EntryView>,
    b: Seq<EntryView>,
    policy: OverwritePolicy,
)
    ensures
        merged(base, a + b, policy) == match merged(base, a, policy) {
            Ok(m) => merged(m, b, policy),
            Err(p) => Err(p),
        },
    decreases b.len(),
{
    if b.len() == 0 {
        assert(a + b =~= a);
    } else {
        sources_merge_as_one_sequence(base, a, b.drop_last(), policy);
        assert((a + b).drop_last() =~= a + b.drop_last());
        assert((a + b).last() == b.last());
    }
}

/// Paths whose place in the output is taken by a generated file.
pub open spec fn reserved(p: Seq<char>) -> bool {
    p == DESCRIPTOR_NAME@ || p == "pack.png"@ || p == "README.md"@
}

/// `p` ends with `suffix`.
pub open spec fn has_suffix(p: Seq<char>, suffix: Seq<char>) -> bool {
    p.len() >= suffix.len() && p.subrange(p.len() - suffix.len(), p.len() as int) == suffix
}

/// A table path that holds a descriptor: the top-level one or a nested copy.
pub open spec fn is_descriptor_path(p: Seq<char>) -> bool {
    p == DESCRIPTOR_NAME@ || has_suffix(p, "/pack.mcmeta"@)
}

/// The formats and max formats declared by the descriptors among the table's
/// paths `ks`, in that order.
pub open spec fn scan_formats(ks: Seq<Seq<char>>, t: Map<Seq<char>, Seq<u8>>) -> (Seq<u32>, Seq<u32>)
    decreases ks.len(),
{
    if ks.len() == 0 {
        (Seq::empty(), Seq::empty())
    } else {
        let (fs, ms) = scan_formats(ks.drop_last(), t);
        let k = ks.last();
        if is_descriptor_path(k) {
            match json_parse(t[k]) {
                Some(m) => match pack_formats_of(m) {
                    Some((pf, mf)) => (
                        fs.push(pf),
                        match mf {
                            Some(x) => ms.push(x),
                            None => ms,
                        },
                    ),
                    None => (fs, ms),
                },
                None => (fs, ms),
            }
        } else {
            (fs, ms)
        }
    }
}

/// The table's files in the order of `ks`, leaving out reserved paths.
pub open spec fn content_entries(ks: Seq<Seq<char>>, t: Map<Seq<char>, Seq<u8>>) -> Seq<EntryView>
    decreases ks.len(),
{
    if ks.len() == 0 {
        Seq::empty()
    } else {
        let init = content_entries(ks.drop_last(), t);
        if reserved(ks.last()) {
            init
        } else {
            init.push((ks.last(), t[ks.last()]))
        }
    }
}

/// The overlays block of the output, when some input declared an overlay.
pub open spec fn output_overlays(s: SessionModel) -> Option<JsonModel> {
    let m = overlay_map(declarations(s.overlays));
    if m.dom() == Set::<Seq<char>>::empty() {
        None
    } else {
        Some(merged_block(m, ordered_paths(m.dom())))
    }
}

/// The text of the output descriptor.
pub open spec fn output_descriptor(s: SessionModel, opts: MergeOptions) -> Seq<char> {
    let ks = ordered_paths(s.table.dom());
    let found = s.formats + scan_formats(ks, s.table).0;
    let found_max = s.max_formats + scan_formats(ks, s.table).1;
    let format = final_format_of(opts.pack_format_override, found);
    let bounds = supported_bounds_of(opts.supported_formats_policy, found, format);
    json_text(
        descriptor_model(
            format,
            bounds,
            description_or_default(
                match opts.description_override {
                    Some(d) => Some(d@),
                    None => None,
                },
            ),
            max_format_of(found_max, bounds),
            output_overlays(s),
        ),
    )
}

/// The files of the output, in the order they are written: the table's files in
/// ascending path order, then the descriptor, the icon and the provenance document.
pub open spec fn output_plan(s: SessionModel, opts: MergeOptions, packs: Seq<PackInput>) -> Seq<
    EntryView,
> {
    content_entries(ordered_paths(s.table.dom()), s.table) + seq![
        (DESCRIPTOR_NAME@, vstd::utf8::encode_utf8(output_descriptor(s, opts))),
        ("pack.png"@, DEFAULT_ICON@),
        ("README.md"@, vstd::utf8::encode_utf8(readme_text(packs))),
    ]
}

/// The entries as written to an archive, each with the fixed permissions.
pub open spec fn stamped(es: Seq<EntryView>) -> Seq<WrittenEntry> {
    es.map_values(|e: EntryView| (e.0, ENTRY_PERMISSIONS, e.1))
}

/// The message of the error for a file that cannot be an archive entry.
pub open spec fn unwritable_message(name: Seq<char>) -> Seq<char> {
    "entry too large for an archive: "@ + name
}

/// A file can be an archive entry: its content and its name are within the limits.
pub open spec fn entry_fits(e: EntryView) -> bool {
    e.1.len() <= entry_size_limit() && encode_utf8(e.0).len() <= name_length_limit()
}

/// The name of the first file that cannot be an archive entry, if any.
pub open spec fn first_unfit(es: Seq<EntryView>) -> Option<Seq<char>>
    decreases es.len(),
{
    if es.len() == 0 {
        None
    } else if !entry_fits(es[0]) {
        Some(es[0].0)
    } else {
        first_unfit(es.drop_first())
    }
}

/// The archive that merging `packs` under `opts` produces, or why the merge fails.
pub open spec fn merge_result(packs: Seq<PackInput>, opts: MergeOptions) -> Result<
    Seq<u8>,
    MergeFailure,
> {
    match run_sources(packs, opts) {
        Ok(s) => match first_unfit(output_plan(s, opts, packs)) {
            None => Ok(zip_image(stamped(output_plan(s, opts, packs)))),
            Some(n) => Err(MergeFailure::Unwritable(n)),
        },
        Err(f) => Err(f),
    }
}

/// Once the merge of a prefix fails, the whole merge fails.
proof fn lemma_merged_err_prefix(
    base: Map<Seq<char>, Seq<u8>>,
    es: Seq<EntryView>,
    n: int,
    policy: OverwritePolicy,
)
    requires
        0 <= n <= es.len(),
        merged(base, es.take(n), policy) is Err,
    ensures
        merged(base, es, policy) == merged(base, es.take(n), policy),
    decreases es.len() - n,
{
    if n < es.len() {
        assert(es.drop_last().take(n) == es.take(n));
        lemma_merged_err_prefix(base, es.drop_last(), n, policy);
    } else {
        assert(es.take(n) == es);
    }
}

/// What a prefix of the entries collects is a prefix of what all of them collect.
proof fn lemma_collected_prefix(raw: Seq<EntryView>, i: int)
    requires
        0 <= i <= raw.len(),
    ensures
        collected(raw.take(i)).len() <= collected(raw).len(),
        collected(raw).take(collected(raw.take(i)).len() as int) == collected(raw.take(i)),
    decreases raw.len() - i,
{
    if i < raw.len() {
        assert(raw.drop_last().take(i) == raw.take(i));
        lemma_collected_prefix(raw.drop_last(), i);
        let a = collected(raw.drop_last());
        let n = collected(raw.take(i)).len() as int;
        assert(collected(raw).take(n) =~= a.take(n));
    } else {
        assert(raw.take(i) == raw);
        assert(collected(raw).take(collected(raw).len() as int) == collected(raw));
    }
}

/// The merge state of one run.
pub struct MergeSession {
    table: MergeTable,
    formats: Vec<u32>,
    max_formats: Vec<u32>,
    overlays: Vec<Value>,
}

impl MergeSession {
    pub closed spec fn model(&self) -> SessionModel {
        SessionModel {
            table: self.table@,
            formats: self.formats@,
            max_formats: self.max_formats@,
            overlays: models(self.overlays@),
        }
    }

    pub closed spec fn wf(&self) -> bool {
        self.table.wf()
    }

    pub fn new() -> (r: MergeSession)
        ensures
            r.wf(),
            r.model() == empty_session(),
    {
        let r = MergeSession {
            table: MergeTable::new(),
            formats: Vec::new(),
            max_formats: Vec::new(),
            overlays: Vec::new(),
        };
        assert(models(r.overlays@) =~= Seq::<JsonModel>::empty());
        r
    }

    /// Records what the source's descriptor declares, if it has one.
    fn note_descriptor(&mut self, raw: &Vec<(String, Vec<u8>)>)
        requires
            old(self).wf(),
        ensures
            final(self).wf(),
            final(self).model() == with_finding(old(self).model(), descriptor_in(entry_views(raw@))),
    {
        let name = String::from_str(DESCRIPTOR_NAME);
        let ghost views = entry_views(raw@);
        let mut i: usize = 0;
        let mut found: Option<usize> = None;
        assert(views.skip(0) =~= views);
        while i < raw.len()
            invariant
                i <= raw@.len(),
                views == entry_views(raw@),
                name@ == DESCRIPTOR_NAME@,
                found matches Some(k) ==> k < raw@.len() && descriptor_in(views) == Some(views[k as int].1),
                found is None ==> descriptor_in(views) == descriptor_in(views.skip(i as int)),
            decreases raw@.len() - i,
        {
            if found.is_none() {
                assert(views.skip(i as int)[0] == views[i as int]);
                assert(views.skip(i as int).drop_first() == views.skip(i as int + 1));
                if raw[i].0 == name {
                    found = Some(i);
                }
            }
            i = i + 1;
        }
        match found {
            Some(k) => {
                let f = peek_descriptor(raw[k].1.as_slice());
                match f {
                    Some(finding) => {
                        let ghost m = json_parse(views[k as int].1)->0;
                        self.formats.push(finding.pack_format);
                        match finding.max_format {
                            Some(x) => self.max_formats.push(x),
                            None => {},
                        }
                        match finding.overlays {
                            Some(ov) => {
                                let ghost before = models(self.overlays@);
                                self.overlays.push(ov);
                                assert(models(self.overlays@) =~= before.push(json_of(ov)));
                            },
                            None => {},
                        }
                    },
                    None => {},
                }
            },
            None => {
                assert(views.skip(raw@.len() as int) =~= Seq::<EntryView>::empty());
            },
        }
    }

    /// Puts the sanitized entries into the table under `policy`; entries whose path
    /// is unsafe are dropped.
    fn collect(&mut self, raw: &Vec<(String, Vec<u8>)>, policy: OverwritePolicy) -> (r: Result<
        (),
        MergeError,
    >)
        requires
            old(self).wf(),
        ensures
            final(self).wf(),
            final(self).formats == old(self).formats,
            final(self).max_formats == old(self).max_formats,
            final(self).overlays == old(self).overlays,
            r is Ok <==> merged(old(self).table@, collected(entry_views(raw@)), policy) is Ok,
            r is Ok ==> merged(old(self).table@, collected(entry_views(raw@)), policy) == Ok::<
                Map<Seq<char>, Seq<u8>>,
                Seq<char>,
            >(final(self).table@),
            merged(old(self).table@, collected(entry_views(raw@)), policy) matches Err(p) ==> r matches Err(
                MergeError::InvalidInput(m),
            ) && m@ == conflict_message(p),
    {
        let ghost views = entry_views(raw@);
        let ghost start = self.table@;
        let mut i: usize = 0;
        while i < raw.len()
            invariant
                i <= raw@.len(),
                views == entry_views(raw@),
                self.table.wf(),
                self.formats == old(self).formats,
                self.max_formats == old(self).max_formats,
                self.overlays == old(self).overlays,
                start == old(self).table@,
                merged(start, collected(views.take(i as int)), policy) == Ok::<
                    Map<Seq<char>, Seq<u8>>,
                    Seq<char>,
                >(self.table@),
            decreases raw@.len() - i,
        {
            let ghost prefix = views.take(i as int + 1);
            assert(prefix.drop_last() == views.take(i as int));
            assert(prefix.last() == views[i as int]);
            match sanitize_zip_entry_name(raw[i].0.as_str()) {
                Some(p) => {
                    let data = slice_to_vec(raw[i].1.as_slice());
                    let ghost c = collected(views.take(i as int));
                    assert(collected(prefix) == c.push((p@, data@)));
                    assert(c.push((p@, data@)).drop_last() == c);
                    match self.table.insert(p, data, policy) {
                        Ok(()) => {},
                        Err(e) => {
                            proof {
                                lemma_collected_prefix(views, i + 1);
                                lemma_merged_err_prefix(
                                    start,
                                    collected(views),
                                    collected(prefix).len() as int,
                                    policy,
                                );
                            }
                            return Err(e);
                        },
                    }
                },
                None => {},
            }
            i = i + 1;
        }
        assert(views.take(raw@.len() as int) == views);
        Ok(())
    }

    /// Takes in one source's files: inspects its descriptor, then puts its
    /// sanitized entries into the table under `policy`.
    pub fn absorb_files(&mut self, raw: &Vec<(String, Vec<u8>)>, policy: OverwritePolicy) -> (r:
        Result<(), MergeError>)
        requires
            old(self).wf(),
        ensures
            final(self).wf(),
            match absorb(old(self).model(), entry_views(raw@), policy) {
                Ok(s) => r is Ok && final(self).model() == s,
                Err(p) => r matches Err(MergeError::InvalidInput(m)) && m@ == conflict_message(p),
            },
    {
        self.note_descriptor(raw);
        self.collect(raw, policy)
    }

    /// Takes in one input under the options.
    pub fn add_pack(&mut self, p: &PackInput, opts: &MergeOptions) -> (r: Result<(), MergeError>)
        requires
            old(self).wf(),
        ensures
            final(self).wf(),
            match source_step(old(self).model(), *p, *opts) {
                Ok(s) => r is Ok && final(self).model() == s,
                Err(f) => reports(r, f),
            },
            r matches Err(MergeError::Zip(_)) ==> final(self).model() == old(self).model(),
    {
        match p {
            PackInput::Dir(d) => self.absorb_files(&d.files, opts.overwrite),
            PackInput::ZipFile(z) => self.absorb_archive_bytes(&z.bytes, opts.overwrite),
            PackInput::ZipBytes(b) => self.absorb_archive_bytes(b, opts.overwrite),
            PackInput::Url(u) => match check_fetched(u.url.as_str(), &u.outcome) {
                Ok(body) => self.absorb_archive_bytes(body, opts.overwrite),
                Err(e) => {
                    if opts.tolerate_missing_inputs {
                        Ok(())
                    } else {
                        Err(e)
                    }
                },
            },
        }
    }

    /// Takes in the file entries of an archive given as bytes.
    pub fn absorb_archive_bytes(&mut self, bytes: &Vec<u8>, policy: OverwritePolicy) -> (r: Result<
        (),
        MergeError,
    >)
        requires
            old(self).wf(),
        ensures
            final(self).wf(),
            match absorb_archive(old(self).model(), bytes@, policy) {
                Ok(s) => r is Ok && final(self).model() == s,
                Err(f) => reports(r, f),
            },
            r matches Err(MergeError::Zip(_)) ==> final(self).model() == old(self).model(),
    {
        match read_archive(slice_to_vec(bytes.as_slice())) {
            Ok(raw) => self.absorb_files(&raw, policy),
            Err(e) => Err(e),
        }
    }
}


/// Tells whether a table path holds a descriptor.
fn descriptor_path(p: &str) -> (r: bool)
    ensures
        r == is_descriptor_path(p@),
{
    let whole = String::from_str(p);
    let name = String::from_str(DESCRIPTOR_NAME);
    if whole == name {
        return true;
    }
    let suffix = "/pack.mcmeta";
    let n = p.unicode_len();
    let m = suffix.unicode_len();
    if n < m {
        return false;
    }
    let mut j: usize = 0;
    while j < m
        invariant
            j <= m,
            m == suffix@.len(),
            n == p@.len(),
            n >= m,
            p@ != DESCRIPTOR_NAME@,
            suffix@ == "/pack.mcmeta"@,
            forall|q: int| 0 <= q < j ==> p@[n - m + q] == suffix@[q],
        decreases m - j,
    {
        if p.get_char(n - m + j) != suffix.get_char(j) {
            assert(p@.subrange(n - m, n as int)[j as int] != suffix@[j as int]);
            return false;
        }
        j = j + 1;
    }
    assert(p@.subrange(n - m, n as int) =~= suffix@);
    true
}

/// Checks that every file can be an archive entry: its content and its UTF-8 name
/// within the limits. Otherwise an `InvalidInput` error names the first that cannot.
pub fn check_writable(files: &Vec<(String, Vec<u8>)>) -> (r: Result<(), MergeError>)
    ensures
        match first_unfit(entry_views(files@)) {
            None => r is Ok,
            Some(n) => reports(r, MergeFailure::Unwritable(n)),
        },
        r is Ok ==> forall|j: int| 0 <= j < files@.len() ==> entry_fits(#[trigger] entry_views(files@)[j]),
{
    let ghost es = entry_views(files@);
    assert(es.skip(0) =~= es);
    let mut i: usize = 0;
    while i < files.len()
        invariant
            i <= files@.len(),
            es == entry_views(files@),
            first_unfit(es) == first_unfit(es.skip(i as int)),
            forall|j: int| 0 <= j < i ==> entry_fits(#[trigger] es[j]),
        decreases files@.len() - i,
    {
        assert(es.skip(i as int)[0] == es[i as int]);
        assert(es.skip(i as int).drop_first() == es.skip(i as int + 1));
        let name = files[i].0.as_str();
        let name_bytes = name.as_bytes().len();
        assert(name@ == es[i as int].0);
        assert(name_bytes == encode_utf8(es[i as int].0).len());
        if name_bytes > 65535 || files[i].1.len() as u64 > 0xffff_ffffu64 {
            let mut m = String::from_str("entry too large for an archive: ");
            m.append(name);
            return Err(MergeError::InvalidInput(m));
        }
        i = i + 1;
    }
    assert(es.skip(files@.len() as int) =~= Seq::<EntryView>::empty());
    Ok(())
}

/// Writes the files into an archive, in order. A file whose content or name is too
/// long for an archive entry gives an `InvalidInput` error naming the first such file.
pub fn write_archive(files: &Vec<(String, Vec<u8>)>) -> (r: Result<Vec<u8>, MergeError>)
    ensures
        r matches Ok(b) ==> b@ == zip_image(stamped(entry_views(files@))),
        entry_paths(entry_views(files@)).no_duplicates() ==> match first_unfit(entry_views(files@)) {
            None => r is Ok,
            Some(n) => reports(r, MergeFailure::Unwritable(n)),
        },
{
    match check_writable(files) {
        Ok(()) => {},
        Err(e) => return Err(e),
    }
    let mut w = new_writer();
    let ghost es = entry_views(files@);
    let ghost views = stamped(es);
    let ghost distinct = entry_paths(es).no_duplicates();
    let mut i: usize = 0;
    while i < files.len()
        invariant
            i <= files@.len(),
            es == entry_views(files@),
            views == stamped(es),
            distinct == entry_paths(es).no_duplicates(),
            written_entries(w) == views.take(i as int),
            forall|j: int| 0 <= j < files@.len() ==> entry_fits(#[trigger] es[j]),
        decreases files@.len() - i,
    {
        proof {
            if written_names(views.take(i as int)).contains(es[i as int].0) {
                let k = choose|k: int|
                    0 <= k < i && written_names(views.take(i as int))[k] == es[i as int].0;
                assert(entry_paths(es)[k] == entry_paths(es)[i as int]);
            }
        }
        assert(entry_fits(es[i as int]));
        w = match start_entry(w, files[i].0.as_str(), ENTRY_PERMISSIONS) {
            Ok(x) => x,
            Err(e) => return Err(MergeError::Zip(e)),
        };
        assert(written_entries(w).last().2.len() == 0);
        w = match write_bytes(w, files[i].1.as_slice()) {
            Ok(x) => x,
            Err(e) => {
                assert(false);
                return Err(MergeError::Io(e));
            },
        };
        assert(written_entries(w) =~= views.take(i as int + 1));
        i = i + 1;
    }
    assert(views.take(files@.len() as int) == views);
    match finish_writer(w) {
        Ok(b) => Ok(b),
        Err(e) => Err(MergeError::Zip(e)),
    }
}

impl MergeSession {
    /// The output files of the session, in the order they are written.
    pub fn plan_output(&self, opts: &MergeOptions, packs: &[PackInput]) -> (r: Vec<(String, Vec<u8>)>)
        requires
            self.wf(),
        ensures
            entry_views(r@) == output_plan(self.model(), *opts, packs@),
            strictly_ascending(ordered_paths(self.model().table.dom())),
    {
        let ks = self.table.sorted_paths();
        let ghost kv = string_views(ks@);
        let ghost t = self.table@;
        let mut found = slice_to_vec(self.formats.as_slice());
        let mut found_max = slice_to_vec(self.max_formats.as_slice());
        let mut out: Vec<(String, Vec<u8>)> = Vec::new();
        let mut i: usize = 0;
        while i < ks.len()
            invariant
                i <= ks@.len(),
                kv == string_views(ks@),
                kv.to_set() == t.dom(),
                t == self.table@,
                found@ == self.formats@ + scan_formats(kv.take(i as int), t).0,
                found_max@ == self.max_formats@ + scan_formats(kv.take(i as int), t).1,
                entry_views(out@) == content_entries(kv.take(i as int), t),
            decreases ks@.len() - i,
        {
            let ghost pre = kv.take(i as int);
            let ghost k = kv[i as int];
            assert(kv.take(i as int + 1).drop_last() == pre);
            assert(kv.take(i as int + 1).last() == k);
            assert(k == ks@[i as int]@);
            assert(t.dom().contains(k));
            let data = match self.table.get(ks[i].as_str()) {
                Some(d) => d,
                None => {
                    assert(false);
                    return Vec::new();
                },
            };
            if descriptor_path(ks[i].as_str()) {
                match descriptor_formats(data.as_slice()) {
                    Some((pf, mf)) => {
                        found.push(pf);
                        match mf {
                            Some(x) => found_max.push(x),
                            None => {},
                        }
                    },
                    None => {},
                }
            }
            let whole = String::from_str(ks[i].as_str());
            let skip = whole == String::from_str(DESCRIPTOR_NAME) || whole == String::from_str(
                "pack.png",
            ) || whole == String::from_str("README.md");
            if !skip {
                let ghost before = out@;
                out.push((whole, slice_to_vec(data.as_slice())));
                assert(entry_views(out@) =~= entry_views(before).push((k, t[k])));
            }
            i = i + 1;
        }
        assert(kv.take(ks@.len() as int) == kv);
        assert(kv == ordered_paths(t.dom()));
        let format = final_pack_format(opts.pack_format_override, &found);
        let bounds = supported_formats(opts.supported_formats_policy, &found, format);
        let max_format = actual_max_format(&found_max, &bounds);
        let overlays = merge_overlays(&self.overlays);
        let description: Option<&str> = match &opts.description_override {
            Some(d) => Some(d.as_str()),
            None => None,
        };
        let meta = match &overlays {
            Some(v) => make_pack_mcmeta(format, &bounds, description, max_format, Some(v)),
            None => make_pack_mcmeta(format, &bounds, description, max_format, None),
        };
        let ghost content = entry_views(out@);
        out.push((String::from_str(DESCRIPTOR_NAME), meta.as_str().as_bytes_vec()));
        out.push((String::from_str("pack.png"), default_pack_png_bytes()));
        out.push((String::from_str("README.md"), make_readme(packs).as_str().as_bytes_vec()));
        assert(entry_views(out@) =~= output_plan(self.model(), *opts, packs@));
        out
    }
}

/// Merges the inputs in order under `opts` and returns the output archive.
///
/// Later inputs override earlier ones under the default policy. The archive holds
/// the merged files in ascending path order, then the generated descriptor, icon and
/// provenance document.
pub fn merge_packs_to_bytes_with_options(packs: &[PackInput], opts: &MergeOptions) -> (r: Result<
    Vec<u8>,
    MergeError,
>)
    ensures
        match merge_result(packs@, *opts) {
            Ok(b) => r matches Ok(x) && x@ == b,
            Err(f) => reports(r, f),
        },
        r is Ok ==> (run_sources(packs@, *opts) matches Ok(s) && strictly_ascending(
            ordered_paths(s.table.dom()),
        )),
{
    let session = match merge_sources(packs, opts) {
        Ok(s) => s,
        Err(e) => return Err(e),
    };
    let plan = session.plan_output(opts, packs);
    proof {
        lemma_plan_names_distinct(session.model(), *opts, packs@);
    }
    write_archive(&plan)
}

/// The names in an output plan are all different.
pub proof fn lemma_plan_names_distinct(s: SessionModel, opts: MergeOptions, packs: Seq<PackInput>)
    requires
        strictly_ascending(ordered_paths(s.table.dom())),
    ensures
        entry_paths(output_plan(s, opts, packs)).no_duplicates(),
{
    let ks = ordered_paths(s.table.dom());
    let c = content_entries(ks, s.table);
    output_content_ascending(ks, s.table);
    let plan = output_plan(s, opts, packs);
    let names = entry_paths(plan);
    reveal_strlit("pack.mcmeta");
    reveal_strlit("pack.png");
    reveal_strlit("README.md");
    assert(DESCRIPTOR_NAME@ =~= "pack.mcmeta"@);
    assert(DESCRIPTOR_NAME@ != "pack.png"@ && DESCRIPTOR_NAME@ != "README.md"@ && "pack.png"@
        != "README.md"@) by {
        assert(DESCRIPTOR_NAME@.len() != "pack.png"@.len());
        assert(DESCRIPTOR_NAME@.len() != "README.md"@.len());
        assert("pack.png"@[0] != "README.md"@[0]);
    }
    assert forall|i: int, j: int| 0 <= i < names.len() && 0 <= j < names.len() && i != j implies names[i]
        != names[j] by {
        let (a, b) = if i < j {
            (i, j)
        } else {
            (j, i)
        };
        if b < c.len() {
            assert(names[a] == entry_paths(c)[a] && names[b] == entry_paths(c)[b]);
            assert(crate::table::path_lt(entry_paths(c)[a], entry_paths(c)[b]));
        } else if a < c.len() {
            assert(!reserved(c[a].0));
            assert(names[a] == c[a].0);
        }
    }
}

/// Runs every input through a new session.
fn merge_sources(packs: &[PackInput], opts: &MergeOptions) -> (r: Result<MergeSession, MergeError>)
    ensures
        match run_sources(packs@, *opts) {
            Ok(s) => r matches Ok(x) && x.wf() && x.model() == s,
            Err(f) => reports(r, f),
        },
{
    let mut session = MergeSession::new();
    let mut i: usize = 0;
    while i < packs.len()
        invariant
            i <= packs@.len(),
            session.wf(),
            run_sources(packs@.take(i as int), *opts) == Ok::<SessionModel, MergeFailure>(
                session.model(),
            ),
        decreases packs@.len() - i,
    {
        assert(packs@.take(i as int + 1).drop_last() == packs@.take(i as int));
        assert(packs@.take(i as int + 1).last() == packs@[i as int]);
        match session.add_pack(&packs[i], opts) {
            Ok(()) => {},
            Err(e) => {
                proof {
                    lemma_run_err_prefix(packs@, i as int + 1, *opts);
                }
                return Err(e);
            },
        }
        i = i + 1;
    }
    assert(packs@.take(packs@.len() as int) == packs@);
    Ok(session)
}

/// Once a prefix of the inputs fails, the whole merge fails the same way.
proof fn lemma_run_err_prefix(ps: Seq<PackInput>, n: int, opts: MergeOptions)
    requires
        0 <= n <= ps.len(),
        run_sources(ps.take(n), opts) is Err,
    ensures
        run_sources(ps, opts) == run_sources(ps.take(n), opts),
    decreases ps.len() - n,
{
    if n < ps.len() {
        assert(ps.drop_last().take(n) == ps.take(n));
        lemma_run_err_prefix(ps.drop_last(), n, opts);
    } else {
        assert(ps.take(n) == ps);
    }
}

/// Merges the inputs in order under the default options and returns the output archive.
pub fn merge_packs_to_bytes(packs: &[PackInput]) -> (r: Result<Vec<u8>, MergeError>)
    ensures
        match merge_result(packs@, default_options()) {
            Ok(b) => r matches Ok(x) && x@ == b,
            Err(f) => reports(r, f),
        },
{
    let opts = MergeOptions::default();
    assert(opts == default_options());
    merge_packs_to_bytes_with_options(packs, &opts)
}

/// The default options.
pub open spec fn default_options() -> MergeOptions {
    MergeOptions {
        overwrite: OverwritePolicy::LastWins,
        dry_run: false,
        buffer_size: crate::options::DEFAULT_BUFFER_SIZE,
        atomic: true,
        preserve_timestamps: false,
        pack_format_override: None,
        supported_formats_policy: crate::options::SupportedFormatsPolicy::OneToHighest,
        description_override: None,
        tolerate_missing_inputs: false,
    }
}


/// What a run leaves for the caller to write.
pub enum MergeOutcome {
    /// A dry run: nothing is to be written.
    DryRun,
    /// The output archive, to be written to the output path.
    Archive(Vec<u8>),
    /// The output files, each under its sanitized path relative to the output directory.
    Directory(Vec<(String, Vec<u8>)>),
}

/// The full configuration of one run.
pub struct Settings {
    /// The inputs, applied in order.
    pub inputs: Vec<PackInput>,
    /// The output path: an archive file, or a directory when `dir` is set.
    pub out: String,
    /// Write the output as a directory instead of an archive.
    pub dir: bool,
    pub options: MergeOptions,
}

/// Sanitizes the path of every file again, dropping those that are unsafe.
pub fn sanitize_all(files: &Vec<(String, Vec<u8>)>) -> (r: Vec<(String, Vec<u8>)>)
    ensures
        entry_views(r@) == collected(entry_views(files@)),
{
    let ghost views = entry_views(files@);
    let mut out: Vec<(String, Vec<u8>)> = Vec::new();
    let mut i: usize = 0;
    while i < files.len()
        invariant
            i <= files@.len(),
            views == entry_views(files@),
            entry_views(out@) == collected(views.take(i as int)),
        decreases files@.len() - i,
    {
        assert(views.take(i as int + 1).drop_last() == views.take(i as int));
        assert(views.take(i as int + 1).last() == views[i as int]);
        match sanitize_zip_entry_name(files[i].0.as_str()) {
            Some(p) => {
                let ghost before = out@;
                out.push((p, slice_to_vec(files[i].1.as_slice())));
                assert(entry_views(out@) =~= entry_views(before).push((p@, views[i as int].1)));
            },
            None => {},
        }
        i = i + 1;
    }
    assert(views.take(files@.len() as int) == views);
    out
}

/// Runs a merge as the settings say. All inputs are collected and the output is
/// synthesized even in a dry run, so that unusable inputs are reported; a dry run
/// leaves nothing to write.
pub fn run_with_settings(settings: &Settings) -> (r: Result<MergeOutcome, MergeError>)
    ensures
        match run_sources(settings.inputs@, settings.options) {
            Err(f) => reports(r, f),
            Ok(s) => if settings.options.dry_run && settings.dir {
                r matches Ok(MergeOutcome::DryRun)
            } else if settings.options.dry_run {
                match merge_result(settings.inputs@, settings.options) {
                    Ok(_) => r matches Ok(MergeOutcome::DryRun),
                    Err(f) => reports(r, f),
                }
            } else if settings.dir {
                r matches Ok(MergeOutcome::Directory(f)) && entry_views(f@) == collected(
                    output_plan(s, settings.options, settings.inputs@),
                )
            } else {
                match merge_result(settings.inputs@, settings.options) {
                    Ok(b) => r matches Ok(MergeOutcome::Archive(x)) && x@ == b,
                    Err(f) => reports(r, f),
                }
            },
        },
        settings.options.dry_run ==> (r matches Ok(o) ==> o is DryRun),
{
    let packs = settings.inputs.as_slice();
    let session = match merge_sources(packs, &settings.options) {
        Ok(s) => s,
        Err(e) => return Err(e),
    };
    let plan = session.plan_output(&settings.options, packs);
    if settings.options.dry_run && settings.dir {
        Ok(MergeOutcome::DryRun)
    } else if settings.options.dry_run {
        match check_writable(&plan) {
            Ok(()) => Ok(MergeOutcome::DryRun),
            Err(e) => Err(e),
        }
    } else if settings.dir {
        Ok(MergeOutcome::Directory(sanitize_all(&plan)))
    } else {
        proof {
            lemma_plan_names_distinct(session.model(), settings.options, packs@);
        }
        match write_archive(&plan) {
            Ok(bytes) => Ok(MergeOutcome::Archive(bytes)),
            Err(e) => Err(e),
        }
    }
}

/// The paths of a list of entries.
pub open spec fn entry_paths(es: Seq<EntryView>) -> Seq<Seq<char>> {
    es.map_values(|e: EntryView| e.0)
}

/// Taken in ascending path order, the table's files keep that order in the output
/// and none of them takes the place of a generated file.
pub proof fn output_content_ascending(ks: Seq<Seq<char>>, t: Map<Seq<char>, Seq<u8>>)
    requires
        strictly_ascending(ks),
    ensures
        strictly_ascending(entry_paths(content_entries(ks, t))),
        forall|i: int|
            0 <= i < content_entries(ks, t).len() ==> !reserved(
                #[trigger] content_entries(ks, t)[i].0,
            ) && ks.contains(content_entries(ks, t)[i].0),
    decreases ks.len(),
{
    if ks.len() > 0 {
        let init = ks.drop_last();
        assert(strictly_ascending(init)) by {
            assert forall|a: int, b: int| 0 <= a < b < init.len() implies crate::table::path_lt(
                #[trigger] init[a],
                #[trigger] init[b],
            ) by {
                assert(init[a] == ks[a] && init[b] == ks[b]);
            }
        }
        output_content_ascending(init, t);
        let c0 = content_entries(init, t);
        let c = content_entries(ks, t);
        assert forall|i: int| 0 <= i < c0.len() implies ks.contains(#[trigger] c0[i].0) by {
            let j = choose|j: int| 0 <= j < init.len() && init[j] == c0[i].0;
            assert(ks[j] == c0[i].0);
        }
        if !reserved(ks.last()) {
            assert forall|a: int, b: int| 0 <= a < b < entry_paths(c).len() implies crate::table::path_lt(
                #[trigger] entry_paths(c)[a],
                #[trigger] entry_paths(c)[b],
            ) by {
                if b == c.len() - 1 {
                    let j = choose|j: int| 0 <= j < init.len() && init[j] == c0[a].0;
                    assert(crate::table::path_lt(ks[j], ks[ks.len() - 1]));
                } else {
                    assert(entry_paths(c0)[a] == entry_paths(c)[a]);
                    assert(entry_paths(c0)[b] == entry_paths(c)[b]);
                }
            }
            assert forall|i: int| 0 <= i < c.len() implies !reserved(#[trigger] c[i].0) && ks.contains(
                c[i].0,
            ) by {
                if i == c.len() - 1 {
                    assert(ks[ks.len() - 1] == c[i].0);
                }
            }
        } else {
            assert(entry_paths(c) == entry_paths(c0));
        }
    }
}

/// Two runs on identical inputs and options give byte-for-byte the same archive.
pub proof fn merge_is_deterministic(
    packs: Seq<PackInput>,
    opts: MergeOptions,
    first: Seq<u8>,
    second: Seq<u8>,
)
    requires
        merge_result(packs, opts) == Ok::<Seq<u8>, MergeFailure>(first),
        merge_result(packs, opts) == Ok::<Seq<u8>, MergeFailure>(second),
    ensures
        first == second,
{
}


/// The sanitized entries that an input contributes to the table.
pub open spec fn source_entries(p: PackInput) -> Seq<EntryView> {
    match p {
        PackInput::Dir(d) => collected(entry_views(d.files@)),
        PackInput::ZipFile(z) => collected(raw_archive_entries(z.bytes@)),
        PackInput::ZipBytes(b) => collected(raw_archive_entries(b@)),
        PackInput::Url(u) => match fetched_archive(u.outcome) {
            Some(b) => collected(raw_archive_entries(b)),
            None => Seq::empty(),
        },
    }
}

/// The sanitized entries of all inputs, input after input.
pub open spec fn all_entries(ps: Seq<PackInput>) -> Seq<EntryView>
    decreases ps.len(),
{
    if ps.len() == 0 {
        Seq::empty()
    } else {
        all_entries(ps.drop_last()) + source_entries(ps.last())
    }
}

/// The table of a merge is the entries of all inputs merged in order from nothing.
pub proof fn lemma_run_table(ps: Seq<PackInput>, opts: MergeOptions)
    ensures
        run_sources(ps, opts) matches Ok(s) ==> merged(Map::empty(), all_entries(ps), opts.overwrite)
            == Ok::<Map<Seq<char>, Seq<u8>>, Seq<char>>(s.table),
    decreases ps.len(),
{
    if ps.len() > 0 {
        let init = ps.drop_last();
        lemma_run_table(init, opts);
        sources_merge_as_one_sequence(
            Map::empty(),
            all_entries(init),
            source_entries(ps.last()),
            opts.overwrite,
        );
        if source_entries(ps.last()) == Seq::<EntryView>::empty() {
            assert(all_entries(init) + Seq::<EntryView>::empty() =~= all_entries(init));
        }
    }
}

/// Under last-wins, each path of the merged table holds the content of the last
/// input entry with that path.
pub proof fn merge_last_wins(ps: Seq<PackInput>, opts: MergeOptions, i: int)
    requires
        opts.overwrite == OverwritePolicy::LastWins,
        run_sources(ps, opts) is Ok,
        0 <= i < all_entries(ps).len(),
        forall|j: int| i < j < all_entries(ps).len() ==> all_entries(ps)[j].0 != all_entries(ps)[i].0,
    ensures
        run_sources(ps, opts)->Ok_0.table.contains_key(all_entries(ps)[i].0),
        run_sources(ps, opts)->Ok_0.table[all_entries(ps)[i].0] == all_entries(ps)[i].1,
{
    lemma_run_table(ps, opts);
    crate::table::last_wins_keeps_last_entry(Map::empty(), all_entries(ps));
}

/// Under first-wins and skip-if-exists, each path of the merged table holds the
/// content of the first input entry with that path.
pub proof fn merge_first_wins(ps: Seq<PackInput>, opts: MergeOptions, i: int)
    requires
        opts.overwrite == OverwritePolicy::FirstWins || opts.overwrite
            == OverwritePolicy::SkipIfExists,
        run_sources(ps, opts) is Ok,
        0 <= i < all_entries(ps).len(),
        forall|j: int| 0 <= j < i ==> all_entries(ps)[j].0 != all_entries(ps)[i].0,
    ensures
        run_sources(ps, opts)->Ok_0.table.contains_key(all_entries(ps)[i].0),
        run_sources(ps, opts)->Ok_0.table[all_entries(ps)[i].0] == all_entries(ps)[i].1,
{
    lemma_run_table(ps, opts);
    crate::table::first_wins_keeps_first_entry(all_entries(ps), opts.overwrite);
}

/// Under error-if-conflict, a path that two input entries share fails the merge,
/// so no output is produced.
pub proof fn merge_fails_on_conflict(ps: Seq<PackInput>, opts: MergeOptions, i: int, j: int)
    requires
        opts.overwrite == OverwritePolicy::ErrorIfConflict,
        0 <= i < j < all_entries(ps).len(),
        all_entries(ps)[i].0 == all_entries(ps)[j].0,
    ensures
        run_sources(ps, opts) is Err,
        merge_result(ps, opts) is Err,
{
    lemma_run_table(ps, opts);
    crate::table::error_if_conflict_fails_on_shared_path(all_entries(ps));
}


/// Options that differ from `opts` only in the overwrite policy.
pub open spec fn with_policy(opts: MergeOptions, policy: OverwritePolicy) -> MergeOptions {
    MergeOptions { overwrite: policy, ..opts }
}

/// When no path is shared by two input entries, a merge under error-if-conflict
/// succeeds or fails exactly as one under last-wins does, with the same result.
pub proof fn conflict_free_merge_is_last_wins(ps: Seq<PackInput>, opts: MergeOptions)
    requires
        forall|i: int, j: int|
            0 <= i < j < all_entries(ps).len() ==> #[trigger] all_entries(ps)[i].0
                != #[trigger] all_entries(ps)[j].0,
    ensures
        run_sources(ps, with_policy(opts, OverwritePolicy::ErrorIfConflict)) == run_sources(
            ps,
            with_policy(opts, OverwritePolicy::LastWins),
        ),
    decreases ps.len(),
{
    let oe = with_policy(opts, OverwritePolicy::ErrorIfConflict);
    let ol = with_policy(opts, OverwritePolicy::LastWins);
    if ps.len() > 0 {
        let init = ps.drop_last();
        let a = all_entries(init);
        let b = source_entries(ps.last());
        assert(all_entries(ps) == a + b);
        assert forall|i: int, j: int| 0 <= i < j < a.len() implies #[trigger] a[i].0 != #[trigger] a[j].0 by {
            assert(all_entries(ps)[i] == a[i] && all_entries(ps)[j] == a[j]);
        }
        conflict_free_merge_is_last_wins(init, opts);
        if run_sources(init, ol) is Ok {
            let s = run_sources(init, ol)->Ok_0;
            lemma_run_table(init, ol);
            crate::table::lemma_merged_keys(Map::empty(), a, OverwritePolicy::LastWins);
            assert forall|i: int, j: int| 0 <= i < j < b.len() implies #[trigger] b[i].0 != #[trigger] b[j].0 by {
                assert(all_entries(ps)[a.len() + i] == b[i] && all_entries(ps)[a.len() + j] == b[j]);
            }
            assert forall|i: int| 0 <= i < b.len() implies !s.table.contains_key(#[trigger] b[i].0) by {
                if s.table.contains_key(b[i].0) {
                    let k = choose|k: int| 0 <= k < a.len() && a[k].0 == b[i].0;
                    assert(all_entries(ps)[k] == a[k] && all_entries(ps)[a.len() + i] == b[i]);
                }
            }
            crate::table::conflict_free_merges_agree(s.table, b);
        }
    }
}


/// The table of a successful merge has finitely many paths.
pub proof fn lemma_run_table_finite(ps: Seq<PackInput>, opts: MergeOptions)
    requires
        run_sources(ps, opts) is Ok,
    ensures
        run_sources(ps, opts)->Ok_0.table.dom().finite(),
{
    let t = run_sources(ps, opts)->Ok_0.table;
    let es = all_entries(ps);
    lemma_run_table(ps, opts);
    crate::table::lemma_merged_keys(Map::empty(), es, opts.overwrite);
    let paths = entry_paths(es);
    vstd::seq_lib::seq_to_set_is_finite(paths);
    assert(merged(Map::empty(), es, opts.overwrite) == Ok::<Map<Seq<char>, Seq<u8>>, Seq<char>>(t));
    let m = merged(Map::empty(), es, opts.overwrite)->Ok_0;
    assert(m == t);
    assert(forall|k: Seq<char>| #[trigger] m.contains_key(k) ==> Map::<Seq<char>, Seq<u8>>::empty().contains_key(k)
        || exists|i: int| 0 <= i < es.len() && es[i].0 == k);
    assert forall|k: Seq<char>| t.dom().contains(k) implies paths.to_set().contains(k) by {
        assert(m.contains_key(k));
        assert(!Map::<Seq<char>, Seq<u8>>::empty().contains_key(k));
        let i = choose|i: int| 0 <= i < es.len() && es[i].0 == k;
        assert(paths[i] == k);
    }
    vstd::set_lib::lemma_set_subset_finite(paths.to_set(), t.dom());
}

/// The archive of a successful merge holds the table's files, but for the three
/// generated paths, in strictly ascending path order, then the descriptor, the icon
/// and the provenance document; no name appears twice.
pub proof fn merge_output_order(ps: Seq<PackInput>, opts: MergeOptions)
    requires
        run_sources(ps, opts) is Ok,
    ensures
        ({
            let s = run_sources(ps, opts)->Ok_0;
            let content = content_entries(ordered_paths(s.table.dom()), s.table);
            &&& ordered_paths(s.table.dom()).to_set() == s.table.dom()
            &&& strictly_ascending(entry_paths(content))
            &&& forall|i: int| 0 <= i < content.len() ==> !reserved(#[trigger] content[i].0)
            &&& entry_paths(output_plan(s, opts, ps)) == entry_paths(content) + seq![
                DESCRIPTOR_NAME@,
                "pack.png"@,
                "README.md"@,
            ]
            &&& entry_paths(output_plan(s, opts, ps)).no_duplicates()
        }),
{
    let s = run_sources(ps, opts)->Ok_0;
    lemma_run_table_finite(ps, opts);
    crate::order::lemma_ordered_paths_exist(s.table.dom());
    let ks = ordered_paths(s.table.dom());
    output_content_ascending(ks, s.table);
    lemma_plan_names_distinct(s, opts, ps);
    let content = content_entries(ks, s.table);
    assert(entry_paths(output_plan(s, opts, ps)) =~= entry_paths(content) + seq![
        DESCRIPTOR_NAME@,
        "pack.png"@,
        "README.md"@,
    ]);
}

} // verus!
