//! The inputs of a merge, as the library receives them: a directory's files read
//! into memory, archive bytes, or the outcome of fetching a remote archive.
use vstd::prelude::*;
use crate::archive::{
    zip_entries, zip_opens, zip_readable, entry_readable, is_dir_name, open_archive, archive_len,
    read_entry, archive_bytes,
};
use crate::error::MergeError;
use crate::table::EntryView;

verus! {

/// The regular files found under a directory.
#[derive(Clone, Debug)]
pub struct DirPack {
    /// The directory, as it is shown in the provenance document.
    pub root: String,
    /// Each file's path relative to the root, with `/` between segments, and its content.
    pub files: Vec<(String, Vec<u8>)>,
}

/// An archive file read into memory.
#[derive(Clone, Debug)]
pub struct ZipFilePack {
    /// The file, as it is shown in the provenance document.
    pub path: String,
    pub bytes: Vec<u8>,
}

/// A response to the request for a remote archive.
#[derive(Clone, Debug)]
pub struct FetchedBody {
    /// The HTTP status code.
    pub status: u16,
    /// The status as text, such as `404 Not Found`.
    pub status_text: String,
    /// The `Content-Type` header, when the response had a readable one.
    pub content_type: Option<String>,
    pub body: Vec<u8>,
}

/// What fetching a remote archive gave.
#[derive(Clone, Debug)]
pub enum FetchOutcome {
    /// No response could be read; the reason as text.
    Failed(String),
    Received(FetchedBody),
}

/// A remote archive and the outcome of fetching it.
#[derive(Clone, Debug)]
pub struct UrlPack {
    pub url: String,
    pub outcome: FetchOutcome,
}

/// One input of a merge.
#[derive(Clone, Debug)]
pub enum PackInput {
    Dir(DirPack),
    ZipFile(ZipFilePack),
    ZipBytes(Vec<u8>),
    Url(UrlPack),
}

/// Path and content of each file, as values.
pub open spec fn entry_views(v: Seq<(String, Vec<u8>)>) -> Seq<EntryView> {
    v.map_values(|e: (String, Vec<u8>)| (e.0@, e.1@))
}

/// The file entries of an archive: every entry that does not mark a directory.
pub open spec fn raw_archive_entries(b: Seq<u8>) -> Seq<EntryView> {
    zip_entries(b).filter(|e: EntryView| !is_dir_name(e.0))
}

/// The two bytes that every ZIP archive starts with, `PK`.
pub open spec fn has_zip_signature(b: Seq<u8>) -> bool {
    b.len() >= 2 && b[0] == 0x50u8 && b[1] == 0x4bu8
}

/// The archive bytes that a fetch delivered: a successful status and a body that
/// starts with the ZIP signature.
pub open spec fn fetched_archive(o: FetchOutcome) -> Option<Seq<u8>> {
    match o {
        FetchOutcome::Received(r) => if 200 <= r.status <= 299 && has_zip_signature(r.body@) {
            Some(r.body@)
        } else {
            None
        },
        FetchOutcome::Failed(_) => None,
    }
}

/// The message of the error that a failed fetch gives.
pub open spec fn fetch_error_message(url: Seq<char>, o: FetchOutcome) -> Seq<char> {
    match o {
        FetchOutcome::Failed(reason) => "failed to GET "@ + url + ": "@ + reason@,
        FetchOutcome::Received(r) => if !(200 <= r.status <= 299) {
            "GET "@ + url + " returned "@ + r.status_text@
        } else {
            "GET "@ + url + " did not return a zip file (content-type: "@ + match r.content_type {
                Some(ct) => ct@,
                None => "<unknown>"@,
            } + ")."@
        },
    }
}

/// Accepts the body of a fetch as an archive, or says why it cannot be one.
pub fn check_fetched<'a>(url: &str, o: &'a FetchOutcome) -> (r: Result<&'a Vec<u8>, MergeError>)
    ensures
        match fetched_archive(*o) {
            Some(b) => r matches Ok(v) && v@ == b,
            None => r matches Err(MergeError::InvalidInput(m)) && m@ == fetch_error_message(url@, *o),
        },
{
    match o {
        FetchOutcome::Failed(reason) => {
            let mut m = String::from_str("failed to GET ");
            m.append(url);
            m.append(": ");
            m.append(reason.as_str());
            Err(MergeError::InvalidInput(m))
        },
        FetchOutcome::Received(resp) => {
            if !(200 <= resp.status && resp.status <= 299) {
                let mut m = String::from_str("GET ");
                m.append(url);
                m.append(" returned ");
                m.append(resp.status_text.as_str());
                Err(MergeError::InvalidInput(m))
            } else if resp.body.len() >= 2 && resp.body[0] == 0x50u8 && resp.body[1] == 0x4bu8 {
                Ok(&resp.body)
            } else {
                let mut m = String::from_str("GET ");
                m.append(url);
                m.append(" did not return a zip file (content-type: ");
                match &resp.content_type {
                    Some(ct) => m.append(ct.as_str()),
                    None => m.append("<unknown>"),
                }
                m.append(").");
                Err(MergeError::InvalidInput(m))
            }
        },
    }
}

/// Reads every file entry of an archive, in archive order, skipping the entries
/// that mark directories. Bytes that do not hold a readable archive give a `Zip` error.
pub fn read_archive(bytes: Vec<u8>) -> (r: Result<Vec<(String, Vec<u8>)>, MergeError>)
    ensures
        r is Ok <==> zip_readable(bytes@),
        r matches Ok(v) ==> entry_views(v@) == raw_archive_entries(bytes@),
        r is Err ==> r matches Err(MergeError::Zip(_)),
{
    let ghost b = bytes@;
    let mut a = match open_archive(bytes) {
        Ok(a) => a,
        Err(e) => return Err(MergeError::Zip(e)),
    };
    let ghost all = zip_entries(b);
    proof {
        reveal(Seq::filter);
    }
    let ghost keep = |e: EntryView| !is_dir_name(e.0);
    let n = archive_len(&a);
    let mut out: Vec<(String, Vec<u8>)> = Vec::new();
    let mut i: usize = 0;
    while i < n
        invariant
            i <= n,
            n == all.len(),
            all == zip_entries(b),
            b == bytes@,
            archive_bytes(a) == b,
            zip_opens(b),
            forall|j: int| 0 <= j < i ==> entry_readable(b, j),
            keep == (|e: EntryView| !is_dir_name(e.0)),
            entry_views(out@) == all.take(i as int).filter(keep),
        decreases n - i,
    {
        assert(all.take(i as int + 1).drop_last() == all.take(i as int));
        assert(all.take(i as int + 1).last() == all[i as int]);
        proof {
            reveal(Seq::filter);
        }
        assert(all.take(i as int + 1).filter(keep) == if keep(all[i as int]) {
            all.take(i as int).filter(keep).push(all[i as int])
        } else {
            all.take(i as int).filter(keep)
        });
        match read_entry(&mut a, i) {
            Ok((name, dir, data)) => {
                assert(keep(all[i as int]) == !dir);
                if !dir {
                    let ghost before = out@;
                    out.push((name, data));
                    assert(entry_views(out@) =~= entry_views(before).push(all[i as int]));
                }
            },
            Err(e) => {
                assert(!entry_readable(b, i as int));
                assert(!zip_readable(b));
                return Err(MergeError::Zip(e));
            },
        }
        i = i + 1;
    }
    assert(all.take(n as int) == all);
    assert(zip_readable(b));
    Ok(out)
}

} // verus!
