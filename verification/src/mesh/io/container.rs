//! The model part of a container: which entry it is, and what it holds.

use crate::decimal::{lowered, to_lowered};
use crate::text::{characters, excerpt, same_text};
use std::io::Read;
use vstd::prelude::*;

verus! {

/// A result whose value and whose error are taken as mathematical values.
pub open spec fn text_result(r: Result<String, String>) -> Result<Seq<char>, Seq<char>> {
    match r {
        Ok(s) => Ok(s@),
        Err(e) => Err(e@),
    }
}

/// Results as mathematical values.
pub open spec fn text_results(v: Seq<Result<String, String>>) -> Seq<Result<Seq<char>, Seq<char>>> {
    Seq::new(v.len(), |i: int| text_result(v[i]))
}

/// The number of entries in an archive, or why it is none, as
/// `zip::ZipArchive::new` and `zip::ZipArchive::len` say.
pub uninterp spec fn archive_length(bytes: Seq<u8>) -> Result<usize, Seq<char>>;

/// The name of an entry of an archive, or why it cannot be read, as
/// `zip::ZipArchive::by_index` and the name of the file it gives say.
pub uninterp spec fn archive_name(bytes: Seq<u8>, index: usize) -> Result<Seq<char>, Seq<char>>;

/// The text of an entry of an archive: an error, where `zip::ZipArchive::by_index`
/// gives one, and else what reading the file to a string gives.
pub uninterp spec fn archive_text(bytes: Seq<u8>, index: usize) -> Result<Result<Seq<char>, Seq<char>>, Seq<char>>;

/// The number of entries: `zip::ZipArchive::new` on the bytes, and
/// `zip::ZipArchive::len`. The result depends on nothing but the bytes.
#[verifier::external_body]
fn entry_count(bytes: &[u8]) -> (r: Result<usize, String>)
    ensures
        match r {
            Ok(n) => archive_length(bytes@) == Ok::<usize, Seq<char>>(n),
            Err(e) => archive_length(bytes@) == Err::<usize, Seq<char>>(e@),
        },
{
    match zip::ZipArchive::new(std::io::Cursor::new(bytes)) {
        Ok(archive) => Ok(archive.len()),
        Err(e) => Err(e.to_string()),
    }
}

/// The name of an entry: `zip::ZipArchive::by_index` on the archive in the bytes,
/// and the name of the file it gives. The result depends on nothing but the bytes
/// and the index.
#[verifier::external_body]
fn entry_name(bytes: &[u8], index: usize) -> (r: Result<String, String>)
    ensures
        text_result(r) == archive_name(bytes@, index),
{
    match zip::ZipArchive::new(std::io::Cursor::new(bytes)) {
        Ok(mut archive) => match archive.by_index(index) {
            Ok(file) => file.name().map(|n| n.into_owned()).map_err(|e| e.to_string()),
            Err(e) => Err(e.to_string()),
        },
        Err(e) => Err(e.to_string()),
    }
}

/// The text of an entry: `zip::ZipArchive::by_index` on the archive in the bytes,
/// and `std::io::Read::read_to_string` on the file it gives. The result depends on
/// nothing but the bytes and the index.
#[verifier::external_body]
fn entry_text(bytes: &[u8], index: usize) -> (r: Result<Result<String, String>, String>)
    ensures
        archive_text(bytes@, index) == match r {
            Ok(t) => Ok(text_result(t)),
            Err(e) => Err(e@),
        },
{
    let mut text: String = String::new();
    match zip::ZipArchive::new(std::io::Cursor::new(bytes)) {
        Ok(mut archive) => match archive.by_index(index) {
            Ok(mut file) => match file.read_to_string(&mut text) {
                Ok(_) => Ok(Ok(text)),
                Err(e) => Ok(Err(e.to_string())),
            },
            Err(e) => Err(e.to_string()),
        },
        Err(e) => Err(e.to_string()),
    }
}

/// A text ends with another.
pub open spec fn ends_with(s: Seq<char>, end: Seq<char>) -> bool {
    s.len() >= end.len() && s.subrange(s.len() - end.len(), s.len() as int) == end
}

fn has_ending(s: &[char], end: &str) -> (r: bool)
    ensures
        r == ends_with(s@, end@),
{
    let e: Vec<char> = characters(end);
    if s.len() < e.len() {
        return false;
    }
    let tail: Vec<char> = excerpt(s, s.len() - e.len(), s.len());
    same_text(tail.as_slice(), end)
}

/// Which entry is the model part, from entry `i` on: the one at the conventional
/// path, or the first whose name ends as that of a model does. `found` is the
/// first such entry before `i`. An entry whose name cannot be read ends the
/// search with its error, if the conventional path does not come before it.
pub open spec fn part_from(
    names: Seq<Result<Seq<char>, Seq<char>>>,
    i: int,
    found: Option<usize>,
) -> Result<Option<usize>, Seq<char>>
    decreases names.len() - i,
{
    if i < 0 || i >= names.len() {
        Ok(found)
    } else {
        match names[i] {
            Err(e) => Err(e),
            Ok(name) => if lowered(name) == "3d/3dmodel.model"@ {
                Ok(Some(i as usize))
            } else if found is None && ends_with(lowered(name), ".model"@) {
                part_from(names, i + 1, Some(i as usize))
            } else {
                part_from(names, i + 1, found)
            },
        }
    }
}

/// Which entry is the model part, from the names of the entries.
pub fn pick_part(names: &[Result<String, String>]) -> (r: Result<Option<usize>, String>)
    ensures
        match r {
            Ok(p) => part_from(text_results(names@), 0, None) == Ok::<Option<usize>, Seq<char>>(p),
            Err(e) => part_from(text_results(names@), 0, None) == Err::<Option<usize>, Seq<char>>(e@),
        },
        r matches Ok(Some(p)) ==> p < names@.len(),
{
    let ghost all = text_results(names@);
    let mut found: Option<usize> = None;
    let mut i: usize = 0;
    while i < names.len()
        invariant
            i <= names@.len(),
            all == text_results(names@),
            found matches Some(p) ==> p < names@.len(),
            part_from(all, 0, None) == part_from(all, i as int, found),
        decreases names@.len() - i,
    {
        assert(all[i as int] == text_result(names@[i as int]));
        match &names[i] {
            Err(e) => {
                return Err(e.clone());
            },
            Ok(name) => {
                let c: Vec<char> = characters(name.as_str());
                let lower: Vec<char> = to_lowered(c.as_slice());
                if same_text(lower.as_slice(), "3d/3dmodel.model") {
                    return Ok(Some(i));
                }
                if found.is_none() && has_ending(lower.as_slice(), ".model") {
                    found = Some(i);
                }
            },
        }
        i = i + 1;
    }
    Ok(found)
}

/// The names of the entries of an archive.
pub open spec fn archive_names(bytes: Seq<u8>, n: nat) -> Seq<Result<Seq<char>, Seq<char>>> {
    Seq::new(n, |i: int| archive_name(bytes, i as usize))
}

/// The text of the model part, or what is wrong with the container.
pub open spec fn model_text(bytes: Seq<u8>) -> Result<Seq<char>, Seq<char>> {
    match archive_length(bytes) {
        Err(e) => Err("not a readable ZIP container: "@ + e),
        Ok(n) => match part_from(archive_names(bytes, n as nat), 0, None) {
            Err(e) => Err("unreadable ZIP entry: "@ + e),
            Ok(None) => Err("no model part found; a 3MF container must hold 3D/3dmodel.model"@),
            Ok(Some(p)) => match archive_text(bytes, p) {
                Err(e) => Err("unreadable model part: "@ + e),
                Ok(Err(e)) => Err("model part is not valid UTF-8: "@ + e),
                Ok(Ok(t)) => Ok(t),
            },
        },
    }
}

pub(crate) fn prefixed(prefix: &str, e: &str) -> (s: String)
    ensures
        s@ == prefix@ + e@,
{
    let mut s: String = String::from_str(prefix);
    s.append(e);
    s
}

/// Reads the model part out of a container.
pub fn model_part(bytes: &[u8]) -> (r: Result<String, String>)
    ensures
        text_result(r) == model_text(bytes@),
{
    let n: usize = match entry_count(bytes) {
        Ok(n) => n,
        Err(e) => {
            return Err(prefixed("not a readable ZIP container: ", e.as_str()));
        },
    };
    let mut names: Vec<Result<String, String>> = Vec::new();
    let mut i: usize = 0;
    while i < n
        invariant
            i <= n,
            text_results(names@) == archive_names(bytes@, i as nat),
        decreases n - i,
    {
        let ghost was = names@;
        names.push(entry_name(bytes, i));
        i = i + 1;
        proof {
            assert(text_results(was) =~= archive_names(bytes@, (i - 1) as nat));
            assert forall|k: int| 0 <= k < i implies text_results(names@)[k] == archive_names(bytes@, i as nat)[k] by {
                if k < i - 1 {
                    assert(text_results(was)[k] == archive_names(bytes@, (i - 1) as nat)[k]);
                }
            }
            assert(names@.len() == was.len() + 1 && text_results(was).len() == i - 1);
            assert(text_results(names@) =~= archive_names(bytes@, i as nat));
        }
    }
    let part: usize = match pick_part(names.as_slice()) {
        Ok(Some(p)) => p,
        Ok(None) => {
            return Err(String::from_str("no model part found; a 3MF container must hold 3D/3dmodel.model"));
        },
        Err(e) => {
            return Err(prefixed("unreadable ZIP entry: ", e.as_str()));
        },
    };
    match entry_text(bytes, part) {
        Ok(Ok(t)) => Ok(t),
        Ok(Err(e)) => Err(prefixed("model part is not valid UTF-8: ", e.as_str())),
        Err(e) => Err(prefixed("unreadable model part: ", e.as_str())),
    }
}

} // verus!
