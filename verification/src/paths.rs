//! Where the files of the calendar are.
//!
//! A path is the bytes that the system has for it.
use vstd::prelude::*;

verus! {

/// The byte that separates the parts of a path.
pub const SEPARATOR: u8 = 47;

/// A path and, below it, a relative one.
pub open spec fn joined(base: Seq<u8>, part: Seq<u8>) -> Seq<u8> {
    if base.len() == 0 || base.last() == SEPARATOR {
        base + part
    } else {
        base.push(SEPARATOR) + part
    }
}

/// The bytes of a text.
pub open spec fn bytes_of(text: Seq<char>) -> Seq<u8> {
    vstd::utf8::encode_utf8(text)
}

/// The directory of the files: below the data directory of the user, where it is set to an
/// absolute path, else below the default one in the home directory.
pub open spec fn directory(xdg: Option<Seq<u8>>, home: Option<Seq<u8>>) -> Seq<u8> {
    let data = match xdg {
        Some(p) if p.len() > 0 && p[0] == SEPARATOR => p,
        _ => joined(
            match home {
                Some(h) => h,
                None => Seq::empty(),
            },
            bytes_of(".local/share"@),
        ),
    };
    joined(data, bytes_of("cce/calendar"@))
}

/// The view of an optional path.
pub open spec fn opt_path(p: Option<&Vec<u8>>) -> Option<Seq<u8>> {
    match p {
        Some(p) => Some(p@),
        None => None,
    }
}

/// Appends bytes.
fn append_bytes(path: &mut Vec<u8>, part: &[u8])
    ensures
        final(path)@ == old(path)@ + part@,
{
    let ghost before = path@;
    let mut i: usize = 0;
    assert(before + part@.take(0) =~= before);
    while i < part.len()
        invariant
            i <= part@.len(),
            path@ == before + part@.take(i as int),
        decreases part@.len() - i,
    {
        path.push(part[i]);
        assert(part@.take(i + 1) =~= part@.take(i as int).push(part@[i as int]));
        assert(path@ =~= before + part@.take(i + 1));
        i = i + 1;
    }
    assert(part@.take(i as int) =~= part@);
}

/// Goes on from a path to a relative one below it.
fn append_part(path: &mut Vec<u8>, part: &str)
    ensures
        final(path)@ == joined(old(path)@, bytes_of(part@)),
{
    if path.len() > 0 && path[path.len() - 1] != SEPARATOR {
        path.push(SEPARATOR);
    }
    append_bytes(path, part.as_bytes());
}

/// The directory of the files.
fn data_dir(xdg: Option<&Vec<u8>>, home: Option<&Vec<u8>>) -> (path: Vec<u8>)
    ensures
        path@ == directory(opt_path(xdg), opt_path(home)),
{
    let mut path: Vec<u8> = Vec::new();
    let absolute = match xdg {
        Some(p) => p.len() > 0 && p[0] == SEPARATOR,
        None => false,
    };
    if absolute {
        if let Some(p) = xdg {
            append_bytes(&mut path, p.as_slice());
            assert(path@ =~= p@);
        }
    } else {
        if let Some(h) = home {
            append_bytes(&mut path, h.as_slice());
            assert(path@ =~= h@);
        }
        append_part(&mut path, ".local/share");
    }
    append_part(&mut path, "cce/calendar");
    path
}

/// The file of the events, given `XDG_DATA_HOME` and `HOME` where they are set.
pub fn data_path(xdg: Option<&Vec<u8>>, home: Option<&Vec<u8>>) -> (path: Vec<u8>)
    ensures
        path@ == joined(directory(opt_path(xdg), opt_path(home)), bytes_of("events.json"@)),
{
    let mut path = data_dir(xdg, home);
    append_part(&mut path, "events.json");
    path
}

/// The file of the sync state, given `XDG_DATA_HOME` and `HOME` where they are set.
pub fn sync_state_path(xdg: Option<&Vec<u8>>, home: Option<&Vec<u8>>) -> (path: Vec<u8>)
    ensures
        path@ == joined(directory(opt_path(xdg), opt_path(home)), bytes_of("sync-state.json"@)),
{
    let mut path = data_dir(xdg, home);
    append_part(&mut path, "sync-state.json");
    path
}

} // verus!
