use vstd::prelude::*;
use crate::cursor::Cursor;
use crate::codec::{spec_parse_file, spec_parse_files, spec_parse_folder, spec_parse_folders,
    spec_parse_subfolder, spec_parse_header, strip_nuls, magic_bytes, root_label, MAX_FIELD};
use crate::tree::{SFile, SFolder, FileView, FolderView, files_view, folders_view, MAX_DEPTH};
use crate::ArchiveError;

verus! {

/// An error hit at file record `i` is the error of every longer row.
proof fn lemma_parse_files_error(data: Seq<u8>, pos: int, i: int, j: int, e: ArchiveError)
    requires
        0 <= i < j,
        spec_parse_files(data, pos, i) matches Ok(t) && spec_parse_file(data, t.1) == Err::<
            (FileView, int),
            ArchiveError,
        >(e),
    ensures
        spec_parse_files(data, pos, j) == Err::<(Seq<FileView>, int), ArchiveError>(e),
    decreases j,
{
    if j > i + 1 {
        lemma_parse_files_error(data, pos, i, j - 1, e);
    }
}

/// An error hit at subfolder record `i` is the error of every longer row.
proof fn lemma_parse_folders_error(
    data: Seq<u8>,
    pos: int,
    i: int,
    j: int,
    depth: u32,
    e: ArchiveError,
)
    requires
        0 <= i < j,
        depth < MAX_DEPTH,
        spec_parse_folders(data, pos, i, depth) matches Ok(t) && spec_parse_subfolder(
            data,
            t.1,
            depth,
        ) == Err::<(FolderView, int), ArchiveError>(e),
    ensures
        spec_parse_folders(data, pos, j, depth) == Err::<(Seq<FolderView>, int), ArchiveError>(e),
    decreases j,
{
    if j > i + 1 {
        lemma_parse_folders_error(data, pos, i, j - 1, depth, e);
    }
}

/// Remove the trailing NUL padding from freshly read name bytes.
fn strip_trailing_nuls(name: &mut Vec<u8>)
    ensures
        final(name)@ == strip_nuls(old(name)@),
{
    while name.len() > 0 && name[name.len() - 1] == 0
        invariant
            strip_nuls(name@) == strip_nuls(old(name)@),
        decreases name@.len(),
    {
        name.pop();
    }
}

/// Decode one file record at the cursor.
fn parse_file(c: &mut Cursor) -> (r: Result<SFile, ArchiveError>)
    requires
        old(c).wf(),
    ensures
        final(c).wf(),
        final(c).bytes() == old(c).bytes(),
        (match r {
            Ok(f) => spec_parse_file(old(c).bytes(), old(c).at()) == Ok::<
                (FileView, int),
                ArchiveError,
            >((f@, final(c).at())),
            Err(e) => spec_parse_file(old(c).bytes(), old(c).at()) == Err::<
                (FileView, int),
                ArchiveError,
            >(e),
        }),
{
    let nl = match c.read_u32_le() {
        Ok(v) => v,
        Err(e) => return Err(e),
    };
    if nl > MAX_FIELD {
        return Err(ArchiveError::MalformedHeader);
    }
    let mut name = match c.read_bytes(nl as usize) {
        Ok(v) => v,
        Err(e) => return Err(e),
    };
    let offset = match c.read_u64_le() {
        Ok(v) => v,
        Err(e) => return Err(e),
    };
    let length = match c.read_u32_le() {
        Ok(v) => v,
        Err(e) => return Err(e),
    };
    match c.skip(4) {
        Ok(u) => u,
        Err(e) => return Err(e),
    };
    strip_trailing_nuls(&mut name);
    Ok(SFile { name, offset, length: length as u64 })
}

/// Decode one folder body at the cursor, `depth` levels below the root.
#[verifier::loop_isolation(false)]
fn parse_folder(c: &mut Cursor, name: Vec<u8>, depth: u32) -> (r: Result<SFolder, ArchiveError>)
    requires
        old(c).wf(),
    ensures
        final(c).wf(),
        final(c).bytes() == old(c).bytes(),
        (match r {
            Ok(f) => spec_parse_folder(old(c).bytes(), old(c).at(), name@, depth) == Ok::<
                (FolderView, int),
                ArchiveError,
            >((f@, final(c).at())),
            Err(e) => spec_parse_folder(old(c).bytes(), old(c).at(), name@, depth) == Err::<
                (FolderView, int),
                ArchiveError,
            >(e),
        }),
    decreases MAX_DEPTH - depth,
{
    if depth >= MAX_DEPTH {
        return Err(ArchiveError::MalformedHeader);
    }
    let ghost data = c.bytes();
    let ghost pos0 = c.at();
    let fc = match c.read_u32_le() {
        Ok(v) => v,
        Err(e) => return Err(e),
    };
    if fc > MAX_FIELD {
        return Err(ArchiveError::MalformedHeader);
    }
    let ghost pos_files = c.at();
    let mut files: Vec<SFile> = Vec::new();
    let mut i: u32 = 0;
    proof {
        assert(files_view(files@) =~= Seq::<FileView>::empty());
    }
    while i < fc
        invariant
            c.wf(),
            c.bytes() == data,
            i <= fc,
            fc <= MAX_FIELD,
            spec_parse_files(data, pos_files, i as int) == Ok::<
                (Seq<FileView>, int),
                ArchiveError,
            >((files_view(files@), c.at())),
        decreases fc - i,
    {
        let ghost files_before = files@;
        let f = match parse_file(c) {
            Ok(f) => f,
            Err(e) => {
                proof {
                    lemma_parse_files_error(data, pos_files, i as int, fc as int, e);
                }
                return Err(e);
            },
        };
        files.push(f);
        i = i + 1;
        proof {
            assert(files_view(files@) =~= files_view(files_before).push(f@));
        }
    }
    let ghost pos_mid = c.at();
    let sc = match c.read_u32_le() {
        Ok(v) => v,
        Err(e) => return Err(e),
    };
    if sc > MAX_FIELD {
        return Err(ArchiveError::MalformedHeader);
    }
    let ghost pos_folders = c.at();
    let mut folders: Vec<SFolder> = Vec::new();
    let mut j: u32 = 0;
    proof {
        assert(folders_view(folders@) =~= Seq::<FolderView>::empty());
    }
    while j < sc
        invariant
            c.wf(),
            c.bytes() == data,
            j <= sc,
            sc <= MAX_FIELD,
            depth < MAX_DEPTH,
            spec_parse_folders(data, pos_folders, j as int, depth) == Ok::<
                (Seq<FolderView>, int),
                ArchiveError,
            >((folders_view(folders@), c.at())),
        decreases sc - j,
    {
        let ghost folders_before = folders@;
        let sub = match parse_subfolder(c, depth) {
            Ok(f) => f,
            Err(e) => {
                proof {
                    lemma_parse_folders_error(data, pos_folders, j as int, sc as int, depth, e);
                }
                return Err(e);
            },
        };
        folders.push(sub);
        j = j + 1;
        proof {
            assert(folders@.drop_last() =~= folders_before);
            assert(folders_view(folders@) =~= folders_view(folders_before).push(sub@));
        }
    }
    Ok(SFolder { name, files, folders })
}

/// Decode one subfolder record at the cursor: its name, then its body.
fn parse_subfolder(c: &mut Cursor, depth: u32) -> (r: Result<SFolder, ArchiveError>)
    requires
        old(c).wf(),
        depth < MAX_DEPTH,
    ensures
        final(c).wf(),
        final(c).bytes() == old(c).bytes(),
        (match r {
            Ok(f) => spec_parse_subfolder(old(c).bytes(), old(c).at(), depth) == Ok::<
                (FolderView, int),
                ArchiveError,
            >((f@, final(c).at())),
            Err(e) => spec_parse_subfolder(old(c).bytes(), old(c).at(), depth) == Err::<
                (FolderView, int),
                ArchiveError,
            >(e),
        }),
    decreases MAX_DEPTH - depth, 1int,
{
    let nl = match c.read_u32_le() {
        Ok(v) => v,
        Err(e) => return Err(e),
    };
    if nl > MAX_FIELD {
        return Err(ArchiveError::MalformedHeader);
    }
    let mut name = match c.read_bytes(nl as usize) {
        Ok(v) => v,
        Err(e) => return Err(e),
    };
    strip_trailing_nuls(&mut name);
    parse_folder(c, name, depth + 1)
}

/// Decode a whole header byte stream into the root folder of the tree.
///
/// The result is exactly what `spec_parse_header` says of the bytes: the
/// decoded tree on success, and the first failure otherwise.
pub fn parse_header(data: &Vec<u8>) -> (r: Result<SFolder, ArchiveError>)
    ensures
        (match r {
            Ok(root) => spec_parse_header(data@) == Ok::<FolderView, ArchiveError>(root@),
            Err(e) => spec_parse_header(data@) == Err::<FolderView, ArchiveError>(e),
        }),
{
    let mut c = Cursor::new(data);
    let m = match c.read_bytes(3) {
        Ok(v) => v,
        Err(e) => return Err(e),
    };
    if !(m[0] == 0x53 && m[1] == 0x41 && m[2] == 0x48) {
        proof {
            assert(data@.subrange(0, 3) != magic_bytes());
        }
        return Err(ArchiveError::MalformedHeader);
    }
    proof {
        assert(data@.subrange(0, 3) =~= magic_bytes());
    }
    match c.skip(4) {
        Ok(u) => u,
        Err(e) => return Err(e),
    };
    // The total-entry count is informational only; the traversal never
    // relies on it for bounds.
    match c.read_u32_le() {
        Ok(_) => (),
        Err(e) => return Err(e),
    };
    match c.skip(45) {
        Ok(u) => u,
        Err(e) => return Err(e),
    };
    let root_name: Vec<u8> = vec![0x64u8, 0x61u8, 0x74u8, 0x61u8];
    proof {
        assert(root_name@ =~= root_label());
    }
    match parse_folder(&mut c, root_name, 0) {
        Ok(root) => Ok(root),
        Err(e) => Err(e),
    }
}

} // verus!
