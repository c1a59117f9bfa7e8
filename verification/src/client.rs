use vstd::prelude::*;
use vstd::slice::{slice_subrange, slice_to_vec};
use vstd::string::StringSliceAdditionalSpecFns;
use crate::tree::{SFile, SFolder, FileView, FolderView, files_view, folders_view,
    lemma_folders_view_index};
use crate::codec::spec_parse_header;
use crate::decode::parse_header;
use crate::ArchiveError;

verus! {

/// ASCII lower-casing of one byte; other bytes are untouched.
pub open spec fn lower(b: u8) -> u8 {
    if 65 <= b <= 90 {
        (b + 32) as u8
    } else {
        b
    }
}

/// Case-insensitive equality of two names, folding ASCII letters only.
pub open spec fn eq_ci(a: Seq<u8>, b: Seq<u8>) -> bool {
    a.len() == b.len() && forall|i: int| 0 <= i < a.len() ==> lower(a[i]) == lower(b[i])
}

/// Index of the first file at or after `i` whose name matches the segment.
pub open spec fn find_file_from(files: Seq<FileView>, seg: Seq<u8>, i: int) -> Option<int>
    decreases files.len() - i,
{
    if i < 0 || i >= files.len() {
        None
    } else if eq_ci(files[i].name, seg) {
        Some(i)
    } else {
        find_file_from(files, seg, i + 1)
    }
}

/// Index of the first subfolder at or after `i` whose name matches the segment.
pub open spec fn find_folder_from(folders: Seq<FolderView>, seg: Seq<u8>, i: int) -> Option<int>
    decreases folders.len() - i,
{
    if i < 0 || i >= folders.len() {
        None
    } else if eq_ci(folders[i].name, seg) {
        Some(i)
    } else {
        find_folder_from(folders, seg, i + 1)
    }
}

/// End of the path segment starting at `pos`: the next slash, or the end.
pub open spec fn seg_end(p: Seq<u8>, pos: int) -> int
    decreases p.len() - pos,
{
    if pos < 0 || pos >= p.len() {
        p.len() as int
    } else if p[pos] == 47 {
        pos
    } else {
        seg_end(p, pos + 1)
    }
}

/// A segment reaches no further than the path's end, and a segment that
/// starts on a non-slash byte is non-empty.
pub proof fn lemma_seg_end_bounds(p: Seq<u8>, pos: int)
    requires
        0 <= pos <= p.len(),
    ensures
        pos <= seg_end(p, pos) <= p.len(),
        pos < p.len() && p[pos] != 47 ==> seg_end(p, pos) >= pos + 1,
    decreases p.len() - pos,
{
    if pos < p.len() && p[pos] != 47 {
        lemma_seg_end_bounds(p, pos + 1);
    }
}

/// Where the file walk lands, scanning the path from byte `pos` inside
/// folder `f`: slashes are skipped; a file match returns at once, even with
/// path left over; a folder match descends; an unmatched segment is passed
/// over with the folder unchanged; a walk that consumes the whole path
/// without a file match finds nothing.
pub open spec fn spec_resolve_file(f: FolderView, p: Seq<u8>, pos: int) -> Option<FileView>
    decreases p.len() - pos,
    via spec_resolve_file_decreases
{
    if pos < 0 || pos >= p.len() {
        None
    } else if p[pos] == 47 {
        spec_resolve_file(f, p, pos + 1)
    } else {
        let e = seg_end(p, pos);
        let seg = p.subrange(pos, e);
        match find_file_from(f.files, seg, 0) {
            Some(i) => Some(f.files[i]),
            None => match find_folder_from(f.folders, seg, 0) {
                Some(j) => spec_resolve_file(f.folders[j], p, e),
                None => spec_resolve_file(f, p, e),
            },
        }
    }
}

#[via_fn]
proof fn spec_resolve_file_decreases(f: FolderView, p: Seq<u8>, pos: int) {
    if 0 <= pos < p.len() && p[pos] != 47 {
        lemma_seg_end_bounds(p, pos);
    }
}

/// Where the folder walk lands from byte `pos` inside folder `f`, with
/// `last` the most recent segment seen: only subfolders are considered, an
/// unmatched segment is passed over, and once the path is consumed the
/// folder reached counts only if its name matches the last segment.
pub open spec fn spec_resolve_folder(f: FolderView, p: Seq<u8>, pos: int, last: Seq<u8>) -> Option<
    FolderView,
>
    decreases p.len() - pos,
    via spec_resolve_folder_decreases
{
    if pos < 0 || pos >= p.len() {
        if eq_ci(f.name, last) {
            Some(f)
        } else {
            None
        }
    } else if p[pos] == 47 {
        spec_resolve_folder(f, p, pos + 1, last)
    } else {
        let e = seg_end(p, pos);
        let seg = p.subrange(pos, e);
        match find_folder_from(f.folders, seg, 0) {
            Some(j) => spec_resolve_folder(f.folders[j], p, e, seg),
            None => spec_resolve_folder(f, p, e, seg),
        }
    }
}

#[via_fn]
proof fn spec_resolve_folder_decreases(f: FolderView, p: Seq<u8>, pos: int, last: Seq<u8>) {
    if 0 <= pos < p.len() && p[pos] != 47 {
        lemma_seg_end_bounds(p, pos);
    }
}

/// Where `file` lands for a whole path against the tree under `root`.
pub open spec fn spec_file_lookup(root: FolderView, p: Seq<u8>) -> Option<FileView> {
    spec_resolve_file(root, p, 0)
}

/// Where `folder` lands for a whole path: the root itself for `/`, and the
/// tracked walk for everything else.
pub open spec fn spec_folder_lookup(root: FolderView, p: Seq<u8>) -> Option<FolderView> {
    if p == seq![47u8] {
        Some(root)
    } else {
        spec_resolve_folder(root, p, 0, Seq::empty())
    }
}

/// ASCII lower-casing of one byte.
fn lower_byte(b: u8) -> (r: u8)
    ensures
        r == lower(b),
{
    if 65 <= b && b <= 90 {
        b + 32
    } else {
        b
    }
}

/// ASCII-case-insensitive comparison of two byte strings.
#[verifier::loop_isolation(false)]
fn eq_ignore_case(a: &[u8], b: &[u8]) -> (r: bool)
    ensures
        r == eq_ci(a@, b@),
{
    if a.len() != b.len() {
        return false;
    }
    let n = a.len();
    let mut k: usize = 0;
    while k < n
        invariant
            k <= n,
            forall|i: int| 0 <= i < k ==> lower(a@[i]) == lower(b@[i]),
        decreases n - k,
    {
        let x = lower_byte(a[k]);
        let y = lower_byte(b[k]);
        if x != y {
            return false;
        }
        k = k + 1;
    }
    true
}

/// First file of the row whose name matches the segment, if any.
#[verifier::loop_isolation(false)]
fn find_file(files: &Vec<SFile>, seg: &[u8]) -> (r: Option<usize>)
    ensures
        (match r {
            Some(i) => i < files@.len() && find_file_from(files_view(files@), seg@, 0) == Some(
                i as int,
            ),
            None => find_file_from(files_view(files@), seg@, 0) == None::<int>,
        }),
{
    let n = files.len();
    let ghost fv = files_view(files@);
    let mut k: usize = 0;
    while k < n
        invariant
            k <= n,
            find_file_from(fv, seg@, 0) == find_file_from(fv, seg@, k as int),
        decreases n - k,
    {
        if eq_ignore_case(files[k].name.as_slice(), seg) {
            proof {
                assert(fv[k as int].name == files@[k as int].name@);
            }
            return Some(k);
        }
        k = k + 1;
    }
    None
}

/// First subfolder of the row whose name matches the segment, if any.
#[verifier::loop_isolation(false)]
fn find_folder(folders: &Vec<SFolder>, seg: &[u8]) -> (r: Option<usize>)
    ensures
        (match r {
            Some(i) => i < folders@.len() && find_folder_from(folders_view(folders@), seg@, 0)
                == Some(i as int),
            None => find_folder_from(folders_view(folders@), seg@, 0) == None::<int>,
        }),
{
    let n = folders.len();
    let ghost fv = folders_view(folders@);
    proof {
        lemma_folders_view_index(folders@);
    }
    let mut k: usize = 0;
    while k < n
        invariant
            k <= n,
            find_folder_from(fv, seg@, 0) == find_folder_from(fv, seg@, k as int),
        decreases n - k,
    {
        if eq_ignore_case(folders[k].name.as_slice(), seg) {
            proof {
                assert(fv[k as int].name == folders@[k as int].name@);
            }
            return Some(k);
        }
        k = k + 1;
    }
    None
}

/// A workspace is the folder tree decoded from one archive header; the
/// matching blob file stays with the caller, which reads byte ranges from
/// it as `data_range` directs.
#[derive(Debug)]
pub struct Workspace {
    pub root: SFolder,
}

impl Workspace {
    /// Take an already decoded tree as the workspace.
    pub fn new(root: SFolder) -> (w: Workspace)
        ensures
            w.root == root,
    {
        Workspace { root }
    }

    /// Decode a header byte stream and take its tree as the workspace.
    pub fn from_header(data: &Vec<u8>) -> (r: Result<Workspace, ArchiveError>)
        ensures
            (match r {
                Ok(w) => spec_parse_header(data@) == Ok::<FolderView, ArchiveError>(w.root@),
                Err(e) => spec_parse_header(data@) == Err::<FolderView, ArchiveError>(e),
            }),
    {
        match parse_header(data) {
            Ok(root) => Ok(Workspace { root }),
            Err(e) => Err(e),
        }
    }

    /// Gets a file at a specified path, matching each slash-separated
    /// segment case-insensitively, exactly as `spec_file_lookup` walks it.
    #[verifier::loop_isolation(false)]
    pub fn file<'a>(&'a self, path: &str) -> (r: Result<&'a SFile, ArchiveError>)
        ensures
            (match r {
                Ok(f) => spec_file_lookup(self.root@, path.spec_bytes()) == Some(f@),
                Err(e) => spec_file_lookup(self.root@, path.spec_bytes()) == None::<FileView>
                    && e == ArchiveError::PathNotFound,
            }),
    {
        let bytes = path.as_bytes();
        let n = bytes.len();
        let mut folder: &SFolder = &self.root;
        let mut pos: usize = 0;
        while pos < n
            invariant
                pos <= n,
                spec_resolve_file(self.root@, bytes@, 0) == spec_resolve_file(
                    folder@,
                    bytes@,
                    pos as int,
                ),
            decreases n - pos,
        {
            if *vstd::slice::slice_index_get(bytes, pos) == 47 {
                pos = pos + 1;
            } else {
                let mut e: usize = pos;
                while e < n && *vstd::slice::slice_index_get(bytes, e) != 47
                    invariant
                        pos <= e <= n,
                        seg_end(bytes@, pos as int) == seg_end(bytes@, e as int),
                    decreases n - e,
                {
                    e = e + 1;
                }
                proof {
                    lemma_seg_end_bounds(bytes@, pos as int);
                    assert(seg_end(bytes@, e as int) == e as int);
                }
                let seg = slice_subrange(bytes, pos, e);
                match find_file(&folder.files, seg) {
                    Some(i) => {
                        proof {
                            assert(files_view(folder.files@)[i as int] == folder.files@[i as int]@);
                        }
                        return Ok(&folder.files[i]);
                    },
                    None => {
                        match find_folder(&folder.folders, seg) {
                            Some(j) => {
                                proof {
                                    lemma_folders_view_index(folder.folders@);
                                }
                                folder = &folder.folders[j];
                            },
                            None => {
                            },
                        }
                        pos = e;
                    },
                }
            }
        }
        Err(ArchiveError::PathNotFound)
    }

    /// Gets a folder at a specified path: `/` is the root itself, and any
    /// other path walks subfolders case-insensitively, succeeding only when
    /// the folder reached carries the last segment's name, exactly as
    /// `spec_folder_lookup` walks it.
    #[verifier::loop_isolation(false)]
    pub fn folder<'a>(&'a self, path: &str) -> (r: Result<&'a SFolder, ArchiveError>)
        ensures
            (match r {
                Ok(f) => spec_folder_lookup(self.root@, path.spec_bytes()) == Some(f@),
                Err(e) => spec_folder_lookup(self.root@, path.spec_bytes()) == None::<FolderView>
                    && e == ArchiveError::PathNotFound,
            }),
    {
        let bytes = path.as_bytes();
        let n = bytes.len();
        if n == 1 && *vstd::slice::slice_index_get(bytes, 0) == 47 {
            proof {
                assert(bytes@ =~= seq![47u8]);
            }
            return Ok(&self.root);
        }
        proof {
            assert(bytes@ != seq![47u8]);
        }
        let mut folder: &SFolder = &self.root;
        let mut pos: usize = 0;
        let mut ls: usize = 0;
        let mut le: usize = 0;
        proof {
            assert(bytes@.subrange(0, 0) =~= Seq::<u8>::empty());
        }
        while pos < n
            invariant
                pos <= n,
                ls <= le <= n,
                spec_resolve_folder(self.root@, bytes@, 0, Seq::empty()) == spec_resolve_folder(
                    folder@,
                    bytes@,
                    pos as int,
                    bytes@.subrange(ls as int, le as int),
                ),
            decreases n - pos,
        {
            if *vstd::slice::slice_index_get(bytes, pos) == 47 {
                pos = pos + 1;
            } else {
                let mut e: usize = pos;
                while e < n && *vstd::slice::slice_index_get(bytes, e) != 47
                    invariant
                        pos <= e <= n,
                        seg_end(bytes@, pos as int) == seg_end(bytes@, e as int),
                    decreases n - e,
                {
                    e = e + 1;
                }
                proof {
                    lemma_seg_end_bounds(bytes@, pos as int);
                    assert(seg_end(bytes@, e as int) == e as int);
                }
                let seg = slice_subrange(bytes, pos, e);
                match find_folder(&folder.folders, seg) {
                    Some(j) => {
                        proof {
                            lemma_folders_view_index(folder.folders@);
                        }
                        folder = &folder.folders[j];
                    },
                    None => {
                    },
                }
                ls = pos;
                le = e;
                pos = e;
            }
        }
        let last = slice_subrange(bytes, ls, le);
        if eq_ignore_case(folder.name.as_slice(), last) {
            Ok(folder)
        } else {
            Err(ArchiveError::PathNotFound)
        }
    }
}

/// Check one file's byte range against the blob size actually available,
/// handing back the exact range to read. The range is in bounds if and only
/// if `offset + length` stays within `available`.
pub fn data_range(file: &SFile, available: u64) -> (r: Result<(u64, u64), ArchiveError>)
    ensures
        r is Ok <==> file.offset + file.length <= available,
        r matches Ok(t) ==> t == (file.offset, file.length),
        r matches Err(e) ==> e == (ArchiveError::DataOutOfBounds {
            offset: file.offset,
            length: file.length,
            available,
        }),
{
    if file.length <= available && file.offset <= available - file.length {
        Ok((file.offset, file.length))
    } else {
        Err(ArchiveError::DataOutOfBounds {
            offset: file.offset,
            length: file.length,
            available,
        })
    }
}

/// Copy one file's bytes out of an in-memory blob, bounds checked: exactly
/// the range `[offset, offset + length)`, owned by the caller.
pub fn extract(blob: &Vec<u8>, file: &SFile) -> (r: Result<Vec<u8>, ArchiveError>)
    ensures
        r is Ok <==> file.offset + file.length <= blob@.len(),
        r matches Ok(b) ==> b@ == blob@.subrange(
            file.offset as int,
            file.offset + file.length,
        ),
        r matches Err(e) ==> e == (ArchiveError::DataOutOfBounds {
            offset: file.offset,
            length: file.length,
            available: blob@.len() as u64,
        }),
{
    let available = blob.len() as u64;
    if file.length <= available && file.offset <= available - file.length {
        let start = file.offset as usize;
        let end = (file.offset + file.length) as usize;
        let s = slice_subrange(blob.as_slice(), start, end);
        Ok(slice_to_vec(s))
    } else {
        Err(ArchiveError::DataOutOfBounds {
            offset: file.offset,
            length: file.length,
            available,
        })
    }
}

/// Looking up `/` always returns the root folder, whatever the tree holds.
pub proof fn lemma_root_folder_lookup(root: FolderView)
    ensures
        spec_folder_lookup(root, seq![47u8]) == Some(root),
{
}

/// Case-equal paths see the same slashes and the same segment ends.
proof fn lemma_seg_end_ci(p: Seq<u8>, q: Seq<u8>, pos: int)
    requires
        eq_ci(p, q),
    ensures
        seg_end(p, pos) == seg_end(q, pos),
    decreases p.len() - pos,
{
    if 0 <= pos < p.len() {
        assert(lower(p[pos]) == lower(q[pos]));
        if p[pos] != 47 {
            lemma_seg_end_ci(p, q, pos + 1);
        }
    }
}

/// A name matches two case-equal segments alike.
proof fn lemma_eq_ci_carries(name: Seq<u8>, a: Seq<u8>, b: Seq<u8>)
    requires
        eq_ci(a, b),
    ensures
        eq_ci(name, a) == eq_ci(name, b),
{
    if eq_ci(name, a) {
        assert forall|i: int| 0 <= i < name.len() implies lower(name[i]) == lower(b[i]) by {
            assert(lower(name[i]) == lower(a[i]));
            assert(lower(a[i]) == lower(b[i]));
        }
    }
    if eq_ci(name, b) {
        assert forall|i: int| 0 <= i < name.len() implies lower(name[i]) == lower(a[i]) by {
            assert(lower(name[i]) == lower(b[i]));
            assert(lower(a[i]) == lower(b[i]));
        }
    }
}

/// The file row is searched alike by two case-equal segments.
proof fn lemma_find_file_ci(files: Seq<FileView>, a: Seq<u8>, b: Seq<u8>, i: int)
    requires
        eq_ci(a, b),
    ensures
        find_file_from(files, a, i) == find_file_from(files, b, i),
    decreases files.len() - i,
{
    if 0 <= i < files.len() {
        lemma_eq_ci_carries(files[i].name, a, b);
        if !eq_ci(files[i].name, a) {
            lemma_find_file_ci(files, a, b, i + 1);
        }
    }
}

/// The subfolder row is searched alike by two case-equal segments.
proof fn lemma_find_folder_ci(folders: Seq<FolderView>, a: Seq<u8>, b: Seq<u8>, i: int)
    requires
        eq_ci(a, b),
    ensures
        find_folder_from(folders, a, i) == find_folder_from(folders, b, i),
    decreases folders.len() - i,
{
    if 0 <= i < folders.len() {
        lemma_eq_ci_carries(folders[i].name, a, b);
        if !eq_ci(folders[i].name, a) {
            lemma_find_folder_ci(folders, a, b, i + 1);
        }
    }
}

/// The file walk lands the same from any position of two case-equal paths.
proof fn lemma_resolve_file_ci(f: FolderView, p: Seq<u8>, q: Seq<u8>, pos: int)
    requires
        eq_ci(p, q),
    ensures
        spec_resolve_file(f, p, pos) == spec_resolve_file(f, q, pos),
    decreases p.len() - pos,
{
    if 0 <= pos < p.len() {
        assert(lower(p[pos]) == lower(q[pos]));
        if p[pos] == 47 {
            lemma_resolve_file_ci(f, p, q, pos + 1);
        } else {
            lemma_seg_end_ci(p, q, pos);
            lemma_seg_end_bounds(p, pos);
            let e = seg_end(p, pos);
            let sp = p.subrange(pos, e);
            let sq = q.subrange(pos, e);
            assert forall|i: int| 0 <= i < sp.len() implies lower(sp[i]) == lower(sq[i]) by {
                assert(lower(p[pos + i]) == lower(q[pos + i]));
            }
            assert(eq_ci(sp, sq));
            lemma_find_file_ci(f.files, sp, sq, 0);
            lemma_find_folder_ci(f.folders, sp, sq, 0);
            match find_file_from(f.files, sp, 0) {
                Some(_) => {
                },
                None => match find_folder_from(f.folders, sp, 0) {
                    Some(j) => lemma_resolve_file_ci(f.folders[j], p, q, e),
                    None => lemma_resolve_file_ci(f, p, q, e),
                },
            }
        }
    }
}

/// Two paths that agree up to ASCII letter case resolve to the same file:
/// the lookup never depends on the casing of any segment.
pub proof fn lemma_file_lookup_case_insensitive(root: FolderView, p: Seq<u8>, q: Seq<u8>)
    requires
        eq_ci(p, q),
    ensures
        spec_file_lookup(root, p) == spec_file_lookup(root, q),
{
    lemma_resolve_file_ci(root, p, q, 0);
}

} // verus!
