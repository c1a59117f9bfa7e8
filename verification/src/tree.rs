use vstd::prelude::*;

verus! {

/// Deepest folder nesting the decoder will follow before rejecting a header,
/// guarding the recursion against adversarially deep input.
pub const MAX_DEPTH: u32 = 64;

/// Represents one archived file's location within the blob file.
#[derive(Debug, Clone)]
pub struct SFile {
    /// Name bytes, with trailing NUL padding stripped.
    pub name: Vec<u8>,
    /// Byte offset into the blob file.
    pub offset: u64,
    /// Byte count; the header stores 32 bits, kept wider for safe arithmetic.
    pub length: u64,
}

/// Represents a virtual folder: its files and its subfolders, in the order
/// they were encountered in the header stream. Immutable once decoded.
#[derive(Debug)]
pub struct SFolder {
    pub name: Vec<u8>,
    pub files: Vec<SFile>,
    pub folders: Vec<SFolder>,
}

/// Mathematical image of a file entry.
#[verifier::ext_equal]
pub ghost struct FileView {
    pub name: Seq<u8>,
    pub offset: u64,
    pub length: u64,
}

/// Mathematical image of a folder and everything under it.
#[verifier::ext_equal]
pub ghost struct FolderView {
    pub name: Seq<u8>,
    pub files: Seq<FileView>,
    pub folders: Seq<FolderView>,
}

/// The images of a sequence of file entries.
pub open spec fn files_view(s: Seq<SFile>) -> Seq<FileView> {
    s.map_values(|f: SFile| f@)
}

impl View for SFile {
    type V = FileView;

    open spec fn view(&self) -> FileView {
        FileView { name: self.name@, offset: self.offset, length: self.length }
    }
}

/// The image of a folder, formed recursively over its subfolders.
pub open spec fn folder_view(f: SFolder) -> FolderView
    decreases f, 1int,
{
    FolderView {
        name: f.name@,
        files: files_view(f.files@),
        folders: folders_view(f.folders@),
    }
}

/// The images of a sequence of folders.
pub open spec fn folders_view(s: Seq<SFolder>) -> Seq<FolderView>
    decreases s, 0int,
{
    if s.len() == 0 {
        Seq::empty()
    } else {
        folders_view(s.drop_last()).push(folder_view(s.last()))
    }
}

/// `folders_view` maps each folder to its image, position by position.
pub proof fn lemma_folders_view_index(s: Seq<SFolder>)
    ensures
        folders_view(s).len() == s.len(),
        forall|i: int| 0 <= i < s.len() ==> folders_view(s)[i] == folder_view(#[trigger] s[i]),
    decreases s,
{
    if s.len() > 0 {
        lemma_folders_view_index(s.drop_last());
        assert forall|i: int| 0 <= i < s.len() implies folders_view(s)[i] == folder_view(
            #[trigger] s[i],
        ) by {
            if i < s.len() - 1 {
                assert(s.drop_last()[i] == s[i]);
                assert(folders_view(s)[i] == folders_view(s.drop_last())[i]);
            } else {
                assert(s.last() == s[i]);
            }
        }
    }
}

impl View for SFolder {
    type V = FolderView;

    open spec fn view(&self) -> FolderView {
        folder_view(*self)
    }
}

/// Entries under a folder: its own files and subfolders plus everything below.
pub open spec fn entry_total(v: FolderView) -> int
    decreases v, 1int,
{
    v.files.len() + v.folders.len() + subfolder_total(v.folders)
}

/// Entries under each folder of a sequence, taken together.
pub open spec fn subfolder_total(s: Seq<FolderView>) -> int
    decreases s, 0int,
{
    if s.len() == 0 {
        0
    } else {
        subfolder_total(s.drop_last()) + entry_total(s.last())
    }
}

/// A file entry the header format can carry: the name fits the signed
/// 32-bit length field and carries no trailing NUL padding, and the length
/// fits the unsigned 32-bit length field.
pub open spec fn file_wf(f: FileView) -> bool {
    &&& f.name.len() < 0x8000_0000
    &&& f.name.len() == 0 || f.name[f.name.len() - 1] != 0
    &&& f.length < 0x1_0000_0000
}

/// A folder tree the header format can carry when the folder sits `depth`
/// levels below the root: counts fit the signed 32-bit count fields, names
/// fit their length fields without trailing NUL padding, the informational
/// entry total fits its signed 32-bit field, and nesting stays within
/// `MAX_DEPTH`.
pub open spec fn folder_wf(v: FolderView, depth: int) -> bool
    decreases v,
{
    &&& depth < MAX_DEPTH
    &&& v.name.len() < 0x8000_0000
    &&& v.name.len() == 0 || v.name[v.name.len() - 1] != 0
    &&& v.files.len() < 0x8000_0000
    &&& v.folders.len() < 0x8000_0000
    &&& entry_total(v) < 0x8000_0000
    &&& forall|i: int| 0 <= i < v.files.len() ==> file_wf(#[trigger] v.files[i])
    &&& forall|i: int|
        0 <= i < v.folders.len() ==> folder_wf(#[trigger] v.folders[i], depth + 1)
}

/// Every entry total is non-negative.
pub proof fn lemma_entry_total_nonneg(v: FolderView)
    ensures
        entry_total(v) >= 0,
    decreases v, 1int,
{
    lemma_subfolder_total_nonneg(v.folders);
}

/// Every combined entry total is non-negative.
pub proof fn lemma_subfolder_total_nonneg(s: Seq<FolderView>)
    ensures
        subfolder_total(s) >= 0,
    decreases s, 0int,
{
    if s.len() > 0 {
        lemma_subfolder_total_nonneg(s.drop_last());
        lemma_entry_total_nonneg(s.last());
    }
}

} // verus!
