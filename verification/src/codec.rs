use vstd::prelude::*;
use vstd::bytes::{spec_u32_from_le_bytes, spec_u32_to_le_bytes, spec_u64_from_le_bytes,
    spec_u64_to_le_bytes, lemma_auto_spec_u32_to_from_le_bytes, lemma_auto_spec_u64_to_from_le_bytes};
use crate::tree::{FileView, FolderView, MAX_DEPTH, entry_total, file_wf, folder_wf};
use crate::ArchiveError;

verus! {

/// The three magic bytes "SAH" that every well-formed header starts with.
pub open spec fn magic_bytes() -> Seq<u8> {
    seq![0x53u8, 0x41u8, 0x48u8]
}

/// Name given to the decoded root folder ("data"); the stream itself stores
/// no name for the root.
pub open spec fn root_label() -> Seq<u8> {
    seq![0x64u8, 0x61u8, 0x74u8, 0x61u8]
}

/// Largest value a signed 32-bit count field can carry; anything above it
/// is a negative count and rejected as malformed.
pub const MAX_FIELD: u32 = 0x7fff_ffff;

/// `s` with its trailing NUL bytes removed.
pub open spec fn strip_nuls(s: Seq<u8>) -> Seq<u8>
    decreases s.len(),
{
    if s.len() == 0 {
        s
    } else if s.last() == 0 {
        strip_nuls(s.drop_last())
    } else {
        s
    }
}

/// One file record starting at `pos`: a name length, the name bytes, an
/// 8-byte offset, a 4-byte length, and four reserved bytes.
pub open spec fn spec_parse_file(data: Seq<u8>, pos: int) -> Result<(FileView, int), ArchiveError> {
    if pos + 4 > data.len() {
        Err(ArchiveError::UnexpectedEndOfData)
    } else {
        let nl = spec_u32_from_le_bytes(data.subrange(pos, pos + 4)) as int;
        if nl > MAX_FIELD {
            Err(ArchiveError::MalformedHeader)
        } else if pos + 4 + nl > data.len() {
            Err(ArchiveError::UnexpectedEndOfData)
        } else if pos + 4 + nl + 16 > data.len() {
            Err(ArchiveError::UnexpectedEndOfData)
        } else {
            let name = strip_nuls(data.subrange(pos + 4, pos + 4 + nl));
            let offset = spec_u64_from_le_bytes(data.subrange(pos + 4 + nl, pos + 4 + nl + 8));
            let length = spec_u32_from_le_bytes(data.subrange(pos + 4 + nl + 8, pos + 4 + nl + 12));
            Ok((FileView { name, offset, length: length as u64 }, pos + 4 + nl + 16))
        }
    }
}

/// `count` file records in a row starting at `pos`.
pub open spec fn spec_parse_files(data: Seq<u8>, pos: int, count: int) -> Result<
    (Seq<FileView>, int),
    ArchiveError,
>
    decreases count,
{
    if count <= 0 {
        Ok((Seq::empty(), pos))
    } else {
        match spec_parse_files(data, pos, count - 1) {
            Err(e) => Err(e),
            Ok((files, p)) => match spec_parse_file(data, p) {
                Err(e) => Err(e),
                Ok((f, p2)) => Ok((files.push(f), p2)),
            },
        }
    }
}

/// One folder body starting at `pos`: a file count, the file records, a
/// subfolder count, and the subfolder records, depth first. The folder's
/// own name is `name`; it was read by the caller (or fixed, for the root).
pub open spec fn spec_parse_folder(data: Seq<u8>, pos: int, name: Seq<u8>, depth: u32) -> Result<
    (FolderView, int),
    ArchiveError,
>
    decreases MAX_DEPTH - depth + 1, 0int, 0int,
{
    if depth >= MAX_DEPTH {
        Err(ArchiveError::MalformedHeader)
    } else if pos + 4 > data.len() {
        Err(ArchiveError::UnexpectedEndOfData)
    } else {
        let fc = spec_u32_from_le_bytes(data.subrange(pos, pos + 4));
        if fc > MAX_FIELD {
            Err(ArchiveError::MalformedHeader)
        } else {
            match spec_parse_files(data, pos + 4, fc as int) {
                Err(e) => Err(e),
                Ok((files, p)) => {
                    if p + 4 > data.len() {
                        Err(ArchiveError::UnexpectedEndOfData)
                    } else {
                        let sc = spec_u32_from_le_bytes(data.subrange(p, p + 4));
                        if sc > MAX_FIELD {
                            Err(ArchiveError::MalformedHeader)
                        } else {
                            match spec_parse_folders(data, p + 4, sc as int, depth) {
                                Err(e) => Err(e),
                                Ok((folders, p2)) => Ok(
                                    (FolderView { name, files, folders }, p2),
                                ),
                            }
                        }
                    }
                }
            }
        }
    }
}

/// `count` subfolder records in a row starting at `pos`, each a name
/// followed by that subfolder's own body one level deeper.
pub open spec fn spec_parse_folders(data: Seq<u8>, pos: int, count: int, depth: u32) -> Result<
    (Seq<FolderView>, int),
    ArchiveError,
>
    decreases MAX_DEPTH - depth, count, 0int,
{
    if depth >= MAX_DEPTH {
        Err(ArchiveError::MalformedHeader)
    } else if count <= 0 {
        Ok((Seq::empty(), pos))
    } else {
        match spec_parse_folders(data, pos, count - 1, depth) {
            Err(e) => Err(e),
            Ok((folders, p)) => match spec_parse_subfolder(data, p, depth) {
                Err(e) => Err(e),
                Ok((sub, p2)) => Ok((folders.push(sub), p2)),
            },
        }
    }
}

/// One subfolder record starting at `pos`: a name encoded like a file name,
/// then the subfolder's own body one level deeper.
pub open spec fn spec_parse_subfolder(data: Seq<u8>, pos: int, depth: u32) -> Result<
    (FolderView, int),
    ArchiveError,
>
    decreases MAX_DEPTH - depth, 0int, 1int,
{
    if depth >= MAX_DEPTH {
        Err(ArchiveError::MalformedHeader)
    } else if pos + 4 > data.len() {
        Err(ArchiveError::UnexpectedEndOfData)
    } else {
        let nl = spec_u32_from_le_bytes(data.subrange(pos, pos + 4)) as int;
        if nl > MAX_FIELD {
            Err(ArchiveError::MalformedHeader)
        } else if pos + 4 + nl > data.len() {
            Err(ArchiveError::UnexpectedEndOfData)
        } else {
            let nm = strip_nuls(data.subrange(pos + 4, pos + 4 + nl));
            spec_parse_folder(data, pos + 4 + nl, nm, (depth + 1) as u32)
        }
    }
}

/// A whole header: the magic bytes, four reserved bytes, the informational
/// entry count, forty-five reserved bytes, then the root folder's body.
/// Bytes past the root's body are ignored.
pub open spec fn spec_parse_header(data: Seq<u8>) -> Result<FolderView, ArchiveError> {
    if data.len() < 3 {
        Err(ArchiveError::UnexpectedEndOfData)
    } else if data.subrange(0, 3) != magic_bytes() {
        Err(ArchiveError::MalformedHeader)
    } else if data.len() < 56 {
        Err(ArchiveError::UnexpectedEndOfData)
    } else {
        match spec_parse_folder(data, 56, root_label(), 0) {
            Err(e) => Err(e),
            Ok((root, _p)) => Ok(root),
        }
    }
}

/// The encoding of one file record.
pub open spec fn spec_encode_file(f: FileView) -> Seq<u8> {
    spec_u32_to_le_bytes(f.name.len() as u32) + f.name + spec_u64_to_le_bytes(f.offset)
        + spec_u32_to_le_bytes(f.length as u32) + seq![0u8, 0u8, 0u8, 0u8]
}

/// The encodings of a row of file records.
pub open spec fn spec_encode_files(s: Seq<FileView>) -> Seq<u8>
    decreases s,
{
    if s.len() == 0 {
        Seq::empty()
    } else {
        spec_encode_files(s.drop_last()) + spec_encode_file(s.last())
    }
}

/// The encoding of one folder body: counts, file records, subfolder records.
pub open spec fn spec_encode_folder(v: FolderView) -> Seq<u8>
    decreases v, 1int,
{
    spec_u32_to_le_bytes(v.files.len() as u32) + spec_encode_files(v.files) + spec_u32_to_le_bytes(
        v.folders.len() as u32,
    ) + spec_encode_folders(v.folders)
}

/// The encodings of a row of subfolder records, each a name then a body.
pub open spec fn spec_encode_folders(s: Seq<FolderView>) -> Seq<u8>
    decreases s, 0int,
{
    if s.len() == 0 {
        Seq::empty()
    } else {
        spec_encode_folders(s.drop_last()) + spec_u32_to_le_bytes(s.last().name.len() as u32)
            + s.last().name + spec_encode_folder(s.last())
    }
}

/// The encoding of a whole header carrying the tree `v` under the root.
pub open spec fn spec_encode_header(v: FolderView) -> Seq<u8> {
    magic_bytes() + seq![0u8, 0u8, 0u8, 0u8] + spec_u32_to_le_bytes(entry_total(v) as u32)
        + Seq::new(45, |i: int| 0u8) + spec_encode_folder(v)
}

} // verus!

verus! {

/// A name without trailing NUL padding is untouched by stripping.
pub proof fn lemma_strip_nuls_clean(s: Seq<u8>)
    requires
        s.len() == 0 || s[s.len() - 1] != 0,
    ensures
        strip_nuls(s) == s,
{
}

/// Where `data` carries `enc` at `pos`, it carries every piece of `enc` at
/// that piece's own place.
proof fn lemma_subrange_at(data: Seq<u8>, pos: int, enc: Seq<u8>, off: int, part: Seq<u8>)
    requires
        0 <= pos,
        pos + enc.len() <= data.len(),
        data.subrange(pos, pos + enc.len() as int) == enc,
        0 <= off,
        off + part.len() <= enc.len(),
        part == enc.subrange(off, off + part.len() as int),
    ensures
        data.subrange(pos + off, pos + off + part.len() as int) == part,
{
    assert forall|i: int|
        0 <= i < part.len() implies data.subrange(pos + off, pos + off + part.len() as int)[i]
        == part[i] by {
        assert(data.subrange(pos, pos + enc.len() as int)[off + i] == data[pos + (off + i)]);
        assert(enc.subrange(off, off + part.len() as int)[i] == enc[off + i]);
        assert(data.subrange(pos + off, pos + off + part.len() as int)[i] == data[(pos + off) + i]);
        assert(pos + (off + i) == (pos + off) + i);
    }
    assert(data.subrange(pos + off, pos + off + part.len() as int) =~= part);
}

/// Reading back the record written for file `f` yields `f` again.
proof fn lemma_parse_encode_file(data: Seq<u8>, pos: int, f: FileView)
    requires
        file_wf(f),
        0 <= pos,
        pos + spec_encode_file(f).len() <= data.len(),
        data.subrange(pos, pos + spec_encode_file(f).len() as int) == spec_encode_file(f),
    ensures
        spec_parse_file(data, pos) == Ok::<(FileView, int), ArchiveError>(
            (f, pos + spec_encode_file(f).len()),
        ),
{
    lemma_auto_spec_u32_to_from_le_bytes();
    lemma_auto_spec_u64_to_from_le_bytes();
    let enc = spec_encode_file(f);
    let nl = f.name.len() as int;
    let a = spec_u32_to_le_bytes(f.name.len() as u32);
    let c = spec_u64_to_le_bytes(f.offset);
    let d = spec_u32_to_le_bytes(f.length as u32);
    assert(enc.len() == nl + 20);
    assert(a =~= enc.subrange(0, 4));
    assert(f.name =~= enc.subrange(4, 4 + nl));
    assert(c =~= enc.subrange(4 + nl, 12 + nl));
    assert(d =~= enc.subrange(12 + nl, 16 + nl));
    lemma_subrange_at(data, pos, enc, 0, a);
    lemma_subrange_at(data, pos, enc, 4, f.name);
    lemma_subrange_at(data, pos, enc, 4 + nl, c);
    lemma_subrange_at(data, pos, enc, 12 + nl, d);
    lemma_strip_nuls_clean(f.name);
    assert(spec_parse_file(data, pos) matches Ok(t) && t.0 =~= f && t.1 == pos + enc.len());
}

/// Reading back the records written for the file row `s` yields `s` again.
proof fn lemma_parse_encode_files(data: Seq<u8>, pos: int, s: Seq<FileView>)
    requires
        forall|i: int| 0 <= i < s.len() ==> file_wf(#[trigger] s[i]),
        0 <= pos,
        pos + spec_encode_files(s).len() <= data.len(),
        data.subrange(pos, pos + spec_encode_files(s).len() as int) == spec_encode_files(s),
    ensures
        spec_parse_files(data, pos, s.len() as int) == Ok::<(Seq<FileView>, int), ArchiveError>(
            (s, pos + spec_encode_files(s).len()),
        ),
    decreases s.len(),
{
    if s.len() == 0 {
        assert(s =~= Seq::<FileView>::empty());
    } else {
        let dl = s.drop_last();
        let encdl = spec_encode_files(dl);
        let encl = spec_encode_file(s.last());
        let enc = spec_encode_files(s);
        assert(enc == encdl + encl);
        assert(encdl =~= enc.subrange(0, encdl.len() as int));
        assert(encl =~= enc.subrange(encdl.len() as int, enc.len() as int));
        lemma_subrange_at(data, pos, enc, 0, encdl);
        lemma_subrange_at(data, pos, enc, encdl.len() as int, encl);
        lemma_parse_encode_files(data, pos, dl);
        lemma_parse_encode_file(data, pos + encdl.len() as int, s.last());
        assert(dl.push(s.last()) =~= s);
    }
}

/// Reading back the body written for folder `v`, under whatever name the
/// caller hands down, yields `v`'s files and subfolders again.
proof fn lemma_parse_encode_folder(data: Seq<u8>, pos: int, nm: Seq<u8>, v: FolderView, depth: u32)
    requires
        folder_wf(v, depth as int),
        0 <= pos,
        pos + spec_encode_folder(v).len() <= data.len(),
        data.subrange(pos, pos + spec_encode_folder(v).len() as int) == spec_encode_folder(v),
    ensures
        spec_parse_folder(data, pos, nm, depth) == Ok::<(FolderView, int), ArchiveError>(
            (FolderView { name: nm, files: v.files, folders: v.folders },
            pos + spec_encode_folder(v).len()),
        ),
    decreases v, 1int,
{
    lemma_auto_spec_u32_to_from_le_bytes();
    let enc = spec_encode_folder(v);
    let a = spec_u32_to_le_bytes(v.files.len() as u32);
    let encf = spec_encode_files(v.files);
    let b = spec_u32_to_le_bytes(v.folders.len() as u32);
    let encs = spec_encode_folders(v.folders);
    let fl = encf.len() as int;
    let sl = encs.len() as int;
    assert(enc.len() == 8 + fl + sl);
    assert(a =~= enc.subrange(0, 4));
    assert(encf =~= enc.subrange(4, 4 + fl));
    assert(b =~= enc.subrange(4 + fl, 8 + fl));
    assert(encs =~= enc.subrange(8 + fl, 8 + fl + sl));
    lemma_subrange_at(data, pos, enc, 0, a);
    lemma_subrange_at(data, pos, enc, 4, encf);
    lemma_subrange_at(data, pos, enc, 4 + fl, b);
    lemma_subrange_at(data, pos, enc, 8 + fl, encs);
    lemma_parse_encode_files(data, pos + 4, v.files);
    lemma_parse_encode_folders(data, pos + 8 + fl, v.folders, depth);
}

/// Reading back the records written for the subfolder row `s` yields `s`.
proof fn lemma_parse_encode_folders(data: Seq<u8>, pos: int, s: Seq<FolderView>, depth: u32)
    requires
        depth < MAX_DEPTH,
        forall|i: int| 0 <= i < s.len() ==> folder_wf(#[trigger] s[i], depth as int + 1),
        0 <= pos,
        pos + spec_encode_folders(s).len() <= data.len(),
        data.subrange(pos, pos + spec_encode_folders(s).len() as int) == spec_encode_folders(s),
    ensures
        spec_parse_folders(data, pos, s.len() as int, depth) == Ok::<
            (Seq<FolderView>, int),
            ArchiveError,
        >((s, pos + spec_encode_folders(s).len())),
    decreases s, 0int,
{
    lemma_auto_spec_u32_to_from_le_bytes();
    if s.len() == 0 {
        assert(s =~= Seq::<FolderView>::empty());
    } else {
        let last = s.last();
        let dl = s.drop_last();
        let encdl = spec_encode_folders(dl);
        let a = spec_u32_to_le_bytes(last.name.len() as u32);
        let encb = spec_encode_folder(last);
        let enc = spec_encode_folders(s);
        let dll = encdl.len() as int;
        let nl = last.name.len() as int;
        assert(enc == encdl + a + last.name + encb);
        assert(enc.len() == dll + 4 + nl + encb.len());
        assert(encdl =~= enc.subrange(0, dll));
        assert(a =~= enc.subrange(dll, dll + 4));
        assert(last.name =~= enc.subrange(dll + 4, dll + 4 + nl));
        assert(encb =~= enc.subrange(dll + 4 + nl, enc.len() as int));
        lemma_subrange_at(data, pos, enc, 0, encdl);
        lemma_subrange_at(data, pos, enc, dll, a);
        lemma_subrange_at(data, pos, enc, dll + 4, last.name);
        lemma_subrange_at(data, pos, enc, dll + 4 + nl, encb);
        assert(forall|i: int| 0 <= i < dl.len() ==> folder_wf(#[trigger] dl[i], depth as int + 1));
        assert(folder_wf(s[s.len() - 1], depth as int + 1));
        lemma_parse_encode_folders(data, pos, dl, depth);
        lemma_strip_nuls_clean(last.name);
        assert(((depth + 1) as u32) as int == depth as int + 1);
        lemma_parse_encode_folder(data, pos + dll + 4 + nl, last.name, last, (depth + 1) as u32);
        assert(FolderView { name: last.name, files: last.files, folders: last.folders } =~= last);
        let p = pos + dll;
        assert(spec_u32_from_le_bytes(data.subrange(p, p + 4)) == last.name.len() as u32);
        assert(strip_nuls(data.subrange(p + 4, p + 4 + nl)) == last.name);
        assert(spec_parse_subfolder(data, p, depth) == Ok::<(FolderView, int), ArchiveError>(
            (last, pos + spec_encode_folders(s).len()),
        ));
        assert(dl.push(last) =~= s);
    }
}

/// Decoding a header stream produced by the encoder for the tree `v` yields
/// the same tree back: the same file names, offsets and lengths, folder by
/// folder, with the root under its fixed label.
pub proof fn lemma_header_round_trip(v: FolderView)
    requires
        folder_wf(v, 0),
    ensures
        spec_parse_header(spec_encode_header(v)) == Ok::<FolderView, ArchiveError>(
            FolderView { name: root_label(), files: v.files, folders: v.folders },
        ),
{
    lemma_auto_spec_u32_to_from_le_bytes();
    let data = spec_encode_header(v);
    let encb = spec_encode_folder(v);
    assert(data.len() == 56 + encb.len());
    assert(data.subrange(0, 3) =~= magic_bytes());
    assert(data.subrange(56, 56 + encb.len() as int) =~= encb);
    assert(data.subrange(0, data.len() as int) =~= data);
    lemma_parse_encode_folder(data, 56, root_label(), v, 0);
}

} // verus!
