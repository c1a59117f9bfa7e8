use vstd::prelude::*;
use vstd::bytes::{spec_u32_to_le_bytes, spec_u64_to_le_bytes, u32_to_le_bytes, u64_to_le_bytes};
use crate::codec::{spec_encode_file, spec_encode_files, spec_encode_folder, spec_encode_folders,
    spec_encode_header, magic_bytes};
use crate::tree::{SFile, SFolder, FileView, FolderView, files_view, folders_view, folder_wf,
    file_wf, entry_total, subfolder_total, lemma_folders_view_index, lemma_entry_total_nonneg,
    lemma_subfolder_total_nonneg};

verus! {

/// The running entry total over a prefix never passes the whole row's total.
proof fn lemma_subfolder_total_take(s: Seq<FolderView>, i: int)
    requires
        0 <= i <= s.len(),
    ensures
        subfolder_total(s.take(i)) <= subfolder_total(s),
    decreases s.len() - i,
{
    if i == s.len() {
        assert(s.take(i) =~= s);
    } else {
        lemma_subfolder_total_take(s, i + 1);
        assert(s.take(i + 1).drop_last() =~= s.take(i));
        assert(s.take(i + 1).last() == s[i]);
        lemma_entry_total_nonneg(s[i]);
    }
}

/// One more file record extends the encoding of a prefix of the row.
proof fn lemma_encode_files_take_step(s: Seq<FileView>, i: int)
    requires
        0 <= i < s.len(),
    ensures
        spec_encode_files(s.take(i + 1)) == spec_encode_files(s.take(i)) + spec_encode_file(s[i]),
{
    assert(s.take(i + 1).drop_last() =~= s.take(i));
    assert(s.take(i + 1).last() == s[i]);
}

/// One more subfolder record extends the encoding of a prefix of the row.
proof fn lemma_encode_folders_take_step(s: Seq<FolderView>, i: int)
    requires
        0 <= i < s.len(),
    ensures
        spec_encode_folders(s.take(i + 1)) == spec_encode_folders(s.take(i)) + spec_u32_to_le_bytes(
            s[i].name.len() as u32,
        ) + s[i].name + spec_encode_folder(s[i]),
{
    assert(s.take(i + 1).drop_last() =~= s.take(i));
    assert(s.take(i + 1).last() == s[i]);
}

/// Append the 4-byte little-endian form of `v`.
fn push_u32_le(out: &mut Vec<u8>, v: u32)
    ensures
        final(out)@ == old(out)@ + spec_u32_to_le_bytes(v),
{
    let mut b = u32_to_le_bytes(v);
    out.append(&mut b);
}

/// Append the 8-byte little-endian form of `v`.
fn push_u64_le(out: &mut Vec<u8>, v: u64)
    ensures
        final(out)@ == old(out)@ + spec_u64_to_le_bytes(v),
{
    let mut b = u64_to_le_bytes(v);
    out.append(&mut b);
}

/// Append `n` reserved zero bytes.
#[verifier::loop_isolation(false)]
fn push_zeros(out: &mut Vec<u8>, n: usize)
    ensures
        final(out)@ == old(out)@ + Seq::new(n as nat, |i: int| 0u8),
{
    let mut k: usize = 0;
    while k < n
        invariant
            k <= n,
            out@ == old(out)@ + Seq::new(k as nat, |i: int| 0u8),
        decreases n - k,
    {
        out.push(0u8);
        k = k + 1;
        proof {
            assert(out@ =~= old(out)@ + Seq::new(k as nat, |i: int| 0u8));
        }
    }
}

/// Append a copy of the given bytes.
#[verifier::loop_isolation(false)]
fn push_bytes(out: &mut Vec<u8>, s: &Vec<u8>)
    ensures
        final(out)@ == old(out)@ + s@,
{
    let mut k: usize = 0;
    while k < s.len()
        invariant
            k <= s@.len(),
            out@ == old(out)@ + s@.take(k as int),
        decreases s@.len() - k,
    {
        out.push(s[k]);
        k = k + 1;
        proof {
            assert(out@ =~= old(out)@ + s@.take(k as int));
        }
    }
    proof {
        assert(s@.take(s@.len() as int) =~= s@);
    }
}

/// Append the record of one file entry.
fn encode_file_into(out: &mut Vec<u8>, f: &SFile)
    requires
        file_wf(f@),
    ensures
        final(out)@ == old(out)@ + spec_encode_file(f@),
{
    push_u32_le(out, f.name.len() as u32);
    push_bytes(out, &f.name);
    push_u64_le(out, f.offset);
    push_u32_le(out, f.length as u32);
    push_zeros(out, 4);
    proof {
        assert(Seq::new(4nat, |i: int| 0u8) =~= seq![0u8, 0u8, 0u8, 0u8]);
        assert(final(out)@ =~= old(out)@ + spec_encode_file(f@));
    }
}

/// Count the entries under a folder for the header's informational field.
#[verifier::loop_isolation(false)]
fn count_entries(f: &SFolder, Ghost(depth): Ghost<int>) -> (n: u32)
    requires
        folder_wf(f@, depth),
    ensures
        n == entry_total(f@),
    decreases *f,
{
    let ghost v = f@;
    proof {
        lemma_folders_view_index(f.folders@);
        lemma_subfolder_total_nonneg(v.folders);
    }
    let mut total: u32 = (f.files.len() as u32) + (f.folders.len() as u32);
    let mut k: usize = 0;
    proof {
        assert(v.folders.take(0int) =~= Seq::<FolderView>::empty());
    }
    while k < f.folders.len()
        invariant
            k <= f.folders@.len(),
            total == v.files.len() + v.folders.len() + subfolder_total(v.folders.take(k as int)),
        decreases f.folders@.len() - k,
    {
        proof {
            lemma_subfolder_total_take(v.folders, k + 1 as int);
            assert(v.folders.take(k as int + 1).drop_last() =~= v.folders.take(k as int));
            assert(v.folders.take(k as int + 1).last() == v.folders[k as int]);
            lemma_entry_total_nonneg(v.folders[k as int]);
        }
        let sub = count_entries(&f.folders[k], Ghost(depth + 1));
        total = total + sub;
        k = k + 1;
    }
    proof {
        assert(v.folders.take(f.folders@.len() as int) =~= v.folders);
    }
    total
}

/// Append the body of one folder: counts, file records, subfolder records.
#[verifier::loop_isolation(false)]
fn encode_folder_into(out: &mut Vec<u8>, f: &SFolder, Ghost(depth): Ghost<int>)
    requires
        folder_wf(f@, depth),
    ensures
        final(out)@ == old(out)@ + spec_encode_folder(f@),
    decreases *f,
{
    let ghost v = f@;
    proof {
        lemma_folders_view_index(f.folders@);
    }
    push_u32_le(out, f.files.len() as u32);
    let ghost after_fc = out@;
    let mut i: usize = 0;
    proof {
        assert(v.files.take(0int) =~= Seq::<FileView>::empty());
        assert(out@ =~= after_fc + spec_encode_files(v.files.take(0int)));
    }
    while i < f.files.len()
        invariant
            i <= f.files@.len(),
            out@ == after_fc + spec_encode_files(v.files.take(i as int)),
        decreases f.files@.len() - i,
    {
        proof {
            assert(v.files[i as int] == f.files@[i as int]@);
            lemma_encode_files_take_step(v.files, i as int);
        }
        encode_file_into(out, &f.files[i]);
        i = i + 1;
        proof {
            assert(out@ =~= after_fc + spec_encode_files(v.files.take(i as int)));
        }
    }
    proof {
        assert(v.files.take(f.files@.len() as int) =~= v.files);
    }
    push_u32_le(out, f.folders.len() as u32);
    let ghost after_sc = out@;
    let mut j: usize = 0;
    proof {
        assert(v.folders.take(0int) =~= Seq::<FolderView>::empty());
        assert(out@ =~= after_sc + spec_encode_folders(v.folders.take(0int)));
    }
    while j < f.folders.len()
        invariant
            j <= f.folders@.len(),
            out@ == after_sc + spec_encode_folders(v.folders.take(j as int)),
        decreases f.folders@.len() - j,
    {
        proof {
            lemma_encode_folders_take_step(v.folders, j as int);
        }
        let sub = &f.folders[j];
        push_u32_le(out, sub.name.len() as u32);
        push_bytes(out, &sub.name);
        encode_folder_into(out, sub, Ghost(depth + 1));
        j = j + 1;
        proof {
            assert(out@ =~= after_sc + spec_encode_folders(v.folders.take(j as int)));
        }
    }
    proof {
        assert(v.folders.take(f.folders@.len() as int) =~= v.folders);
        assert(final(out)@ =~= old(out)@ + spec_encode_folder(v));
    }
}

/// Encode the tree under `root` as a complete header byte stream.
///
/// Together with the decoder's contract this is the round trip: decoding
/// the returned bytes yields the same tree back, rooted under the fixed
/// root label.
pub fn encode_header(root: &SFolder) -> (out: Vec<u8>)
    requires
        folder_wf(root@, 0),
    ensures
        out@ == spec_encode_header(root@),
{
    let mut out: Vec<u8> = Vec::new();
    out.push(0x53u8);
    out.push(0x41u8);
    out.push(0x48u8);
    proof {
        assert(out@ =~= magic_bytes());
    }
    push_zeros(&mut out, 4);
    proof {
        assert(Seq::new(4nat, |i: int| 0u8) =~= seq![0u8, 0u8, 0u8, 0u8]);
    }
    let total = count_entries(root, Ghost(0));
    push_u32_le(&mut out, total);
    push_zeros(&mut out, 45);
    encode_folder_into(&mut out, root, Ghost(0));
    proof {
        lemma_entry_total_nonneg(root@);
        assert(out@ =~= spec_encode_header(root@));
    }
    out
}

} // verus!
