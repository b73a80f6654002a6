use vstd::prelude::*;
use vstd::bytes::{
    lemma_auto_spec_u64_to_from_le_bytes, spec_u64_from_le_bytes, spec_u64_to_le_bytes,
    u64_from_le_bytes, u64_to_le_bytes,
};
use vstd::slice::{slice_subrange, slice_to_vec};
use vstd::string::StringExecFns;
use crate::codec::{
    decode_trailer, encode_index, encode_trailer, index_bytes_of, trailer_bytes_of,
    trailer_decode_of,
};
use crate::error::E;
use crate::field::{Field, FieldView};
use crate::fs::{as_path_buf, derive_unpack_dir, join_path, join_spec, unpack_dir};
use crate::index::index_file_name;
use crate::storage::{
    distinct_keys, has_key, index_pairs, index_pairs_exec, lemma_seq_ext, upsert, upsert_field,
    StoreEntries, Storage,
};

verus! {

/// The entries whose records hold at least one byte; only these are packed
/// into an archive. A record of zero bytes is indistinguishable from "no
/// record" and is deliberately left out.
pub open spec fn nonempty_entries(s: StoreEntries) -> StoreEntries {
    s.filter(|p: (Seq<char>, FieldView)| p.1.data.len() > 0)
}

/// The total number of payload bytes of the entries.
pub open spec fn payload_len(s: StoreEntries) -> int
    decreases s.len(),
{
    if s.len() == 0 {
        0
    } else {
        payload_len(s.drop_last()) + s.last().1.data.len()
    }
}

/// The concatenated payload bytes of the entries, in entry order, with no
/// padding between them.
pub open spec fn payload_bytes(s: StoreEntries) -> Seq<u8>
    decreases s.len(),
{
    if s.len() == 0 {
        Seq::empty()
    } else {
        payload_bytes(s.drop_last()) + s.last().1.data
    }
}

/// The trailer table for entries laid out contiguously from offset `base`:
/// the i-th entry's payload occupies the byte range from
/// `base + payload_len(s.take(i))` to `base + payload_len(s.take(i + 1))`.
pub open spec fn trailer_table(s: StoreEntries, base: int) -> Seq<(Seq<char>, Seq<char>, u64, u64)> {
    Seq::new(
        s.len(),
        |i: int|
            (
                s[i].0,
                s[i].1.name,
                (base + payload_len(s.take(i))) as u64,
                (base + payload_len(s.take(i + 1))) as u64,
            ),
    )
}

/// The bytes of the archive packed from the entries: an 8-byte little-endian
/// pointer to the trailer, the concatenated non-empty payloads, then the
/// encoded trailer table. An archive of no records is the 8-byte pointer
/// alone.
pub open spec fn archive_bytes(s: StoreEntries) -> Seq<u8> {
    let inc = nonempty_entries(s);
    spec_u64_to_le_bytes((8 + payload_len(inc)) as u64) + payload_bytes(inc) + if inc.len() == 0 {
        Seq::<u8>::empty()
    } else {
        trailer_bytes_of(trailer_table(inc, 8))
    }
}

/// A payload length is never negative.
pub proof fn lemma_payload_len_nonneg(s: StoreEntries)
    ensures
        payload_len(s) >= 0,
    decreases s.len(),
{
    if s.len() > 0 {
        lemma_payload_len_nonneg(s.drop_last());
    }
}

/// The concatenated payload is exactly `payload_len` bytes long.
pub proof fn lemma_payload_bytes_len(s: StoreEntries)
    ensures
        payload_bytes(s).len() == payload_len(s),
    decreases s.len(),
{
    if s.len() > 0 {
        lemma_payload_bytes_len(s.drop_last());
    }
}

/// How the non-empty entries of a prefix grow when one more entry is taken.
pub proof fn lemma_nonempty_step(s: StoreEntries, i: int)
    requires
        0 <= i < s.len(),
    ensures
        nonempty_entries(s.take(i + 1)) == if s[i].1.data.len() > 0 {
            nonempty_entries(s.take(i)).push(s[i])
        } else {
            nonempty_entries(s.take(i))
        },
{
    reveal(Seq::filter);
    assert(s.take(i + 1).drop_last() =~= s.take(i));
    assert(s.take(i + 1).last() == s[i]);
}

/// Taking a prefix never increases the packed payload length.
pub proof fn lemma_payload_len_prefix(s: StoreEntries, i: int)
    requires
        0 <= i <= s.len(),
    ensures
        payload_len(nonempty_entries(s.take(i))) <= payload_len(nonempty_entries(s)),
    decreases s.len() - i,
{
    if i == s.len() {
        assert(s.take(i) =~= s);
    } else {
        lemma_nonempty_step(s, i);
        if s[i].1.data.len() > 0 {
            assert(nonempty_entries(s.take(i + 1)).drop_last() =~= nonempty_entries(s.take(i)));
        }
        lemma_payload_len_prefix(s, i + 1);
    }
}

/// Concatenates the three regions of an archive: the little-endian trailer
/// pointer, the payload bytes, and the encoded trailer table.
pub fn assemble_archive(trailer_offset: u64, payload: &Vec<u8>, trailer: &Vec<u8>) -> (r: Vec<u8>)
    ensures
        r@ == spec_u64_to_le_bytes(trailer_offset) + payload@ + trailer@,
{
    proof {
        lemma_auto_spec_u64_to_from_le_bytes();
    }
    let mut out = u64_to_le_bytes(trailer_offset);
    out.extend_from_slice(payload.as_slice());
    proof {
        assert(out@ =~= spec_u64_to_le_bytes(trailer_offset) + payload@);
    }
    out.extend_from_slice(trailer.as_slice());
    proof {
        assert(out@ =~= spec_u64_to_le_bytes(trailer_offset) + payload@ + trailer@);
    }
    out
}

impl Storage {
    /// Packs the store into a single archive. Records of zero size are left
    /// out entirely. Returns the archive bytes; the caller writes them to the
    /// bundle file. The call succeeds unless the payload offsets do not fit
    /// the archive's 64-bit offset fields, in which case it fails with
    /// `E::Unknown`; the store itself is never changed.
    pub fn pack(&self) -> (r: Result<Vec<u8>, E>)
        requires
            self.wf(),
        ensures
            r is Ok <==> 8 + payload_len(nonempty_entries(self@.entries)) <= u64::MAX,
            r matches Ok(b) ==> {
                &&& b@ == archive_bytes(self@.entries)
                &&& b@.len() >= 8
                &&& (nonempty_entries(self@.entries).len() == 0 ==> b@.len() == 8)
                &&& (nonempty_entries(self@.entries).len() > 0 ==> b@.len() >= 8 + payload_len(
                    nonempty_entries(self@.entries),
                ) + 8)
            },
            r is Err ==> r == Err::<Vec<u8>, E>(E::Unknown),
    {
        let ghost d = self@.entries;
        let mut trailer_vec: Vec<(String, String, u64, u64)> = Vec::new();
        let mut payload: Vec<u8> = Vec::new();
        let mut cursor: u64 = 8;
        proof {
            reveal(Seq::filter);
            assert(nonempty_entries(d.take(0)) =~= Seq::<(Seq<char>, FieldView)>::empty());
            assert(trailer_vec.deep_view() =~= trailer_table(nonempty_entries(d.take(0)), 8));
        }
        let n = self.field_count();
        let mut i: usize = 0;
        while i < n
            invariant
                n == self@.entries.len(),
                d == self@.entries,
                i <= n,
                trailer_vec.deep_view() == trailer_table(nonempty_entries(d.take(i as int)), 8),
                payload@ == payload_bytes(nonempty_entries(d.take(i as int))),
                cursor == 8 + payload_len(nonempty_entries(d.take(i as int))),
            decreases n - i,
        {
            let ghost inc0 = nonempty_entries(d.take(i as int));
            proof {
                lemma_nonempty_step(d, i as int);
            }
            let (key, field) = self.field_at(i);
            let size = field.size();
            if size > 0 {
                let ghost inc1 = nonempty_entries(d.take(i + 1 as int));
                let new_cursor = match cursor.checked_add(size) {
                    Some(c) => c,
                    None => {
                        proof {
                            lemma_payload_len_prefix(d, i + 1 as int);
                            assert(inc1.drop_last() =~= inc0);
                            assert(payload_len(inc1) == payload_len(inc0) + d[i as int].1.data.len());
                        }
                        return Err(E::Unknown);
                    },
                };
                let ghost pre_trailer = trailer_vec.deep_view();
                let ghost pre_trailer_vec = trailer_vec@;
                proof {
                    assert(pre_trailer.len() == pre_trailer_vec.len());
                    assert forall|j: int| 0 <= j < pre_trailer_vec.len() implies pre_trailer[j]
                        == pre_trailer_vec[j].deep_view() by {}
                }
                trailer_vec.push((key.clone(), field.file_name(), cursor, new_cursor));
                let mut data = field.extract();
                payload.append(&mut data);
                cursor = new_cursor;
                proof {
                    assert(inc1 == inc0.push(d[i as int]));
                    assert(inc1.drop_last() =~= inc0);
                    assert(inc1.last() == d[i as int]);
                    assert(payload_len(inc1) == payload_len(inc0) + d[i as int].1.data.len());
                    assert(payload@ == payload_bytes(inc1));
                    let t1 = trailer_table(inc1, 8);
                    assert(trailer_vec.deep_view().len() == t1.len());
                    assert forall|j: int|
                        0 <= j < t1.len() implies trailer_vec.deep_view()[j] == t1[j] by {
                        if j < inc0.len() {
                            assert(trailer_vec@[j] == pre_trailer_vec[j]);
                            assert(trailer_vec.deep_view()[j] == pre_trailer_vec[j].deep_view());
                            assert(pre_trailer[j] == trailer_table(inc0, 8)[j]);
                            assert(inc1.take(j) =~= inc0.take(j));
                            assert(inc1.take(j + 1) =~= inc0.take(j + 1));
                            assert(inc1[j] == inc0[j]);
                        } else {
                            assert(j == inc0.len());
                            assert(inc1.take(j) =~= inc0);
                            assert(inc1.take(j + 1) =~= inc1);
                            assert(trailer_vec.deep_view()[j] == (
                                key@,
                                d[i as int].1.name,
                                (8 + payload_len(inc0)) as u64,
                                (8 + payload_len(inc1)) as u64,
                            ));
                        }
                    }
                    lemma_seq_ext(trailer_vec.deep_view(), t1);
                }
            } else {
                proof {
                    assert(d[i as int].1.data.len() == 0);
                    assert(nonempty_entries(d.take(i + 1 as int)) == inc0);
                }
            }
            i += 1;
        }
        proof {
            assert(d.take(n as int) =~= d);
        }
        if trailer_vec.is_empty() {
            proof {
                lemma_auto_spec_u64_to_from_le_bytes();
                assert(nonempty_entries(d).len() == 0);
                assert(payload_len(nonempty_entries(d)) == 0);
                assert(payload_bytes(nonempty_entries(d)) =~= Seq::<u8>::empty());
            }
            let out = u64_to_le_bytes(8);
            proof {
                assert(out@ =~= archive_bytes(d));
            }
            return Ok(out);
        }
        let trailer = encode_trailer(&trailer_vec).unwrap();
        let out = assemble_archive(cursor, &payload, &trailer);
        proof {
            lemma_auto_spec_u64_to_from_le_bytes();
            lemma_payload_len_nonneg(nonempty_entries(d));
            lemma_payload_bytes_len(nonempty_entries(d));
            assert(out@ == archive_bytes(d));
            assert(out@.len() == 8 + payload_len(nonempty_entries(d)) + trailer@.len());
        }
        Ok(out)
    }
}

/// Whether every kept (non-inverted) entry of a trailer table lies inside an
/// archive of `alen` bytes.
pub open spec fn table_ok(t: Seq<(Seq<char>, Seq<char>, u64, u64)>, alen: int) -> bool {
    forall|i: int| 0 <= i < t.len() && (#[trigger] t[i]).2 <= t[i].3 ==> t[i].3 <= alen
}

/// The record files materialized from a trailer table: one per kept entry, in
/// table order, named by the entry and holding the archive slice of its byte
/// range.
pub open spec fn restored_files(t: Seq<(Seq<char>, Seq<char>, u64, u64)>, a: Seq<u8>) -> Seq<
    (Seq<char>, Seq<u8>),
>
    decreases t.len(),
{
    if t.len() == 0 {
        Seq::empty()
    } else {
        let prev = restored_files(t.drop_last(), a);
        let e = t.last();
        if e.2 <= e.3 {
            prev.push((e.1, a.subrange(e.2 as int, e.3 as int)))
        } else {
            prev
        }
    }
}

/// The store entries rebuilt from a trailer table: kept entries in table
/// order, inverted ranges dropped, later entries for the same key winning.
pub open spec fn restored_entries(
    t: Seq<(Seq<char>, Seq<char>, u64, u64)>,
    a: Seq<u8>,
) -> StoreEntries
    decreases t.len(),
{
    if t.len() == 0 {
        Seq::empty()
    } else {
        let prev = restored_entries(t.drop_last(), a);
        let e = t.last();
        if e.2 <= e.3 {
            upsert(prev, e.0, FieldView { name: e.1, data: a.subrange(e.2 as int, e.3 as int) })
        } else {
            prev
        }
    }
}

/// Every key of the rebuilt entries comes from the table.
pub proof fn lemma_restored_keys(t: Seq<(Seq<char>, Seq<char>, u64, u64)>, a: Seq<u8>, k: Seq<char>)
    requires
        has_key(restored_entries(t, a), k),
    ensures
        exists|i: int| 0 <= i < t.len() && (#[trigger] t[i]).0 == k,
    decreases t.len(),
{
    let r = restored_entries(t, a);
    if t.len() > 0 {
        let prev = restored_entries(t.drop_last(), a);
        let e = t.last();
        if e.2 <= e.3 && e.0 == k {
            assert(t[t.len() - 1].0 == k);
        } else {
            if e.2 <= e.3 {
                if !has_key(prev, k) {
                    let f = FieldView { name: e.1, data: a.subrange(e.2 as int, e.3 as int) };
                    assert(r == prev.push((e.0, f)));
                    let j = choose|j: int| 0 <= j < r.len() && (#[trigger] r[j]).0 == k;
                    assert(j < prev.len());
                    assert(prev[j].0 == k);
                    assert(has_key(prev, k));
                }
            }
            lemma_restored_keys(t.drop_last(), a, k);
            let i = choose|i: int|
                0 <= i < t.drop_last().len() && (#[trigger] t.drop_last()[i]).0 == k;
            assert(t[i].0 == k);
        }
    }
}

/// The trailer offset an archive's leading 8-byte little-endian pointer
/// names.
pub open spec fn trailer_offset_of(a: Seq<u8>) -> int {
    spec_u64_from_le_bytes(a.subrange(0, 8)) as int
}

/// The trailer region of an archive: from the byte the leading pointer names,
/// to the end of the archive; empty when the pointer runs past the end.
pub open spec fn trailer_slice(a: Seq<u8>) -> Seq<u8> {
    if trailer_offset_of(a) <= a.len() {
        a.subrange(trailer_offset_of(a), a.len() as int)
    } else {
        Seq::empty()
    }
}

/// Everything `unpack` hands back: the rebuilt store, the record files to
/// write into the store's directory, and the content of its index file.
#[derive(Debug)]
pub struct Unpacked {
    pub storage: Storage,
    pub files: Vec<(String, Vec<u8>)>,
    pub index_path: String,
    pub index_data: Vec<u8>,
}

impl Storage {
    /// Unpacks an archive read from `bundle_path` into a fresh store. The
    /// store's directory is the archive path with its file name's extension
    /// replaced by `unpacked`, or with `.unpacked` appended when the file
    /// name has none (see [`unpack_dir`]). Fails when the
    /// archive is shorter than its leading 8-byte trailer pointer, when that
    /// pointer or a kept payload range runs past the end of the archive (both
    /// reported as the archive being invalid, since the bytes are checked
    /// before any slicing), or when the trailer does not decode as a table. A
    /// trailer entry whose range is inverted is skipped; a trailer region of
    /// zero bytes means an empty store. The caller creates the directory,
    /// writes the returned record files and index file into it, and checks
    /// beforehand that the archive file exists.
    pub fn unpack(bundle_path: &str, archive: &Vec<u8>) -> (r: Result<Unpacked, E>)
        ensures
            archive@.len() < 8 ==> (r matches Err(e) && e matches E::PackageFileInvalid(p) && p@
                == bundle_path@),
            r matches Ok(u) ==> {
                &&& u.storage.wf()
                &&& u.storage@.cwd == unpack_dir(bundle_path@)
                &&& u.index_path@ == join_spec(u.storage@.cwd, index_file_name())
                &&& u.index_data@ == index_bytes_of(index_pairs(u.storage@.entries))
                &&& u.index_data@.len() >= 8
            },
            archive@.len() >= 8 && trailer_offset_of(archive@) > archive@.len() ==> (
            r matches Err(e) && e matches E::PackageFileInvalid(p) && p@ == bundle_path@),
            archive@.len() >= 8 && trailer_offset_of(archive@) <= archive@.len()
                && trailer_slice(archive@).len() == 0 ==> (r matches Ok(u) && u.storage@.entries
                == Seq::<(Seq<char>, FieldView)>::empty() && u.files@.len() == 0),
            archive@.len() >= 8 && trailer_slice(archive@).len() > 0 ==> match trailer_decode_of(
                trailer_slice(archive@),
            ) {
                Some(t) => if table_ok(t, archive@.len() as int) {
                    (r matches Ok(u) && u.storage@.entries == restored_entries(t, archive@)
                        && u.files.deep_view() == restored_files(t, archive@))
                } else {
                    (r matches Err(e) && e matches E::PackageFileInvalid(p) && p@ == bundle_path@)
                },
                None => r == Err::<Unpacked, E>(E::Bincode),
            },
            forall|t: Seq<(Seq<char>, Seq<char>, u64, u64)>|
                archive@.len() >= 8 && trailer_slice(archive@).len() > 0 && trailer_slice(archive@)
                    == #[trigger] trailer_bytes_of(t) ==> if table_ok(t, archive@.len() as int) {
                    (r matches Ok(u) && u.storage@.entries == restored_entries(t, archive@)
                        && u.files.deep_view() == restored_files(t, archive@))
                } else {
                    (r matches Err(e) && e matches E::PackageFileInvalid(p) && p@ == bundle_path@)
                },
            r is Err ==> (r matches Err(e) && ((e matches E::PackageFileInvalid(p) && p@
                == bundle_path@) || e == E::Bincode)),
    {
        let alen = archive.len();
        if alen < 8 {
            return Err(E::PackageFileInvalid(as_path_buf(bundle_path)));
        }
        let header = slice_subrange(archive.as_slice(), 0, 8);
        let map_pos = u64_from_le_bytes(header);
        if map_pos > alen as u64 {
            return Err(E::PackageFileInvalid(as_path_buf(bundle_path)));
        }
        let trailer_bytes: Vec<u8> = slice_to_vec(
            slice_subrange(archive.as_slice(), map_pos as usize, alen),
        );
        proof {
            assert(trailer_bytes@ == trailer_slice(archive@));
        }
        let cwd = derive_unpack_dir(bundle_path);
        if trailer_bytes.len() == 0 {
            let fields: Vec<(String, Field)> = Vec::new();
            proof {
                assert(fields.deep_view() =~= Seq::<(Seq<char>, FieldView)>::empty());
            }
            let pairs = index_pairs_exec(&fields);
            let index_data = encode_index(&pairs).unwrap();
            let index_path = join_path(cwd.as_str(), "map.bstorage");
            let storage = Storage::from_parts(cwd, fields);
            let files: Vec<(String, Vec<u8>)> = Vec::new();
            return Ok(Unpacked { storage, files, index_path, index_data });
        }
        let table = match decode_trailer(&trailer_bytes) {
            Ok(t) => t,
            Err(_) => {
                return Err(E::Bincode);
            },
        };
        let ghost tv = table.deep_view();
        let ghost av = archive@;
        proof {
            assert(trailer_slice(av).len() > 0);
            assert(trailer_decode_of(trailer_slice(av)) == Some(tv));
            assert(forall|ts: Seq<(Seq<char>, Seq<char>, u64, u64)>|
                trailer_slice(av) == #[trigger] trailer_bytes_of(ts) ==> ts == tv);
        }
        let mut fields: Vec<(String, Field)> = Vec::new();
        let mut files: Vec<(String, Vec<u8>)> = Vec::new();
        proof {
            reveal(Seq::filter);
            assert(fields.deep_view() =~= restored_entries(tv.take(0), av));
            assert(files.deep_view() =~= restored_files(tv.take(0), av));
        }
        let n = table.len();
        let mut k: usize = 0;
        while k < n
            invariant
                n == table.len(),
                tv == table.deep_view(),
                av == archive@,
                alen == archive.len(),
                alen >= 8,
                k <= n,
                trailer_slice(av).len() > 0,
                trailer_decode_of(trailer_slice(av)) == Some(tv),
                forall|ts: Seq<(Seq<char>, Seq<char>, u64, u64)>|
                    trailer_slice(av) == #[trigger] trailer_bytes_of(ts) ==> ts == tv,
                distinct_keys(fields.deep_view()),
                fields.deep_view() == restored_entries(tv.take(k as int), av),
                files.deep_view() == restored_files(tv.take(k as int), av),
                table_ok(tv.take(k as int), alen as int),
            decreases n - k,
        {
            let e = &table[k];
            let ghost te = tv[k as int];
            proof {
                assert(te == (e.0@, e.1@, e.2, e.3));
                assert(tv.take(k + 1 as int).drop_last() =~= tv.take(k as int));
                assert(tv.take(k + 1 as int).last() == te);
            }
            if e.2 <= e.3 {
                if e.3 > alen as u64 {
                    proof {
                        assert(tv[k as int].2 <= tv[k as int].3 && tv[k as int].3 > alen as int);
                        assert(!table_ok(tv, alen as int));
                    }
                    return Err(E::PackageFileInvalid(as_path_buf(bundle_path)));
                }
                let data = slice_to_vec(
                    slice_subrange(archive.as_slice(), e.2 as usize, e.3 as usize),
                );
                let ghost pre_files = files.deep_view();
                let ghost pre_files_vec = files@;
                proof {
                    assert(pre_files.len() == pre_files_vec.len());
                    assert forall|j: int| 0 <= j < pre_files_vec.len() implies pre_files[j]
                        == pre_files_vec[j].deep_view() by {}
                }
                files.push((e.1.clone(), data.clone()));
                let field = Field::restore(e.1.clone(), data);
                upsert_field(&mut fields, e.0.clone(), field);
                proof {
                    assert(fields.deep_view() == restored_entries(tv.take(k + 1 as int), av));
                    let t0 = tv.take(k as int);
                    let t1 = tv.take(k + 1 as int);
                    let f1 = restored_files(t1, av);
                    assert(f1 == restored_files(t0, av).push((te.1, av.subrange(
                        te.2 as int,
                        te.3 as int,
                    ))));
                    assert(f1.len() == pre_files.len() + 1);
                    assert(files.deep_view().len() == pre_files.len() + 1);
                    assert forall|j: int| 0 <= j < f1.len() implies files.deep_view()[j]
                        == f1[j] by {
                        if j < pre_files.len() {
                            assert(files@[j] == pre_files_vec[j]);
                            assert(files.deep_view()[j] == pre_files_vec[j].deep_view());
                            assert(pre_files[j] == restored_files(t0, av)[j]);
                        } else {
                            assert(files.deep_view()[j] == (e.1@, av.subrange(
                                e.2 as int,
                                e.3 as int,
                            )));
                        }
                    }
                    lemma_seq_ext(files.deep_view(), f1);
                }
            } else {
                proof {
                    assert(restored_entries(tv.take(k + 1 as int), av) == restored_entries(
                        tv.take(k as int),
                        av,
                    ));
                    assert(restored_files(tv.take(k + 1 as int), av) == restored_files(
                        tv.take(k as int),
                        av,
                    ));
                }
            }
            k += 1;
        }
        proof {
            assert(tv.take(n as int) =~= tv);
        }
        let pairs = index_pairs_exec(&fields);
        let index_data = encode_index(&pairs).unwrap();
        let index_path = join_path(cwd.as_str(), "map.bstorage");
        let storage = Storage::from_parts(cwd, fields);
        Ok(Unpacked { storage, files, index_path, index_data })
    }
}

} // verus!
