use vstd::prelude::*;
use vstd::bytes::{lemma_auto_spec_u64_to_from_le_bytes, spec_u64_from_le_bytes, spec_u64_to_le_bytes};
use crate::bundle::{
    archive_bytes, lemma_payload_bytes_len, lemma_payload_len_nonneg, lemma_restored_keys,
    nonempty_entries, payload_bytes, payload_len, restored_entries, restored_files, table_ok,
    trailer_offset_of, trailer_slice, trailer_table,
};
use crate::codec::trailer_bytes_of;
use crate::field::FieldView;
use crate::index::{dir_lookup, dir_lookup_from, reconciled, DirSnapshot};
use crate::storage::{
    clear_model, distinct_keys, field_of, has_key, index_of_key, index_pairs, keys_of,
    lemma_key_at, lemma_upsert, record_paths_of, remove_model, set_model, upsert, StoreEntries,
};

verus! {

/// The record files a store's entries are backed by: each record's bare file
/// name with its content, in entry order. This is what the storage directory
/// holds (besides the index file) once every returned action was persisted.
pub open spec fn records_dir(s: StoreEntries) -> DirSnapshot {
    s.map_values(|p: (Seq<char>, FieldView)| (p.1.name, p.1.data))
}

/// No two entries are backed by the same record file.
pub open spec fn distinct_names(s: StoreEntries) -> bool {
    forall|i: int, j: int|
        0 <= i < j < s.len() ==> (#[trigger] s[i]).1.name != (#[trigger] s[j]).1.name
}

/// A scan that starts at a non-match steps one position further.
proof fn lemma_dir_lookup_found(dir: DirSnapshot, name: Seq<char>, j: int, i: int)
    requires
        0 <= j <= i < dir.len(),
        dir[i].0 == name,
        forall|m: int| j <= m < i ==> (#[trigger] dir[m]).0 != name,
    ensures
        dir_lookup_from(dir, name, j) == Some(dir[i].1),
    decreases i - j,
{
    if j < i {
        lemma_dir_lookup_found(dir, name, j + 1, i);
    }
}

/// A name that no directory entry carries is not found.
proof fn lemma_dir_lookup_absent(dir: DirSnapshot, name: Seq<char>, j: int)
    requires
        forall|m: int| 0 <= m < dir.len() ==> (#[trigger] dir[m]).0 != name,
        0 <= j,
    ensures
        dir_lookup_from(dir, name, j) is None,
    decreases dir.len() - j,
{
    if j < dir.len() {
        lemma_dir_lookup_absent(dir, name, j + 1);
    }
}

/// Reconciling an index table against a directory that holds every referenced
/// file with its exact content rebuilds the entries unchanged.
proof fn lemma_reconciled_exact(s: StoreEntries, dir: DirSnapshot)
    requires
        distinct_keys(s),
        forall|i: int|
            0 <= i < s.len() ==> dir_lookup(dir, (#[trigger] s[i]).1.name) == Some(s[i].1.data),
    ensures
        reconciled(index_pairs(s), dir) == s,
    decreases s.len(),
{
    let ps = index_pairs(s);
    if s.len() == 0 {
        assert(reconciled(ps, dir) =~= s);
    } else {
        let s0 = s.drop_last();
        assert(ps.drop_last() =~= index_pairs(s0));
        assert forall|i: int|
            0 <= i < s0.len() implies dir_lookup(dir, (#[trigger] s0[i]).1.name) == Some(
            s0[i].1.data,
        ) by {
            assert(s0[i] == s[i]);
        }
        lemma_reconciled_exact(s0, dir);
        let last = s.last();
        assert(ps.last() == (last.0, last.1.name));
        assert(dir_lookup(dir, last.1.name) == Some(last.1.data)) by {
            assert(s[s.len() - 1].1.name == last.1.name);
        }
        let f = FieldView { name: last.1.name, data: last.1.data };
        assert(f == last.1);
        assert(reconciled(ps, dir) == upsert(s0, last.0, last.1));
        assert(!has_key(s0, last.0)) by {
            if has_key(s0, last.0) {
                let j = choose|j: int| 0 <= j < s0.len() && (#[trigger] s0[j]).0 == last.0;
                assert(s[j].0 == s[s.len() - 1].0);
            }
        }
        assert(upsert(s0, last.0, last.1) == s0.push((last.0, last.1)));
        assert(s0.push((last.0, last.1)) =~= s);
    }
}

/// In a directory whose file names are distinct, looking a record's name up
/// yields exactly that record's content.
proof fn lemma_records_dir_lookup(s: StoreEntries, i: int)
    requires
        distinct_names(s),
        0 <= i < s.len(),
    ensures
        dir_lookup(records_dir(s), s[i].1.name) == Some(s[i].1.data),
{
    let dir = records_dir(s);
    assert(dir[i] == (s[i].1.name, s[i].1.data));
    assert forall|m: int| 0 <= m < i implies (#[trigger] dir[m]).0 != s[i].1.name by {
        assert(dir[m] == (s[m].1.name, s[m].1.data));
    }
    lemma_dir_lookup_found(dir, s[i].1.name, 0, i);
}

/// Law: a store survives being reopened. Writing the entries' index table and
/// their record files, then rebuilding the store from those bytes (as `open`
/// does after decoding the table), yields exactly the same entries — for every
/// store whose keys and record file names are distinct.
pub proof fn lemma_reopen_round_trip(s: StoreEntries)
    requires
        distinct_keys(s),
        distinct_names(s),
    ensures
        reconciled(index_pairs(s), records_dir(s)) == s,
{
    assert forall|i: int|
        0 <= i < s.len() implies dir_lookup(records_dir(s), (#[trigger] s[i]).1.name) == Some(
        s[i].1.data,
    ) by {
        lemma_records_dir_lookup(s, i);
    }
    lemma_reconciled_exact(s, records_dir(s));
}

/// Reconciling an index table against a directory that is missing exactly one
/// key's record file, and holds every other referenced file with its exact
/// content, rebuilds the entries with that one key dropped.
proof fn lemma_reconciled_exact_except(s: StoreEntries, dir: DirSnapshot, k: Seq<char>)
    requires
        distinct_keys(s),
        has_key(s, k),
        dir_lookup(dir, field_of(s, k).name) is None,
        forall|i: int|
            0 <= i < s.len() && (#[trigger] s[i]).0 != k ==> dir_lookup(dir, s[i].1.name) == Some(
                s[i].1.data,
            ),
    ensures
        reconciled(index_pairs(s), dir) == s.remove(index_of_key(s, k)),
    decreases s.len(),
{
    let ps = index_pairs(s);
    let s0 = s.drop_last();
    let last = s.last();
    assert(ps.drop_last() =~= index_pairs(s0));
    assert(ps.last() == (last.0, last.1.name));
    if last.0 == k {
        lemma_key_at(s, k, s.len() - 1);
        assert(field_of(s, k) == last.1);
        assert(!has_key(s0, k)) by {
            if has_key(s0, k) {
                let j = choose|j: int| 0 <= j < s0.len() && (#[trigger] s0[j]).0 == k;
                assert(s[j].0 == s[s.len() - 1].0);
            }
        }
        assert forall|i: int|
            0 <= i < s0.len() implies dir_lookup(dir, (#[trigger] s0[i]).1.name) == Some(
            s0[i].1.data,
        ) by {
            assert(s0[i] == s[i]);
            assert(s[i].0 != k);
        }
        lemma_reconciled_exact(s0, dir);
        assert(reconciled(ps, dir) == s0);
        assert(s.remove(s.len() - 1) =~= s0);
    } else {
        assert(has_key(s0, k)) by {
            let j = index_of_key(s, k);
            assert(0 <= j < s.len() && s[j].0 == k);
            assert(j != s.len() - 1);
            assert(s0[j] == s[j]);
        }
        let i0 = index_of_key(s0, k);
        assert(0 <= i0 < s0.len() && s0[i0].0 == k);
        lemma_key_at(s, k, i0);
        assert(field_of(s0, k) == field_of(s, k)) by {
            assert(s0[i0] == s[i0]);
        }
        assert forall|i: int|
            0 <= i < s0.len() && (#[trigger] s0[i]).0 != k implies dir_lookup(dir, s0[i].1.name)
            == Some(s0[i].1.data) by {
            assert(s0[i] == s[i]);
        }
        lemma_reconciled_exact_except(s0, dir, k);
        let prev = s0.remove(i0);
        assert(reconciled(ps.drop_last(), dir) == prev);
        assert(dir_lookup(dir, last.1.name) == Some(last.1.data)) by {
            assert(s[s.len() - 1].0 != k);
        }
        let f = FieldView { name: last.1.name, data: last.1.data };
        assert(f == last.1);
        assert(reconciled(ps, dir) == upsert(prev, last.0, last.1));
        assert(!has_key(prev, last.0)) by {
            if has_key(prev, last.0) {
                let j = choose|j: int| 0 <= j < prev.len() && (#[trigger] prev[j]).0 == last.0;
                let j0 = if j < i0 {
                    j
                } else {
                    j + 1
                };
                assert(prev[j] == s0[j0]);
                assert(s[j0].0 == s[s.len() - 1].0);
            }
        }
        assert(upsert(prev, last.0, last.1) == prev.push((last.0, last.1)));
        assert(prev.push((last.0, last.1)) =~= s.remove(i0)) by {
            assert forall|j: int|
                0 <= j < s.remove(i0).len() implies s.remove(i0)[j] == prev.push(
                (last.0, last.1),
            )[j] by {
                if j < prev.len() {
                    let j0 = if j < i0 {
                        j
                    } else {
                        j + 1
                    };
                    assert(prev[j] == s0[j0]);
                    assert(s.remove(i0)[j] == s[j0]);
                    assert(s0[j0] == s[j0]);
                } else {
                    assert(s.remove(i0)[j] == s[s.len() - 1]);
                }
            }
        }
    }
}

/// Law: a missing record file is tolerated. When one key's record file has
/// been deleted from the directory, reopening the store from the same index
/// table does not fail and yields the store without that key: `has` answers
/// false for it and every other key keeps its record — for every store whose
/// keys and record file names are distinct.
pub proof fn lemma_missing_file_tolerated(s: StoreEntries, k: Seq<char>)
    requires
        distinct_keys(s),
        distinct_names(s),
        has_key(s, k),
    ensures
        reconciled(index_pairs(s), records_dir(remove_model(s, k))) == remove_model(s, k),
        !has_key(remove_model(s, k), k),
        forall|k2: Seq<char>|
            k2 != k && has_key(s, k2) ==> #[trigger] has_key(remove_model(s, k), k2) && field_of(
                remove_model(s, k),
                k2,
            ) == field_of(s, k2),
{
    let i = index_of_key(s, k);
    assert(0 <= i < s.len() && s[i].0 == k);
    let rest = s.remove(i);
    assert(rest == remove_model(s, k));
    crate::storage::lemma_remove_distinct(s, i);
    let dir = records_dir(rest);
    assert(dir.len() == rest.len());
    assert(dir_lookup(dir, field_of(s, k).name) is None) by {
        assert forall|m: int|
            0 <= m < dir.len() implies (#[trigger] dir[m]).0 != field_of(s, k).name by {
            assert(dir[m] == (rest[m].1.name, rest[m].1.data));
            let m0 = if m < i {
                m
            } else {
                m + 1
            };
            assert(rest[m] == s[m0]);
            assert(m0 != i);
            if m0 < i {
                assert(s[m0].1.name != s[i].1.name);
            } else {
                assert(s[i].1.name != s[m0].1.name);
            }
        }
        lemma_dir_lookup_absent(dir, field_of(s, k).name, 0);
    }
    assert forall|j: int|
        0 <= j < s.len() && (#[trigger] s[j]).0 != k implies dir_lookup(dir, s[j].1.name) == Some(
        s[j].1.data,
    ) by {
        assert(j != i);
        let j1 = if j < i {
            j
        } else {
            j - 1
        };
        assert(rest[j1] == s[j]);
        assert(distinct_names(rest)) by {
            assert forall|a: int, b: int|
                0 <= a < b < rest.len() implies (#[trigger] rest[a]).1.name != (
            #[trigger] rest[b]).1.name by {
                let a0 = if a < i {
                    a
                } else {
                    a + 1
                };
                let b0 = if b < i {
                    b
                } else {
                    b + 1
                };
                assert(rest[a] == s[a0]);
                assert(rest[b] == s[b0]);
            }
        }
        lemma_records_dir_lookup(rest, j1);
    }
    lemma_reconciled_exact_except(s, dir, k);
}

/// One more taken entry adds exactly its bytes to the prefix payload length.
proof fn lemma_payload_len_take_succ(s: StoreEntries, i: int)
    requires
        0 <= i < s.len(),
    ensures
        payload_len(s.take(i + 1)) == payload_len(s.take(i)) + s[i].1.data.len(),
{
    assert(s.take(i + 1).drop_last() =~= s.take(i));
    assert(s.take(i + 1).last() == s[i]);
}

/// A prefix payload length lies between zero and the whole payload length.
proof fn lemma_payload_len_take_bounds(s: StoreEntries, i: int)
    requires
        0 <= i <= s.len(),
    ensures
        0 <= payload_len(s.take(i)),
        payload_len(s.take(i)) <= payload_len(s),
    decreases s.len() - i,
{
    lemma_payload_len_nonneg(s.take(i));
    if i == s.len() {
        assert(s.take(i) =~= s);
    } else {
        lemma_payload_len_take_succ(s, i);
        lemma_payload_len_take_bounds(s, i + 1);
    }
}

/// Inside the concatenated payload, the i-th entry's byte range holds exactly
/// that entry's bytes.
proof fn lemma_payload_slice(s: StoreEntries, i: int)
    requires
        0 <= i < s.len(),
    ensures
        payload_bytes(s).subrange(payload_len(s.take(i)), payload_len(s.take(i + 1)))
            == s[i].1.data,
    decreases s.len(),
{
    lemma_payload_bytes_len(s);
    lemma_payload_len_take_succ(s, i);
    lemma_payload_len_take_bounds(s, i);
    lemma_payload_len_take_bounds(s, i + 1);
    let s0 = s.drop_last();
    lemma_payload_bytes_len(s0);
    if i == s.len() - 1 {
        assert(s.take(i) =~= s0);
        assert(s.take(i + 1) =~= s);
        assert(payload_bytes(s) == payload_bytes(s0) + s.last().1.data);
        assert(payload_bytes(s).subrange(payload_len(s0), payload_len(s)) =~= s.last().1.data);
    } else {
        assert(s.take(i) =~= s0.take(i));
        assert(s.take(i + 1) =~= s0.take(i + 1));
        lemma_payload_slice(s0, i);
        lemma_payload_len_take_bounds(s0, i + 1);
        assert(payload_bytes(s) == payload_bytes(s0) + s.last().1.data);
        assert(payload_bytes(s).subrange(
            payload_len(s0.take(i)),
            payload_len(s0.take(i + 1)),
        ) =~= payload_bytes(s0).subrange(payload_len(s0.take(i)), payload_len(s0.take(i + 1))));
    }
}

/// A store whose records all hold at least one byte packs in full.
proof fn lemma_all_nonempty(s: StoreEntries)
    requires
        forall|i: int| 0 <= i < s.len() ==> (#[trigger] s[i]).1.data.len() > 0,
    ensures
        nonempty_entries(s) == s,
    decreases s.len(),
{
    reveal(Seq::filter);
    if s.len() > 0 {
        let s0 = s.drop_last();
        assert forall|i: int| 0 <= i < s0.len() implies (#[trigger] s0[i]).1.data.len() > 0 by {
            assert(s0[i] == s[i]);
        }
        lemma_all_nonempty(s0);
        assert(s[s.len() - 1].1.data.len() > 0);
        assert(nonempty_entries(s) == s0.push(s.last()));
        assert(s0.push(s.last()) =~= s);
    }
}

/// A key of the packed entries belongs to a record with at least one byte.
proof fn lemma_nonempty_member(s: StoreEntries, k: Seq<char>)
    requires
        has_key(nonempty_entries(s), k),
    ensures
        exists|i: int|
            0 <= i < s.len() && (#[trigger] s[i]).0 == k && s[i].1.data.len() > 0,
    decreases s.len(),
{
    reveal(Seq::filter);
    let inc = nonempty_entries(s);
    if s.len() > 0 {
        let s0 = s.drop_last();
        let inc0 = nonempty_entries(s0);
        if s.last().1.data.len() > 0 {
            assert(inc == inc0.push(s.last()));
            if s.last().0 == k {
                assert(s[s.len() - 1].0 == k && s[s.len() - 1].1.data.len() > 0);
            } else {
                assert(has_key(inc0, k)) by {
                    let j = choose|j: int| 0 <= j < inc.len() && (#[trigger] inc[j]).0 == k;
                    assert(j < inc0.len());
                    assert(inc0[j].0 == k);
                }
                lemma_nonempty_member(s0, k);
                let i = choose|i: int|
                    0 <= i < s0.len() && (#[trigger] s0[i]).0 == k && s0[i].1.data.len() > 0;
                assert(s[i].0 == k && s[i].1.data.len() > 0);
            }
        } else {
            assert(inc == inc0);
            lemma_nonempty_member(s0, k);
            let i = choose|i: int|
                0 <= i < s0.len() && (#[trigger] s0[i]).0 == k && s0[i].1.data.len() > 0;
            assert(s[i].0 == k && s[i].1.data.len() > 0);
        }
    }
}

/// Packing keeps keys distinct.
proof fn lemma_nonempty_distinct(s: StoreEntries)
    requires
        distinct_keys(s),
    ensures
        distinct_keys(nonempty_entries(s)),
    decreases s.len(),
{
    reveal(Seq::filter);
    if s.len() > 0 {
        let s0 = s.drop_last();
        let inc0 = nonempty_entries(s0);
        lemma_nonempty_distinct(s0);
        if s.last().1.data.len() > 0 {
            let inc = nonempty_entries(s);
            assert(inc == inc0.push(s.last()));
            assert forall|a: int, b: int| 0 <= a < b < inc.len() implies (#[trigger] inc[a]).0 != (
            #[trigger] inc[b]).0 by {
                if b < inc0.len() {
                    assert(inc0[a].0 != inc0[b].0);
                } else {
                    assert(inc[b] == s.last());
                    assert(inc[a] == inc0[a]);
                    assert(has_key(inc0, inc0[a].0));
                    if inc0[a].0 == s.last().0 {
                        lemma_nonempty_member(s0, inc0[a].0);
                        let i = choose|i: int|
                            0 <= i < s0.len() && (#[trigger] s0[i]).0 == inc0[a].0
                                && s0[i].1.data.len() > 0;
                        assert(s[i].0 == s[s.len() - 1].0);
                    }
                }
            }
        }
    }
}

/// Rebuilding from a trailer table whose ranges slice an archive exactly at
/// the entries' bytes yields the entries back, and materializes exactly the
/// entries' record files.
proof fn lemma_restored_exact(inc: StoreEntries, a: Seq<u8>, base: int)
    requires
        distinct_keys(inc),
        0 <= base,
        base + payload_len(inc) <= u64::MAX,
        base + payload_len(inc) <= a.len(),
        forall|i: int|
            0 <= i < inc.len() ==> a.subrange(
                base + payload_len(inc.take(i)),
                base + payload_len(#[trigger] inc.take(i + 1)),
            ) == inc[i].1.data,
    ensures
        restored_entries(trailer_table(inc, base), a) == inc,
        restored_files(trailer_table(inc, base), a) == records_dir(inc),
    decreases inc.len(),
{
    let t = trailer_table(inc, base);
    if inc.len() == 0 {
        assert(restored_entries(t, a) =~= inc);
        assert(restored_files(t, a) =~= records_dir(inc));
    } else {
        let inc0 = inc.drop_last();
        let last = inc.last();
        lemma_payload_len_nonneg(inc0);
        assert(payload_len(inc) == payload_len(inc0) + last.1.data.len());
        assert forall|i: int| 0 <= i < inc0.len() implies a.subrange(
            base + payload_len(inc0.take(i)),
            base + payload_len(#[trigger] inc0.take(i + 1)),
        ) == inc0[i].1.data by {
            assert(inc0.take(i) =~= inc.take(i));
            assert(inc0.take(i + 1) =~= inc.take(i + 1));
            assert(a.subrange(
                base + payload_len(inc.take(i)),
                base + payload_len(inc.take(i + 1)),
            ) == inc[i].1.data);
            assert(inc0[i] == inc[i]);
        }
        lemma_restored_exact(inc0, a, base);
        assert(t.drop_last() =~= trailer_table(inc0, base)) by {
            assert forall|j: int| 0 <= j < inc0.len() implies t.drop_last()[j] == trailer_table(
                inc0,
                base,
            )[j] by {
                assert(inc.take(j) =~= inc0.take(j));
                assert(inc.take(j + 1) =~= inc0.take(j + 1));
                assert(inc[j] == inc0[j]);
            }
        }
        let e = t.last();
        assert(inc.take(inc.len() - 1) =~= inc0);
        assert(inc.take(inc.len() as int) =~= inc);
        lemma_payload_len_take_bounds(inc, inc.len() - 1);
        assert(e.2 == (base + payload_len(inc0)) as u64);
        assert(e.3 == (base + payload_len(inc)) as u64);
        assert(e.2 as int == base + payload_len(inc0));
        assert(e.3 as int == base + payload_len(inc));
        assert(e.2 <= e.3);
        assert(a.subrange(e.2 as int, e.3 as int) == last.1.data) by {
            assert(a.subrange(
                base + payload_len(inc.take(inc.len() - 1)),
                base + payload_len(inc.take(inc.len() as int)),
            ) == inc[inc.len() - 1].1.data);
        }
        let f = FieldView { name: last.1.name, data: last.1.data };
        assert(f == last.1);
        assert(restored_entries(t, a) == upsert(restored_entries(t.drop_last(), a), e.0, last.1));
        assert(e.0 == last.0);
        assert(!has_key(inc0, last.0)) by {
            if has_key(inc0, last.0) {
                let j = choose|j: int| 0 <= j < inc0.len() && (#[trigger] inc0[j]).0 == last.0;
                assert(inc[j].0 == inc[inc.len() - 1].0);
            }
        }
        assert(upsert(inc0, last.0, last.1) == inc0.push((last.0, last.1)));
        assert(inc0.push((last.0, last.1)) =~= inc);
        assert(restored_files(t, a) == records_dir(inc0).push((last.1.name, last.1.data)));
        assert(records_dir(inc0).push((last.1.name, last.1.data)) =~= records_dir(inc));
    }
}

/// Law: packing and unpacking is a round trip. For a store with distinct keys
/// whose records each encode to at least one byte, the packed archive opens
/// with its trailer pointer at `8 + payload_len`, its trailer region holds
/// exactly the encoded trailer table, every range of that table lies inside
/// the archive, and rebuilding from the table materializes exactly the
/// original record files and yields exactly the original entries.
pub proof fn lemma_pack_unpack_round_trip(s: StoreEntries)
    requires
        distinct_keys(s),
        forall|i: int| 0 <= i < s.len() ==> (#[trigger] s[i]).1.data.len() > 0,
        8 + payload_len(s) <= u64::MAX,
    ensures
        nonempty_entries(s) == s,
        archive_bytes(s).len() >= 8,
        spec_u64_from_le_bytes(archive_bytes(s).subrange(0, 8)) == 8 + payload_len(s),
        trailer_offset_of(archive_bytes(s)) == 8 + payload_len(s),
        trailer_offset_of(archive_bytes(s)) <= archive_bytes(s).len(),
        s.len() > 0 ==> trailer_slice(archive_bytes(s)) == trailer_bytes_of(trailer_table(s, 8)),
        s.len() == 0 ==> trailer_slice(archive_bytes(s)).len() == 0,
        table_ok(trailer_table(s, 8), archive_bytes(s).len() as int),
        restored_entries(trailer_table(s, 8), archive_bytes(s)) == s,
        restored_files(trailer_table(s, 8), archive_bytes(s)) == records_dir(s),
{
    lemma_all_nonempty(s);
    lemma_payload_len_nonneg(s);
    lemma_payload_bytes_len(s);
    lemma_auto_spec_u64_to_from_le_bytes();
    let a = archive_bytes(s);
    let hdr = spec_u64_to_le_bytes((8 + payload_len(s)) as u64);
    assert(hdr.len() == 8);
    assert(a.subrange(0, 8) =~= hdr);
    assert(spec_u64_from_le_bytes(hdr) == (8 + payload_len(s)) as u64);
    if s.len() == 0 {
        assert(trailer_slice(a).len() == 0);
    } else {
        assert(a.len() == 8 + payload_len(s) + trailer_bytes_of(trailer_table(s, 8)).len());
        assert(trailer_slice(a) =~= trailer_bytes_of(trailer_table(s, 8)));
    }
    assert forall|i: int| 0 <= i < s.len() implies a.subrange(
        8 + payload_len(s.take(i)),
        8 + payload_len(#[trigger] s.take(i + 1)),
    ) == s[i].1.data by {
        lemma_payload_slice(s, i);
        lemma_payload_len_take_bounds(s, i);
        lemma_payload_len_take_bounds(s, i + 1);
        lemma_payload_len_take_succ(s, i);
        assert(a.subrange(8 + payload_len(s.take(i)), 8 + payload_len(s.take(i + 1)))
            =~= payload_bytes(s).subrange(payload_len(s.take(i)), payload_len(s.take(i + 1))));
    }
    lemma_restored_exact(s, a, 8);
    assert forall|i: int|
        0 <= i < trailer_table(s, 8).len() && (#[trigger] trailer_table(s, 8)[i]).2
            <= trailer_table(s, 8)[i].3 implies trailer_table(s, 8)[i].3 <= a.len() as int by {
        lemma_payload_len_take_bounds(s, i + 1);
    }
}

/// Law: a record whose value encodes to zero bytes is dropped by packing.
/// The key answers to `has` before the store is packed, but the store rebuilt
/// from the packed archive does not contain it.
pub proof fn lemma_zero_size_omitted(s: StoreEntries, k: Seq<char>)
    requires
        distinct_keys(s),
        has_key(s, k),
        field_of(s, k).data.len() == 0,
    ensures
        !has_key(
            restored_entries(trailer_table(nonempty_entries(s), 8), archive_bytes(s)),
            k,
        ),
{
    let inc = nonempty_entries(s);
    let t = trailer_table(inc, 8);
    if has_key(restored_entries(t, archive_bytes(s)), k) {
        lemma_restored_keys(t, archive_bytes(s), k);
        let i = choose|i: int| 0 <= i < t.len() && (#[trigger] t[i]).0 == k;
        assert(inc[i].0 == k);
        assert(has_key(inc, k));
        lemma_nonempty_member(s, k);
        let j = choose|j: int|
            0 <= j < s.len() && (#[trigger] s[j]).0 == k && s[j].1.data.len() > 0;
        lemma_key_at(s, k, j);
        assert(field_of(s, k) == s[j].1);
    }
}

/// Law: the archive of an empty store is minimal. It is exactly the 8 bytes
/// of the little-endian trailer pointer, and that pointer reads back as 8.
pub proof fn lemma_empty_store_archive(s: StoreEntries)
    requires
        s.len() == 0,
    ensures
        archive_bytes(s) == spec_u64_to_le_bytes(8u64),
        archive_bytes(s).len() == 8,
        spec_u64_from_le_bytes(archive_bytes(s).subrange(0, 8)) == 8,
{
    reveal(Seq::filter);
    lemma_auto_spec_u64_to_from_le_bytes();
    assert(nonempty_entries(s).len() == 0);
    assert(payload_len(nonempty_entries(s)) == 0);
    assert(payload_bytes(nonempty_entries(s)) =~= Seq::<u8>::empty());
    assert(archive_bytes(s) =~= spec_u64_to_le_bytes(8u64));
    assert(archive_bytes(s).subrange(0, 8) =~= spec_u64_to_le_bytes(8u64));
}

/// Law: `clear` is idempotent. Clearing a cleared store changes nothing, a
/// cleared store has no keys to iterate, and a second `clear` finds no record
/// files left to delete and persists the same (empty) index table.
pub proof fn lemma_clear_idempotent(s: StoreEntries, cwd: Seq<char>)
    ensures
        clear_model(clear_model(s)) == clear_model(s),
        keys_of(clear_model(s)).len() == 0,
        record_paths_of(clear_model(s), cwd).len() == 0,
        index_pairs(clear_model(clear_model(s))) == index_pairs(clear_model(s)),
{
}

/// Law: overwriting preserves the file name. Setting a key that is already
/// present keeps the file name recorded for it, so setting the same key twice
/// never allocates a second file — whatever fresh names the two calls drew.
pub proof fn lemma_overwrite_preserves_filename(
    s: StoreEntries,
    k: Seq<char>,
    n1: Seq<char>,
    d1: Seq<u8>,
    n2: Seq<char>,
    d2: Seq<u8>,
)
    requires
        distinct_keys(s),
    ensures
        has_key(s, k) ==> field_of(set_model(s, k, n1, d1), k).name == field_of(s, k).name,
        field_of(set_model(set_model(s, k, n1, d1), k, n2, d2), k).name == field_of(
            set_model(s, k, n1, d1),
            k,
        ).name,
        distinct_keys(set_model(s, k, n1, d1)),
{
    let name1 = if has_key(s, k) {
        field_of(s, k).name
    } else {
        n1
    };
    let f1 = FieldView { name: name1, data: d1 };
    lemma_upsert(s, k, f1);
    let s1 = set_model(s, k, n1, d1);
    assert(field_of(s1, k) == f1);
    let f2 = FieldView { name: field_of(s1, k).name, data: d2 };
    lemma_upsert(s1, k, f2);
    assert(field_of(set_model(s1, k, n2, d2), k) == f2);
}

} // verus!
