use vstd::prelude::*;
use vstd::pervasive::VecAdditionalExecFns;
use crate::codec::{encode_index, index_bytes_of, index_decode_of};
use crate::error::E;
use crate::field::{Field, FieldView};
use crate::fs::{as_path_buf, join_path, join_spec};
use crate::index::{index_file_name, reconciled, Index};

verus! {

/// The mathematical content of a store: its key/record pairs, in insertion
/// order. Keys are unique in a well-formed store.
pub type StoreEntries = Seq<(Seq<char>, FieldView)>;

/// Whether some entry carries the key `k`.
pub open spec fn has_key(s: StoreEntries, k: Seq<char>) -> bool {
    exists|i: int| 0 <= i < s.len() && (#[trigger] s[i]).0 == k
}

/// The position of the entry carrying `k`; meaningful when `has_key(s, k)`
/// holds and the keys of `s` are distinct.
pub open spec fn index_of_key(s: StoreEntries, k: Seq<char>) -> int {
    choose|i: int| 0 <= i < s.len() && (#[trigger] s[i]).0 == k
}

/// The record stored under `k`; meaningful when `has_key(s, k)` holds.
pub open spec fn field_of(s: StoreEntries, k: Seq<char>) -> FieldView {
    s[index_of_key(s, k)].1
}

/// No two entries carry the same key.
pub open spec fn distinct_keys(s: StoreEntries) -> bool {
    forall|i: int, j: int| 0 <= i < j < s.len() ==> (#[trigger] s[i]).0 != (#[trigger] s[j]).0
}

/// The keys of the entries, in entry order.
pub open spec fn keys_of(s: StoreEntries) -> Seq<Seq<char>> {
    s.map_values(|p: (Seq<char>, FieldView)| p.0)
}

/// The durable (key, file name) table derived from the entries.
pub open spec fn index_pairs(s: StoreEntries) -> Seq<(Seq<char>, Seq<char>)> {
    s.map_values(|p: (Seq<char>, FieldView)| (p.0, p.1.name))
}

/// Replaces the record under `k` in place when the key is present, and appends
/// a new entry otherwise.
pub open spec fn upsert(s: StoreEntries, k: Seq<char>, f: FieldView) -> StoreEntries {
    if has_key(s, k) {
        s.update(index_of_key(s, k), (k, f))
    } else {
        s.push((k, f))
    }
}

/// The entries after `set(k, data)`: an existing entry keeps its file name and
/// only its bytes change; a new entry is appended under the freshly drawn
/// file name.
pub open spec fn set_model(
    s: StoreEntries,
    k: Seq<char>,
    fresh_name: Seq<char>,
    data: Seq<u8>,
) -> StoreEntries {
    let name = if has_key(s, k) {
        field_of(s, k).name
    } else {
        fresh_name
    };
    upsert(s, k, FieldView { name, data })
}

/// The entries after `remove(k)`.
pub open spec fn remove_model(s: StoreEntries, k: Seq<char>) -> StoreEntries {
    if has_key(s, k) {
        s.remove(index_of_key(s, k))
    } else {
        s
    }
}

/// The entries after `clear()`.
pub open spec fn clear_model(s: StoreEntries) -> StoreEntries {
    Seq::empty()
}

/// The full paths of the record files backing the entries, in entry order.
pub open spec fn record_paths_of(s: StoreEntries, cwd: Seq<char>) -> Seq<Seq<char>> {
    s.map_values(|p: (Seq<char>, FieldView)| join_spec(cwd, p.1.name))
}

/// Two sequences whose elements agree position by position are equal.
pub proof fn lemma_seq_ext<A>(a: Seq<A>, b: Seq<A>)
    requires
        a.len() == b.len(),
        forall|i: int| 0 <= i < a.len() ==> a[i] == b[i],
    ensures
        a == b,
{
    assert(a =~= b);
}

/// In a store with distinct keys, an entry found at position `i` is the entry
/// `index_of_key` denotes.
pub proof fn lemma_key_at(s: StoreEntries, k: Seq<char>, i: int)
    requires
        distinct_keys(s),
        0 <= i < s.len(),
        s[i].0 == k,
    ensures
        has_key(s, k),
        index_of_key(s, k) == i,
{
    assert(has_key(s, k));
    let j = index_of_key(s, k);
    assert(0 <= j < s.len() && s[j].0 == k);
    if i < j {
        assert(s[i].0 != s[j].0);
    } else if j < i {
        assert(s[j].0 != s[i].0);
    }
}

/// How `upsert` relates to key lookup: the touched key now carries `f`,
/// every other key is untouched, and distinctness of keys is preserved.
pub proof fn lemma_upsert(s: StoreEntries, k: Seq<char>, f: FieldView)
    requires
        distinct_keys(s),
    ensures
        distinct_keys(upsert(s, k, f)),
        has_key(upsert(s, k, f), k),
        field_of(upsert(s, k, f), k) == f,
        forall|k2: Seq<char>| k2 != k ==> has_key(s, k2) == #[trigger] has_key(upsert(s, k, f), k2),
        forall|k2: Seq<char>|
            k2 != k && has_key(s, k2) ==> #[trigger] field_of(upsert(s, k, f), k2) == field_of(
                s,
                k2,
            ),
        upsert(s, k, f).len() == if has_key(s, k) {
            s.len() as int
        } else {
            s.len() + 1 as int
        },
{
    let u = upsert(s, k, f);
    if has_key(s, k) {
        let i = index_of_key(s, k);
        assert(0 <= i < s.len() && s[i].0 == k);
        assert(distinct_keys(u));
        lemma_key_at(u, k, i);
        assert forall|k2: Seq<char>| k2 != k implies has_key(s, k2) == #[trigger] has_key(
            u,
            k2,
        ) by {
            if has_key(s, k2) {
                let j = index_of_key(s, k2);
                assert(u[j].0 == k2);
            }
            if has_key(u, k2) {
                let j = choose|j: int| 0 <= j < u.len() && u[j].0 == k2;
                assert(s[j].0 == k2);
            }
        }
        assert forall|k2: Seq<char>| k2 != k && has_key(s, k2) implies #[trigger] field_of(
            u,
            k2,
        ) == field_of(s, k2) by {
            let j = index_of_key(s, k2);
            assert(0 <= j < s.len() && s[j].0 == k2);
            assert(u[j].0 == k2);
            lemma_key_at(u, k2, j);
        }
    } else {
        assert(u == s.push((k, f)));
        assert forall|i: int, j: int| 0 <= i < j < u.len() implies (#[trigger] u[i]).0 != (
        #[trigger] u[j]).0 by {
            if j < s.len() {
                assert(s[i].0 != s[j].0);
            } else {
                assert(u[j].0 == k);
                assert(s[i].0 == u[i].0);
                assert(has_key(s, u[i].0));
            }
        }
        lemma_key_at(u, k, s.len() as int);
        assert forall|k2: Seq<char>| k2 != k implies has_key(s, k2) == #[trigger] has_key(
            u,
            k2,
        ) by {
            if has_key(s, k2) {
                let j = index_of_key(s, k2);
                assert(u[j].0 == k2);
            }
            if has_key(u, k2) {
                let j = choose|j: int| 0 <= j < u.len() && u[j].0 == k2;
                assert(j < s.len());
                assert(s[j].0 == k2);
            }
        }
        assert forall|k2: Seq<char>| k2 != k && has_key(s, k2) implies #[trigger] field_of(
            u,
            k2,
        ) == field_of(s, k2) by {
            let j = index_of_key(s, k2);
            assert(0 <= j < s.len() && s[j].0 == k2);
            assert(u[j].0 == k2);
            lemma_key_at(u, k2, j);
        }
    }
}

/// Removing an entry keeps the remaining keys distinct.
pub proof fn lemma_remove_distinct(s: StoreEntries, i: int)
    requires
        distinct_keys(s),
        0 <= i < s.len(),
    ensures
        distinct_keys(s.remove(i)),
        forall|k2: Seq<char>|
            k2 != s[i].0 ==> has_key(s, k2) == #[trigger] has_key(s.remove(i), k2),
        !has_key(s.remove(i), s[i].0),
        forall|k2: Seq<char>|
            k2 != s[i].0 && has_key(s, k2) ==> #[trigger] field_of(s.remove(i), k2) == field_of(
                s,
                k2,
            ),
{
    let u = s.remove(i);
    assert forall|a: int, b: int| 0 <= a < b < u.len() implies (#[trigger] u[a]).0 != (
    #[trigger] u[b]).0 by {
        let a0 = if a < i {
            a
        } else {
            a + 1
        };
        let b0 = if b < i {
            b
        } else {
            b + 1
        };
        assert(u[a] == s[a0]);
        assert(u[b] == s[b0]);
    }
    assert forall|k2: Seq<char>| k2 != s[i].0 implies has_key(s, k2) == #[trigger] has_key(
        u,
        k2,
    ) by {
        if has_key(s, k2) {
            let j = choose|j: int| 0 <= j < s.len() && s[j].0 == k2;
            if j < i {
                assert(u[j].0 == k2);
            } else {
                assert(j != i);
                assert(u[j - 1] == s[j]);
            }
        }
        if has_key(u, k2) {
            let j = choose|j: int| 0 <= j < u.len() && u[j].0 == k2;
            if j < i {
                assert(s[j].0 == k2);
            } else {
                assert(s[j + 1].0 == k2);
            }
        }
    }
    if has_key(u, s[i].0) {
        let j = choose|j: int| 0 <= j < u.len() && u[j].0 == s[i].0;
        if j < i {
            assert(s[j].0 == s[i].0);
        } else {
            assert(s[j + 1].0 == s[i].0);
        }
    }
    assert forall|k2: Seq<char>| k2 != s[i].0 && has_key(s, k2) implies #[trigger] field_of(
        u,
        k2,
    ) == field_of(s, k2) by {
        let j = index_of_key(s, k2);
        assert(0 <= j < s.len() && s[j].0 == k2);
        assert(j != i);
        if j < i {
            assert(u[j] == s[j]);
            lemma_key_at(u, k2, j);
        } else {
            assert(u[j - 1] == s[j]);
            lemma_key_at(u, k2, j - 1);
        }
        lemma_key_at(s, k2, j);
    }
}

/// Finds the position of `key` among the record entries, scanning from the
/// front.
pub(crate) fn find_key(fields: &Vec<(String, Field)>, key: &str) -> (r: Option<usize>)
    ensures
        match r {
            Some(i) => i < fields.len() && fields.deep_view()[i as int].0 == key@ && (forall|
                j: int,
            |
                0 <= j < i ==> fields.deep_view()[j].0 != key@),
            None => !has_key(fields.deep_view(), key@),
        },
{
    let k: String = key.to_owned();
    let n = fields.len();
    let mut i: usize = 0;
    while i < n
        invariant
            n == fields.len(),
            i <= n,
            k@ == key@,
            forall|j: int| 0 <= j < i ==> fields.deep_view()[j].0 != key@,
        decreases n - i,
    {
        let p = &fields[i];
        if p.0 == k {
            return Some(i);
        }
        i += 1;
    }
    proof {
        assert(!has_key(fields.deep_view(), key@)) by {
            if has_key(fields.deep_view(), key@) {
                let j = choose|j: int|
                    0 <= j < fields.deep_view().len() && fields.deep_view()[j].0 == key@;
                assert(fields.deep_view()[j].0 != key@);
            }
        }
    }
    None
}

/// Replaces the record under `key` in place, or appends a new entry when the
/// key is not present yet.
pub(crate) fn upsert_field(fields: &mut Vec<(String, Field)>, key: String, field: Field)
    requires
        distinct_keys(old(fields).deep_view()),
    ensures
        final(fields).deep_view() == upsert(old(fields).deep_view(), key@, field@),
        distinct_keys(final(fields).deep_view()),
{
    proof {
        lemma_upsert(old(fields).deep_view(), key@, field@);
    }
    let ghost d = fields.deep_view();
    match find_key(fields, key.as_str()) {
        Some(i) => {
            proof {
                lemma_key_at(d, key@, i as int);
            }
            fields.set(i, (key, field));
            proof {
                assert(fields.deep_view() =~= upsert(d, key@, field@));
            }
        },
        None => {
            fields.push((key, field));
            proof {
                assert(fields.deep_view() =~= upsert(d, key@, field@));
            }
        },
    }
}

/// Derives the durable (key, file name) table from the record entries.
pub(crate) fn index_pairs_exec(fields: &Vec<(String, Field)>) -> (r: Vec<(String, String)>)
    ensures
        r.deep_view() == index_pairs(fields.deep_view()),
{
    let ghost d = fields.deep_view();
    let mut pairs: Vec<(String, String)> = Vec::new();
    let n = fields.len();
    let mut i: usize = 0;
    while i < n
        invariant
            n == fields.len(),
            i <= n,
            d == fields.deep_view(),
            pairs.deep_view() == index_pairs(d.take(i as int)),
        decreases n - i,
    {
        let p = &fields[i];
        let ghost old_pairs = pairs.deep_view();
        pairs.push((p.0.clone(), p.1.file_name()));
        proof {
            assert(old_pairs.len() == i as int);
            assert(pairs@.len() == old_pairs.len() + 1);
            assert(pairs.deep_view().len() == i + 1);
            assert(index_pairs(d.take(i + 1 as int)).len() == i + 1);
            assert forall|j: int| 0 <= j < pairs.deep_view().len() implies pairs.deep_view()[j]
                == index_pairs(d.take(i + 1 as int))[j] by {
                assert(d.take(i + 1 as int)[j] == d[j]);
                if j < i {
                    assert(pairs@[j] == pairs@.drop_last()[j]);
                    assert(pairs.deep_view()[j] == old_pairs[j]);
                    assert(old_pairs[j] == index_pairs(d.take(i as int))[j]);
                    assert(d.take(i as int)[j] == d[j]);
                } else {
                    assert(pairs.deep_view()[j] == (d[j].0, d[j].1.name));
                }
            }
            lemma_seq_ext(pairs.deep_view(), index_pairs(d.take(i + 1 as int)));
        }
        i += 1;
    }
    proof {
        assert(d.take(n as int) =~= d);
    }
    pairs
}

/// Mathematical content of a store: its directory and its entries.
#[verifier::ext_equal]
pub struct StoreView {
    pub cwd: Seq<char>,
    pub entries: StoreEntries,
}

/// What a mutating operation asks the caller to persist after `set`: the
/// record file to write and the fresh content of the index file.
pub struct SetAction {
    pub record_path: String,
    pub record_data: Vec<u8>,
    pub index_path: String,
    pub index_data: Vec<u8>,
}

/// What a mutating operation asks the caller to persist after a successful
/// `remove`: the record file to delete and the fresh content of the index
/// file.
pub struct RemoveAction {
    pub record_path: String,
    pub index_path: String,
    pub index_data: Vec<u8>,
}

/// What `clear` asks the caller to persist: every record file to delete and
/// the fresh (empty) content of the index file.
pub struct ClearAction {
    pub record_paths: Vec<String>,
    pub index_path: String,
    pub index_data: Vec<u8>,
}

/// A key-value store over one directory: every record is kept in its own
/// file, and a single index file maps keys to record file names.
///
/// The store holds the full image of the directory in memory. Every mutating
/// operation returns the files the caller must write or delete to keep the
/// directory in step; the in-memory image and the returned index bytes never
/// diverge once the call returns.
#[derive(Debug)]
pub struct Storage {
    index: Index,
    cwd: String,
    fields: Vec<(String, Field)>,
}

impl View for Storage {
    type V = StoreView;

    closed spec fn view(&self) -> StoreView {
        StoreView { cwd: self.cwd@, entries: self.fields.deep_view() }
    }
}

impl Storage {
    /// The store's internal invariant: keys are unique and the index file
    /// path belongs to the store's directory.
    pub closed spec fn wf(self) -> bool {
        &&& distinct_keys(self.fields.deep_view())
        &&& self.index@.cwd == self.cwd@
        &&& self.index@.path == join_spec(self.cwd@, index_file_name())
    }

    /// A well-formed store's entries carry distinct keys. `wf` itself is
    /// opaque outside this module; this makes the fact available to callers'
    /// ghost reasoning.
    pub proof fn lemma_wf_distinct_keys(self)
        requires
            self.wf(),
        ensures
            distinct_keys(self@.entries),
    {
    }

    /// Opens a store over the directory `cwd`, given the current bytes of its
    /// index file (empty when the file is absent or empty) and a snapshot of
    /// the directory's record files. Index entries whose file is missing from
    /// the snapshot are dropped. The caller is expected to have checked that
    /// the directory itself exists.
    pub fn open(cwd: &str, index_bytes: &Vec<u8>, dir: &Vec<(String, Vec<u8>)>) -> (r: Result<
        Storage,
        E,
    >)
        ensures
            r matches Ok(s) ==> s.wf() && s@.cwd == cwd@,
            index_bytes@.len() == 0 ==> (r matches Ok(s) && s@.entries == Seq::<(
                Seq<char>,
                FieldView,
            )>::empty()),
            index_bytes@.len() > 0 ==> match index_decode_of(index_bytes@) {
                Some(ps) => r matches Ok(s) && s@.entries == reconciled(ps, dir.deep_view()),
                None => r == Err::<Storage, E>(E::Bincode),
            },
            forall|ps: Seq<(Seq<char>, Seq<char>)>|
                index_bytes@.len() > 0 && index_bytes@ == #[trigger] index_bytes_of(ps) ==> (
                r matches Ok(s) && s@.entries == reconciled(ps, dir.deep_view())),
            r is Err ==> r == Err::<Storage, E>(E::Bincode) && index_bytes@.len() > 0,
    {
        let index = Index::new(cwd);
        let fields = match index.read(index_bytes, dir) {
            Ok(f) => f,
            Err(e) => {
                return Err(e);
            },
        };
        Ok(Storage { index, cwd: as_path_buf(cwd), fields })
    }

    /// Whether a record is stored under `key`.
    pub fn has(&self, key: &str) -> (r: bool)
        ensures
            r == has_key(self@.entries, key@),
    {
        match find_key(&self.fields, key) {
            Some(_) => true,
            None => false,
        }
    }

    /// Returns a copy of the raw encoded bytes stored under `key`, or `None`
    /// when the key is unknown.
    pub fn get(&self, key: &str) -> (r: Option<Vec<u8>>)
        requires
            self.wf(),
        ensures
            match r {
                Some(v) => has_key(self@.entries, key@) && v@ == field_of(
                    self@.entries,
                    key@,
                ).data,
                None => !has_key(self@.entries, key@),
            },
    {
        match find_key(&self.fields, key) {
            Some(i) => {
                proof {
                    lemma_key_at(self.fields.deep_view(), key@, i as int);
                }
                Some(self.fields[i].1.extract())
            },
            None => None,
        }
    }

    /// Stores `value` under `key`; the call always succeeds. An existing
    /// record is overwritten in place and keeps its file name; a new key gets
    /// a record under a freshly drawn unique file name. The returned action
    /// names the record file to write and the new content of the index file;
    /// the index bytes are derived from the store as it is after the call.
    pub fn set(&mut self, key: &str, value: Vec<u8>) -> (r: Result<SetAction, E>)
        requires
            old(self).wf(),
        ensures
            final(self).wf(),
            final(self)@.cwd == old(self)@.cwd,
            r is Ok,
            r matches Ok(a) ==> {
                &&& final(self)@.entries == set_model(
                    old(self)@.entries,
                    key@,
                    field_of(final(self)@.entries, key@).name,
                    value@,
                )
                &&& has_key(final(self)@.entries, key@)
                &&& field_of(final(self)@.entries, key@).data == value@
                &&& (has_key(old(self)@.entries, key@) ==> field_of(
                    final(self)@.entries,
                    key@,
                ).name == field_of(old(self)@.entries, key@).name)
                &&& (!has_key(old(self)@.entries, key@) ==> field_of(
                    final(self)@.entries,
                    key@,
                ).name.len() == 45 && field_of(final(self)@.entries, key@).name.subrange(36, 45)
                    == ".bstorage"@)
                &&& a.record_path@ == join_spec(
                    old(self)@.cwd,
                    field_of(final(self)@.entries, key@).name,
                )
                &&& a.record_data@ == value@
                &&& a.index_path@ == join_spec(old(self)@.cwd, index_file_name())
                &&& a.index_data@ == index_bytes_of(index_pairs(final(self)@.entries))
                &&& a.index_data@.len() >= 8
            },
    {
        let ghost d0 = self.fields.deep_view();
        let found = find_key(&self.fields, key);
        // the record that will back the key after this call
        let field: Field = match found {
            Some(i) => {
                let name = self.fields[i].1.file_name();
                Field::restore(name, value)
            },
            None => {
                let mut f = Field::create();
                f.set(value);
                f
            },
        };
        let ghost fv = field@;
        // the (key, file name) table after the mutation
        let mut pairs = index_pairs_exec(&self.fields);
        let ghost pre_pairs = pairs.deep_view();
        let ghost pre_vec = pairs@;
        proof {
            assert(pre_pairs.len() == pre_vec.len());
            assert(pre_pairs.len() == d0.len());
            assert forall|j: int| 0 <= j < pre_vec.len() implies pre_pairs[j]
                == pre_vec[j].deep_view() by {}
        }
        if found.is_none() {
            pairs.push((key.to_owned(), field.file_name()));
        }
        let index_data = encode_index(&pairs).unwrap();
        let record_path = join_path(self.cwd.as_str(), field.file_name().as_str());
        let record_data = field.extract();
        let index_path = self.index.path();
        proof {
            lemma_upsert(d0, key@, fv);
        }
        match found {
            Some(i) => {
                proof {
                    lemma_key_at(d0, key@, i as int);
                }
                self.fields.set(i, (key.to_owned(), field));
                proof {
                    let d1 = self.fields.deep_view();
                    let u = d0.update(i as int, (key@, fv));
                    assert forall|j: int| 0 <= j < d1.len() implies d1[j] == u[j] by {
                        if j != i {
                            assert(self.fields@[j] == old(self).fields@[j]);
                        }
                    }
                    lemma_seq_ext(d1, u);
                    assert(u == upsert(d0, key@, fv));
                    assert forall|j: int|
                        0 <= j < pairs.deep_view().len() implies pairs.deep_view()[j]
                        == index_pairs(d1)[j] by {
                        assert(pairs.deep_view()[j] == index_pairs(d0)[j]);
                        assert(index_pairs(d0)[j] == (d0[j].0, d0[j].1.name));
                        assert(index_pairs(d1)[j] == (d1[j].0, d1[j].1.name));
                    }
                    lemma_seq_ext(pairs.deep_view(), index_pairs(d1));
                }
            },
            None => {
                self.fields.push((key.to_owned(), field));
                proof {
                    let d1 = self.fields.deep_view();
                    let u = d0.push((key@, fv));
                    assert forall|j: int| 0 <= j < d1.len() implies d1[j] == u[j] by {
                        if j < d0.len() {
                            assert(self.fields@[j] == old(self).fields@[j]);
                        }
                    }
                    lemma_seq_ext(d1, u);
                    assert(u == upsert(d0, key@, fv));
                    assert forall|j: int|
                        0 <= j < pairs.deep_view().len() implies pairs.deep_view()[j]
                        == index_pairs(d1)[j] by {
                        if j < d0.len() {
                            assert(pairs@[j] == pre_vec[j]);
                            assert(pairs.deep_view()[j] == pairs@[j].deep_view());
                            assert(pre_pairs[j] == pre_vec[j].deep_view());
                            assert(pre_pairs[j] == index_pairs(d0)[j]);
                            assert(index_pairs(d0)[j] == (d0[j].0, d0[j].1.name));
                        } else {
                            assert(pairs.deep_view()[j] == (key@, fv.name));
                        }
                        assert(index_pairs(d1)[j] == (d1[j].0, d1[j].1.name));
                    }
                    lemma_seq_ext(pairs.deep_view(), index_pairs(d1));
                }
            },
        }
        Ok(SetAction { record_path, record_data, index_path, index_data })
    }

    /// Removes the record stored under `key`, handing back the record file to
    /// delete and the new content of the index file; the call always
    /// succeeds. Returns `Ok(None)`, with the store and index untouched, when
    /// the key is unknown.
    pub fn remove(&mut self, key: &str) -> (r: Result<Option<RemoveAction>, E>)
        requires
            old(self).wf(),
        ensures
            final(self).wf(),
            final(self)@.cwd == old(self)@.cwd,
            r is Ok,
            r matches Ok(a) ==> final(self)@.entries == remove_model(old(self)@.entries, key@) && (
            a is Some <==> has_key(old(self)@.entries, key@)),
            r matches Ok(Some(a)) ==> {
                &&& a.record_path@ == join_spec(
                    old(self)@.cwd,
                    field_of(old(self)@.entries, key@).name,
                )
                &&& a.index_path@ == join_spec(old(self)@.cwd, index_file_name())
                &&& a.index_data@ == index_bytes_of(index_pairs(final(self)@.entries))
                &&& a.index_data@.len() >= 8
            },
    {
        let ghost d0 = self.fields.deep_view();
        let ghost v0 = self.fields@;
        let i = match find_key(&self.fields, key) {
            Some(i) => i,
            None => {
                return Ok(None);
            },
        };
        proof {
            lemma_key_at(d0, key@, i as int);
            lemma_remove_distinct(d0, i as int);
            assert(d0.len() == v0.len());
            assert forall|j: int| 0 <= j < v0.len() implies d0[j] == v0[j].deep_view() by {}
        }
        let record_path = join_path(self.cwd.as_str(), self.fields[i].1.file_name().as_str());
        let _removed = self.fields.remove(i);
        proof {
            let d1 = self.fields.deep_view();
            assert(d1.len() == d0.remove(i as int).len());
            assert forall|j: int| 0 <= j < d1.len() implies d1[j] == d0.remove(i as int)[j] by {
                if j < i {
                    assert(self.fields@[j] == v0[j]);
                } else {
                    assert(self.fields@[j] == v0[j + 1]);
                }
            }
            lemma_seq_ext(d1, d0.remove(i as int));
        }
        let index_data = self.index.write(&self.fields).unwrap();
        Ok(Some(RemoveAction { record_path, index_path: self.index.path(), index_data }))
    }

    /// Empties the store: every record entry is dropped, and the caller is
    /// handed every record file to delete together with the new (empty)
    /// content of the index file; the call always succeeds. The directory
    /// itself is kept.
    pub fn clear(&mut self) -> (r: Result<ClearAction, E>)
        requires
            old(self).wf(),
        ensures
            final(self).wf(),
            final(self)@.cwd == old(self)@.cwd,
            r is Ok,
            r matches Ok(a) ==> {
                &&& final(self)@.entries == clear_model(old(self)@.entries)
                &&& a.record_paths.deep_view() == record_paths_of(
                    old(self)@.entries,
                    old(self)@.cwd,
                )
                &&& a.index_path@ == join_spec(old(self)@.cwd, index_file_name())
                &&& a.index_data@ == index_bytes_of(index_pairs(final(self)@.entries))
                &&& a.index_data@.len() >= 8
            },
    {
        let ghost d0 = self.fields.deep_view();
        let empty_pairs: Vec<(String, String)> = Vec::new();
        let index_data = encode_index(&empty_pairs).unwrap();
        proof {
            assert(empty_pairs.deep_view() =~= index_pairs(
                Seq::<(Seq<char>, FieldView)>::empty(),
            ));
        }
        let mut record_paths: Vec<String> = Vec::new();
        let n = self.fields.len();
        let mut i: usize = 0;
        while i < n
            invariant
                n == self.fields.len(),
                i <= n,
                d0 == self.fields.deep_view(),
                record_paths.deep_view() == record_paths_of(d0.take(i as int), self.cwd@),
            decreases n - i,
        {
            let ghost pre = record_paths.deep_view();
            let ghost pre_vec = record_paths@;
            proof {
                assert(pre.len() == pre_vec.len());
                assert(pre.len() == i as int);
                assert forall|j: int| 0 <= j < pre_vec.len() implies pre[j]
                    == pre_vec[j].deep_view() by {}
            }
            record_paths.push(
                join_path(self.cwd.as_str(), self.fields[i].1.file_name().as_str()),
            );
            proof {
                let d1 = record_paths.deep_view();
                let t = record_paths_of(d0.take(i + 1 as int), self.cwd@);
                assert(d1.len() == i + 1);
                assert(t.len() == i + 1);
                assert forall|j: int| 0 <= j < d1.len() implies d1[j] == t[j] by {
                    assert(d0.take(i + 1 as int)[j] == d0[j]);
                    if j < i {
                        assert(record_paths@[j] == pre_vec[j]);
                        assert(d1[j] == record_paths@[j].deep_view());
                        assert(pre[j] == record_paths_of(d0.take(i as int), self.cwd@)[j]);
                        assert(d0.take(i as int)[j] == d0[j]);
                    }
                }
                lemma_seq_ext(d1, t);
            }
            i += 1;
        }
        proof {
            assert(d0.take(n as int) =~= d0);
        }
        self.fields.clear();
        proof {
            assert(self.fields.deep_view() =~= Seq::<(Seq<char>, FieldView)>::empty());
        }
        Ok(ClearAction { record_paths, index_path: self.index.path(), index_data })
    }

    /// Takes an eager snapshot of the current key set. The snapshot is
    /// independent of the store: mutating the store afterwards does not
    /// change what the iterator yields.
    pub fn iterate(&self) -> (r: StorageIter)
        ensures
            r@.keys == keys_of(self@.entries),
            r@.pos == 0,
    {
        let ghost d = self.fields.deep_view();
        let mut keys: Vec<String> = Vec::new();
        let n = self.fields.len();
        let mut i: usize = 0;
        while i < n
            invariant
                n == self.fields.len(),
                i <= n,
                d == self.fields.deep_view(),
                keys.deep_view() == keys_of(d.take(i as int)),
            decreases n - i,
        {
            let ghost pre = keys.deep_view();
            let ghost pre_vec = keys@;
            proof {
                assert(pre.len() == pre_vec.len());
                assert(pre.len() == i as int);
                assert forall|j: int| 0 <= j < pre_vec.len() implies pre[j]
                    == pre_vec[j].deep_view() by {}
            }
            keys.push(self.fields[i].0.clone());
            proof {
                let d1 = keys.deep_view();
                let t = keys_of(d.take(i + 1 as int));
                assert(d1.len() == i + 1);
                assert(t.len() == i + 1);
                assert forall|j: int| 0 <= j < d1.len() implies d1[j] == t[j] by {
                    assert(d.take(i + 1 as int)[j] == d[j]);
                    if j < i {
                        assert(keys@[j] == pre_vec[j]);
                        assert(d1[j] == keys@[j].deep_view());
                        assert(pre[j] == keys_of(d.take(i as int))[j]);
                        assert(d.take(i as int)[j] == d[j]);
                    }
                }
                lemma_seq_ext(d1, t);
            }
            i += 1;
        }
        proof {
            assert(d.take(n as int) =~= d);
        }
        StorageIter { keys, pos: 0 }
    }

    /// Builds a store directly from its parts; used when the record set has
    /// just been materialized, as after unpacking an archive.
    pub(crate) fn from_parts(cwd: String, fields: Vec<(String, Field)>) -> (r: Storage)
        requires
            distinct_keys(fields.deep_view()),
        ensures
            r.wf(),
            r@.cwd == cwd@,
            r@.entries == fields.deep_view(),
    {
        let index = Index::new(cwd.as_str());
        Storage { index, cwd, fields }
    }

    /// The number of records in the store.
    pub(crate) fn field_count(&self) -> (n: usize)
        ensures
            n == self@.entries.len(),
    {
        self.fields.len()
    }

    /// The key and record at position `i` of the entry list.
    pub(crate) fn field_at(&self, i: usize) -> (r: (&String, &Field))
        requires
            i < self@.entries.len(),
        ensures
            r.0@ == self@.entries[i as int].0,
            r.1@ == self@.entries[i as int].1,
    {
        let p = &self.fields[i];
        (&p.0, &p.1)
    }

    /// The storage directory this store was opened over.
    pub fn cwd(&self) -> (r: &String)
        ensures
            r@ == self@.cwd,
    {
        &self.cwd
    }
}

/// A restartable snapshot over the keys of a store, taken eagerly by
/// [`Storage::iterate`].
pub struct StorageIter {
    keys: Vec<String>,
    pos: usize,
}

/// Mathematical content of a key iterator: the key snapshot and the cursor.
pub struct StorageIterView {
    pub keys: Seq<Seq<char>>,
    pub pos: int,
}

impl View for StorageIter {
    type V = StorageIterView;

    closed spec fn view(&self) -> StorageIterView {
        StorageIterView { keys: self.keys.deep_view(), pos: self.pos as int }
    }
}

impl StorageIter {
    /// Yields the next key of the snapshot, or `None` once it is exhausted.
    pub fn next(&mut self) -> (r: Option<String>)
        ensures
            final(self)@.keys == old(self)@.keys,
            old(self)@.pos >= old(self)@.keys.len() ==> r is None && final(self)@.pos == old(
                self,
            )@.pos,
            old(self)@.pos < old(self)@.keys.len() ==> (r matches Some(k) && k@ == old(
                self,
            )@.keys[old(self)@.pos] && final(self)@.pos == old(self)@.pos + 1),
    {
        if self.pos >= self.keys.len() {
            None
        } else {
            self.pos = self.pos + 1;
            let k = self.keys[self.pos - 1].clone();
            proof {
                assert(self.keys.deep_view()[self.pos - 1 as int] == self.keys@[self.pos
                    - 1 as int].deep_view());
            }
            Some(k)
        }
    }
}

} // verus!
