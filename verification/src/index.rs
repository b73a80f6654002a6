use vstd::prelude::*;
use crate::codec::{decode_index, encode_index, index_bytes_of, index_decode_of};
use crate::error::E;
use crate::field::{Field, FieldView};
use crate::fs::{as_path_buf, join_path, join_spec};
use crate::storage::{
    distinct_keys, index_pairs, index_pairs_exec, upsert, upsert_field, StoreEntries,
};

verus! {

/// Bare name of the index file kept inside every storage directory.
pub open spec fn index_file_name() -> Seq<char> {
    "map.bstorage"@
}

/// A directory snapshot: each record file's bare name with its content.
pub type DirSnapshot = Seq<(Seq<char>, Seq<u8>)>;

/// The content of the first file in `dir` named `name`, scanning from
/// position `i`.
pub open spec fn dir_lookup_from(dir: DirSnapshot, name: Seq<char>, i: int) -> Option<Seq<u8>>
    decreases dir.len() - i,
{
    if i < 0 || i >= dir.len() {
        None
    } else if dir[i].0 == name {
        Some(dir[i].1)
    } else {
        dir_lookup_from(dir, name, i + 1)
    }
}

/// The content of the first file in `dir` named `name`, if any.
pub open spec fn dir_lookup(dir: DirSnapshot, name: Seq<char>) -> Option<Seq<u8>> {
    dir_lookup_from(dir, name, 0)
}

/// The store entries rebuilt from a decoded (key, file name) table against a
/// directory snapshot: pairs whose file is missing are dropped, later pairs
/// for the same key win.
pub open spec fn reconciled(ps: Seq<(Seq<char>, Seq<char>)>, dir: DirSnapshot) -> StoreEntries
    decreases ps.len(),
{
    if ps.len() == 0 {
        Seq::empty()
    } else {
        let prev = reconciled(ps.drop_last(), dir);
        match dir_lookup(dir, ps.last().1) {
            Some(data) => upsert(prev, ps.last().0, FieldView { name: ps.last().1, data }),
            None => prev,
        }
    }
}

/// The persistent key → file-name table of one storage directory, kept in a
/// single index file with a fixed name.
#[derive(Debug)]
pub struct Index {
    cwd: String,
    path: String,
}

/// Mathematical content of an `Index`: the directory it belongs to and the
/// full path of its index file.
pub struct IndexPaths {
    pub cwd: Seq<char>,
    pub path: Seq<char>,
}

impl View for Index {
    type V = IndexPaths;

    closed spec fn view(&self) -> IndexPaths {
        IndexPaths { cwd: self.cwd@, path: self.path@ }
    }
}

/// Finds the content of the first file named `name` in the snapshot.
fn dir_find<'a>(dir: &'a Vec<(String, Vec<u8>)>, name: &String) -> (r: Option<&'a Vec<u8>>)
    ensures
        match r {
            Some(d) => dir_lookup(dir.deep_view(), name@) == Some(d@),
            None => dir_lookup(dir.deep_view(), name@) is None,
        },
{
    let ghost dv = dir.deep_view();
    let n = dir.len();
    let mut i: usize = 0;
    while i < n
        invariant
            n == dir.len(),
            i <= n,
            dv == dir.deep_view(),
            dir_lookup(dv, name@) == dir_lookup_from(dv, name@, i as int),
        decreases n - i,
    {
        let p = &dir[i];
        if p.0 == *name {
            return Some(&p.1);
        }
        i += 1;
    }
    None
}

impl Index {
    /// Binds an index to the storage directory `cwd`; the index file is
    /// `cwd/map.bstorage`.
    pub fn new(cwd: &str) -> (r: Index)
        ensures
            r@.cwd == cwd@,
            r@.path == join_spec(cwd@, index_file_name()),
    {
        Index { cwd: as_path_buf(cwd), path: join_path(cwd, "map.bstorage") }
    }

    /// Returns the full path of the index file.
    pub fn path(&self) -> (r: String)
        ensures
            r@ == self@.path,
    {
        self.path.clone()
    }

    /// Derives the (key, file name) table from the record entries and encodes
    /// it into the bytes the index file must hold. Encoding such a table
    /// cannot fail, so the result is always `Ok`.
    pub fn write(&self, fields: &Vec<(String, Field)>) -> (r: Result<Vec<u8>, E>)
        ensures
            r is Ok,
            r matches Ok(b) ==> b@ == index_bytes_of(index_pairs(fields.deep_view()))
                && b@.len() >= 8,
    {
        let pairs = index_pairs_exec(fields);
        Ok(encode_index(&pairs).unwrap())
    }

    /// Decodes the index file's bytes and rebuilds the record entries against
    /// a snapshot of the storage directory. An empty index file means an
    /// empty store; non-empty bytes that do not decode as a table are an
    /// error; a table entry whose file is missing from the directory is
    /// dropped.
    pub fn read(&self, index_bytes: &Vec<u8>, dir: &Vec<(String, Vec<u8>)>) -> (r: Result<
        Vec<(String, Field)>,
        E,
    >)
        ensures
            r matches Ok(f) ==> distinct_keys(f.deep_view()),
            index_bytes@.len() == 0 ==> (r matches Ok(f) && f.deep_view() == Seq::<(
                Seq<char>,
                FieldView,
            )>::empty()),
            index_bytes@.len() > 0 ==> match index_decode_of(index_bytes@) {
                Some(ps) => r matches Ok(f) && f.deep_view() == reconciled(ps, dir.deep_view()),
                None => r == Err::<Vec<(String, Field)>, E>(E::Bincode),
            },
            forall|ps: Seq<(Seq<char>, Seq<char>)>|
                index_bytes@.len() > 0 && index_bytes@ == #[trigger] index_bytes_of(ps) ==> (
                r matches Ok(f) && f.deep_view() == reconciled(ps, dir.deep_view())),
            r is Err ==> r == Err::<Vec<(String, Field)>, E>(E::Bincode) && index_bytes@.len() > 0,
    {
        let mut fields: Vec<(String, Field)> = Vec::new();
        if index_bytes.len() == 0 {
            proof {
                assert(fields.deep_view() =~= Seq::<(Seq<char>, FieldView)>::empty());
            }
            return Ok(fields);
        }
        let pairs = match decode_index(index_bytes) {
            Ok(p) => p,
            Err(_) => {
                return Err(E::Bincode);
            },
        };
        let ghost ps = pairs.deep_view();
        let ghost dv = dir.deep_view();
        let n = pairs.len();
        let mut k: usize = 0;
        while k < n
            invariant
                n == pairs.len(),
                k <= n,
                ps == pairs.deep_view(),
                dv == dir.deep_view(),
                distinct_keys(fields.deep_view()),
                fields.deep_view() == reconciled(ps.take(k as int), dv),
            decreases n - k,
        {
            let p = &pairs[k];
            proof {
                assert(ps.take(k + 1 as int).drop_last() =~= ps.take(k as int));
                assert(ps.take(k + 1 as int).last() == ps[k as int]);
            }
            match dir_find(dir, &p.1) {
                Some(data) => {
                    let field = Field::restore(p.1.clone(), data.clone());
                    upsert_field(&mut fields, p.0.clone(), field);
                },
                None => {},
            }
            k += 1;
        }
        proof {
            assert(ps.take(n as int) =~= ps);
        }
        Ok(fields)
    }
}

} // verus!
