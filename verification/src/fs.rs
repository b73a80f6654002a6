use vstd::prelude::*;
use vstd::string::StringExecFns;

verus! {

/// A path joined from a directory and a file name, with `/` between them.
pub open spec fn join_spec(dir: Seq<char>, name: Seq<char>) -> Seq<char> {
    dir + "/"@ + name
}

/// Where the stem of the path ends, scanning backward from position `i`: the
/// index of the file name's extension dot, or the path's full length when the
/// file name has no extension. The file name is the portion after the last
/// `/`; its extension starts at its last `.`, except that a dot which begins
/// the file name marks a hidden file, not an extension.
pub open spec fn stem_len(p: Seq<char>, i: int) -> int
    decreases i,
{
    if i <= 0 {
        p.len() as int
    } else if p[i - 1] == '/' {
        p.len() as int
    } else if p[i - 1] == '.' {
        if i - 1 > 0 && p[i - 2] != '/' {
            i - 1
        } else {
            p.len() as int
        }
    } else {
        stem_len(p, i - 1)
    }
}

/// The stem never ends beyond the path itself.
pub proof fn lemma_stem_len_bounds(p: Seq<char>, i: int)
    requires
        0 <= i <= p.len(),
    ensures
        0 <= stem_len(p, i) <= p.len(),
    decreases i,
{
    if i > 0 && p[i - 1] != '/' && p[i - 1] != '.' {
        lemma_stem_len_bounds(p, i - 1);
    }
}

/// The directory an archive unpacks into, derived from the archive's path:
/// the path with its file name's extension replaced by `unpacked`, or with
/// `.unpacked` appended when the file name has none. A path is a plain
/// string here, its directories separated by `/`.
pub open spec fn unpack_dir(p: Seq<char>) -> Seq<char> {
    p.take(stem_len(p, p.len() as int)) + ".unpacked"@
}

/// Computes [`unpack_dir`]: scans the file name from the end for its
/// extension dot, cuts the path there when one exists, and appends
/// `.unpacked`.
pub fn derive_unpack_dir(p: &str) -> (r: String)
    ensures
        r@ == unpack_dir(p@),
{
    let n = p.unicode_len();
    let mut i: usize = n;
    let mut stem_end: usize = n;
    while i > 0
        invariant_except_break
            i <= n,
            n == p@.len(),
            stem_end == n,
            stem_len(p@, n as int) == stem_len(p@, i as int),
        ensures
            n == p@.len(),
            stem_end as int == stem_len(p@, n as int),
        decreases i,
    {
        let c = p.get_char(i - 1);
        if c == '/' {
            break;
        }
        if c == '.' {
            if i - 1 > 0 && p.get_char(i - 2) != '/' {
                stem_end = i - 1;
            }
            break;
        }
        i -= 1;
    }
    proof {
        lemma_stem_len_bounds(p@, p@.len() as int);
    }
    let mut out = p.substring_char(0, stem_end).to_owned();
    out.append(".unpacked");
    proof {
        assert(out@ =~= unpack_dir(p@));
    }
    out
}

/// Copies a borrowed path into an owned one.
pub fn as_path_buf(path: &str) -> (r: String)
    ensures
        r@ == path@,
{
    path.to_owned()
}

/// Appends a file name to a directory path, separated by `/`.
pub fn join_path(dir: &str, name: &str) -> (r: String)
    ensures
        r@ == join_spec(dir@, name@),
{
    let mut path = dir.to_owned();
    path.append("/");
    path.append(name);
    path
}

} // verus!
