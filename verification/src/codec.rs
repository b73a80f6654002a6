use vstd::prelude::*;

verus! {

/// The reason bincode gives when a table cannot be decoded. Declared so that
/// the wrappers below can hand it back unchanged.
#[verifier::external_type_specification]
#[verifier::external_body]
pub struct ExBincodeErrorKind(bincode::ErrorKind);

/// The bytes `bincode::serialize` produces for a table of (key, file name)
/// pairs. The encoding is a function of the table alone.
pub uninterp spec fn index_bytes_of(pairs: Seq<(Seq<char>, Seq<char>)>) -> Seq<u8>;

/// The bytes `bincode::serialize` produces for an archive trailer table of
/// (key, file name, start, end) entries. The encoding is a function of the
/// table alone.
pub uninterp spec fn trailer_bytes_of(entries: Seq<(Seq<char>, Seq<char>, u64, u64)>) -> Seq<u8>;

/// What `bincode::deserialize` makes of the given bytes when asked for a
/// table of (key, file name) pairs: the table, or nothing when the bytes do
/// not decode. The outcome is a function of the bytes alone.
pub uninterp spec fn index_decode_of(bytes: Seq<u8>) -> Option<Seq<(Seq<char>, Seq<char>)>>;

/// What `bincode::deserialize` makes of the given bytes when asked for an
/// archive trailer table. The outcome is a function of the bytes alone.
pub uninterp spec fn trailer_decode_of(bytes: Seq<u8>) -> Option<
    Seq<(Seq<char>, Seq<char>, u64, u64)>,
>;

/// Relies on `bincode::serialize` with its default (fixed-width, little-endian)
/// configuration: the bytes depend on the table alone, and they begin with the
/// table's length as a fixed 8-byte integer, so an encoding is never shorter
/// than 8 bytes. Serialization writes into a growable in-memory buffer with
/// no size limit, and every field of these tables is a string or an integer,
/// so the call cannot fail.
#[verifier::external_body]
pub(crate) fn encode_index(pairs: &Vec<(String, String)>) -> (r: Result<
    Vec<u8>,
    Box<bincode::ErrorKind>,
>)
    ensures
        r is Ok,
        r matches Ok(b) ==> b@ == index_bytes_of(pairs.deep_view()) && b@.len() >= 8,
{
    bincode::serialize(pairs)
}

/// Relies on `bincode::deserialize`: the outcome depends on the bytes alone,
/// and feeding back the exact bytes that `bincode::serialize` produced for a
/// table of (key, file name) pairs succeeds and yields that table.
#[verifier::external_body]
pub(crate) fn decode_index(bytes: &Vec<u8>) -> (r: Result<
    Vec<(String, String)>,
    Box<bincode::ErrorKind>,
>)
    ensures
        match r {
            Ok(t) => index_decode_of(bytes@) == Some(t.deep_view()),
            Err(_) => index_decode_of(bytes@) is None,
        },
        match r {
            Ok(t) => forall|ps: Seq<(Seq<char>, Seq<char>)>|
                bytes@ == #[trigger] index_bytes_of(ps) ==> t.deep_view() == ps,
            Err(_) => forall|ps: Seq<(Seq<char>, Seq<char>)>| bytes@ != #[trigger] index_bytes_of(
                ps,
            ),
        },
{
    bincode::deserialize(bytes.as_slice())
}

/// Relies on `bincode::serialize` as `encode_index` does, for the archive
/// trailer table; the call cannot fail for the same reasons.
#[verifier::external_body]
pub(crate) fn encode_trailer(entries: &Vec<(String, String, u64, u64)>) -> (r: Result<
    Vec<u8>,
    Box<bincode::ErrorKind>,
>)
    ensures
        r is Ok,
        r matches Ok(b) ==> b@ == trailer_bytes_of(entries.deep_view()) && b@.len() >= 8,
{
    bincode::serialize(entries)
}

/// Relies on `bincode::deserialize` as `decode_index` does, for the archive
/// trailer table.
#[verifier::external_body]
pub(crate) fn decode_trailer(bytes: &Vec<u8>) -> (r: Result<
    Vec<(String, String, u64, u64)>,
    Box<bincode::ErrorKind>,
>)
    ensures
        match r {
            Ok(t) => trailer_decode_of(bytes@) == Some(t.deep_view()),
            Err(_) => trailer_decode_of(bytes@) is None,
        },
        match r {
            Ok(t) => forall|es: Seq<(Seq<char>, Seq<char>, u64, u64)>|
                bytes@ == #[trigger] trailer_bytes_of(es) ==> t.deep_view() == es,
            Err(_) => forall|es: Seq<(Seq<char>, Seq<char>, u64, u64)>|
                bytes@ != #[trigger] trailer_bytes_of(es),
        },
{
    bincode::deserialize(bytes.as_slice())
}

} // verus!
