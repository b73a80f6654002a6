use vstd::prelude::*;
use vstd::string::StringExecFns;

verus! {

/// Mathematical content of one record: the bare name of its backing file and
/// the encoded bytes it holds.
#[verifier::ext_equal]
pub struct FieldView {
    pub name: Seq<char>,
    pub data: Seq<u8>,
}

/// One stored record.
///
/// A record is persisted as a single file inside the storage directory;
/// `filename` is the bare name of that file and `data` is the file's content,
/// the encoded bytes of exactly one value. Once a record exists its file name
/// never changes; only its content may be overwritten.
#[derive(Debug)]
pub struct Field {
    filename: String,
    data: Vec<u8>,
}

impl View for Field {
    type V = FieldView;

    closed spec fn view(&self) -> FieldView {
        FieldView { name: self.filename@, data: self.data@ }
    }
}

impl DeepView for Field {
    type V = FieldView;

    open spec fn deep_view(&self) -> FieldView {
        self.view()
    }
}

/// Relies on `uuid::Uuid::new_v4` and its `Display` form: a freshly drawn
/// random identifier printed as 36 hyphenated lower-case hexadecimal
/// characters. Nothing is assumed about which identifier comes back, only its
/// printed length.
#[verifier::external_body]
fn fresh_unique_name() -> (r: String)
    ensures
        r@.len() == 36,
{
    uuid::Uuid::new_v4().to_string()
}

impl Field {
    /// Binds a record to an existing file name together with the bytes read
    /// from that file. The content is not validated.
    pub fn restore(filename: String, data: Vec<u8>) -> (r: Field)
        ensures
            r@.name == filename@,
            r@.data == data@,
    {
        Field { filename, data }
    }

    /// Allocates a new, empty record under a freshly generated unique file
    /// name: a 36-character identifier followed by the record file extension.
    pub fn create() -> (r: Field)
        ensures
            r@.data.len() == 0,
            r@.name.len() == 45,
            r@.name.subrange(36, 45) == ".bstorage"@,
    {
        let mut filename = fresh_unique_name();
        proof {
            reveal_strlit(".bstorage");
        }
        filename.append(".bstorage");
        proof {
            assert(filename@.subrange(36, 45) =~= ".bstorage"@);
        }
        Field { filename, data: Vec::new() }
    }

    /// Overwrites the record's entire content with the given encoded bytes.
    pub fn set(&mut self, data: Vec<u8>)
        ensures
            final(self)@.name == old(self)@.name,
            final(self)@.data == data@,
    {
        self.data = data;
    }

    /// Returns a copy of the record's raw encoded bytes.
    pub fn extract(&self) -> (r: Vec<u8>)
        ensures
            r@ == self@.data,
    {
        self.data.clone()
    }

    /// Returns the bare file name backing this record.
    pub fn file_name(&self) -> (r: String)
        ensures
            r@ == self@.name,
    {
        self.filename.clone()
    }

    /// Returns the record's size in bytes.
    pub fn size(&self) -> (r: u64)
        ensures
            r == self@.data.len(),
    {
        self.data.len() as u64
    }
}

} // verus!
