use vstd::prelude::*;

verus! {

/// A source of bytes to be packed into a container: it knows its length.
pub trait WebPackable {
    fn len(&self) -> u64;
}

/// A file to be packed: the name it gets in the container and its bytes.
pub struct PackableFile<'a, 'b, P: WebPackable + ?Sized = dyn WebPackable> {
    pub filename: &'a str,
    pub data: &'b mut P,
}

impl<'a, 'b, P: WebPackable + ?Sized> PackableFile<'a, 'b, P> {
    /// Pairs a name with the bytes that are packed under it.
    pub fn new(filename: &'a str, data: &'b mut P) -> (r: Self)
        ensures
            r.filename == filename,
    {
        Self { filename, data }
    }
}

/// An in-memory cursor over bytes, carried as it is.
#[verifier::external_type_specification]
#[verifier::external_body]
#[verifier::reject_recursive_types(T)]
pub struct ExCursor<T>(std::io::Cursor<T>);

/// The bytes an in-memory cursor reads from (the whole vector, whatever the
/// cursor's position).
pub uninterp spec fn cursor_data(c: std::io::Cursor<Vec<u8>>) -> Seq<u8>;

/// Calls `std::io::Cursor::get_ref`. Trusted: it returns the vector the cursor
/// was made over, whose contents are named `cursor_data`.
#[verifier::external_body]
fn cursor_bytes(c: &std::io::Cursor<Vec<u8>>) -> (r: &Vec<u8>)
    ensures
        r@ == cursor_data(*c),
{
    c.get_ref()
}

impl WebPackable for std::io::Cursor<Vec<u8>> {
    /// The number of bytes the cursor reads from.
    fn len(&self) -> (r: u64)
        ensures
            r == cursor_data(*self).len() as u64,
    {
        cursor_bytes(self).len() as u64
    }
}

} // verus!
