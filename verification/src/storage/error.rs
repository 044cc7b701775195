//! The errors of the storage engine.

use vstd::prelude::*;
use vstd::string::StringExecFns;
use crate::text::{decimal, push_decimal};

verus! {

/// Why a storage operation failed. Each variant but `KeyNotFound` carries a
/// message for people; contracts speak of the variant only.
#[derive(Debug, Clone)]
pub enum StorageError {
    /// The file system failed; raised by the host program.
    Io(String),
    /// A value could not be turned into bytes or back; raised by the host program.
    Serde(String),
    KeyNotFound { key: Vec<u8> },
    /// Stored bytes are not what the format asks for.
    Corruption(String),
    Compression(String),
    Wal(String),
    Compaction(String),
    Config(String),
    /// A limit of the engine itself was reached.
    Internal(String),
}

/// The variant of a storage error, without its text.
#[derive(Debug, Clone, Copy, PartialEq, Eq, Structural)]
pub enum ErrorKind {
    Io,
    Serde,
    KeyNotFound,
    Corruption,
    Compression,
    Wal,
    Compaction,
    Config,
    Internal,
}

/// The variant of `error`.
pub open spec fn kind_of_error(error: StorageError) -> ErrorKind {
    match error {
        StorageError::Io(_) => ErrorKind::Io,
        StorageError::Serde(_) => ErrorKind::Serde,
        StorageError::KeyNotFound { .. } => ErrorKind::KeyNotFound,
        StorageError::Corruption(_) => ErrorKind::Corruption,
        StorageError::Compression(_) => ErrorKind::Compression,
        StorageError::Wal(_) => ErrorKind::Wal,
        StorageError::Compaction(_) => ErrorKind::Compaction,
        StorageError::Config(_) => ErrorKind::Config,
        StorageError::Internal(_) => ErrorKind::Internal,
    }
}

impl StorageError {
    /// The variant of the error.
    pub fn kind(&self) -> (kind: ErrorKind)
        ensures
            kind == kind_of_error(*self),
    {
        match self {
            StorageError::Io(_) => ErrorKind::Io,
            StorageError::Serde(_) => ErrorKind::Serde,
            StorageError::KeyNotFound { .. } => ErrorKind::KeyNotFound,
            StorageError::Corruption(_) => ErrorKind::Corruption,
            StorageError::Compression(_) => ErrorKind::Compression,
            StorageError::Wal(_) => ErrorKind::Wal,
            StorageError::Compaction(_) => ErrorKind::Compaction,
            StorageError::Config(_) => ErrorKind::Config,
            StorageError::Internal(_) => ErrorKind::Internal,
        }
    }

    /// The text of the error, as it is shown to people: what kind of error
    /// it is, then its detail; for a key that was not found, the bytes of
    /// the key.
    pub fn message(&self) -> (text: String)
        ensures
            text@ == match *self {
                StorageError::Io(detail) => "IO error: "@ + detail@,
                StorageError::Serde(detail) => "Serialization error: "@ + detail@,
                StorageError::KeyNotFound { key } => "Key not found: "@ + listed(key@),
                StorageError::Corruption(detail) => "Corruption detected: "@ + detail@,
                StorageError::Compression(detail) => "Compression error: "@ + detail@,
                StorageError::Wal(detail) => "WAL error: "@ + detail@,
                StorageError::Compaction(detail) => "Compaction error: "@ + detail@,
                StorageError::Config(detail) => "Invalid configuration: "@ + detail@,
                StorageError::Internal(detail) => "Internal error: "@ + detail@,
            },
    {
        let (prefix, detail) = match self {
            StorageError::Io(detail) => ("IO error: ", detail),
            StorageError::Serde(detail) => ("Serialization error: ", detail),
            StorageError::KeyNotFound { key } => {
                let mut text = "Key not found: ".to_owned();
                push_listed(&mut text, key);
                return text;
            },
            StorageError::Corruption(detail) => ("Corruption detected: ", detail),
            StorageError::Compression(detail) => ("Compression error: ", detail),
            StorageError::Wal(detail) => ("WAL error: ", detail),
            StorageError::Compaction(detail) => ("Compaction error: ", detail),
            StorageError::Config(detail) => ("Invalid configuration: ", detail),
            StorageError::Internal(detail) => ("Internal error: ", detail),
        };
        let mut text = prefix.to_owned();
        text.append(detail.as_str());
        text
    }
}

/// The numbers of some bytes, with `, ` between each two of them.
pub open spec fn numbers(bytes: Seq<u8>) -> Seq<char>
    decreases bytes.len(),
{
    if bytes.len() == 0 {
        Seq::empty()
    } else if bytes.len() == 1 {
        decimal(bytes[0] as nat)
    } else {
        numbers(bytes.drop_last()) + ", "@ + decimal(bytes.last() as nat)
    }
}

/// Bytes as a list of numbers in square brackets.
pub open spec fn listed(bytes: Seq<u8>) -> Seq<char> {
    "["@ + numbers(bytes) + "]"@
}

/// Appends bytes as a list of numbers in square brackets.
fn push_listed(out: &mut String, bytes: &Vec<u8>)
    ensures
        final(out)@ == old(out)@ + listed(bytes@),
{
    out.append("[");
    let ghost head = out@;
    let mut i: usize = 0;
    assert(bytes@.take(0) =~= Seq::<u8>::empty());
    assert(out@ =~= head + numbers(bytes@.take(0)));
    while i < bytes.len()
        invariant
            i <= bytes@.len(),
            out@ == head + numbers(bytes@.take(i as int)),
        decreases bytes@.len() - i,
    {
        if i > 0 {
            out.append(", ");
        }
        push_decimal(out, bytes[i] as u64);
        proof {
            let shown = bytes@.take(i + 1);
            assert(shown.drop_last() =~= bytes@.take(i as int));
            assert(shown.last() == bytes@[i as int]);
            if i == 0 {
                assert(numbers(bytes@.take(0)) =~= Seq::<char>::empty());
            }
            assert(out@ =~= head + numbers(shown));
        }
        i += 1;
    }
    assert(bytes@.take(i as int) =~= bytes@);
    out.append("]");
    assert(out@ =~= old(out)@ + listed(bytes@));
}

} // verus!
