use vstd::prelude::*;
use std::io::Read;

verus! {

#[verifier::external_type_specification]
#[verifier::external_body]
pub struct ExIoErrorKind(std::io::ErrorKind);

#[derive(Debug, PartialEq, Eq)]
pub enum ReaderError {
    Io { kind: std::io::ErrorKind, message: String },
    InvalidUtf8 { valid_up_to: usize, error_len: Option<usize> },
}

/// Reads everything a source yields (`Read::read_to_end`), or the kind and the text of the
/// I/O error that stopped it. What comes back depends on the source alone; nothing is
/// promised of it.
#[verifier::external_body]
fn read_all<R: Read>(source: R) -> (r: Result<Vec<u8>, (std::io::ErrorKind, String)>) {
    let mut source = source;
    let mut bytes = Vec::new();
    match source.read_to_end(&mut bytes) {
        Ok(_) => Ok(bytes),
        Err(error) => Err((error.kind(), error.to_string())),
    }
}

/// A byte that begins no UTF-8 sequence: a continuation byte, an overlong lead (`C0`, `C1`),
/// or a byte above `F4`.
pub open spec fn cannot_start_sequence(b: u8) -> bool {
    (0x80 <= b && b <= 0xC1) || b >= 0xF5
}

/// Decodes bytes as UTF-8 (`String::from_utf8`). It succeeds exactly on valid UTF-8 and then
/// holds the decoded text; otherwise it gives `Utf8Error::valid_up_to`, the length of the
/// longest valid prefix (no longer prefix is valid), which is shorter than the input, and
/// `Utf8Error::error_len`, the length of the invalid sequence (one to three bytes), or none
/// where the input ends inside a sequence; the sequence lies within the input, and where its
/// first byte begins no UTF-8 sequence it is that byte alone. How long a longer invalid
/// sequence is, is left unsaid.
#[verifier::external_body]
fn decode_utf8(bytes: Vec<u8>) -> (r: Result<String, (usize, Option<usize>)>)
    ensures
        r is Ok <==> vstd::utf8::valid_utf8(bytes@),
        r matches Ok(text) ==> text@ == vstd::utf8::decode_utf8(bytes@),
        r matches Err((valid_up_to, error_len)) ==> {
            &&& valid_up_to < bytes@.len()
            &&& vstd::utf8::valid_utf8(bytes@.take(valid_up_to as int))
            &&& forall|k: int|
                valid_up_to < k <= bytes@.len() ==> !vstd::utf8::valid_utf8(
                    #[trigger] bytes@.take(k),
                )
            &&& (error_len matches Some(n) ==> 1 <= n <= 3 && valid_up_to + n <= bytes@.len())
            &&& (cannot_start_sequence(bytes@[valid_up_to as int]) ==> error_len == Some(1usize))
        },
{
    match String::from_utf8(bytes) {
        Ok(text) => Ok(text),
        Err(error) => Err((error.utf8_error().valid_up_to(), error.utf8_error().error_len())),
    }
}

impl Clone for ReaderError {
    fn clone(&self) -> (r: Self)
        ensures
            r == *self,
    {
        copy_error(self)
    }
}

/// The outcome of reading a source, from what reading it gave: the decoded text when the
/// bytes are valid UTF-8, `InvalidUtf8` with the position and length of the first invalid
/// sequence when they are not, and `Io` with the error's kind and text when reading failed.
pub fn decode_source(read: Result<Vec<u8>, (std::io::ErrorKind, String)>) -> (r: Result<
    String,
    ReaderError,
>)
    ensures
        match read {
            Ok(bytes) => {
                &&& r is Ok <==> vstd::utf8::valid_utf8(bytes@)
                &&& r matches Ok(text) ==> text@ == vstd::utf8::decode_utf8(bytes@)
                &&& r matches Err(e) ==> (e matches ReaderError::InvalidUtf8 { valid_up_to, error_len }
                    && valid_up_to < bytes@.len() && vstd::utf8::valid_utf8(
                    bytes@.take(valid_up_to as int),
                ) && (forall|k: int|
                    valid_up_to < k <= bytes@.len() ==> !vstd::utf8::valid_utf8(
                        #[trigger] bytes@.take(k),
                    )) && (error_len matches Some(n) ==> 1 <= n <= 3 && valid_up_to + n
                    <= bytes@.len()) && (cannot_start_sequence(bytes@[valid_up_to as int])
                    ==> error_len == Some(1usize)))
            },
            Err((kind, message)) => r == Err::<String, ReaderError>(
                ReaderError::Io { kind, message },
            ),
        },
{
    match read {
        Ok(bytes) => match decode_utf8(bytes) {
            Ok(text) => Ok(text),
            Err((valid_up_to, error_len)) => Err(ReaderError::InvalidUtf8 { valid_up_to, error_len }),
        },
        Err((kind, message)) => Err(ReaderError::Io { kind, message }),
    }
}

/// Reads a source once, decodes it as UTF-8, and keeps the outcome for later reads.
pub struct Reader<R> {
    source: Option<R>,
    cached: Option<Result<String, ReaderError>>,
}

/// A copy of a reader error.
fn copy_error(error: &ReaderError) -> (r: ReaderError)
    ensures
        r == *error,
{
    match error {
        ReaderError::Io { kind, message } => ReaderError::Io { kind: *kind, message: message.clone() },
        ReaderError::InvalidUtf8 { valid_up_to, error_len } => ReaderError::InvalidUtf8 {
            valid_up_to: *valid_up_to,
            error_len: *error_len,
        },
    }
}

impl<R: Read> Reader<R> {
    /// Whether the source is still unread or the outcome of reading it is kept.
    pub closed spec fn wf(&self) -> bool {
        &&& self.cached is None ==> self.source is Some
        &&& match self.cached {
            Some(Err(ReaderError::InvalidUtf8 { valid_up_to, error_len })) => error_len matches Some(
                n,
            ) ==> 1 <= n <= 3,
            _ => true,
        }
    }

    /// Whether the outcome of reading is kept.
    pub closed spec fn has_read(&self) -> bool {
        self.cached is Some
    }

    /// The outcome of reading, once there is one: the text, or the error.
    pub closed spec fn outcome(&self) -> Result<Seq<char>, ReaderError> {
        match self.cached {
            Some(Ok(text)) => Ok(text@),
            Some(Err(error)) => Err(error),
            None => Err(ReaderError::InvalidUtf8 { valid_up_to: 0, error_len: None }),
        }
    }

    pub fn new(source: R) -> (reader: Self)
        ensures
            reader.wf(),
            !reader.has_read(),
    {
        Self { source: Some(source), cached: None }
    }

    /// The decoded text of the source. The first call reads the source; every call gives
    /// the same outcome as the first.
    pub fn read(&mut self) -> (r: Result<&str, ReaderError>)
        requires
            old(self).wf(),
        ensures
            final(self).wf(),
            final(self).has_read(),
            old(self).has_read() ==> final(self).outcome() == old(self).outcome(),
            match r {
                Ok(text) => final(self).outcome() == Ok::<Seq<char>, ReaderError>(text@),
                Err(error) => final(self).outcome() == Err::<Seq<char>, ReaderError>(error),
            },
            match final(self).outcome() {
                Err(ReaderError::InvalidUtf8 { valid_up_to, error_len }) => error_len matches Some(
                    n,
                ) ==> 1 <= n <= 3,
                _ => true,
            },
    {
        if self.cached.is_none() {
            let source = self.source.take();
            let result = match source {
                Some(source) => decode_source(read_all(source)),
                None => Err(ReaderError::InvalidUtf8 { valid_up_to: 0, error_len: None }),
            };
            self.cached = Some(result);
        }
        match &self.cached {
            Some(Ok(text)) => Ok(text.as_str()),
            Some(Err(error)) => Err(copy_error(error)),
            None => Err(ReaderError::InvalidUtf8 { valid_up_to: 0, error_len: None }),
        }
    }
}

} // verus!
