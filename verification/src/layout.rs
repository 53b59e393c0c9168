use vstd::prelude::*;
use crate::error::DataLayoutError;

verus! {

/// Whether a kind of layout keeps every field at a constant offset.
pub trait DataLayoutKind {
    const IS_FIXED: bool;
}

/// A value that can be written as bytes.
pub trait Encodable {
    /// What `encoded_len` gives: the length of the encoding, or the error
    /// that stops it.
    spec fn spec_encoded_len(&self) -> Result<nat, DataLayoutError>;

    /// The encoding, when `spec_encoded_len` is `Ok`.
    spec fn spec_encoding(&self) -> Seq<u8>;

    /// The encoding is as long as `encoded_len` says, which fits in `usize`.
    proof fn lemma_encoding_len(&self)
        ensures
            self.spec_encoded_len() matches Ok(n) ==> self.spec_encoding().len() == n && n
                <= usize::MAX,
    ;

    /// The number of bytes the encoding takes.
    fn encoded_len(&self) -> (r: Result<usize, DataLayoutError>)
        ensures
            match r {
                Ok(n) => self.spec_encoded_len() == Ok::<nat, DataLayoutError>(n as nat),
                Err(e) => self.spec_encoded_len() == Err::<nat, DataLayoutError>(e),
            },
    ;

    /// The encoding, in a buffer of exactly its length.
    fn encode(&self) -> (r: Result<Vec<u8>, DataLayoutError>)
        ensures
            match r {
                Ok(bytes) => self.spec_encoded_len() is Ok && bytes@ == self.spec_encoding(),
                Err(e) => self.spec_encoded_len() == Err::<nat, DataLayoutError>(e),
            },
    {
        let n = match self.encoded_len() {
            Ok(n) => n,
            Err(e) => {
                return Err(e);
            },
        };
        proof {
            self.lemma_encoding_len();
        }
        let mut bytes: Vec<u8> = vec![0u8; n];
        match self.encode_to(bytes.as_mut_slice()) {
            Ok(_) => {
                proof {
                    assert(bytes@ =~= self.spec_encoding());
                }
                Ok(bytes)
            },
            Err(e) => Err(e),
        }
    }

    /// Writes the encoding at the start of `out` and returns the unwritten
    /// rest of `out`. It fails with the error of `encoded_len`, or with
    /// `OutputBufferTooSmall`.
    fn encode_to<'a>(&self, out: &'a mut [u8]) -> (r: Result<&'a mut [u8], DataLayoutError>)
        ensures
            match r {
                Ok(rest) => {
                    &&& self.spec_encoded_len() is Ok
                    &&& self.spec_encoding().len() <= old(out)@.len()
                    &&& rest@ == old(out)@.skip(self.spec_encoding().len() as int)
                    &&& final(out)@ == self.spec_encoding() + final(rest)@
                },
                Err(e) => {
                    &&& final(out)@.len() == old(out)@.len()
                    &&& (e == DataLayoutError::OutputBufferTooSmall || self.spec_encoded_len()
                        == Err::<nat, DataLayoutError>(e))
                },
            },
            self.spec_encoded_len() is Ok && self.spec_encoding().len() <= old(out)@.len()
                ==> r is Ok,
            self.spec_encoded_len() is Err ==> r is Err,
    ;
}


/// Adds a part's length to the length so far, as `encoded_len` of a tuple
/// does: the first error stops it, and a sum past `usize::MAX` is
/// `LengthExceedsCapacity`.
pub open spec fn add_len(
    so_far: Result<nat, DataLayoutError>,
    part: Result<nat, DataLayoutError>,
) -> Result<nat, DataLayoutError> {
    match so_far {
        Err(e) => Err(e),
        Ok(a) => match part {
            Err(e) => Err(e),
            Ok(b) => if a + b > usize::MAX {
                Err(DataLayoutError::LengthExceedsCapacity)
            } else {
                Ok(a + b)
            },
        },
    }
}

/// `add_len` on executable values.
fn add_part_len(so_far: usize, part: Result<usize, DataLayoutError>) -> (r: Result<
    usize,
    DataLayoutError,
>)
    ensures
        match r {
            Ok(n) => add_len(Ok(so_far as nat), part_view(part)) == Ok::<nat, DataLayoutError>(
                n as nat,
            ),
            Err(e) => add_len(Ok(so_far as nat), part_view(part)) == Err::<nat, DataLayoutError>(
                e,
            ),
        },
{
    match part {
        Err(e) => Err(e),
        Ok(b) => match so_far.checked_add(b) {
            Some(n) => Ok(n),
            None => Err(DataLayoutError::LengthExceedsCapacity),
        },
    }
}

/// A length result as a mathematical value.
pub open spec fn part_view(r: Result<usize, DataLayoutError>) -> Result<nat, DataLayoutError> {
    match r {
        Ok(n) => Ok(n as nat),
        Err(e) => Err(e),
    }
}

impl<A: Encodable> Encodable for (A,) {
    open spec fn spec_encoded_len(&self) -> Result<nat, DataLayoutError> {
        add_len(Ok(0), self.0.spec_encoded_len())
    }

    open spec fn spec_encoding(&self) -> Seq<u8> {
        self.0.spec_encoding()
    }

    proof fn lemma_encoding_len(&self) {
        self.0.lemma_encoding_len();
    }

    fn encoded_len(&self) -> (r: Result<usize, DataLayoutError>) {
        add_part_len(0, self.0.encoded_len())
    }

    fn encode_to<'a>(&self, out: &'a mut [u8]) -> (r: Result<&'a mut [u8], DataLayoutError>) {
        proof {
            self.0.lemma_encoding_len();
        }
        self.0.encode_to(out)
    }
}

impl<A: Encodable, B: Encodable> Encodable for (A, B) {
    open spec fn spec_encoded_len(&self) -> Result<nat, DataLayoutError> {
        add_len(add_len(Ok(0), self.0.spec_encoded_len()), self.1.spec_encoded_len())
    }

    open spec fn spec_encoding(&self) -> Seq<u8> {
        self.0.spec_encoding() + self.1.spec_encoding()
    }

    proof fn lemma_encoding_len(&self) {
        self.0.lemma_encoding_len();
        self.1.lemma_encoding_len();
    }

    fn encoded_len(&self) -> (r: Result<usize, DataLayoutError>) {
        let len = match add_part_len(0, self.0.encoded_len()) {
            Ok(n) => n,
            Err(e) => {
                return Err(e);
            },
        };
        add_part_len(len, self.1.encoded_len())
    }

    fn encode_to<'a>(&self, out: &'a mut [u8]) -> (r: Result<&'a mut [u8], DataLayoutError>) {
        proof {
            self.0.lemma_encoding_len();
            self.1.lemma_encoding_len();
        }
        let total = out.len();
        let rest = match self.0.encode_to(out) {
            Ok(rest) => rest,
            Err(e) => {
                return Err(e);
            },
        };
        let rest = match self.1.encode_to(rest) {
            Ok(rest) => rest,
            Err(e) => {
                return Err(e);
            },
        };
        proof {
            assert(self.spec_encoding().len() <= total);
        }
        Ok(rest)
    }
}


impl<A: Encodable, B: Encodable, C: Encodable> Encodable for (A, B, C) {
    open spec fn spec_encoded_len(&self) -> Result<nat, DataLayoutError> {
        add_len(
            add_len(add_len(Ok(0), self.0.spec_encoded_len()), self.1.spec_encoded_len()),
            self.2.spec_encoded_len(),
        )
    }

    open spec fn spec_encoding(&self) -> Seq<u8> {
        self.0.spec_encoding() + self.1.spec_encoding() + self.2.spec_encoding()
    }

    proof fn lemma_encoding_len(&self) {
        self.0.lemma_encoding_len();
        self.1.lemma_encoding_len();
        self.2.lemma_encoding_len();
    }

    fn encoded_len(&self) -> (r: Result<usize, DataLayoutError>) {
        let len = match add_part_len(0, self.0.encoded_len()) {
            Ok(n) => n,
            Err(e) => {
                return Err(e);
            },
        };
        let len = match add_part_len(len, self.1.encoded_len()) {
            Ok(n) => n,
            Err(e) => {
                return Err(e);
            },
        };
        add_part_len(len, self.2.encoded_len())
    }

    fn encode_to<'a>(&self, out: &'a mut [u8]) -> (r: Result<&'a mut [u8], DataLayoutError>) {
        proof {
            self.0.lemma_encoding_len();
            self.1.lemma_encoding_len();
            self.2.lemma_encoding_len();
        }
        let total = out.len();
        let rest = match self.0.encode_to(out) {
            Ok(rest) => rest,
            Err(e) => {
                return Err(e);
            },
        };
        let rest = match self.1.encode_to(rest) {
            Ok(rest) => rest,
            Err(e) => {
                return Err(e);
            },
        };
        let rest = match self.2.encode_to(rest) {
            Ok(rest) => rest,
            Err(e) => {
                return Err(e);
            },
        };
        proof {
            assert(self.spec_encoding().len() <= total);
        }
        Ok(rest)
    }
}


/// A layout that decodes one value from the front of a larger buffer
/// (a self-delimiting layout).
pub trait PrefixDecodable<'a> {
    type View;

    /// Whether this layout can decode prefixes.
    spec fn spec_prefix_ready(&self) -> bool;

    /// The length of the encoding at the front of `bytes`, which start
    /// `address_mod_8` bytes past an 8-byte aligned address, or the error
    /// that decoding stops at.
    spec fn spec_prefix_len(&self, bytes: Seq<u8>, address_mod_8: nat) -> Result<
        nat,
        DataLayoutError,
    >;

    /// Whether `v` is the view of the encoding at the front of `bytes`, which
    /// start `address_mod_8` bytes past an 8-byte aligned address.
    spec fn spec_prefix_view(&self, v: Self::View, bytes: Seq<u8>, address_mod_8: nat) -> bool;

    /// Decodes a prefix and returns its view and the bytes after it.
    fn decode_prefix(&'a self, bytes: &'a [u8], address_mod_8: usize) -> (r: Result<
        (Self::View, &'a [u8]),
        DataLayoutError,
    >)
        requires
            self.spec_prefix_ready(),
        ensures
            match r {
                Ok((v, rest)) => {
                    &&& self.spec_prefix_len(bytes@, address_mod_8 as nat) matches Ok(n)
                    &&& n <= bytes@.len()
                    &&& rest@ == bytes@.skip(n as int)
                    &&& self.spec_prefix_view(v, bytes@, address_mod_8 as nat)
                },
                Err(e) => self.spec_prefix_len(bytes@, address_mod_8 as nat) == Err::<
                    nat,
                    DataLayoutError,
                >(e),
            },
    ;
}

/// A layout that decodes exactly one value from a whole buffer.
///
/// Exact decoding is what layouts with implicit options need: their option
/// presence follows from the total length, so only a buffer the caller has
/// already framed can be decoded.
pub trait Decodable<'a> {
    type View;

    /// Whether this layout can decode.
    spec fn spec_decode_ready(&self) -> bool;

    /// Whether `bytes`, starting `address_mod_8` bytes past an 8-byte aligned
    /// address, hold exactly one encoding, or the error decoding stops at.
    spec fn spec_decode(&self, bytes: Seq<u8>, address_mod_8: nat) -> Result<(), DataLayoutError>;

    /// Whether `v` is the view of the encoding that `bytes`, starting
    /// `address_mod_8` bytes past an 8-byte aligned address, hold.
    spec fn spec_view(&self, v: Self::View, bytes: Seq<u8>, address_mod_8: nat) -> bool;

    /// Decodes exactly one value from `bytes`.
    fn decode(&'a self, bytes: &'a [u8], address_mod_8: usize) -> (r: Result<
        Self::View,
        DataLayoutError,
    >)
        requires
            self.spec_decode_ready(),
        ensures
            match r {
                Ok(v) => self.spec_decode(bytes@, address_mod_8 as nat) is Ok && self.spec_view(
                    v,
                    bytes@,
                    address_mod_8 as nat,
                ),
                Err(e) => self.spec_decode(bytes@, address_mod_8 as nat) == Err::<
                    (),
                    DataLayoutError,
                >(e),
            },
    ;
}

/// Exact decoding with a prefix decoder: the prefix must take every byte,
/// else `InvalidDataLength`.
pub open spec fn exact_from_prefix(prefix: Result<nat, DataLayoutError>, len: nat) -> Result<
    (),
    DataLayoutError,
> {
    match prefix {
        Ok(n) => if n == len {
            Ok(())
        } else {
            Err(DataLayoutError::InvalidDataLength)
        },
        Err(e) => Err(e),
    }
}

impl<'a, T: PrefixDecodable<'a>> Decodable<'a> for T {
    type View = <T as PrefixDecodable<'a>>::View;

    open spec fn spec_decode_ready(&self) -> bool {
        self.spec_prefix_ready()
    }

    open spec fn spec_decode(&self, bytes: Seq<u8>, address_mod_8: nat) -> Result<(), DataLayoutError> {
        exact_from_prefix(self.spec_prefix_len(bytes, address_mod_8), bytes.len())
    }

    /// The view is the one `decode_prefix` gives for the same bytes.
    open spec fn spec_view(&self, v: Self::View, bytes: Seq<u8>, address_mod_8: nat) -> bool {
        self.spec_prefix_view(v, bytes, address_mod_8)
    }

    fn decode(&'a self, bytes: &'a [u8], address_mod_8: usize) -> (r: Result<
        Self::View,
        DataLayoutError,
    >) {
        let (view, rest) = match self.decode_prefix(bytes, address_mod_8) {
            Ok(p) => p,
            Err(e) => {
                return Err(e);
            },
        };
        if rest.len() != 0 {
            return Err(DataLayoutError::InvalidDataLength);
        }
        Ok(view)
    }
}

/// Decodes an empty buffer as `None` and any other with the inner layout, as
/// `Option<T>` decoding does: for an option whose absence only the caller's
/// framing tells.
pub struct OptionalLayout<T> {
    pub inner: T,
}

impl<'a, T: Decodable<'a>> Decodable<'a> for OptionalLayout<T> {
    type View = Option<<T as Decodable<'a>>::View>;

    open spec fn spec_decode_ready(&self) -> bool {
        self.inner.spec_decode_ready()
    }

    open spec fn spec_decode(&self, bytes: Seq<u8>, address_mod_8: nat) -> Result<(), DataLayoutError> {
        if bytes.len() == 0 {
            Ok(())
        } else {
            self.inner.spec_decode(bytes, address_mod_8)
        }
    }

    /// `None` for no bytes, else the inner layout's view of them.
    open spec fn spec_view(&self, v: Self::View, bytes: Seq<u8>, address_mod_8: nat) -> bool {
        if bytes.len() == 0 {
            v is None
        } else {
            v matches Some(w) && self.inner.spec_view(w, bytes, address_mod_8)
        }
    }

    fn decode(&'a self, bytes: &'a [u8], address_mod_8: usize) -> (r: Result<
        Self::View,
        DataLayoutError,
    >)
        ensures
            r matches Ok(v) ==> (v is None <==> bytes@.len() == 0),
    {
        if bytes.len() == 0 {
            Ok(None)
        } else {
            match self.inner.decode(bytes, address_mod_8) {
                Ok(v) => Ok(Some(v)),
                Err(e) => Err(e),
            }
        }
    }
}

} // verus!
