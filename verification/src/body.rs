//! The body of a request or a response: a plain sequence of bytes.
use vstd::prelude::*;
use crate::text::{utf8_lossy, string_from_utf8_lossy};

verus! {

/// A message body.
#[derive(Debug, Clone, PartialEq, Eq)]
pub struct Body(Vec<u8>);

impl View for Body {
    type V = Seq<u8>;

    closed spec fn view(&self) -> Seq<u8> {
        self.0@
    }
}

impl Body {
    /// An empty body.
    pub fn new() -> (res: Self)
        ensures
            res@ == Seq::<u8>::empty(),
    {
        Body(Vec::new())
    }

    /// A body holding exactly `bytes`.
    pub fn from_bytes(bytes: Vec<u8>) -> (res: Self)
        ensures
            res@ == bytes@,
    {
        Body(bytes)
    }

    /// Appends a copy of `bytes`.
    pub fn extend(&mut self, bytes: &Vec<u8>)
        ensures
            final(self)@ == old(self)@ + bytes@,
    {
        let n = bytes.len();
        let mut i: usize = 0;
        while i < n
            invariant
                n == bytes@.len(),
                0 <= i <= n,
                self@ == old(self)@ + bytes@.take(i as int),
            decreases n - i,
        {
            self.0.push(bytes[i]);
            assert(bytes@.take(i + 1) == bytes@.take(i as int).push(bytes@[i as int]));
            i = i + 1;
        }
        assert(bytes@.take(n as int) == bytes@);
    }

    /// Moves all of `bytes` to the end of the body, leaving `bytes` empty.
    pub fn append(&mut self, bytes: &mut Vec<u8>)
        ensures
            final(self)@ == old(self)@ + old(bytes)@,
            final(bytes)@ == Seq::<u8>::empty(),
    {
        self.0.append(bytes);
    }

    /// The bytes of the body.
    pub fn as_bytes(&self) -> (res: &[u8])
        ensures
            res@ == self@,
    {
        self.0.as_slice()
    }

    /// The number of bytes in the body.
    pub fn len(&self) -> (res: usize)
        ensures
            res == self@.len(),
    {
        self.0.len()
    }

    /// Whether the body holds no byte.
    pub fn is_empty(&self) -> (res: bool)
        ensures
            res == (self@.len() == 0),
    {
        self.0.len() == 0
    }

    /// The body as text, each invalid UTF-8 sequence replaced by U+FFFD.
    pub fn to_string(&self) -> (res: String)
        ensures
            res@ == utf8_lossy(self@),
    {
        string_from_utf8_lossy(self.0.as_slice())
    }
}

} // verus!
