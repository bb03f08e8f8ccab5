use vstd::prelude::*;

verus! {

/// A flat, resizable array of bytes: the substrate that every other part of
/// the store is laid out in.
pub struct ByteStore {
    bytes: Vec<u8>,
}

impl View for ByteStore {
    type V = Seq<u8>;

    closed spec fn view(&self) -> Seq<u8> {
        self.bytes@
    }
}

impl ByteStore {
    /// An empty byte store.
    pub fn new() -> (r: ByteStore)
        ensures
            r@ == Seq::<u8>::empty(),
    {
        ByteStore { bytes: Vec::new() }
    }

    /// A byte store that holds exactly `bytes`.
    pub fn from_vec(bytes: Vec<u8>) -> (r: ByteStore)
        ensures
            r@ == bytes@,
    {
        ByteStore { bytes }
    }

    /// A copy of everything the store holds.
    pub fn to_vec(&self) -> (r: Vec<u8>)
        ensures
            r@ == self@,
    {
        self.bytes.clone()
    }

    pub fn len(&self) -> (r: usize)
        ensures
            r == self@.len(),
    {
        self.bytes.len()
    }

    /// The `len` bytes that start at `offset`.
    pub fn read(&self, offset: usize, len: usize) -> (r: Vec<u8>)
        requires
            offset + len <= self@.len(),
        ensures
            r@ == self@.subrange(offset as int, offset + len),
    {
        let mut r: Vec<u8> = Vec::new();
        let n = self.bytes.len();
        let mut i: usize = 0;
        while i < len
            invariant
                n == self@.len(),
                offset + len <= self@.len(),
                i <= len,
                r@ == self@.subrange(offset as int, offset + i),
            decreases len - i,
        {
            r.push(self.bytes[offset + i]);
            i = i + 1;
            assert(r@ =~= self@.subrange(offset as int, offset + i));
        }
        r
    }

    /// Overwrites the bytes that start at `offset` with `data`.
    pub fn write(&mut self, offset: usize, data: &[u8])
        requires
            offset + data@.len() <= old(self)@.len(),
        ensures
            final(self)@ == old(self)@.subrange(0, offset as int) + data@ + old(self)@.subrange(
                offset + data@.len(),
                old(self)@.len() as int,
            ),
    {
        let n = self.bytes.len();
        let mut i: usize = 0;
        while i < data.len()
            invariant
                n == old(self)@.len(),
                offset + data@.len() <= old(self)@.len(),
                i <= data@.len(),
                self@.len() == old(self)@.len(),
                forall|j: int|
                    0 <= j < self@.len() ==> #[trigger] self@[j] == if offset <= j < offset + i {
                        data@[j - offset]
                    } else {
                        old(self)@[j]
                    },
            decreases data@.len() - i,
        {
            self.bytes.set(offset + i, data[i]);
            i = i + 1;
        }
        assert(self@ =~= old(self)@.subrange(0, offset as int) + data@ + old(self)@.subrange(
            offset + data@.len(),
            old(self)@.len() as int,
        ));
    }

    /// Adds `data` at the end of the store.
    pub fn append(&mut self, data: &[u8])
        ensures
            final(self)@ == old(self)@ + data@,
    {
        let mut i: usize = 0;
        while i < data.len()
            invariant
                i <= data@.len(),
                self@ == old(self)@ + data@.subrange(0, i as int),
            decreases data@.len() - i,
        {
            self.bytes.push(data[i]);
            i = i + 1;
            assert(self@ =~= old(self)@ + data@.subrange(0, i as int));
        }
        assert(data@.subrange(0, data@.len() as int) =~= data@);
    }
}

} // verus!
