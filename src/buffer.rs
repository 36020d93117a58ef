use vstd::prelude::*;

verus! {

/// A zero-filled byte buffer of a fixed size.
#[allow(non_camel_case_types)]
pub struct buf {
    pub size: usize,
    pub data: Vec<u8>,
}

impl buf {
    /// A buffer of `size` zero bytes.
    pub fn new(size: usize) -> (r: buf)
        ensures
            r.size == size,
            r.data@ == Seq::new(size as nat, |i: int| 0u8),
    {
        let mut data: Vec<u8> = Vec::new();
        let mut i: usize = 0;
        while i < size
            invariant
                i <= size,
                data@ == Seq::new(i as nat, |j: int| 0u8),
            decreases size - i,
        {
            data.push(0u8);
            i = i + 1;
            assert(data@ =~= Seq::new(i as nat, |j: int| 0u8));
        }
        buf { size: size, data: data }
    }
}

} // verus!
