use vstd::prelude::*;

verus! {

/// A direction-tagged magnitude: added for `Inc`, subtracted for `Dec`.
#[derive(Debug, Clone, Copy, PartialEq, Eq, Structural)]
pub enum Offset<T> {
    Inc(T),
    Dec(T),
}

/// The tape: a fixed number of signed cells and a pointer into them.
///
/// The pointer may stand past the end; every operation that reads or writes
/// the current cell requires it to be in range.
pub struct Buffer {
    data: Vec<i32>,
    ptr: usize,
}

impl Buffer {
    /// The cells of the tape.
    pub closed spec fn cells(&self) -> Seq<i32> {
        self.data@
    }

    /// The position of the pointer.
    pub closed spec fn ptr(&self) -> nat {
        self.ptr as nat
    }

    /// Whether the pointer designates a cell.
    pub open spec fn in_bounds(&self) -> bool {
        self.ptr() < self.cells().len()
    }

    /// A tape of `size` zero cells with the pointer on the first.
    pub fn new(size: usize) -> (r: Self)
        ensures
            r.cells() == Seq::new(size as nat, |i: int| 0i32),
            r.ptr() == 0,
    {
        let mut data: Vec<i32> = Vec::new();
        while data.len() < size
            invariant
                data.len() <= size,
                forall|i: int| 0 <= i < data.len() ==> data@[i] == 0i32,
            decreases size - data.len(),
        {
            data.push(0);
        }
        assert(data@ =~= Seq::new(size as nat, |i: int| 0i32));
        Buffer { data, ptr: 0 }
    }

    /// The position of the pointer.
    pub fn pointer(&self) -> (r: usize)
        ensures
            r == self.ptr(),
    {
        self.ptr
    }

    /// Whether the pointer designates a cell.
    pub fn is_in_bounds(&self) -> (r: bool)
        ensures
            r == self.in_bounds(),
    {
        self.ptr < self.data.len()
    }

    /// The value of the current cell.
    pub fn read(&self) -> (r: i32)
        requires
            self.in_bounds(),
        ensures
            r == self.cells()[self.ptr() as int],
    {
        self.data[self.ptr]
    }

    /// Overwrites the current cell.
    pub fn write(&mut self, val: i32)
        requires
            old(self).in_bounds(),
        ensures
            final(self).cells() == old(self).cells().update(old(self).ptr() as int, val),
            final(self).ptr() == old(self).ptr(),
    {
        self.data.set(self.ptr, val);
    }

    /// Moves the pointer forward or back by the offset's magnitude.
    pub fn offset_ptr(&mut self, offset: Offset<usize>)
        requires
            match offset {
                Offset::Inc(m) => old(self).ptr() + m <= usize::MAX,
                Offset::Dec(m) => m <= old(self).ptr(),
            },
        ensures
            final(self).cells() == old(self).cells(),
            final(self).ptr() == match offset {
                Offset::Inc(m) => old(self).ptr() + m,
                Offset::Dec(m) => old(self).ptr() - m,
            },
    {
        match offset {
            Offset::Inc(val) => self.ptr = self.ptr + val,
            Offset::Dec(val) => self.ptr = self.ptr - val,
        }
    }

    /// Adds the offset to, or subtracts it from, the current cell.
    pub fn offset_val(&mut self, offset: Offset<i32>)
        requires
            old(self).in_bounds(),
            i32::MIN <= shifted(old(self).cells()[old(self).ptr() as int], offset) <= i32::MAX,
        ensures
            final(self).cells() == old(self).cells().update(
                old(self).ptr() as int,
                shifted(old(self).cells()[old(self).ptr() as int], offset) as i32,
            ),
            final(self).ptr() == old(self).ptr(),
    {
        let cur = self.data[self.ptr];
        let next = match offset {
            Offset::Inc(val) => cur + val,
            Offset::Dec(val) => cur - val,
        };
        self.data.set(self.ptr, next);
    }
}

/// The value `v` moved by `offset`, as an unbounded integer.
pub open spec fn shifted(v: i32, offset: Offset<i32>) -> int {
    match offset {
        Offset::Inc(m) => v + m,
        Offset::Dec(m) => v - m,
    }
}

} // verus!
