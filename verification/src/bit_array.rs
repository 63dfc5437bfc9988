use vstd::prelude::*;

verus! {

/// A row of pixels, each set (dark) or clear (light).
pub struct BitArray {
    bits: Vec<bool>,
}

impl View for BitArray {
    type V = Seq<bool>;

    closed spec fn view(&self) -> Seq<bool> {
        self.bits@
    }
}

/// The index of the first set pixel at or after `from`, or the row's length if there is none.
pub open spec fn next_set(row: Seq<bool>, from: int) -> int
    decreases row.len() - from,
{
    if from >= row.len() {
        row.len() as int
    } else if from >= 0 && row[from] {
        from
    } else {
        next_set(row, from + 1)
    }
}

/// `next_set` lands on a set pixel or on the end, and skips only clear pixels.
pub proof fn lemma_next_set(row: Seq<bool>, from: int)
    requires
        0 <= from,
    ensures
        from <= next_set(row, from) || (from > row.len() && next_set(row, from) == row.len()),
        next_set(row, from) <= row.len() || from > row.len(),
        next_set(row, from) >= row.len() || (next_set(row, from) >= from && row[next_set(row, from)]),
        forall|p: int| from <= p < next_set(row, from) ==> !row[p],
    decreases row.len() - from,
{
    if from < row.len() && !row[from] {
        lemma_next_set(row, from + 1);
    }
}

/// The first set pixel at or after `from` is the one where the clear pixels from `from` end.
pub proof fn lemma_next_set_at(row: Seq<bool>, from: int, x: int)
    requires
        0 <= from <= x <= row.len(),
        forall|q: int| from <= q < x ==> !row[q],
        x == row.len() || row[x],
    ensures
        next_set(row, from) == x,
    decreases x - from,
{
    if from < x {
        lemma_next_set_at(row, from + 1, x);
    }
}

impl BitArray {
    /// A row of `size` clear pixels.
    pub fn with_size(size: usize) -> (r: BitArray)
        ensures
            r@ == Seq::new(size as nat, |i: int| false),
    {
        let mut bits: Vec<bool> = Vec::new();
        let mut i: usize = 0;
        while i < size
            invariant
                i <= size,
                bits@ == Seq::new(i as nat, |k: int| false),
            decreases size - i,
        {
            bits.push(false);
            i = i + 1;
        }
        BitArray { bits }
    }

    pub fn getSize(&self) -> (n: usize)
        ensures
            n == self@.len(),
    {
        self.bits.len()
    }

    /// Whether pixel `i` is set.
    pub fn get(&self, i: usize) -> (b: bool)
        requires
            i < self@.len(),
        ensures
            b == self@[i as int],
    {
        self.bits[i]
    }

    /// Sets pixel `i`.
    pub fn set(&mut self, i: usize)
        requires
            i < old(self)@.len(),
        ensures
            final(self)@ == old(self)@.update(i as int, true),
    {
        self.bits.set(i, true);
    }

    /// The index of the first set pixel at or after `from`, or the size if there is none.
    pub fn getNextSet(&self, from: usize) -> (r: usize)
        ensures
            r == next_set(self@, from as int),
    {
        let n = self.bits.len();
        if from >= n {
            return n;
        }
        let mut i: usize = from;
        while i < n && !self.bits[i]
            invariant
                from <= i <= n,
                n == self@.len(),
                next_set(self@, from as int) == next_set(self@, i as int),
            decreases n - i,
        {
            i = i + 1;
        }
        i
    }
}

} // verus!
