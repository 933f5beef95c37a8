//! The tagged-word primitive: a machine word whose low two bits are status
//! flags (bit 0: mark, bit 1: array node) and whose remaining bits carry an
//! aligned payload, together with the cell type that publishes such words and
//! the node types the hash trie stores behind them.

use vstd::prelude::*;

verus! {

/// Bit 0 of a tagged word: the mark flag.
pub open spec fn spec_is_marked(w: usize) -> bool {
    w & 0x1 != 0
}

/// Bit 1 of a tagged word: the array-node flag.
pub open spec fn spec_is_array(w: usize) -> bool {
    w & 0x2 != 0
}

pub open spec fn spec_mark(w: usize) -> usize {
    w | 0x1
}

pub open spec fn spec_unmark(w: usize) -> usize {
    w & (!0x1usize)
}

pub open spec fn spec_mark_array(w: usize) -> usize {
    w | 0x2
}

pub open spec fn spec_unmark_array(w: usize) -> usize {
    w & (!0x2usize)
}

/// An aligned payload leaves the two flag bits clear.
pub open spec fn spec_aligned(w: usize) -> bool {
    w & 0x3 == 0
}

/// True when the word's mark flag (bit 0) is set.
pub fn is_marked(ptr: usize) -> (r: bool)
    ensures
        r == spec_is_marked(ptr),
{
    match ptr & 0x1 {
        0 => false,
        _ => true,
    }
}

/// True when the word's array-node flag (bit 1) is set.
pub fn is_array_node(ptr: usize) -> (r: bool)
    ensures
        r == spec_is_array(ptr),
{
    let shifted = (ptr & 0x2) >> 1;
    proof {
        assert(((ptr & 0x2) >> 1 != 0) == (ptr & 0x2 != 0)) by (bit_vector);
    }
    match shifted {
        0 => false,
        _ => true,
    }
}

/// Clears the mark flag of the word.
pub fn unmark(ptr: usize) -> (r: usize)
    ensures
        r == spec_unmark(ptr),
{
    ptr & !(0x1)
}

/// Clears the array-node flag of the word.
pub fn unmark_array_node(ptr: usize) -> (r: usize)
    ensures
        r == spec_unmark_array(ptr),
{
    ptr & !(0x2)
}

/// Sets the array-node flag of the word.
pub fn mark_array_node(ptr: usize) -> (r: usize)
    ensures
        r == spec_mark_array(ptr),
{
    ptr | 0x2
}

/// Sets the mark flag of the word.
pub fn mark(ptr: usize) -> (r: usize)
    ensures
        r == spec_mark(ptr),
{
    ptr | 0x1
}

/// Unmarking a marked word restores it, for every aligned word.
pub proof fn lemma_unmark_mark(p: usize)
    requires
        spec_aligned(p),
    ensures
        spec_unmark(spec_mark(p)) == p,
{
    assert((p | 0x1) & (!0x1usize) == p) by (bit_vector)
        requires
            p & 0x3 == 0,
    ;
}

/// Marking a word sets its mark flag.
pub proof fn lemma_is_marked_mark(p: usize)
    ensures
        spec_is_marked(spec_mark(p)),
{
    assert((p | 0x1) & 0x1 != 0) by (bit_vector);
}

/// Setting the array-node flag makes the word read as an array node.
pub proof fn lemma_is_array_mark_array(p: usize)
    ensures
        spec_is_array(spec_mark_array(p)),
{
    assert((p | 0x2) & 0x2 != 0) by (bit_vector);
}

/// The mark flag and the array-node flag commute: the order in which the two
/// are set does not matter.
pub proof fn lemma_flags_commute(p: usize)
    ensures
        spec_mark(spec_mark_array(p)) == spec_mark_array(spec_mark(p)),
{
    assert((p | 0x2) | 0x1 == (p | 0x1) | 0x2) by (bit_vector);
}

/// Setting one flag leaves the other flag's reading unchanged.
pub proof fn lemma_flags_independent(p: usize)
    ensures
        spec_is_array(spec_mark(p)) == spec_is_array(p),
        spec_is_marked(spec_mark_array(p)) == spec_is_marked(p),
{
    assert(((p | 0x1) & 0x2 != 0) == (p & 0x2 != 0)) by (bit_vector);
    assert(((p | 0x2) & 0x1 != 0) == (p & 0x1 != 0)) by (bit_vector);
}

/// One cell of the tagged-word substrate. The word value zero stands for the
/// empty cell; a non-zero word is a tagged payload. In the concurrent design
/// this is a sequentially consistent atomic; here the cell is owned, so each
/// operation's effect is exact.
pub struct AtomicMarkablePtr {
    ptr: usize,
}

impl AtomicMarkablePtr {
    /// The word currently held by the cell.
    pub closed spec fn word(self) -> usize {
        self.ptr
    }

    /// Sets the mark flag of the held word (fetch-or of bit 0).
    pub fn mark(&mut self)
        ensures
            final(self).word() == spec_mark(old(self).word()),
    {
        self.ptr = self.ptr | 0x1;
    }

    /// The held word as an optional payload: `None` for the empty cell,
    /// otherwise the raw tagged word.
    pub fn get_ptr(&self) -> (r: Option<usize>)
        ensures
            self.word() == 0 ==> r is None,
            self.word() != 0 ==> r == Some(self.word()),
    {
        match self.ptr {
            0 => None,
            ptr_val => Some(ptr_val),
        }
    }

    /// Compare-and-exchange; on success the previously expected word is
    /// returned, on failure the rejected new word.
    pub fn compare_exchange_weak(&mut self, current: usize, new: usize) -> (r: Result<
        usize,
        usize,
    >)
        ensures
            old(self).word() == current ==> final(self).word() == new && r == Ok::<usize, usize>(
                current,
            ),
            old(self).word() != current ==> final(self).word() == old(self).word() && r
                == Err::<usize, usize>(new),
    {
        if self.ptr == current {
            self.ptr = new;
            Ok(current)
        } else {
            Err(new)
        }
    }

    /// Compare-and-exchange; either way the word observed before the exchange
    /// is returned.
    pub fn compare_exchange(&mut self, current: usize, new: usize) -> (r: Result<usize, usize>)
        ensures
            old(self).word() == current ==> final(self).word() == new && r == Ok::<usize, usize>(
                current,
            ),
            old(self).word() != current ==> final(self).word() == old(self).word() && r
                == Err::<usize, usize>(old(self).word()),
    {
        if self.ptr == current {
            self.ptr = new;
            Ok(current)
        } else {
            Err(self.ptr)
        }
    }

    /// Atomically exchanges the expected word for its marked form, announcing
    /// a logical removal in a single step.
    pub fn compare_and_mark(&mut self, current: usize) -> (r: Result<usize, usize>)
        ensures
            old(self).word() == current ==> final(self).word() == spec_mark(current) && r
                == Ok::<usize, usize>(current),
            old(self).word() != current ==> final(self).word() == old(self).word() && r
                == Err::<usize, usize>(old(self).word()),
    {
        let marked_ptr = mark(current);
        if self.ptr == current {
            self.ptr = marked_ptr;
            Ok(current)
        } else {
            Err(self.ptr)
        }
    }

    /// Reads the raw word.
    pub fn ptr(&self) -> (r: usize)
        ensures
            r == self.word(),
    {
        self.ptr
    }
}

impl Default for AtomicMarkablePtr {
    /// A fresh cell is empty.
    fn default() -> (r: Self)
        ensures
            r.word() == 0,
    {
        AtomicMarkablePtr { ptr: 0 }
    }
}

/// A data leaf of the hash trie: a finalized 64-bit hashed key and an optional
/// payload. The key is frozen at construction and the payload is move-in only.
pub struct DataNode<V> {
    pub key: u64,
    pub value: Option<V>,
}

impl<V> DataNode<V> {
    pub fn new(key: u64, value: V) -> (r: Self)
        ensures
            r.key == key,
            r.value == Some(value),
    {
        DataNode { key, value: Some(value) }
    }
}

impl<V> Default for DataNode<V> {
    /// A placeholder leaf: the zero key and no payload.
    fn default() -> (r: Self)
        ensures
            r.key == 0,
            r.value is None,
    {
        DataNode { key: 0, value: None }
    }
}

/// An array interior of the hash trie: a fixed-fanout vector of child cells.
/// Interior nodes are never unlinked once published.
pub struct ArrayNode<V> {
    pub array: Vec<Option<Box<Node<V>>>>,
}

impl<V> ArrayNode<V> {
    /// A fresh interior node with `size` empty child cells.
    pub fn new(size: usize) -> (r: Self)
        ensures
            r.array@.len() == size,
            forall|j: int| 0 <= j < size ==> r.array@[j] is None,
    {
        let mut array: Vec<Option<Box<Node<V>>>> = Vec::new();
        let mut i: usize = 0;
        while i < size
            invariant
                i <= size,
                array@.len() == i,
                forall|j: int| 0 <= j < i ==> array@[j] is None,
            decreases size - i,
        {
            array.push(None);
            i = i + 1;
        }
        ArrayNode { array }
    }
}

/// A trie node is either a data leaf or an array interior.
pub enum Node<V> {
    Data(DataNode<V>),
    Array(ArrayNode<V>),
}

} // verus!
