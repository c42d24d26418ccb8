//! Object pools that keep cleared strings and vectors for reuse, so that
//! repeated work needs fewer heap allocations. A pool never holds more than
//! its `max_size` objects, and every object it holds is empty.
use vstd::prelude::*;
use vstd::string::StringExecFns;

verus! {

/// `String::clear`. Claims: the string is empty afterwards.
#[verifier::external_body]
fn string_clear(s: &mut String)
    ensures
        final(s)@ == Seq::<char>::empty(),
{
    s.clear();
}

/// A pool of cleared strings.
pub struct StringPool {
    pool: Vec<String>,
    max_size: usize,
}

/// A string handed out by a pool.
pub struct PooledString {
    string: String,
}

impl View for PooledString {
    type V = Seq<char>;

    closed spec fn view(&self) -> Seq<char> {
        self.string@
    }
}

impl StringPool {
    /// The pool holds at most `max_size` strings, all of them empty.
    pub closed spec fn wf(&self) -> bool {
        &&& self.pool@.len() <= self.max_size
        &&& forall|i: int| 0 <= i < self.pool@.len() ==> (#[trigger] self.pool@[i])@ == Seq::<char>::empty()
    }

    /// The number of strings the pool holds.
    pub closed spec fn held(&self) -> nat {
        self.pool@.len()
    }

    /// The most strings the pool keeps.
    pub closed spec fn capacity(&self) -> usize {
        self.max_size
    }

    /// An empty pool that keeps at most `max_size` strings.
    pub fn new(max_size: usize) -> (p: Self)
        ensures
            p.wf(),
            p.held() == 0,
            p.capacity() == max_size,
    {
        StringPool { pool: Vec::with_capacity(max_size), max_size }
    }

    /// Hands out an empty string: one from the pool when it holds some, a new one otherwise.
    pub fn acquire(&mut self) -> (s: PooledString)
        requires
            old(self).wf(),
        ensures
            final(self).wf(),
            s@ == Seq::<char>::empty(),
            final(self).held() == if old(self).held() > 0 { (old(self).held() - 1) as nat } else { 0 },
            final(self).capacity() == old(self).capacity(),
    {
        let string = match self.pool.pop() {
            Some(s) => s,
            None => String::new(),
        };
        PooledString { string }
    }

    /// The number of strings the pool holds.
    pub fn size(&self) -> (n: usize)
        ensures
            n == self.held(),
    {
        self.pool.len()
    }

    /// Takes a string back: it is cleared and kept if the pool is not full.
    pub fn release(&mut self, s: PooledString)
        requires
            old(self).wf(),
        ensures
            final(self).wf(),
            final(self).held() == if old(self).held() < old(self).capacity() { old(self).held() + 1 } else { old(self).held() },
            final(self).capacity() == old(self).capacity(),
    {
        let mut string = s.string;
        string_clear(&mut string);
        if self.pool.len() < self.max_size {
            self.pool.push(string);
        }
    }
}

impl Default for StringPool {
    /// A pool that keeps at most 1000 strings.
    fn default() -> (p: Self)
        ensures
            p.wf(),
            p.held() == 0,
            p.capacity() == 1000,
    {
        Self::new(1000)
    }
}

impl PooledString {
    /// The string, for changing it.
    pub fn as_mut(&mut self) -> (r: &mut String)
        ensures
            r@ == old(self)@,
            final(self)@ == final(r)@,
    {
        &mut self.string
    }

    /// The string's text.
    pub fn as_str(&self) -> (r: &str)
        ensures
            r@ == self@,
    {
        self.string.as_str()
    }

    /// Replaces the text with `content`, keeping the string's allocation.
    pub fn set(&mut self, content: &str)
        ensures
            final(self)@ == content@,
    {
        string_clear(&mut self.string);
        self.string.append(content);
    }

    /// The text as an owned string.
    pub fn to_string(&self) -> (r: String)
        ensures
            r@ == self@,
    {
        self.string.clone()
    }
}

/// A pool of cleared vectors.
pub struct VecPool<T> {
    pool: Vec<Vec<T>>,
    max_size: usize,
}

/// A vector handed out by a pool.
pub struct PooledVec<T> {
    vec: Vec<T>,
}

impl<T> View for PooledVec<T> {
    type V = Seq<T>;

    closed spec fn view(&self) -> Seq<T> {
        self.vec@
    }
}

impl<T> VecPool<T> {
    /// The pool holds at most `max_size` vectors, all of them empty.
    pub closed spec fn wf(&self) -> bool {
        &&& self.pool@.len() <= self.max_size
        &&& forall|i: int| 0 <= i < self.pool@.len() ==> (#[trigger] self.pool@[i])@ == Seq::<T>::empty()
    }

    /// The number of vectors the pool holds.
    pub closed spec fn held(&self) -> nat {
        self.pool@.len()
    }

    /// The most vectors the pool keeps.
    pub closed spec fn capacity(&self) -> usize {
        self.max_size
    }

    /// An empty pool that keeps at most `max_size` vectors.
    pub fn new(max_size: usize) -> (p: Self)
        ensures
            p.wf(),
            p.held() == 0,
            p.capacity() == max_size,
    {
        VecPool { pool: Vec::with_capacity(max_size), max_size }
    }

    /// Hands out an empty vector: one from the pool when it holds some, a new one otherwise.
    pub fn acquire(&mut self) -> (v: PooledVec<T>)
        requires
            old(self).wf(),
        ensures
            final(self).wf(),
            v@ == Seq::<T>::empty(),
            final(self).held() == if old(self).held() > 0 { (old(self).held() - 1) as nat } else { 0 },
            final(self).capacity() == old(self).capacity(),
    {
        let vec = match self.pool.pop() {
            Some(v) => v,
            None => Vec::new(),
        };
        PooledVec { vec }
    }

    /// The number of vectors the pool holds.
    pub fn size(&self) -> (n: usize)
        ensures
            n == self.held(),
    {
        self.pool.len()
    }

    /// Takes a vector back: it is cleared and kept if the pool is not full.
    pub fn release(&mut self, v: PooledVec<T>)
        requires
            old(self).wf(),
        ensures
            final(self).wf(),
            final(self).held() == if old(self).held() < old(self).capacity() { old(self).held() + 1 } else { old(self).held() },
            final(self).capacity() == old(self).capacity(),
    {
        let mut vec = v.vec;
        vec.clear();
        if self.pool.len() < self.max_size {
            self.pool.push(vec);
        }
    }
}

impl<T> Default for VecPool<T> {
    /// A pool that keeps at most 500 vectors.
    fn default() -> (p: Self)
        ensures
            p.wf(),
            p.held() == 0,
            p.capacity() == 500,
    {
        Self::new(500)
    }
}

impl<T> std::ops::Deref for PooledVec<T> {
    type Target = Vec<T>;

    fn deref(&self) -> (r: &Vec<T>)
        ensures
            r@ == self@,
    {
        &self.vec
    }
}

impl<T> PooledVec<T> {
    /// The vector, for changing it.
    pub fn as_mut(&mut self) -> (r: &mut Vec<T>)
        ensures
            r@ == old(self)@,
            final(self)@ == final(r)@,
    {
        &mut self.vec
    }

    /// The vector's elements.
    pub fn as_slice(&self) -> (r: &[T])
        ensures
            r@ == self@,
    {
        self.vec.as_slice()
    }
}

} // verus!
