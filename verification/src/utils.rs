use vstd::prelude::*;
use core::marker::PhantomData;

verus! {

/// Upper bound on source lengths handled by the front end: every index and
/// every row/column must fit in a `u32`.
pub open spec fn fits_u32(n: int) -> bool {
    0 <= n && n < 0xffff_fff0
}

/// The characters of a string, in order.
pub fn str_chars(s: &str) -> (r: Vec<char>)
    ensures
        r@ == s@,
{
    let mut r: Vec<char> = Vec::new();
    for c in it: s.chars()
        invariant
            it.seq() == s@,
            r@ == it.seq().take(it.index() as int),
    {
        r.push(c);
        assert(r@ == it.seq().take(it.index() + 1));
    }
    r
}

/// Whether two strings hold the same characters.
pub fn str_equal(a: &str, b: &str) -> (r: bool)
    ensures
        r == (a@ == b@),
{
    let x = str_chars(a);
    let y = str_chars(b);
    if x.len() != y.len() {
        return false;
    }
    let mut i: usize = 0;
    while i < x.len()
        invariant
            x@ == a@,
            y@ == b@,
            x@.len() == y@.len(),
            i <= x@.len(),
            forall|k: int| 0 <= k < i ==> x@[k] == y@[k],
        decreases x@.len() - i,
    {
        if x[i] != y[i] {
            return false;
        }
        i = i + 1;
    }
    assert(x@ =~= y@);
    true
}

/// Row/column position in the source text, both counted from 1.
#[derive(Debug, Clone, Copy)]
pub struct Pos {
    pub row: u32,
    pub col: u32,
}

impl Pos {
    /// The same row, `amount` columns to the left.
    pub fn shift(&self, amount: u32) -> (r: Self)
        requires
            self.col >= amount,
        ensures
            r.row == self.row,
            r.col == self.col - amount,
    {
        Self { row: self.row, col: self.col - amount }
    }
}

/// Number of line feeds in `s`.
pub open spec fn count_newlines(s: Seq<char>) -> nat
    decreases s.len(),
{
    if s.len() == 0 {
        0
    } else {
        count_newlines(s.drop_last()) + if s.last() == '\n' { 1nat } else { 0nat }
    }
}

/// Number of characters after the last line feed of `s` (all of `s` when it holds none).
pub open spec fn chars_after_last_newline(s: Seq<char>) -> nat
    decreases s.len(),
{
    if s.len() == 0 {
        0
    } else if s.last() == '\n' {
        0
    } else {
        chars_after_last_newline(s.drop_last()) + 1
    }
}

proof fn lemma_newline_counts_bounded(s: Seq<char>)
    ensures
        count_newlines(s) <= s.len(),
        chars_after_last_newline(s) <= s.len(),
    decreases s.len(),
{
    if s.len() > 0 {
        lemma_newline_counts_bounded(s.drop_last());
    }
}

/// A run of characters of the source: `len` characters from index `start`.
#[derive(Debug, Clone, Copy)]
pub struct Span {
    start: u32,
    len: u32,
}

impl Span {
    pub closed spec fn spec_start(&self) -> u32 {
        self.start
    }

    pub closed spec fn spec_len(&self) -> u32 {
        self.len
    }

    /// Index one past the last character of the span.
    pub open spec fn spec_end(&self) -> int {
        self.spec_start() + self.spec_len()
    }

    pub fn new(start: u32, len: u32) -> (r: Self)
        ensures
            r.spec_start() == start,
            r.spec_len() == len,
    {
        Self { start, len }
    }

    /// The empty span at `pos`.
    pub fn zero(pos: u32) -> (r: Self)
        ensures
            r.spec_start() == pos,
            r.spec_len() == 0,
    {
        Self { start: pos, len: 0 }
    }

    /// The characters of `src` that the span covers.
    pub fn lexem<'a>(&self, src: &'a str) -> (r: &'a str)
        requires
            self.spec_end() <= src@.len(),
            self.spec_end() <= usize::MAX,
        ensures
            r@ == src@.subrange(self.spec_start() as int, self.spec_end()),
    {
        let s = self.start as usize;
        let e = s + self.len as usize;
        src.substring_char(s, e)
    }

    /// Row and column of the span's first character in `src`: the row is one
    /// more than the line feeds before it, the column one more than the
    /// characters between the last of those line feeds and it.
    pub fn pos(&self, src: &str) -> (r: Pos)
        requires
            self.spec_start() <= src@.len(),
            fits_u32(self.spec_start() + 1),
        ensures
            r.row == count_newlines(src@.take(self.spec_start() as int)) + 1,
            r.col == chars_after_last_newline(src@.take(self.spec_start() as int)) + 1,
    {
        let chars = str_chars(src);
        let n = self.start as usize;
        let mut row: u32 = 1;
        let mut col: u32 = 1;
        let mut i: usize = 0;
        while i < n
            invariant
                chars@ == src@,
                n == self.spec_start(),
                n <= chars@.len(),
                fits_u32(n + 1),
                i <= n,
                row == count_newlines(chars@.take(i as int)) + 1,
                col == chars_after_last_newline(chars@.take(i as int)) + 1,
            decreases n - i,
        {
            proof {
                lemma_newline_counts_bounded(chars@.take(i as int));
                assert(chars@.take(i + 1).drop_last() == chars@.take(i as int));
            }
            if chars[i] == '\n' {
                row = row + 1;
                col = 1;
            } else {
                col = col + 1;
            }
            i = i + 1;
        }
        Pos { row, col }
    }

    /// The span from the start of `self` to the end of `other`.
    pub fn total(&self, other: &Span) -> (r: Span)
        requires
            self.spec_start() <= other.spec_end(),
            other.spec_end() <= u32::MAX,
        ensures
            r.spec_start() == self.spec_start(),
            r.spec_end() == other.spec_end(),
    {
        Span { start: self.start, len: other.start + other.len - self.start }
    }

    pub fn start(&self) -> (r: u32)
        ensures
            r == self.spec_start(),
    {
        self.start
    }

    pub fn len(&self) -> (r: u32)
        ensures
            r == self.spec_len(),
    {
        self.len
    }
}

/// A typed index into a node pool.
pub trait PoolRef: Copy + Sized {
    /// The largest index a reference of this type can hold.
    spec fn max_index() -> nat;

    spec fn index_of(&self) -> nat;

    fn from_index(i: usize) -> (r: Self)
        requires
            i <= Self::max_index(),
        ensures
            r.index_of() == i,
    ;

    fn to_index(&self) -> (r: usize)
        ensures
            r == self.index_of(),
    ;
}

/// Pool of nodes addressed by the references it hands out.
#[derive(Debug)]
pub struct NodePool<Ref, T> {
    items: Vec<T>,
    _id: PhantomData<Ref>,
}

impl<Ref: PoolRef, T> NodePool<Ref, T> {
    /// The nodes, in allocation order.
    pub closed spec fn nodes(&self) -> Seq<T> {
        self.items@
    }

    pub fn new() -> (r: Self)
        ensures
            r.nodes() == Seq::<T>::empty(),
    {
        Self { items: Vec::new(), _id: PhantomData }
    }

    /// Stores `node` and returns its reference, the number of nodes before it.
    /// The new index must fit in the reference type; one that holds any
    /// `usize` always fits.
    pub fn alloc_node(&mut self, node: T) -> (r: Ref)
        requires
            old(self).nodes().len() <= Ref::max_index() || Ref::max_index() >= usize::MAX,
        ensures
            final(self).nodes() == old(self).nodes().push(node),
            r.index_of() == old(self).nodes().len(),
    {
        let id = self.items.len();
        self.items.push(node);
        Ref::from_index(id)
    }

    pub fn get(&self, id: Ref) -> (r: &T)
        requires
            id.index_of() < self.nodes().len(),
        ensures
            *r == self.nodes()[id.index_of() as int],
    {
        &self.items[id.to_index()]
    }

    pub fn len(&self) -> (r: usize)
        ensures
            r == self.nodes().len(),
    {
        self.items.len()
    }
}

/// Pool of nodes, each with the span of source it was built from.
#[derive(Debug)]
pub struct NodePoolWithSpan<Ref, T> {
    items: Vec<T>,
    spans: Vec<Span>,
    _id: PhantomData<Ref>,
}

impl<Ref: PoolRef, T> NodePoolWithSpan<Ref, T> {
    pub closed spec fn nodes(&self) -> Seq<T> {
        self.items@
    }

    pub closed spec fn spans(&self) -> Seq<Span> {
        self.spans@
    }

    /// Every node has exactly one span.
    pub closed spec fn wf(&self) -> bool {
        self.items@.len() == self.spans@.len()
    }

    pub fn new() -> (r: Self)
        ensures
            r.wf(),
            r.nodes() == Seq::<T>::empty(),
            r.spans() == Seq::<Span>::empty(),
    {
        Self { items: Vec::new(), spans: Vec::new(), _id: PhantomData }
    }

    pub fn alloc_node(&mut self, node: T, span: Span) -> (r: Ref)
        requires
            old(self).wf(),
            old(self).nodes().len() <= Ref::max_index(),
        ensures
            final(self).wf(),
            final(self).nodes() == old(self).nodes().push(node),
            final(self).spans() == old(self).spans().push(span),
            r.index_of() == old(self).nodes().len(),
    {
        let id = self.items.len();
        self.items.push(node);
        self.spans.push(span);
        Ref::from_index(id)
    }

    pub fn get(&self, id: Ref) -> (r: &T)
        requires
            id.index_of() < self.nodes().len(),
        ensures
            *r == self.nodes()[id.index_of() as int],
    {
        &self.items[id.to_index()]
    }

    pub fn span(&self, id: Ref) -> (r: Span)
        requires
            self.wf(),
            id.index_of() < self.nodes().len(),
        ensures
            r == self.spans()[id.index_of() as int],
    {
        self.spans[id.to_index()]
    }

    pub fn len(&self) -> (r: usize)
        requires
            self.wf(),
        ensures
            r == self.nodes().len(),
    {
        self.items.len()
    }

    /// All references the pool has handed out, in allocation order.
    pub fn ids(&self) -> (r: Vec<Ref>)
        requires
            self.wf(),
            self.nodes().len() <= Ref::max_index() + 1,
        ensures
            r@.len() == self.nodes().len(),
            forall|i: int| 0 <= i < r@.len() ==> (#[trigger] r@[i]).index_of() == i,
    {
        let n = self.items.len();
        let mut r: Vec<Ref> = Vec::new();
        let mut i: usize = 0;
        while i < n
            invariant
                n == self.nodes().len(),
                n <= Ref::max_index() + 1,
                i <= n,
                r@.len() == i,
                forall|j: int| 0 <= j < r@.len() ==> (#[trigger] r@[j]).index_of() == j,
            decreases n - i,
        {
            r.push(Ref::from_index(i));
            i = i + 1;
        }
        r
    }
}

/// Allocating a node and reading it back gives the node; the nodes allocated
/// before it read back unchanged.
pub proof fn law_alloc_then_get<T>(before: Seq<T>, node: T)
    ensures
        before.push(node)[before.len() as int] == node,
        forall|i: int| 0 <= i < before.len() ==> before.push(node)[i] == before[i],
{
}

/// Storage size of a value.
#[derive(Debug)]
pub enum Size {
    SArray { element_size: Box<Size>, length: usize },
    S8bit,
    S16bit,
    S32bit,
    S64bit,
    S128bit,
}

impl Clone for Size {
    fn clone(&self) -> (r: Self)
        ensures
            r == *self,
        decreases self,
    {
        match self {
            Size::SArray { element_size, length } => Size::SArray {
                element_size: Box::new((**element_size).clone()),
                length: *length,
            },
            Size::S8bit => Size::S8bit,
            Size::S16bit => Size::S16bit,
            Size::S32bit => Size::S32bit,
            Size::S64bit => Size::S64bit,
            Size::S128bit => Size::S128bit,
        }
    }
}

impl Size {
    /// Structural equality.
    pub fn same(&self, other: &Size) -> (r: bool)
        ensures
            r == (*self == *other),
        decreases self,
    {
        match (self, other) {
            (Size::SArray { element_size: e1, length: l1 }, Size::SArray { element_size: e2, length: l2 }) => {
                *l1 == *l2 && (**e1).same(&**e2)
            },
            (Size::S8bit, Size::S8bit) => true,
            (Size::S16bit, Size::S16bit) => true,
            (Size::S32bit, Size::S32bit) => true,
            (Size::S64bit, Size::S64bit) => true,
            (Size::S128bit, Size::S128bit) => true,
            _ => false,
        }
    }
}

impl PartialEq for Size {
    fn eq(&self, other: &Size) -> (r: bool) {
        self.same(other)
    }
}

impl vstd::std_specs::cmp::PartialEqSpecImpl for Size {
    open spec fn obeys_eq_spec() -> bool {
        true
    }

    open spec fn eq_spec(&self, other: &Size) -> bool {
        *self == *other
    }
}

impl Eq for Size {
}

impl Size {
    /// Number of bytes of a value of this size.
    pub open spec fn spec_bytes(&self) -> nat
        decreases self,
    {
        match self {
            Size::SArray { element_size, length } => element_size.spec_bytes() * (*length as nat),
            Size::S8bit => 1,
            Size::S16bit => 2,
            Size::S32bit => 4,
            Size::S64bit => 8,
            Size::S128bit => 16,
        }
    }

    /// The size of every element fits in a `usize`, and so does the whole.
    pub open spec fn bytes_fit(&self) -> bool
        decreases self,
    {
        &&& self.spec_bytes() <= usize::MAX
        &&& match self {
            Size::SArray { element_size, .. } => element_size.bytes_fit(),
            _ => true,
        }
    }

    pub fn get_element_size(&self) -> (r: Option<&Size>)
        ensures
            r == (match self {
                Size::SArray { element_size, .. } => Some(&**element_size),
                _ => None,
            }),
    {
        match self {
            Self::SArray { element_size, length: _ } => Some(element_size),
            _ => None,
        }
    }

    pub fn to_bytes(&self) -> (r: usize)
        requires
            self.bytes_fit(),
        ensures
            r == self.spec_bytes(),
        decreases self,
    {
        match self {
            Self::SArray { element_size, length } => {
                let e = element_size.to_bytes();
                proof {
                    assert(e * (*length as nat) <= usize::MAX);
                }
                e * *length
            },
            Self::S8bit => 1,
            Self::S16bit => 2,
            Self::S32bit => 4,
            Self::S64bit => 8,
            Self::S128bit => 16,
        }
    }
}

impl Size {
    /// The number of bytes, when every part of it fits in a `usize`.
    pub fn try_bytes(&self) -> (r: Option<usize>)
        ensures
            r matches Some(b) ==> self.bytes_fit() && b == self.spec_bytes(),
            r is None ==> !self.bytes_fit(),
        decreases self,
    {
        match self {
            Self::SArray { element_size, length } => match element_size.try_bytes() {
                Some(e) => e.checked_mul(*length),
                None => None,
            },
            Self::S8bit => Some(1),
            Self::S16bit => Some(2),
            Self::S32bit => Some(4),
            Self::S64bit => Some(8),
            Self::S128bit => Some(16),
        }
    }
}

} // verus!
