//! A gap buffer of characters: the text before the cursor sits at the front
//! of the storage, the text after it at the back, with a gap in between that
//! insertions fill and that doubles when it is used up.
use vstd::prelude::*;
use crate::text::string_of;

verus! {

/// Text with a cursor, kept as a gap buffer.
pub struct Gap {
    buf: Vec<char>,
    c: usize,
    d: usize,
}

/// The text after inserting `ch` at index `i` of `t`.
pub open spec fn inserted(t: Seq<char>, i: int, ch: char) -> Seq<char> {
    t.take(i).push(ch) + t.skip(i)
}

/// The text after removing the character at index `i` of `t`.
pub open spec fn removed(t: Seq<char>, i: int) -> Seq<char> {
    t.take(i) + t.skip(i + 1)
}

/// The marker line of the debug view: `'C'` at the cursor, `'D'` at the end
/// of the gap (which wins where they meet), `'.'` elsewhere.
pub open spec fn marker_line(len: nat, c: int, d: int) -> Seq<char> {
    Seq::new(len, |i: int| if i == d { 'D' } else if i == c { 'C' } else { '.' })
}

/// Removing what was just inserted gives the text back.
pub proof fn law_insert_then_remove(t: Seq<char>, i: int, ch: char)
    requires
        0 <= i <= t.len(),
    ensures
        removed(inserted(t, i, ch), i) == t,
        inserted(t, i, ch).len() == t.len() + 1,
        inserted(t, i, ch)[i] == ch,
{
    assert(removed(inserted(t, i, ch), i) =~= t);
}

/// Trusted: `Vec::capacity`, which the allocator decides; the
/// documentation promises at least the length and at most `isize::MAX`.
#[verifier::external_body]
pub(crate) fn vec_capacity(v: &Vec<char>) -> (n: usize)
    ensures
        v.len() <= n <= isize::MAX,
{
    v.capacity()
}

impl Gap {
    /// Storage, cursor and gap end agree: the cursor is at most the gap end,
    /// which is at most the storage length.
    pub closed spec fn wf(&self) -> bool {
        self.c <= self.d <= self.buf.len()
    }

    /// The text held, without the gap.
    pub closed spec fn chars(&self) -> Seq<char> {
        self.buf@.take(self.c as int) + self.buf@.skip(self.d as int)
    }

    /// Index in the text of the character right after the cursor.
    pub closed spec fn cursor(&self) -> nat {
        self.c as nat
    }

    /// Size of the storage.
    pub closed spec fn capacity(&self) -> nat {
        self.buf.len() as nat
    }

    /// The raw storage, gap included.
    pub closed spec fn cells(&self) -> Seq<char> {
        self.buf@
    }

    /// Index in the storage where the gap ends.
    pub closed spec fn gap_end(&self) -> nat {
        self.d as nat
    }

    pub proof fn lemma_wf(&self)
        requires
            self.wf(),
        ensures
            self.cursor() <= self.chars().len(),
            self.chars().len() <= self.capacity(),
            self.chars().len() == self.capacity() - (self.gap_end() - self.cursor()),
            self.cursor() <= self.gap_end() <= self.capacity(),
            self.cells().len() == self.capacity(),
    {
    }

    /// An empty text with room for `cap` characters.
    pub fn new(cap: usize) -> (g: Self)
        ensures
            g.wf(),
            g.chars() == Seq::<char>::empty(),
            g.cursor() == 0,
            g.capacity() == cap,
            g.cells() == Seq::new(cap as nat, |i: int| 'x'),
            g.gap_end() == cap,
    {
        let g = Gap { buf: vec!['x'; cap], c: 0, d: cap };
        proof {
            assert(g.chars() =~= Seq::<char>::empty());
            assert(g.cells() =~= Seq::new(cap as nat, |i: int| 'x'));
        }
        g
    }

    /// A copy of this gap buffer, storage included.
    pub fn duplicate(&self) -> (g: Self)
        requires
            self.wf(),
        ensures
            g.wf(),
            g.chars() == self.chars(),
            g.cursor() == self.cursor(),
            g.capacity() == self.capacity(),
            g.cells() == self.cells(),
            g.gap_end() == self.gap_end(),
    {
        let mut buf: Vec<char> = Vec::new();
        let mut i: usize = 0;
        while i < self.buf.len()
            invariant
                i <= self.buf.len(),
                buf@ == self.buf@.take(i as int),
            decreases self.buf.len() - i,
        {
            buf.push(self.buf[i]);
            i = i + 1;
            proof {
                assert(buf@ =~= self.buf@.take(i as int));
            }
        }
        proof {
            assert(buf@ =~= self.buf@);
        }
        Gap { buf, c: self.c, d: self.d }
    }

    /// Number of characters in the text.
    pub fn len(&self) -> (n: usize)
        requires
            self.wf(),
        ensures
            n == self.chars().len(),
    {
        self.c + (self.buf.len() - self.d)
    }

    /// Index of the cursor in the text.
    pub fn cursor_index(&self) -> (n: usize)
        ensures
            n == self.cursor(),
    {
        self.c
    }

    /// The storage cell at `i`.
    pub fn cell(&self, i: usize) -> (ch: char)
        requires
            self.wf(),
            i < self.capacity(),
        ensures
            ch == self.cells()[i as int],
    {
        self.buf[i]
    }

    /// Storage size.
    pub fn storage_len(&self) -> (n: usize)
        ensures
            n == self.capacity(),
    {
        self.buf.len()
    }

    /// Storage index where the gap ends.
    pub fn gap_end_index(&self) -> (n: usize)
        ensures
            n == self.gap_end(),
    {
        self.d
    }

    /// The character at index `i` of the text.
    pub fn get(&self, i: usize) -> (ch: char)
        requires
            self.wf(),
            i < self.chars().len(),
        ensures
            ch == self.chars()[i as int],
    {
        if i < self.c {
            self.buf[i]
        } else {
            self.buf[i - self.c + self.d]
        }
    }

    /// The characters of the text.
    pub fn to_vec(&self) -> (v: Vec<char>)
        requires
            self.wf(),
        ensures
            v@ == self.chars(),
    {
        let mut v: Vec<char> = Vec::new();
        let mut i: usize = 0;
        while i < self.c
            invariant
                self.wf(),
                i <= self.c,
                v@ == self.buf@.take(i as int),
            decreases self.c - i,
        {
            v.push(self.buf[i]);
            i = i + 1;
            proof {
                assert(v@ =~= self.buf@.take(i as int));
            }
        }
        let mut j: usize = self.d;
        while j < self.buf.len()
            invariant
                self.wf(),
                self.d <= j <= self.buf.len(),
                v@ == self.buf@.take(self.c as int) + self.buf@.subrange(self.d as int, j as int),
            decreases self.buf.len() - j,
        {
            v.push(self.buf[j]);
            j = j + 1;
            proof {
                assert(v@ =~= self.buf@.take(self.c as int) + self.buf@.subrange(
                    self.d as int,
                    j as int,
                ));
            }
        }
        proof {
            assert(v@ =~= self.chars());
        }
        v
    }

    /// The text as a string.
    pub fn text(&self) -> (s: String)
        requires
            self.wf(),
        ensures
            s@ == self.chars(),
    {
        let v = self.to_vec();
        string_of(v.as_slice())
    }

    /// Moves the cursor one character left; nothing at the start of the text.
    pub fn left(&mut self)
        requires
            old(self).wf(),
        ensures
            final(self).wf(),
            final(self).chars() == old(self).chars(),
            final(self).capacity() == old(self).capacity(),
            final(self).cursor() == if old(self).cursor() == 0 {
                0
            } else {
                old(self).cursor() - 1
            },
            old(self).cursor() > 0 ==> final(self).cells() == old(self).cells().update(
                old(self).gap_end() - 1,
                old(self).cells()[old(self).cursor() - 1],
            ),
            old(self).cursor() > 0 ==> final(self).gap_end() == old(self).gap_end() - 1,
            old(self).cursor() == 0 ==> *final(self) == *old(self),
    {
        if self.c == 0 {
            return;
        }
        let recv = self.buf[self.c - 1];
        self.buf.set(self.d - 1, recv);
        self.c = self.c - 1;
        self.d = self.d - 1;
        proof {
            assert(self.chars() =~= old(self).chars());
        }
    }

    /// Moves the cursor one character right; nothing at the end of the text.
    pub fn right(&mut self)
        requires
            old(self).wf(),
        ensures
            final(self).wf(),
            final(self).chars() == old(self).chars(),
            final(self).capacity() == old(self).capacity(),
            final(self).cursor() == if old(self).cursor() == old(self).chars().len() {
                old(self).cursor() as int
            } else {
                old(self).cursor() + 1int
            },
            old(self).cursor() < old(self).chars().len() ==> final(self).gap_end()
                == old(self).gap_end() + 1,
            old(self).cursor() < old(self).chars().len() ==> final(self).cells()
                == old(self).cells().update(
                old(self).cursor() as int,
                old(self).cells()[old(self).gap_end() as int],
            ),
            old(self).cursor() == old(self).chars().len() ==> *final(self) == *old(self),
    {
        if self.d == self.buf.len() {
            return;
        }
        let recv = self.buf[self.d];
        self.buf.set(self.c, recv);
        self.d = self.d + 1;
        self.c = self.c + 1;
        proof {
            assert(self.chars() =~= old(self).chars());
        }
    }

    /// Inserts `v` before the cursor; the cursor stays after it. The storage
    /// doubles first when the gap is used up.
    pub fn insert(&mut self, v: char)
        requires
            old(self).wf(),
            old(self).chars().len() == old(self).capacity() ==> 0 < old(self).capacity()
                <= usize::MAX / 2,
        ensures
            final(self).wf(),
            final(self).chars() == inserted(old(self).chars(), old(self).cursor() as int, v),
            final(self).cursor() == old(self).cursor() + 1,
            final(self).capacity() == if old(self).chars().len() == old(self).capacity() {
                2 * old(self).capacity() as int
            } else {
                old(self).capacity() as int
            },
    {
        if self.c == self.d {
            self.grow();
        }
        self.buf.set(self.c, v);
        self.c = self.c + 1;
        proof {
            assert(self.chars() =~= inserted(old(self).chars(), old(self).cursor() as int, v));
        }
    }

    /// Removes the character before the cursor; nothing at the start.
    pub fn backspace(&mut self)
        requires
            old(self).wf(),
        ensures
            final(self).wf(),
            final(self).capacity() == old(self).capacity(),
            old(self).cursor() == 0 ==> final(self).chars() == old(self).chars()
                && final(self).cursor() == 0,
            old(self).cursor() > 0 ==> final(self).chars() == removed(
                old(self).chars(),
                old(self).cursor() - 1,
            ) && final(self).cursor() == old(self).cursor() - 1,
    {
        if self.c == 0 {
            return;
        }
        self.c = self.c - 1;
        proof {
            assert(self.chars() =~= removed(old(self).chars(), old(self).cursor() - 1));
        }
    }

    /// Removes the character after the cursor; nothing at the end.
    pub fn delete_forward(&mut self)
        requires
            old(self).wf(),
        ensures
            final(self).wf(),
            final(self).capacity() == old(self).capacity(),
            final(self).cursor() == old(self).cursor(),
            old(self).cursor() == old(self).chars().len() ==> final(self).chars() == old(
                self,
            ).chars(),
            old(self).cursor() < old(self).chars().len() ==> final(self).chars() == removed(
                old(self).chars(),
                old(self).cursor() as int,
            ),
    {
        if self.d == self.buf.len() {
            return;
        }
        self.d = self.d + 1;
        proof {
            assert(self.chars() =~= removed(old(self).chars(), old(self).cursor() as int));
        }
    }

    /// Doubles the storage, keeping the text and the cursor; the text after
    /// the cursor moves to the end of the new storage.
    pub fn grow(&mut self)
        requires
            old(self).wf(),
            old(self).capacity() <= usize::MAX / 2,
        ensures
            final(self).wf(),
            final(self).chars() == old(self).chars(),
            final(self).cursor() == old(self).cursor(),
            final(self).capacity() == 2 * old(self).capacity(),
    {
        let offset = self.buf.len() - self.d;
        let m = self.buf.len();
        let n = m * 2;
        let mut buf = vec!['x'; n];
        let mut i: usize = 0;
        while i < self.c
            invariant
                self.wf(),
                i <= self.c,
                buf.len() == n,
                n == 2 * self.buf.len(),
                forall|k: int| 0 <= k < i ==> buf@[k] == self.buf@[k],
            decreases self.c - i,
        {
            buf.set(i, self.buf[i]);
            i = i + 1;
        }
        let mut j: usize = self.d;
        while j < m
            invariant
                self.wf(),
                m == self.buf.len(),
                self.d <= j <= m,
                buf.len() == n,
                n == 2 * m,
                forall|k: int| 0 <= k < self.c ==> buf@[k] == self.buf@[k],
                forall|k: int| self.d <= k < j ==> buf@[n - m + k] == self.buf@[k],
            decreases m - j,
        {
            buf.set(n - m + j, self.buf[j]);
            j = j + 1;
        }
        self.buf = buf;
        self.d = n - offset;
        proof {
            assert(self.chars() =~= old(self).chars()) by {
                assert forall|k: int| 0 <= k < old(self).chars().len() implies self.chars()[k]
                    == old(self).chars()[k] by {
                    if k >= self.c {
                        assert(self.buf@[self.d + k - self.c] == old(self).buf@[old(self).d + k
                            - self.c]);
                    }
                }
            }
        }
    }

    /// Room the storage has allocated.
    pub fn allocated(&self) -> (n: usize)
        ensures
            self.capacity() <= n <= isize::MAX,
    {
        vec_capacity(&self.buf)
    }

    /// Debug view: the storage, a newline, and a marker line of `'C'` at the
    /// cursor and `'D'` at the gap end.
    pub fn show(&self) -> (s: String)
        requires
            self.wf(),
            self.gap_end() < self.capacity(),
        ensures
            s@ == self.cells() + seq!['\n'] + marker_line(
                self.capacity(),
                self.cursor() as int,
                self.gap_end() as int,
            ),
    {
        let mut v: Vec<char> = Vec::new();
        let mut i: usize = 0;
        while i < self.buf.len()
            invariant
                i <= self.buf.len(),
                v@ == self.buf@.take(i as int),
            decreases self.buf.len() - i,
        {
            v.push(self.buf[i]);
            i = i + 1;
            proof {
                assert(v@ =~= self.buf@.take(i as int));
            }
        }
        v.push('\n');
        let mut marks = vec!['.'; self.buf.len()];
        marks.set(self.c, 'C');
        marks.set(self.d, 'D');
        let mut k: usize = 0;
        while k < marks.len()
            invariant
                k <= marks.len(),
                v@ == self.buf@ + seq!['\n'] + marks@.take(k as int),
            decreases marks.len() - k,
        {
            v.push(marks[k]);
            k = k + 1;
            proof {
                assert(v@ =~= self.buf@ + seq!['\n'] + marks@.take(k as int));
            }
        }
        proof {
            assert(self.buf@.take(self.buf.len() as int) =~= self.buf@);
            assert(marks@.take(marks.len() as int) =~= marks@);
            assert(marks@ =~= marker_line(self.capacity(), self.c as int, self.d as int));
        }
        string_of(v.as_slice())
    }
}

} // verus!
