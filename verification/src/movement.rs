//! Word starts within a single line, found forward or backward from an
//! index, with offsets in bytes of the line.
use vstd::prelude::*;
use crate::text::{byte_len, bytes_of, chars_of, whitespace, is_whitespace};

verus! {

/// The walk of `next_word` over `rest` from index `k`: `delta` counts one
/// per character, `i` the runs of whitespace passed (`w` while inside
/// one); the answer is the first non-blank character once `count` runs are
/// passed, that is, the start of the `count`-th word ahead.
pub open spec fn next_walk(rest: Seq<char>, k: int, delta: int, i: int, w: bool, count: int) -> Option<
    int,
>
    decreases rest.len() - k,
{
    if k < 0 || k >= rest.len() {
        None
    } else {
        let c = rest[k];
        if !whitespace(c) && i == count {
            Some(delta)
        } else {
            let i2 = if whitespace(c) && !w {
                i + 1
            } else {
                i
            };
            next_walk(rest, k + 1, delta + 1, i2, whitespace(c), count)
        }
    }
}

/// The characters of `line` from index `start` on.
pub open spec fn from_index(line: Seq<char>, start: int) -> Seq<char> {
    if start >= line.len() {
        Seq::empty()
    } else {
        line.skip(start)
    }
}

/// What `next_word` gives: the walk over the characters from `start`,
/// counting from the bytes before them.
pub open spec fn next_word_spec(line: Seq<char>, start: int, count: int) -> Option<int> {
    let rest = from_index(line, start);
    next_walk(rest, 0, byte_len(line) - byte_len(rest), 0, false, count)
}

/// The walk of `prev_word` back over `rest` from index `k`: `res` goes down
/// one per character; a whitespace character that ends a word counts it,
/// and when `count` words are counted the answer is `res`. At the start the
/// answer is `res` if exactly `count` words were counted.
pub open spec fn prev_walk(rest: Seq<char>, k: int, res: int, in_word: bool, words: int, count: int) -> Option<
    int,
>
    decreases k + 1,
{
    if k < 0 {
        if count == words {
            Some(res)
        } else {
            None
        }
    } else if k >= rest.len() {
        None
    } else if whitespace(rest[k]) {
        if in_word && count == words + 1 {
            Some(res)
        } else {
            prev_walk(
                rest,
                k - 1,
                res - 1,
                false,
                if in_word {
                    words + 1
                } else {
                    words
                },
                count,
            )
        }
    } else {
        prev_walk(rest, k - 1, res - 1, true, words, count)
    }
}

/// The characters of `line` before index `start`.
pub open spec fn up_to(line: Seq<char>, start: int) -> Seq<char> {
    if start >= line.len() {
        line
    } else {
        line.take(start)
    }
}

/// What `prev_word` gives: the walk back over the characters before
/// `start`, from their length in bytes.
pub open spec fn prev_word_spec(line: Seq<char>, start: int, count: int) -> Option<int> {
    let rest = up_to(line, start);
    prev_walk(rest, rest.len() - 1, byte_len(rest) as int, false, 0, count)
}

proof fn lemma_byte_len_split(s: Seq<char>, k: int)
    requires
        0 <= k <= s.len(),
    ensures
        byte_len(s) == byte_len(s.take(k)) + byte_len(s.skip(k)),
    decreases s.len() - k,
{
    if k < s.len() {
        lemma_byte_len_split(s, k + 1);
        assert(s.take(k + 1).drop_last() =~= s.take(k));
        assert(s.take(k + 1).last() == s[k]);
        assert(s.skip(k).drop_first() =~= s.skip(k + 1));
        lemma_byte_len_first(s.skip(k));
    } else {
        assert(s.take(k) =~= s);
        assert(s.skip(k) =~= Seq::<char>::empty());
    }
}

proof fn lemma_byte_len_first(s: Seq<char>)
    requires
        s.len() > 0,
    ensures
        byte_len(s) == crate::text::utf8_width(s[0]) + byte_len(s.drop_first()),
    decreases s.len(),
{
    if s.len() > 1 {
        lemma_byte_len_first(s.drop_last());
        assert(s.drop_last().drop_first() =~= s.drop_first().drop_last());
        assert(s.drop_first().last() == s.last());
        assert(s.drop_last()[0] == s[0]);
    } else {
        assert(s.drop_first() =~= Seq::<char>::empty());
        assert(s.drop_last() =~= Seq::<char>::empty());
    }
}

/// The offset, in `line`, of the start of the `count`-th word after index
/// `start`: the first non-blank character once `count` runs of whitespace
/// are passed; see `next_word_spec`.
pub fn next_word(line: &str, start: usize, count: usize) -> (r: Option<usize>)
    requires
        line@.len() <= usize::MAX / 8,
    ensures
        r matches Some(x) ==> next_word_spec(line@, start as int, count as int) == Some(x as int),
        r is None ==> next_word_spec(line@, start as int, count as int) is None,
{
    let v = chars_of(line);
    let n = v.len();
    let total = bytes_of(v.as_slice());
    let from = if start < n {
        start
    } else {
        n
    };
    proof {
        crate::text::lemma_byte_len_bounds(v@);
        lemma_byte_len_split(v@, from as int);
        if start >= n {
            assert(v@.skip(from as int) =~= Seq::<char>::empty());
        }
        crate::text::lemma_byte_len_bounds(v@.take(from as int));
    }
    let ghost rest = from_index(v@, start as int);
    assert(rest =~= v@.skip(from as int));
    let prefix = crate::text::slice_to_vec(&v, 0, from);
    let head = bytes_of(prefix.as_slice());
    let mut delta: usize = head;
    let mut i: usize = 0;
    let mut w = false;
    let mut k = from;
    proof {
        assert(prefix@ =~= v@.take(from as int));
    }
    while k < n
        invariant
            v@ == line@,
            n == v.len(),
            n <= usize::MAX / 8,
            from <= k <= n,
            rest == v@.skip(from as int),
            delta == head + (k - from),
            head <= 4 * n,
            i <= k - from,
            next_word_spec(line@, start as int, count as int) == next_walk(
                rest,
                (k - from) as int,
                delta as int,
                i as int,
                w,
                count as int,
            ),
            byte_len(line@) - byte_len(rest) == head,
        decreases n - k,
    {
        let c = v[k];
        assert(rest[(k - from) as int] == c);
        let blank = is_whitespace(c);
        if !blank && i == count {
            return Some(delta);
        }
        if blank && !w {
            i = i + 1;
        }
        w = blank;
        delta = delta + 1;
        k = k + 1;
    }
    None
}

/// The byte offset of the start of the `count`-th word back from index
/// `start` in `line`; see `prev_word_spec`.
pub fn prev_word(line: &str, start: usize, count: usize) -> (r: Option<usize>)
    requires
        line@.len() <= usize::MAX / 8,
    ensures
        r matches Some(x) ==> prev_word_spec(line@, start as int, count as int) == Some(x as int),
        r is None ==> prev_word_spec(line@, start as int, count as int) is None,
{
    let v = chars_of(line);
    let n = v.len();
    let upto = if start < n {
        start
    } else {
        n
    };
    let ghost rest = up_to(v@, start as int);
    assert(rest =~= v@.take(upto as int));
    let prefix = crate::text::slice_to_vec(&v, 0, upto);
    proof {
        assert(prefix@ =~= v@.take(upto as int));
        crate::text::lemma_byte_len_bounds(v@.take(upto as int));
    }
    let mut res: usize = bytes_of(prefix.as_slice());
    let mut in_word = false;
    let mut words: usize = 0;
    let mut k = upto;
    while k > 0
        invariant
            v@ == line@,
            n == v.len(),
            k <= upto <= n,
            rest == v@.take(upto as int),
            rest.len() == upto,
            res >= k,
            words <= upto - k,
            prev_word_spec(line@, start as int, count as int) == prev_walk(
                rest,
                k - 1,
                res as int,
                in_word,
                words as int,
                count as int,
            ),
        decreases k,
    {
        let c = v[k - 1];
        assert(rest[k - 1] == c);
        if is_whitespace(c) {
            if in_word {
                words = words + 1;
                if count == words {
                    return Some(res);
                }
            }
            in_word = false;
        } else {
            in_word = true;
        }
        res = res - 1;
        k = k - 1;
    }
    if count == words {
        return Some(res);
    }
    None
}

/// Every character of `s` is ASCII: one byte each.
pub open spec fn ascii_only(s: Seq<char>) -> bool {
    forall|i: int| 0 <= i < s.len() ==> (#[trigger] s[i] as u32) < 0x80
}

/// A word starts at index `m` of `s`: a non-blank character after a blank
/// one.
pub open spec fn starts_word(s: Seq<char>, m: int) -> bool {
    0 < m < s.len() && whitespace(s[m - 1]) && !whitespace(s[m])
}

proof fn lemma_ascii_bytes(s: Seq<char>)
    requires
        ascii_only(s),
    ensures
        byte_len(s) == s.len(),
    decreases s.len(),
{
    if s.len() > 0 {
        assert((s.last() as u32) < 0x80);
        lemma_ascii_bytes(s.drop_last());
    }
}

/// The walk for one word ahead: before any blank, or right after blanks,
/// no word has started yet; it ends on the first word start, or finds
/// none.
proof fn lemma_next_walk_one(rest: Seq<char>, k: int, base: int, i: int, w: bool)
    requires
        0 <= k <= rest.len(),
        i == 0 || i == 1,
        i == 0 ==> !w && forall|m: int| 0 <= m < k ==> !whitespace(#[trigger] rest[m]),
        i == 1 ==> w && k > 0 && whitespace(rest[k - 1]),
        w ==> k > 0 && whitespace(rest[k - 1]),
        forall|m: int| 0 < m < k ==> !starts_word(rest, m),
    ensures
        next_walk(rest, k, base + k, i, w, 1) matches Some(x) ==> {
            &&& k <= x - base < rest.len()
            &&& starts_word(rest, x - base)
            &&& forall|m: int| 0 < m < x - base ==> !starts_word(rest, m)
        },
        next_walk(rest, k, base + k, i, w, 1) is None ==> forall|m: int|
            0 < m < rest.len() ==> !starts_word(rest, m),
    decreases rest.len() - k,
{
    if k < rest.len() {
        let c = rest[k];
        if !whitespace(c) && i == 1 {
        } else {
            let i2 = if whitespace(c) && !w {
                i + 1
            } else {
                i
            };
            if k > 0 && !whitespace(c) {
                assert(!whitespace(rest[k - 1]));
            }
            lemma_next_walk_one(rest, k + 1, base, i2, whitespace(c));
        }
    }
}

/// On an ASCII line, `next_word` with a count of one gives the first word
/// start after `start` (a non-blank character after a blank one), and
/// none when no word starts after it.
pub proof fn law_next_word_finds_word_start(line: Seq<char>, start: int)
    requires
        0 <= start < line.len(),
        ascii_only(line),
    ensures
        next_word_spec(line, start, 1) matches Some(j) ==> {
            &&& start < j < line.len()
            &&& starts_word(line, j)
            &&& forall|m: int| start < m < j ==> !starts_word(line, m)
        },
        next_word_spec(line, start, 1) is None ==> forall|m: int|
            start < m < line.len() ==> !starts_word(line, m),
{
    let rest = line.skip(start);
    lemma_ascii_offset(line, start);
    lemma_next_walk_one(rest, 0, start, 0, false);
    assert forall|m: int| 0 < m < rest.len() implies starts_word(rest, m) == starts_word(line, start + m) by {
        assert(rest[m] == line[start + m]);
        assert(rest[m - 1] == line[start + m - 1]);
    }
    if let Some(j) = next_word_spec(line, start, 1) {
        assert forall|m: int| start < m < j implies !starts_word(line, m) by {
            assert(starts_word(rest, m - start) == starts_word(line, m));
        }
    } else {
        assert forall|m: int| start < m < line.len() implies !starts_word(line, m) by {
            assert(starts_word(rest, m - start) == starts_word(line, m));
        }
    }
}

/// The walk back for one word: every word start after the character at
/// hand is passed; it ends on the nearest word start before them, or finds
/// none.
proof fn lemma_prev_walk_one(rest: Seq<char>, k: int, in_word: bool)
    requires
        -1 <= k < rest.len(),
        in_word == (k + 1 < rest.len() && !whitespace(rest[k + 1])),
        forall|m: int| k + 2 <= m < rest.len() ==> !starts_word(rest, m),
    ensures
        prev_walk(rest, k, k + 1, in_word, 0, 1) matches Some(x) ==> {
            &&& 0 < x <= k + 1
            &&& starts_word(rest, x)
            &&& forall|m: int| x < m < rest.len() ==> !starts_word(rest, m)
        },
        prev_walk(rest, k, k + 1, in_word, 0, 1) is None ==> forall|m: int|
            0 < m < rest.len() ==> !starts_word(rest, m),
    decreases k + 1,
{
    if k >= 0 {
        if whitespace(rest[k]) && in_word {
        } else {
            lemma_prev_walk_one(rest, k - 1, !whitespace(rest[k]));
        }
    }
}

/// On an ASCII line, `prev_word` with a count of one gives the nearest
/// word start before `start` (a non-blank character after a blank one),
/// and none when no word starts before it.
pub proof fn law_prev_word_finds_word_start(line: Seq<char>, start: int)
    requires
        0 <= start <= line.len(),
        ascii_only(line),
    ensures
        prev_word_spec(line, start, 1) matches Some(j) ==> {
            &&& 0 < j < start
            &&& starts_word(line, j)
            &&& forall|m: int| j < m < start ==> !starts_word(line, m)
        },
        prev_word_spec(line, start, 1) is None ==> forall|m: int|
            0 < m < start ==> !starts_word(line, m),
{
    let rest = line.take(start);
    assert(up_to(line, start) =~= rest);
    assert forall|i: int| 0 <= i < rest.len() implies (#[trigger] rest[i] as u32) < 0x80 by {
        assert(rest[i] == line[i]);
    }
    lemma_ascii_bytes(rest);
    lemma_prev_walk_one(rest, rest.len() - 1, false);
    assert forall|m: int| 0 < m < start implies starts_word(rest, m) == starts_word(line, m) by {
        assert(rest[m] == line[m]);
        assert(rest[m - 1] == line[m - 1]);
    }
}

/// On an ASCII line the characters from `start` on are counted from
/// byte `start`.
proof fn lemma_ascii_offset(line: Seq<char>, start: int)
    requires
        0 <= start < line.len(),
        ascii_only(line),
    ensures
        from_index(line, start) == line.skip(start),
        byte_len(line) - byte_len(line.skip(start)) == start,
{
    lemma_byte_len_split(line, start);
    assert forall|i: int| 0 <= i < line.take(start).len() implies (#[trigger] line.take(start)[i] as u32) < 0x80 by {
        assert(line.take(start)[i] == line[i]);
    }
    lemma_ascii_bytes(line.take(start));
}

/// The walk does not depend on where the characters it has passed begin,
/// nor on the runs counted so far beyond those still owed.
proof fn lemma_next_walk_shift(rest: Seq<char>, m: int, k: int, d: int, i: int, w: bool, cnt: int, sh: int)
    requires
        0 <= m <= k,
        m <= rest.len(),
    ensures
        next_walk(rest, k, d, i, w, cnt) == next_walk(rest.skip(m), k - m, d, i - sh, w, cnt - sh),
    decreases rest.len() - k,
{
    if k < rest.len() {
        assert(rest.skip(m)[k - m] == rest[k]);
        let c = rest[k];
        if !(!whitespace(c) && i == cnt) {
            let i2 = if whitespace(c) && !w {
                i + 1
            } else {
                i
            };
            lemma_next_walk_shift(rest, m, k + 1, d + 1, i2, whitespace(c), cnt, sh);
            assert(k + 1 - m == (k - m) + 1);
        }
    }
}

/// Walking for one more word goes the same way up to the word the shorter
/// walk ends on, and then on from the character after it.
proof fn lemma_next_walk_more(rest: Seq<char>, k: int, base: int, i: int, w: bool, n: int)
    requires
        0 <= k,
        1 <= n,
        i < n || (i == n && w),
    ensures
        next_walk(rest, k, base + k, i, w, n) matches Some(x) ==> {
            &&& k <= x - base < rest.len()
            &&& !whitespace(rest[x - base])
            &&& next_walk(rest, k, base + k, i, w, n + 1) == next_walk(
                rest,
                x - base + 1,
                x + 1,
                n,
                false,
                n + 1,
            )
        },
        next_walk(rest, k, base + k, i, w, n) is None ==> next_walk(rest, k, base + k, i, w, n + 1)
            is None,
    decreases rest.len() - k,
{
    if k < rest.len() {
        let c = rest[k];
        if !(!whitespace(c) && i == n) {
            let i2 = if whitespace(c) && !w {
                i + 1
            } else {
                i
            };
            lemma_next_walk_more(rest, k + 1, base, i2, whitespace(c), n);
            assert(base + k + 1 == base + (k + 1));
        }
    }
}

/// On an ASCII line, `next_word` for `n + 1` words is `next_word` for `n`
/// words and then for one more from there.
pub proof fn law_next_word_count(line: Seq<char>, start: int, n: int)
    requires
        0 <= start < line.len(),
        ascii_only(line),
        n >= 1,
    ensures
        next_word_spec(line, start, n + 1) == match next_word_spec(line, start, n) {
            Some(j) => next_word_spec(line, j, 1),
            None => None,
        },
{
    let rest = line.skip(start);
    lemma_ascii_offset(line, start);
    lemma_next_walk_more(rest, 0, start, 0, false, n);
    if let Some(x) = next_word_spec(line, start, n) {
        let k0 = x - start;
        lemma_ascii_offset(line, x);
        let rest2 = line.skip(x);
        assert(rest2 =~= rest.skip(k0));
        assert(rest2[0] == rest[k0]);
        assert(next_walk(rest2, 0, x, 0, false, 1) == next_walk(rest2, 1, x + 1, 0, false, 1));
        lemma_next_walk_shift(rest, k0, k0 + 1, x + 1, n, false, n + 1, n);
    }
}

} // verus!
