//! Splitting of path text at the `::` separator.

use vstd::prelude::*;
use vstd::string::*;

verus! {

/// The two characters that separate the segments of a path.
pub open spec fn separator() -> Seq<char> {
    seq![':', ':']
}

/// A separator starts at position `i` of `s`.
pub open spec fn separator_at(s: Seq<char>, i: int) -> bool {
    0 <= i && i + 1 < s.len() && s[i] == ':' && s[i + 1] == ':'
}

/// The position of the first separator of `s` at or after `from`, or the
/// length of `s` where there is none.
pub open spec fn next_separator(s: Seq<char>, from: int) -> int
    decreases s.len() - from,
{
    if from < 0 || from + 1 >= s.len() {
        s.len() as int
    } else if separator_at(s, from) {
        from
    } else {
        next_separator(s, from + 1)
    }
}

/// What `next_separator` finds: nothing before it, and a separator at it
/// unless it is the length.
pub proof fn lemma_next_separator(s: Seq<char>, from: int)
    requires
        0 <= from <= s.len(),
    ensures
        from <= next_separator(s, from) <= s.len(),
        next_separator(s, from) < s.len() ==> separator_at(s, next_separator(s, from)),
        forall|j: int| from <= j < next_separator(s, from) ==> !separator_at(s, j),
    decreases s.len() - from,
{
    if from + 1 >= s.len() {
    } else if separator_at(s, from) {
    } else {
        lemma_next_separator(s, from + 1);
    }
}

/// The segments of `s` from position `from` on: the text up to the next
/// separator, then the segments behind that separator. There is always at
/// least one, and the last one may be empty.
pub open spec fn split_from(s: Seq<char>, from: int) -> Seq<Seq<char>>
    decreases s.len() - from,
{
    let i = next_separator(s, from);
    if from <= i && i + 1 < s.len() {
        seq![s.subrange(from, i)] + split_from(s, i + 2)
    } else {
        seq![s.subrange(from, s.len() as int)]
    }
}

/// The segments of a path text. The empty text has none; any other text is
/// cut at its separators, read from the left.
pub open spec fn segments_of(s: Seq<char>) -> Seq<Seq<char>> {
    if s.len() == 0 {
        Seq::empty()
    } else {
        split_from(s, 0)
    }
}

/// The text that holds `segs` with a separator between neighbours.
pub open spec fn join(segs: Seq<Seq<char>>) -> Seq<char>
    decreases segs.len(),
{
    if segs.len() == 0 {
        Seq::empty()
    } else if segs.len() == 1 {
        segs[0]
    } else {
        segs[0] + separator() + join(segs.drop_first())
    }
}

/// Where the last segment of `s` starts, scanning from `from`.
pub open spec fn last_segment_start(s: Seq<char>, from: int) -> int
    decreases s.len() - from,
{
    let i = next_separator(s, from);
    if from <= i && i + 1 < s.len() {
        last_segment_start(s, i + 2)
    } else {
        from
    }
}

/// The text begins with a separator: the fully qualified form.
pub open spec fn has_leading_separator(s: Seq<char>) -> bool {
    separator_at(s, 0)
}

/// The first segment of the text is the word `crate`.
pub open spec fn is_crate_rooted(s: Seq<char>) -> bool {
    segments_of(s).len() > 0 && segments_of(s)[0] == seq!['c', 'r', 'a', 't', 'e']
}

/// A text has at least one segment from any position on.
pub proof fn lemma_split_len(s: Seq<char>, from: int)
    ensures
        split_from(s, from).len() >= 1,
    decreases s.len() - from,
{
    let i = next_separator(s, from);
    if from <= i && i + 1 < s.len() {
        lemma_split_len(s, i + 2);
    }
}

/// Cutting off a front part of the text shifts the separators with it.
pub proof fn lemma_next_separator_shift(s: Seq<char>, k: int, j: int)
    requires
        0 <= k <= s.len(),
        0 <= j <= s.len() - k,
    ensures
        next_separator(s.subrange(k, s.len() as int), j) + k == next_separator(s, j + k),
    decreases s.len() - k - j,
{
    let t = s.subrange(k, s.len() as int);
    if j + 1 >= t.len() {
    } else if separator_at(t, j) {
        assert(separator_at(s, j + k));
    } else {
        assert(!separator_at(s, j + k));
        lemma_next_separator_shift(s, k, j + 1);
    }
}

/// The segments of a tail of the text are those of the text from there on.
pub proof fn lemma_split_shift(s: Seq<char>, k: int, j: int)
    requires
        0 <= k <= s.len(),
        0 <= j <= s.len() - k,
    ensures
        split_from(s.subrange(k, s.len() as int), j) == split_from(s, j + k),
    decreases s.len() - k - j,
{
    let t = s.subrange(k, s.len() as int);
    lemma_next_separator_shift(s, k, j);
    lemma_next_separator(t, j);
    let i = next_separator(t, j);
    if j <= i && i + 1 < t.len() {
        lemma_split_shift(s, k, i + 2);
        assert(t.subrange(j, i) =~= s.subrange(j + k, i + k));
    } else {
        assert(t.subrange(j, t.len() as int) =~= s.subrange(j + k, s.len() as int));
    }
}

/// Joining the segments gives the text back.
pub proof fn lemma_join_split(s: Seq<char>, from: int)
    requires
        0 <= from <= s.len(),
    ensures
        join(split_from(s, from)) == s.subrange(from, s.len() as int),
    decreases s.len() - from,
{
    lemma_next_separator(s, from);
    let i = next_separator(s, from);
    if from <= i && i + 1 < s.len() {
        let rest = split_from(s, i + 2);
        let segs = seq![s.subrange(from, i)] + rest;
        lemma_split_len(s, i + 2);
        lemma_join_split(s, i + 2);
        assert(segs.drop_first() =~= rest);
        assert(s.subrange(from, i) + separator() + s.subrange(i + 2, s.len() as int)
            =~= s.subrange(from, s.len() as int));
    }
}

/// Joining the segments of a text gives the text back.
pub proof fn lemma_join_segments(s: Seq<char>)
    ensures
        join(segments_of(s)) == s,
{
    if s.len() > 0 {
        lemma_join_split(s, 0);
        assert(s.subrange(0, s.len() as int) =~= s);
    } else {
        assert(s =~= Seq::<char>::empty());
    }
}

/// Joining two lists of segments puts a separator between what they join to.
pub proof fn lemma_join_concat(a: Seq<Seq<char>>, b: Seq<Seq<char>>)
    requires
        a.len() > 0,
        b.len() > 0,
    ensures
        join(a + b) == join(a) + separator() + join(b),
    decreases a.len(),
{
    let all = a + b;
    if a.len() == 1 {
        assert(all.drop_first() =~= b);
    } else {
        lemma_join_concat(a.drop_first(), b);
        assert(all.drop_first() =~= a.drop_first() + b);
        assert(join(all) =~= join(a) + separator() + join(b));
    }
}

/// All segments but the last, joined, are the text in front of the last
/// separator.
pub proof fn lemma_last_segment(s: Seq<char>, from: int)
    requires
        0 <= from <= s.len(),
    ensures
        from <= last_segment_start(s, from) <= s.len(),
        (last_segment_start(s, from) == from) == (split_from(s, from).len() == 1),
        last_segment_start(s, from) > from ==> {
            &&& last_segment_start(s, from) >= from + 2
            &&& join(split_from(s, from).drop_last()) == s.subrange(
                from,
                last_segment_start(s, from) - 2,
            )
        },
        split_from(s, from).last() == s.subrange(last_segment_start(s, from), s.len() as int),
    decreases s.len() - from,
{
    lemma_next_separator(s, from);
    let i = next_separator(s, from);
    if from <= i && i + 1 < s.len() {
        let rest = split_from(s, i + 2);
        let segs = seq![s.subrange(from, i)] + rest;
        let last = last_segment_start(s, i + 2);
        lemma_split_len(s, i + 2);
        lemma_last_segment(s, i + 2);
        assert(segs.last() == rest.last());
        if rest.len() == 1 {
            assert(segs.drop_last() =~= seq![s.subrange(from, i)]);
        } else {
            assert(segs.drop_last() =~= seq![s.subrange(from, i)] + rest.drop_last());
            assert(segs.drop_last().drop_first() =~= rest.drop_last());
            assert(s.subrange(from, i) + separator() + s.subrange(i + 2, last - 2) =~= s.subrange(
                from,
                last - 2,
            ));
        }
    }
}

/// Behind a text that does not end in a colon, a separator and a second text
/// add the second text's segments to those of the first.
pub proof fn lemma_split_concat(a: Seq<char>, b: Seq<char>, from: int)
    requires
        0 <= from <= a.len(),
        a.len() > 0,
        a.last() != ':',
    ensures
        split_from(a + separator() + b, from) == split_from(a, from) + split_from(b, 0),
    decreases a.len() - from,
{
    let t = a + separator() + b;
    let n = a.len() as int;
    lemma_next_separator(a, from);
    lemma_next_separator(t, from);
    let i = next_separator(a, from);
    let k = next_separator(t, from);
    assert(forall|j: int| 0 <= j && j + 1 < n ==> separator_at(t, j) == separator_at(a, j));
    assert(!separator_at(t, n - 1));
    assert(separator_at(t, n));
    if from <= i && i + 1 < n {
        assert(separator_at(t, i));
        assert(k == i) by {
            if k < i {
                assert(separator_at(t, k));
                assert(separator_at(a, k));
            }
        }
        lemma_split_concat(a, b, i + 2);
        assert(t.subrange(from, i) =~= a.subrange(from, i));
    } else {
        assert(i == n);
        assert(k == n) by {
            if k < n {
                assert(separator_at(t, k));
                if k + 1 < n {
                    assert(separator_at(a, k));
                }
            }
        }
        assert(t.subrange(from, n) =~= a.subrange(from, n));
        assert(t.subrange(n + 2, t.len() as int) =~= b);
        lemma_split_shift(t, n + 2, 0);
    }
}

/// The texts of a list of strings.
pub open spec fn texts(list: Seq<String>) -> Seq<Seq<char>> {
    Seq::new(list.len(), |i: int| list[i]@)
}

/// A segment as an identifier gives it: not empty, and without a colon.
pub open spec fn is_plain_segment(segment: Seq<char>) -> bool {
    segment.len() > 0 && !segment.contains(':')
}

/// The text is empty or made of plain segments.
pub open spec fn is_normalized(s: Seq<char>) -> bool {
    forall|i: int| 0 <= i < segments_of(s).len() ==> is_plain_segment(#[trigger] segments_of(s)[i])
}

/// A normalized text does not end in a colon.
pub proof fn lemma_normalized_end(s: Seq<char>)
    requires
        is_normalized(s),
        s.len() > 0,
    ensures
        s.last() != ':',
{
    lemma_last_segment(s, 0);
    lemma_split_len(s, 0);
    let segments = segments_of(s);
    let tail = segments.last();
    assert(is_plain_segment(segments[segments.len() - 1]));
    assert(tail[tail.len() - 1] == s.last());
    assert(tail.contains(tail[tail.len() - 1]));
}

/// The characters of a string slice, in order.
pub fn chars_of(s: &str) -> (v: Vec<char>)
    ensures
        v@ == s@,
{
    let mut v: Vec<char> = Vec::new();
    for c in it: s.chars()
        invariant
            it.seq() == s@,
            v@ == s@.take(it.index() as int),
    {
        v.push(c);
    }
    v
}

/// Finds the first separator at or after `from`.
pub fn find_separator(chars: &Vec<char>, from: usize) -> (i: usize)
    requires
        from <= chars.len(),
    ensures
        i == next_separator(chars@, from as int),
        from <= i <= chars.len(),
{
    let n = chars.len();
    let mut i: usize = from;
    while i < n && !(i + 1 < n && chars[i] == ':' && chars[i + 1] == ':')
        invariant
            n == chars.len(),
            from <= i <= n,
            next_separator(chars@, from as int) == next_separator(chars@, i as int),
        decreases n - i,
    {
        i = i + 1;
    }
    proof {
        lemma_next_separator(chars@, i as int);
    }
    i
}

/// Whether the first segment of the text is the word `crate`.
pub fn is_crate_rooted_chars(chars: &Vec<char>) -> (b: bool)
    ensures
        b == is_crate_rooted(chars@),
{
    let i = find_separator(chars, 0);
    proof {
        lemma_next_separator(chars@, 0);
        if chars.len() > 0 {
            assert(segments_of(chars@)[0] == chars@.subrange(0, i as int));
            if i == 5 {
                assert((chars@.subrange(0, 5) == seq!['c', 'r', 'a', 't', 'e']) == (chars[0] == 'c'
                    && chars[1] == 'r' && chars[2] == 'a' && chars[3] == 't' && chars[4] == 'e'))
                    by {
                    if chars[0] == 'c' && chars[1] == 'r' && chars[2] == 'a' && chars[3] == 't'
                        && chars[4] == 'e' {
                        assert(chars@.subrange(0, 5) =~= seq!['c', 'r', 'a', 't', 'e']);
                    } else {
                        let w = chars@.subrange(0, 5);
                        assert(w[0] == chars[0] && w[1] == chars[1] && w[2] == chars[2] && w[3]
                            == chars[3] && w[4] == chars[4]);
                    }
                }
            }
        }
    }
    i == 5 && chars[0] == 'c' && chars[1] == 'r' && chars[2] == 'a' && chars[3] == 't' && chars[4]
        == 'e'
}

/// Whether two stretches of characters hold the same text.
pub fn same_stretch(
    a: &Vec<char>,
    a_from: usize,
    a_to: usize,
    b: &Vec<char>,
    b_from: usize,
    b_to: usize,
) -> (same: bool)
    requires
        a_from <= a_to <= a.len(),
        b_from <= b_to <= b.len(),
    ensures
        same == (a@.subrange(a_from as int, a_to as int) == b@.subrange(
            b_from as int,
            b_to as int,
        )),
{
    let ghost x = a@.subrange(a_from as int, a_to as int);
    let ghost y = b@.subrange(b_from as int, b_to as int);
    if a_to - a_from != b_to - b_from {
        assert(x.len() != y.len());
        return false;
    }
    let count = a_to - a_from;
    let mut k: usize = 0;
    while k < count
        invariant
            count == a_to - a_from,
            count == b_to - b_from,
            a_to <= a.len(),
            b_to <= b.len(),
            0 <= k <= count,
            x == a@.subrange(a_from as int, a_to as int),
            y == b@.subrange(b_from as int, b_to as int),
            forall|j: int| 0 <= j < k ==> x[j] == y[j],
        decreases count - k,
    {
        if a[a_from + k] != b[b_from + k] {
            assert(x[k as int] != y[k as int]);
            return false;
        }
        k = k + 1;
    }
    assert(x =~= y);
    true
}

/// Whether two string slices hold the same text.
pub fn text_eq(a: &str, b: &str) -> (same: bool)
    ensures
        same == (a@ == b@),
{
    let x = chars_of(a);
    let y = chars_of(b);
    assert(x@.subrange(0, x@.len() as int) =~= x@);
    assert(y@.subrange(0, y@.len() as int) =~= y@);
    same_stretch(&x, 0, x.len(), &y, 0, y.len())
}

/// A sequence that starts with `x` is a prefix of one that starts with `y`
/// where `x` is `y` and the rest is a prefix of the rest.
pub proof fn lemma_prefix_step(
    x: Seq<char>,
    xs: Seq<Seq<char>>,
    y: Seq<char>,
    ys: Seq<Seq<char>>,
)
    ensures
        (seq![x] + xs).is_prefix_of(seq![y] + ys) == (x == y && xs.is_prefix_of(ys)),
{
    let a = seq![x] + xs;
    let b = seq![y] + ys;
    if a.is_prefix_of(b) {
        assert(a[0] == b[0]);
        assert(xs.len() <= ys.len());
        assert forall|i: int| 0 <= i < xs.len() implies xs[i] == ys[i] by {
            assert(a[i + 1] == b[i + 1]);
        }
        assert(xs =~= ys.subrange(0, xs.len() as int));
    }
    if x == y && xs.is_prefix_of(ys) {
        assert forall|i: int| 0 <= i < a.len() implies a[i] == b[i] by {
            if i > 0 {
                assert(xs[i - 1] == ys[i - 1]);
            }
        }
        assert(a =~= b.subrange(0, a.len() as int));
    }
}

/// Whether the segments of `base` are the first segments of `full`.
pub fn segments_prefix(base: &Vec<char>, full: &Vec<char>) -> (b: bool)
    ensures
        b == segments_of(base@).is_prefix_of(segments_of(full@)),
{
    if base.len() == 0 {
        return true;
    }
    if full.len() == 0 {
        proof {
            lemma_split_len(base@, 0);
        }
        return false;
    }
    let mut at_base: usize = 0;
    let mut at_full: usize = 0;
    loop
        invariant
            0 <= at_base <= base.len(),
            0 <= at_full <= full.len(),
            segments_of(base@).is_prefix_of(segments_of(full@)) == split_from(
                base@,
                at_base as int,
            ).is_prefix_of(split_from(full@, at_full as int)),
        decreases base.len() - at_base,
    {
        let end_base = find_separator(base, at_base);
        let end_full = find_separator(full, at_full);
        proof {
            lemma_next_separator(base@, at_base as int);
            lemma_next_separator(full@, at_full as int);
        }
        let ghost x = base@.subrange(at_base as int, end_base as int);
        let ghost y = full@.subrange(at_full as int, end_full as int);
        let ghost xs = if end_base < base.len() {
            split_from(base@, end_base + 2)
        } else {
            Seq::<Seq<char>>::empty()
        };
        let ghost ys = if end_full < full.len() {
            split_from(full@, end_full + 2)
        } else {
            Seq::<Seq<char>>::empty()
        };
        proof {
            assert(split_from(base@, at_base as int) =~= seq![x] + xs);
            assert(split_from(full@, at_full as int) =~= seq![y] + ys);
            lemma_prefix_step(x, xs, y, ys);
        }
        if !same_stretch(base, at_base, end_base, full, at_full, end_full) {
            return false;
        }
        if end_base >= base.len() {
            return true;
        }
        if end_full >= full.len() {
            proof {
                lemma_split_len(base@, end_base + 2);
            }
            return false;
        }
        at_base = end_base + 2;
        at_full = end_full + 2;
    }
}

/// Whether the text begins with a separator.
pub fn starts_with_separator(s: &str) -> (b: bool)
    ensures
        b == has_leading_separator(s@),
{
    let chars = chars_of(s);
    chars.len() >= 2 && chars[0] == ':' && chars[1] == ':'
}

} // verus!
