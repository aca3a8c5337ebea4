//! Module paths: segments joined by `::`, with the push and pop that follow a
//! walk into and out of nested scopes.

use crate::error::{BundleError, ErrorKind};
use crate::text::{
    chars_of, find_separator, has_leading_separator, is_crate_rooted, is_crate_rooted_chars,
    is_normalized, is_plain_segment, join, last_segment_start, lemma_join_segments,
    lemma_join_split, lemma_last_segment, lemma_next_separator, lemma_normalized_end,
    lemma_split_concat, lemma_split_len, lemma_split_shift, segments_of, segments_prefix,
    separator, split_from, text_eq,
};
use vstd::prelude::*;
use vstd::string::*;

verus! {

/// A borrowed module path.
#[derive(Clone, Copy, Debug, Hash)]
pub struct ModulePath<'a> {
    text: &'a str,
}

/// An owned module path that can grow and shrink at its end.
#[derive(Debug, Hash)]
pub struct ModulePathBuf {
    text: String,
}

/// What is left of a walk over the segments of a path.
#[derive(Clone, Copy, Debug)]
pub struct Iter<'a> {
    rest: Option<&'a str>,
}

/// The text of a path after `suffix` was pushed onto `current`: a suffix that
/// starts at the crate root replaces the path, any other is added behind a
/// separator.
pub open spec fn pushed(current: Seq<char>, suffix: Seq<char>) -> Seq<char> {
    if is_crate_rooted(suffix) || current.len() == 0 {
        suffix
    } else {
        current + separator() + suffix
    }
}

/// A push onto a path that does not end in a colon adds the segments of the
/// suffix behind those of the path, unless the suffix starts at the crate
/// root.
pub proof fn lemma_push_appends(current: Seq<char>, suffix: Seq<char>)
    requires
        current.len() > 0,
        current.last() != ':',
        suffix.len() > 0,
        !is_crate_rooted(suffix),
    ensures
        segments_of(pushed(current, suffix)) == segments_of(current) + segments_of(suffix),
        segments_of(current).is_prefix_of(segments_of(pushed(current, suffix))),
{
    lemma_split_concat(current, suffix, 0);
    let all = segments_of(current) + segments_of(suffix);
    assert(all.subrange(0, segments_of(current).len() as int) =~= segments_of(current));
}

/// A push onto the empty path, or of a suffix that starts at the crate
/// root, gives the suffix.
pub proof fn lemma_push_replaces(current: Seq<char>, suffix: Seq<char>)
    requires
        current.len() == 0 || is_crate_rooted(suffix),
    ensures
        pushed(current, suffix) == suffix,
{
}

/// The push of one segment is undone by a pop: the path then has a last
/// segment to remove, and what is left is the path as it was.
pub proof fn lemma_pop_undoes_push(current: Seq<char>, name: Seq<char>)
    requires
        current.len() > 0,
        current.last() != ':',
        segments_of(name).len() == 1,
        !is_crate_rooted(name),
    ensures
        segments_of(pushed(current, name)).len() >= 2,
        join(segments_of(pushed(current, name)).drop_last()) == current,
{
    lemma_push_appends(current, name);
    lemma_split_len(current, 0);
    lemma_join_segments(current);
    let all = segments_of(current) + segments_of(name);
    assert(all.drop_last() =~= segments_of(current));
}

/// A normalized path stays normalized under the push of a normalized suffix
/// that is not empty.
pub proof fn lemma_push_normalized(current: Seq<char>, suffix: Seq<char>)
    requires
        is_normalized(current),
        is_normalized(suffix),
        suffix.len() > 0,
    ensures
        is_normalized(pushed(current, suffix)),
{
    if !(is_crate_rooted(suffix) || current.len() == 0) {
        lemma_normalized_end(current);
        lemma_push_appends(current, suffix);
        let front = segments_of(current);
        let all = front + segments_of(suffix);
        assert forall|i: int| 0 <= i < all.len() implies is_plain_segment(#[trigger] all[i]) by {
            if i < front.len() {
                assert(is_plain_segment(front[i]));
            } else {
                assert(is_plain_segment(segments_of(suffix)[i - front.len()]));
            }
        }
    }
}

impl<'a> View for ModulePath<'a> {
    type V = Seq<char>;

    closed spec fn view(&self) -> Seq<char> {
        self.text@
    }
}

impl<'a> ModulePath<'a> {
    /// The segments of the path.
    pub open spec fn segments(&self) -> Seq<Seq<char>> {
        segments_of(self@)
    }

    /// The path with the text `s`.
    pub fn new(s: &'a str) -> (p: Self)
        ensures
            p@ == s@,
    {
        ModulePath { text: s }
    }

    /// An owned path with the same text.
    pub fn into_module_path_buf(&self) -> (buf: ModulePathBuf)
        ensures
            buf@ == self@,
    {
        ModulePathBuf { text: String::from_str(self.text) }
    }

    /// The text of the path.
    pub fn as_str(&self) -> (s: &'a str)
        ensures
            s@ == self@,
    {
        self.text
    }

    /// The length of the text in bytes.
    pub fn len(&self) -> (n: usize)
        ensures
            n == vstd::utf8::encode_utf8(self@).len() as usize,
    {
        self.text.len()
    }

    /// Whether the path has no segment.
    pub fn is_empty(&self) -> (b: bool)
        ensures
            b == (self@.len() == 0),
            b == (self.segments().len() == 0),
    {
        proof {
            lemma_split_len(self@, 0);
        }
        self.text.is_empty()
    }

    /// Whether the path starts at the crate root: its first segment is
    /// `crate`.
    pub fn is_crate_path(&self) -> (b: bool)
        ensures
            b == is_crate_rooted(self@),
    {
        let chars = chars_of(self.text);
        is_crate_rooted_chars(&chars)
    }

    /// Whether the segments of `base` are the first segments of this path.
    pub fn starts_with(&self, base: &str) -> (b: bool)
        ensures
            b == segments_of(base@).is_prefix_of(self.segments()),
    {
        let own = chars_of(self.text);
        let other = chars_of(base);
        segments_prefix(&other, &own)
    }

    /// A walk over the segments, from the first. Every call starts a walk
    /// of its own.
    pub fn iter(&self) -> (it: Iter<'a>)
        ensures
            it.remaining() == self.segments(),
    {
        if self.text.is_empty() {
            Iter { rest: None }
        } else {
            Iter { rest: Some(self.text) }
        }
    }

    /// This path with `suffix` pushed onto it.
    pub fn join(&self, suffix: &str) -> (r: Result<ModulePathBuf, BundleError>)
        ensures
            has_leading_separator(suffix@) ==> (r matches Err(e) && e.kind
                == ErrorKind::UnsupportedConstruct && e.subject@ == suffix@),
            !has_leading_separator(suffix@) ==> (r matches Ok(buf) && buf@ == pushed(
                self@,
                suffix@,
            )),
    {
        let mut res = self.into_module_path_buf();
        match res.push(suffix) {
            Ok(()) => Ok(res),
            Err(e) => Err(e),
        }
    }

    /// The path without its first segment.
    pub fn suffix(&self) -> (p: ModulePath<'a>)
        ensures
            p@ == if self.segments().len() == 0 {
                Seq::<char>::empty()
            } else {
                join(self.segments().drop_first())
            },
    {
        let chars = chars_of(self.text);
        let n = chars.len();
        let i = find_separator(&chars, 0);
        proof {
            lemma_next_separator(self@, 0);
            reveal_strlit("");
        }
        if i < n {
            proof {
                lemma_join_split(self@, i + 2);
                assert(self.segments().drop_first() =~= split_from(self@, i + 2));
            }
            ModulePath { text: self.text.substring_char(i + 2, n) }
        } else {
            proof {
                if n > 0 {
                    assert(self.segments().drop_first() =~= Seq::<Seq<char>>::empty());
                }
            }
            ModulePath { text: "" }
        }
    }
}

impl<'a> PartialEq for ModulePath<'a> {
    fn eq(&self, other: &Self) -> (b: bool) {
        text_eq(self.text, other.text)
    }
}

impl<'a> Eq for ModulePath<'a> {

}

impl<'a> vstd::std_specs::cmp::PartialEqSpecImpl for ModulePath<'a> {
    open spec fn obeys_eq_spec() -> bool {
        true
    }

    open spec fn eq_spec(&self, other: &Self) -> bool {
        self@ == other@
    }
}

impl View for ModulePathBuf {
    type V = Seq<char>;

    closed spec fn view(&self) -> Seq<char> {
        self.text@
    }
}

impl ModulePathBuf {
    /// The segments of the path.
    pub open spec fn segments(&self) -> Seq<Seq<char>> {
        segments_of(self@)
    }

    /// The empty path.
    pub fn new() -> (buf: Self)
        ensures
            buf@ == Seq::<char>::empty(),
    {
        ModulePathBuf { text: String::new() }
    }

    /// The path with the given text.
    pub fn from_text(s: &str) -> (buf: Self)
        ensures
            buf@ == s@,
    {
        ModulePathBuf { text: String::from_str(s) }
    }

    /// The path, borrowed.
    pub fn as_module_path(&self) -> (p: ModulePath<'_>)
        ensures
            p@ == self@,
    {
        ModulePath { text: self.text.as_str() }
    }

    /// The text of the path.
    pub fn as_str(&self) -> (s: &str)
        ensures
            s@ == self@,
    {
        self.text.as_str()
    }

    /// Pushes `suffix`. A suffix in the fully qualified form is refused and
    /// leaves the path as it was.
    pub fn push(&mut self, suffix: &str) -> (r: Result<(), BundleError>)
        ensures
            has_leading_separator(suffix@) ==> (r matches Err(e) && e.kind
                == ErrorKind::UnsupportedConstruct && e.subject@ == suffix@) && final(self)@
                == old(self)@,
            !has_leading_separator(suffix@) ==> r is Ok && final(self)@ == pushed(
                old(self)@,
                suffix@,
            ),
    {
        let chars = chars_of(suffix);
        if chars.len() >= 2 && chars[0] == ':' && chars[1] == ':' {
            return Err(BundleError::new(ErrorKind::UnsupportedConstruct, suffix));
        }
        if is_crate_rooted_chars(&chars) || self.text.as_str().is_empty() {
            self.text = String::from_str(suffix);
        } else {
            proof {
                reveal_strlit("::");
                assert("::"@ =~= separator());
            }
            self.text.append("::");
            self.text.append(suffix);
        }
        Ok(())
    }

    /// Removes the last segment, where the path has more than one, and says
    /// whether it did.
    pub fn pop(&mut self) -> (removed: bool)
        ensures
            old(self).segments().len() >= 2 ==> removed && final(self)@ == join(
                old(self).segments().drop_last(),
            ),
            old(self).segments().len() < 2 ==> !removed && final(self)@ == old(self)@,
    {
        let chars = chars_of(self.text.as_str());
        let n = chars.len();
        let mut start: usize = 0;
        loop
            invariant
                n == chars.len(),
                0 <= start <= n,
                last_segment_start(chars@, 0) == last_segment_start(chars@, start as int),
            ensures
                start == last_segment_start(chars@, 0),
            decreases n - start,
        {
            let i = find_separator(&chars, start);
            proof {
                lemma_next_separator(chars@, start as int);
            }
            if i < n {
                start = i + 2;
            } else {
                break ;
            }
        }
        proof {
            lemma_last_segment(chars@, 0);
        }
        if start >= 2 {
            let kept = String::from_str(self.text.as_str().substring_char(0, start - 2));
            self.text = kept;
            true
        } else {
            false
        }
    }
}

impl Clone for ModulePathBuf {
    fn clone(&self) -> (buf: Self)
        ensures
            buf@ == self@,
    {
        ModulePathBuf { text: self.text.clone() }
    }
}

impl Default for ModulePathBuf {
    fn default() -> (buf: Self)
        ensures
            buf@ == Seq::<char>::empty(),
    {
        ModulePathBuf::new()
    }
}

impl From<String> for ModulePathBuf {
    fn from(s: String) -> (buf: Self) {
        ModulePathBuf { text: s }
    }
}

impl vstd::std_specs::convert::FromSpecImpl<String> for ModulePathBuf {
    open spec fn obeys_from_spec() -> bool {
        true
    }

    closed spec fn from_spec(s: String) -> Self {
        ModulePathBuf { text: s }
    }
}

/// The path that comes from a string holds its text.
pub proof fn lemma_from_string(s: String)
    ensures
        <ModulePathBuf as vstd::std_specs::convert::FromSpec<String>>::from_spec(s)@ == s@,
{
}

/// The conversion from a string slice allocates, so no value can be named
/// for its result; `from_text` states what the path holds.
impl<'a> From<&'a str> for ModulePathBuf {
    fn from(s: &'a str) -> (buf: Self) {
        ModulePathBuf::from_text(s)
    }
}

impl<'a> vstd::std_specs::convert::FromSpecImpl<&'a str> for ModulePathBuf {
    open spec fn obeys_from_spec() -> bool {
        false
    }

    open spec fn from_spec(s: &'a str) -> Self {
        arbitrary()
    }
}

impl PartialEq for ModulePathBuf {
    fn eq(&self, other: &Self) -> (b: bool) {
        self.text == other.text
    }
}

impl Eq for ModulePathBuf {

}

impl vstd::std_specs::cmp::PartialEqSpecImpl for ModulePathBuf {
    open spec fn obeys_eq_spec() -> bool {
        true
    }

    open spec fn eq_spec(&self, other: &Self) -> bool {
        self@ == other@
    }
}

impl<'a> Iter<'a> {
    /// The segments that the walk has not handed out yet.
    pub closed spec fn remaining(&self) -> Seq<Seq<char>> {
        match self.rest {
            None => Seq::empty(),
            Some(t) => split_from(t@, 0),
        }
    }

    /// The path that the remaining segments make.
    pub fn as_path(&self) -> (p: ModulePath<'a>)
        ensures
            p@ == join(self.remaining()),
    {
        match self.rest {
            None => {
                proof {
                    reveal_strlit("");
                }
                ModulePath { text: "" }
            },
            Some(t) => {
                proof {
                    lemma_join_split(t@, 0);
                    assert(t@.subrange(0, t@.len() as int) =~= t@);
                }
                ModulePath { text: t }
            },
        }
    }

    /// Whether every segment was handed out.
    pub fn is_done(&self) -> (done: bool)
        ensures
            done == (self.remaining().len() == 0),
    {
        proof {
            if self.rest is Some {
                lemma_split_len(self.rest->Some_0@, 0);
            }
        }
        self.rest.is_none()
    }

    /// Hands out the next segment, or `None` when all were handed out.
    pub fn next(&mut self) -> (r: Option<&'a str>)
        ensures
            old(self).remaining().len() == 0 ==> r is None && final(self).remaining() == old(
                self,
            ).remaining(),
            old(self).remaining().len() > 0 ==> (r matches Some(seg) && seg@ == old(
                self,
            ).remaining()[0]) && final(self).remaining() == old(self).remaining().drop_first(),
    {
        match self.rest {
            None => None,
            Some(t) => {
                let chars = chars_of(t);
                let n = chars.len();
                let i = find_separator(&chars, 0);
                proof {
                    lemma_next_separator(t@, 0);
                }
                if i < n {
                    proof {
                        lemma_split_shift(t@, i + 2, 0);
                        assert(split_from(t@, 0).drop_first() =~= split_from(t@, i + 2));
                    }
                    self.rest = Some(t.substring_char(i + 2, n));
                    Some(t.substring_char(0, i))
                } else {
                    proof {
                        assert(t@.subrange(0, n as int) =~= t@);
                        assert(split_from(t@, 0).drop_first() =~= Seq::<Seq<char>>::empty());
                    }
                    self.rest = None;
                    Some(t)
                }
            },
        }
    }
}

} // verus!
