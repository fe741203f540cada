//! Hierarchical, dot-segmented category tags and truncatable views of them.
use crate::number_parsers;
use vstd::prelude::*;

verus! {

/// A parsed category path: a sequence of non-empty segments of alphanumeric
/// characters and hyphens.  The empty sequence is the universal (root) tag,
/// written `"."`.
#[derive(Debug, Clone, PartialEq, Eq, PartialOrd, Ord, Hash)]
pub struct Tag {
    categories: Vec<String>,
}

impl View for Tag {
    type V = Seq<Seq<char>>;

    closed spec fn view(&self) -> Seq<Seq<char>> {
        self.categories.deep_view()
    }
}

/// Why a tag string was rejected.
#[derive(Debug, Clone, Copy, PartialEq, Eq, Structural)]
pub enum TagError {
    InvalidCharacters,
    EmptySegment,
}

/// Whether `char::is_alphanumeric` accepts `c`: a Unicode letter or digit.
pub uninterp spec fn is_alnum_char(c: char) -> bool;

/// Relies on `char::is_alphanumeric`: a pure classification of the character,
/// the same on every call.
#[verifier::external_body]
fn char_is_alphanumeric(c: char) -> (r: bool)
    ensures
        r == is_alnum_char(c),
{
    c.is_alphanumeric()
}

/// A character a tag segment may hold.
pub open spec fn valid_seg_char(c: char) -> bool {
    is_alnum_char(c) || c == '-'
}

/// Every character of the segment is acceptable.
pub open spec fn valid_segment(s: Seq<char>) -> bool {
    forall|i: int| 0 <= i < s.len() ==> valid_seg_char(#[trigger] s[i])
}

/// `s` split on `.`, as `str::split` does it: an empty string yields one
/// empty piece, and every dot starts a new piece.
pub open spec fn split_dots(s: Seq<char>) -> Seq<Seq<char>>
    decreases s.len(),
{
    if s.len() == 0 {
        seq![Seq::<char>::empty()]
    } else if s[0] == '.' {
        seq![Seq::<char>::empty()] + split_dots(s.skip(1))
    } else {
        let rest = split_dots(s.skip(1));
        seq![seq![s[0]] + rest[0]] + rest.skip(1)
    }
}

pub proof fn lemma_split_dots_len(s: Seq<char>)
    ensures
        split_dots(s).len() >= 1,
    decreases s.len(),
{
    if s.len() > 0 {
        lemma_split_dots_len(s.skip(1));
    }
}

/// A string without a dot is a single piece.
pub proof fn lemma_split_no_dot(s: Seq<char>)
    requires
        forall|k: int| 0 <= k < s.len() ==> s[k] != '.',
    ensures
        split_dots(s) == seq![s],
    decreases s.len(),
{
    if s.len() == 0 {
        assert(split_dots(s) =~~= seq![s]);
    } else {
        assert(forall|k: int| 0 <= k < s.skip(1).len() ==> #[trigger] s.skip(1)[k] != '.');
        lemma_split_no_dot(s.skip(1));
        lemma_split_dots_len(s.skip(1));
        assert(seq![s[0]] + s.skip(1) =~= s);
        assert(split_dots(s) =~~= seq![s]);
    }
}

/// Splitting at the first dot: the piece before it, then the split of the rest.
pub proof fn lemma_split_at_first(s: Seq<char>, i: int)
    requires
        0 <= i < s.len(),
        s[i] == '.',
        forall|k: int| 0 <= k < i ==> s[k] != '.',
    ensures
        split_dots(s) == seq![s.take(i)] + split_dots(s.skip(i + 1)),
    decreases i,
{
    if i == 0 {
        assert(s.take(0) =~= Seq::<char>::empty());
        assert(split_dots(s) =~= seq![s.take(0)] + split_dots(s.skip(1)));
    } else {
        assert forall|k: int| 0 <= k < i - 1 implies #[trigger] s.skip(1)[k] != '.' by {
            assert(s.skip(1)[k] == s[k + 1]);
        }
        assert(s.skip(1)[i - 1] == s[i]);
        lemma_split_at_first(s.skip(1), i - 1);
        lemma_split_dots_len(s.skip(1).skip(i));
        assert(s.skip(1).skip(i) =~= s.skip(i + 1));
        assert(s.skip(1).take(i - 1) =~= s.take(i).skip(1));
        let rest = split_dots(s.skip(1));
        assert(rest[0] == s.take(i).skip(1));
        assert(seq![s[0]] + s.take(i).skip(1) =~= s.take(i));
        assert(rest.skip(1) =~= split_dots(s.skip(i + 1)));
        assert(split_dots(s) =~= seq![s.take(i)] + split_dots(s.skip(i + 1)));
    }
}

/// What `Tag::parse` yields on `s`: the literal `"."` is the root tag;
/// otherwise the dot-separated segments, each of which must be non-empty and
/// made of alphanumerics and hyphens.
pub open spec fn tag_parse_spec(s: Seq<char>) -> Result<Seq<Seq<char>>, TagError> {
    if s == seq!['.'] {
        Ok(Seq::<Seq<char>>::empty())
    } else {
        let segs = split_dots(s);
        if exists|i: int| 0 <= i < segs.len() && #[trigger] segs[i].len() == 0 {
            Err(TagError::EmptySegment)
        } else if exists|i: int| 0 <= i < segs.len() && !valid_segment(#[trigger] segs[i]) {
            Err(TagError::InvalidCharacters)
        } else {
            Ok(segs)
        }
    }
}

/// Clone a segment vector; the clone holds the very same strings.
pub(crate) fn clone_segments(v: &Vec<String>) -> (r: Vec<String>)
    ensures
        r@ == v@,
{
    let mut r: Vec<String> = Vec::new();
    let mut i: usize = 0;
    while i < v.len()
        invariant
            i <= v.len(),
            r@.len() == i,
            forall|k: int| 0 <= k < i ==> r@[k] == v@[k],
        decreases v.len() - i,
    {
        r.push(v[i].clone());
        i = i + 1;
    }
    proof {
        assert(r@ =~= v@);
    }
    r
}

/// Split `s` on dots into owned segment strings.
fn split_exec(s: &str) -> (v: Vec<String>)
    ensures
        v.deep_view() == split_dots(s@),
    decreases s@.len(),
{
    let n = s.unicode_len();
    let (cnt, first, _) = number_parsers::scan_for(s, '.');
    if cnt == 0 {
        proof {
            number_parsers::lemma_count_zero(s@, '.');
            lemma_split_no_dot(s@);
        }
        let mut v: Vec<String> = Vec::new();
        v.push(s.to_owned());
        proof {
            assert(v.deep_view() =~= split_dots(s@));
        }
        v
    } else {
        proof {
            lemma_split_at_first(s@, first as int);
        }
        let head = s.substring_char(0, first);
        let tail = s.substring_char(first + 1, n);
        proof {
            assert(head@ =~= s@.take(first as int));
            assert(tail@ =~= s@.skip(first + 1));
        }
        let mut v = split_exec(tail);
        v.insert(0, head.to_owned());
        proof {
            assert(v.deep_view() =~= split_dots(s@));
        }
        v
    }
}

impl Tag {
    /// Parse a dot-separated tag; `"."` alone is the root tag.
    pub fn parse(s: &str) -> (r: Result<Tag, TagError>)
        ensures
            match r {
                Ok(t) => tag_parse_spec(s@) == Ok::<Seq<Seq<char>>, TagError>(t@),
                Err(e) => tag_parse_spec(s@) == Err::<Seq<Seq<char>>, TagError>(e),
            },
    {
        let n = s.unicode_len();
        if n == 1 {
            if s.get_char(0) == '.' {
                let t = Tag { categories: Vec::new() };
                proof {
                    assert(s@ =~= seq!['.']);
                    assert(t@ =~= Seq::<Seq<char>>::empty());
                }
                return Ok(t);
            }
        }
        proof {
            assert(s@ != seq!['.']) by {
                if s@ == seq!['.'] {
                    assert(s@.len() == 1);
                    assert(s@[0] == '.');
                }
            }
        }
        let segs = split_exec(s);
        let mut i: usize = 0;
        while i < segs.len()
            invariant
                i <= segs.len(),
                s@ != seq!['.'],
                segs.deep_view() == split_dots(s@),
                forall|k: int| 0 <= k < i ==> #[trigger] segs.deep_view()[k].len() != 0,
            decreases segs.len() - i,
        {
            if segs[i].as_str().unicode_len() == 0 {
                proof {
                    assert(segs.deep_view()[i as int] == segs@[i as int]@);
                    assert(segs.deep_view()[i as int].len() == 0);
                }
                return Err(TagError::EmptySegment);
            }
            i = i + 1;
        }
        let mut i: usize = 0;
        while i < segs.len()
            invariant
                i <= segs.len(),
                s@ != seq!['.'],
                segs.deep_view() == split_dots(s@),
                forall|k: int| 0 <= k < segs.len() ==> #[trigger] segs.deep_view()[k].len() != 0,
                forall|k: int| 0 <= k < i ==> valid_segment(#[trigger] segs.deep_view()[k]),
            decreases segs.len() - i,
        {
            let seg = &segs[i];
            proof {
                assert(segs.deep_view()[i as int] == segs@[i as int]@);
            }
            let m = seg.as_str().unicode_len();
            let mut j: usize = 0;
            while j < m
                invariant
                    j <= m,
                    m == seg@.len(),
                    seg@ == segs.deep_view()[i as int],
                    0 <= i < segs.len(),
                    s@ != seq!['.'],
                    segs.deep_view() == split_dots(s@),
                    forall|k: int| 0 <= k < segs.len() ==> #[trigger] segs.deep_view()[k].len()
                        != 0,
                    forall|k: int| 0 <= k < j ==> valid_seg_char(#[trigger] seg@[k]),
                decreases m - j,
            {
                let c = seg.as_str().get_char(j);
                if !(char_is_alphanumeric(c) || c == '-') {
                    proof {
                        assert(!valid_segment(segs.deep_view()[i as int]));
                    }
                    return Err(TagError::InvalidCharacters);
                }
                j = j + 1;
            }
            i = i + 1;
        }
        Ok(Tag { categories: segs })
    }

    /// The full-depth view of this tag.
    pub fn as_slice(&self) -> (r: TagSlice)
        ensures
            r@ == self@,
    {
        TagSlice { segments: clone_segments(&self.categories) }
    }
}

/// A depth-truncatable view of a tag: the sort and lookup key of the
/// category tree.
#[derive(Debug, Clone, PartialEq, Eq, PartialOrd, Ord, Hash)]
pub struct TagSlice {
    pub(crate) segments: Vec<String>,
}

impl View for TagSlice {
    type V = Seq<Seq<char>>;

    closed spec fn view(&self) -> Seq<Seq<char>> {
        self.segments.deep_view()
    }
}

impl Tag {
    /// Three-way comparison in the path order.
    pub fn cmp_to(&self, other: &Tag) -> (c: crate::order::Cmp)
        ensures
            (c == crate::order::Cmp::Lt) == crate::order::path_lt(self@, other@),
            (c == crate::order::Cmp::Gt) == crate::order::path_lt(other@, self@),
            (c == crate::order::Cmp::Eq) == (self@ == other@),
    {
        crate::order::cmp_segments(&self.categories, &other.categories)
    }
}

impl TagSlice {
    /// Three-way comparison in the path order.
    pub fn cmp_to(&self, other: &TagSlice) -> (c: crate::order::Cmp)
        ensures
            (c == crate::order::Cmp::Lt) == crate::order::path_lt(self@, other@),
            (c == crate::order::Cmp::Gt) == crate::order::path_lt(other@, self@),
            (c == crate::order::Cmp::Eq) == (self@ == other@),
    {
        crate::order::cmp_segments(&self.segments, &other.segments)
    }
}

impl TagSlice {
    /// How many segments the slice holds; 0 for the root.
    pub fn depth(&self) -> (d: usize)
        ensures
            d == self@.len(),
    {
        self.segments.len()
    }

    /// The slice one segment shorter, or `None` at the root.
    pub fn parent(&self) -> (r: Option<TagSlice>)
        ensures
            self@.len() == 0 ==> r is None,
            self@.len() > 0 ==> (r matches Some(p) && p@ == self@.take(self@.len() - 1)),
    {
        if self.segments.len() == 0 {
            return None;
        }
        let mut segs = clone_segments(&self.segments);
        segs.pop();
        proof {
            assert(segs.deep_view() =~= self@.take(self@.len() - 1));
        }
        Some(TagSlice { segments: segs })
    }

    /// Walk towards the root: the returned sequence yields the ancestors of
    /// this slice, one depth at a time, ending with the root.
    pub fn parents(&self) -> (it: TagParents)
        ensures
            it@ == Some(self@),
    {
        TagParents { state: Some(TagSlice { segments: clone_segments(&self.segments) }) }
    }
}

/// The terminal label of a path: the universal glyph for the root, else the
/// dot-joined segments, in the category color.
pub open spec fn tag_label(segs: Seq<Seq<char>>) -> Seq<char> {
    if segs.len() == 0 {
        "\u{1b}[33m\u{2200}\u{1b}[0m"@
    } else {
        "\u{1b}[33m"@ + crate::text::join_dots(segs) + "\u{1b}[0m"@
    }
}

impl TagSlice {
    /// The colored terminal label of this path.
    pub fn to_display_string(&self) -> (s: String)
        ensures
            s@ == tag_label(self@),
    {
        if self.segments.len() == 0 {
            let s = "\u{1b}[33m\u{2200}\u{1b}[0m".to_owned();
            proof {
                assert(self@.len() == 0);
            }
            return s;
        }
        let mut out = String::new();
        out.append("\u{1b}[33m");
        let mut i: usize = 0;
        while i < self.segments.len()
            invariant
                i <= self.segments@.len(),
                self@ == self.segments.deep_view(),
                self@.len() == self.segments@.len(),
                i >= 1 ==> out@ == "\u{1b}[33m"@ + crate::text::join_dots(self@.take(i as int)),
                i == 0 ==> out@ == "\u{1b}[33m"@,
            decreases self.segments@.len() - i,
        {
            proof {
                assert(self@[i as int] == self.segments@[i as int]@);
            }
            if i > 0 {
                proof {
                    reveal_strlit(".");
                }
                out.append(".");
            }
            out.append(self.segments[i].as_str());
            proof {
                let t = self@.take(i as int + 1);
                assert(t.last() == self@[i as int]);
                if i == 0 {
                    assert(crate::text::join_dots(t) == t[0]);
                    assert(out@ =~= "\u{1b}[33m"@ + crate::text::join_dots(t));
                } else {
                    assert(t.drop_last() =~= self@.take(i as int));
                    assert(crate::text::join_dots(t) == crate::text::join_dots(
                        self@.take(i as int),
                    ) + seq!['.'] + self@[i as int]);
                    assert(".".view() =~= seq!['.']);
                    assert(out@ =~= "\u{1b}[33m"@ + crate::text::join_dots(t));
                }
            }
            i = i + 1;
        }
        out.append("\u{1b}[0m");
        proof {
            assert(self@.take(self@.len() as int) =~= self@);
            assert(out@ =~= tag_label(self@));
        }
        out
    }
}

impl Tag {
    /// The persisted form: the segments joined with dots, empty for the
    /// root tag.
    pub fn to_plain_string(&self) -> (s: String)
        ensures
            s@ == crate::text::join_dots(self@),
    {
        let mut out = String::new();
        let mut i: usize = 0;
        proof {
            assert(out@ =~= crate::text::join_dots(self@.take(0)));
        }
        while i < self.categories.len()
            invariant
                i <= self.categories@.len(),
                self@ == self.categories.deep_view(),
                self@.len() == self.categories@.len(),
                out@ == crate::text::join_dots(self@.take(i as int)),
            decreases self.categories@.len() - i,
        {
            proof {
                assert(self@[i as int] == self.categories@[i as int]@);
            }
            if i > 0 {
                proof {
                    reveal_strlit(".");
                }
                out.append(".");
            }
            out.append(self.categories[i].as_str());
            proof {
                let t = self@.take(i as int + 1);
                assert(t.last() == self@[i as int]);
                if i == 0 {
                    assert(crate::text::join_dots(t) == t[0]);
                    assert(out@ =~= crate::text::join_dots(t));
                } else {
                    assert(t.drop_last() =~= self@.take(i as int));
                    assert(crate::text::join_dots(t) == crate::text::join_dots(
                        self@.take(i as int),
                    ) + seq!['.'] + self@[i as int]);
                    assert(".".view() =~= seq!['.']);
                    assert(out@ =~= crate::text::join_dots(t));
                }
            }
            i = i + 1;
        }
        proof {
            assert(self@.take(self@.len() as int) =~= self@);
        }
        out
    }
}

/// Single-pass walk over the strict ancestors of a slice, from depth − 1
/// down to the root.
pub struct TagParents {
    state: Option<TagSlice>,
}

impl View for TagParents {
    type V = Option<Seq<Seq<char>>>;

    closed spec fn view(&self) -> Option<Seq<Seq<char>>> {
        match self.state {
            Option::None => Option::None,
            Option::Some(t) => Option::Some(t@),
        }
    }
}

impl TagParents {
    /// The next strict ancestor, one segment shorter each time; `None` once
    /// the root has been yielded.
    pub fn next(&mut self) -> (r: Option<TagSlice>)
        ensures
            match old(self)@ {
                Option::None => r is None && final(self)@ is None,
                Option::Some(p) => if p.len() == 0 {
                    r is None && final(self)@ is None
                } else {
                    r matches Some(t) && t@ == p.take(p.len() - 1) && final(self)@ == Some(
                        p.take(p.len() - 1),
                    )
                },
            },
    {
        let step = match &self.state {
            Option::None => None,
            Option::Some(cur) => cur.parent(),
        };
        match step {
            Option::None => {
                self.state = None;
                None
            },
            Option::Some(p) => {
                let out = TagSlice { segments: clone_segments(&p.segments) };
                proof {
                    assert(out@ == p@);
                }
                self.state = Some(p);
                Some(out)
            },
        }
    }
}

/// The ancestors of `p` in the order `parents()` walks them: each one
/// segment shorter, down to the root.
pub open spec fn ancestor_chain(p: Seq<Seq<char>>) -> Seq<Seq<Seq<char>>>
    decreases p.len(),
{
    if p.len() == 0 {
        Seq::<Seq<Seq<char>>>::empty()
    } else {
        seq![p.take(p.len() - 1)] + ancestor_chain(p.take(p.len() - 1))
    }
}

/// Walking the parents of a slice of depth `d` yields exactly `d` slices, of
/// strictly decreasing depth, never repeating, ending at the root; each is a
/// strict prefix of the slice.
pub proof fn lemma_ancestor_chain(p: Seq<Seq<char>>)
    ensures
        ancestor_chain(p).len() == p.len(),
        forall|i: int| 0 <= i < p.len() ==> #[trigger] ancestor_chain(p)[i] == p.take(
            p.len() - 1 - i,
        ),
        forall|i: int| 0 <= i < p.len() ==> #[trigger] ancestor_chain(p)[i].len() == p.len() - 1
            - i,
        forall|i: int, j: int|
            0 <= i < j < p.len() ==> ancestor_chain(p)[i] != ancestor_chain(p)[j],
        p.len() > 0 ==> ancestor_chain(p).last().len() == 0,
        forall|i: int| 0 <= i < p.len() ==> crate::order::is_strict_prefix_of(
            #[trigger] ancestor_chain(p)[i],
            p,
        ),
    decreases p.len(),
{
    if p.len() > 0 {
        let q = p.take(p.len() - 1);
        lemma_ancestor_chain(q);
        assert forall|i: int| 0 <= i < p.len() implies #[trigger] ancestor_chain(p)[i] == p.take(
            p.len() - 1 - i,
        ) by {
            if i > 0 {
                assert(ancestor_chain(p)[i] == ancestor_chain(q)[i - 1]);
                assert(q.take(q.len() - 1 - (i - 1)) =~= p.take(p.len() - 1 - i));
            }
        }
        assert forall|i: int| 0 <= i < p.len() implies #[trigger] ancestor_chain(p)[i].len()
            == p.len() - 1 - i by {
            assert(ancestor_chain(p)[i] == p.take(p.len() - 1 - i));
        }
        assert forall|i: int| 0 <= i < p.len() implies crate::order::is_strict_prefix_of(
            #[trigger] ancestor_chain(p)[i],
            p,
        ) by {
            assert(ancestor_chain(p)[i] == p.take(p.len() - 1 - i));
            assert(p.take(p.len() - 1 - i) =~= p.take(p.len() as int).take(p.len() - 1 - i));
            assert(p.take(p.len() as int) =~= p);
        }
    }
}

} // verus!
