use vstd::prelude::*;
use crate::validation::{ValidationError, ValidationReason};

verus! {

/// The longest segment, in characters (all accepted characters are ASCII,
/// so this is also its length in bytes).
pub const MAX_SEGMENT_LEN: usize = 255;

/// A character allowed inside a name segment: `[A-Za-z0-9._-]`.
pub open spec fn segment_char(c: char) -> bool {
    ('a' <= c && c <= 'z') || ('A' <= c && c <= 'Z') || ('0' <= c && c <= '9') || c == '.' || c
        == '_' || c == '-'
}

/// One segment: 1 to 255 characters, each from the segment charset.
pub open spec fn valid_segment(s: Seq<char>) -> bool {
    &&& 1 <= s.len() <= MAX_SEGMENT_LEN
    &&& forall|k: int| 0 <= k < s.len() ==> segment_char(#[trigger] s[k])
}

/// One or more valid segments.
pub open spec fn valid_segments(segs: Seq<Seq<char>>) -> bool {
    &&& segs.len() >= 1
    &&& forall|j: int| 0 <= j < segs.len() ==> valid_segment(#[trigger] segs[j])
}

/// The segments written out with `/` between them.
pub open spec fn join(segs: Seq<Seq<char>>) -> Seq<char>
    decreases segs.len(),
{
    if segs.len() <= 1 {
        if segs.len() == 0 { Seq::empty() } else { segs[0] }
    } else {
        join(segs.drop_last()) + seq!['/'] + segs.last()
    }
}

/// How many characters other than `/` end at position `i` of `s` without a
/// `/` between them (zero for `i < 0`).
pub open spec fn seg_run(s: Seq<char>, i: int) -> int
    decreases i + 1,
{
    if i < 0 || i >= s.len() {
        0
    } else if s[i] == '/' {
        0
    } else {
        seg_run(s, i - 1) + 1
    }
}

/// The text is a canonical hierarchical name: non-empty, every character is
/// a segment character or `/`, no segment is empty (no leading, trailing or
/// doubled `/`), and no segment is longer than 255 characters.
pub open spec fn valid_name_text(s: Seq<char>) -> bool {
    &&& s.len() > 0
    &&& seg_run(s, s.len() - 1) >= 1
    &&& forall|i: int|
        0 <= i < s.len() ==> (#[trigger] s[i] == '/' ==> seg_run(s, i - 1) >= 1) && (s[i] != '/'
            ==> segment_char(s[i]) && seg_run(s, i) <= MAX_SEGMENT_LEN)
}

/// `segs` followed by one more segment joins to the join of `segs`, a `/`
/// and that segment.
proof fn lemma_join_push(segs: Seq<Seq<char>>, x: Seq<char>)
    requires
        segs.len() >= 1,
    ensures
        join(segs.push(x)) == join(segs) + seq!['/'] + x,
{
    assert(segs.push(x).drop_last() == segs);
}

/// A validated, non-empty hierarchical cell name: a list of segments.
#[derive(Debug)]
pub struct CellName {
    segments: Vec<String>,
}

pub open spec fn views(v: Seq<String>) -> Seq<Seq<char>> {
    v.map_values(|s: String| s@)
}

impl View for CellName {
    type V = Seq<Seq<char>>;

    closed spec fn view(&self) -> Seq<Seq<char>> {
        views(self.segments@)
    }
}

impl CellName {
    #[verifier::type_invariant]
    spec fn inv(&self) -> bool {
        valid_segments(self@)
    }

    /// Cuts `text` at each `/`, checking the segment rules on the way.
    fn split_text(text: &str) -> (r: Option<Vec<String>>)
        ensures
            r is Some <==> valid_name_text(text@),
            r is Some ==> valid_segments(views(r->Some_0@)) && join(views(r->Some_0@)) == text@,
    {
        let n = text.unicode_len();
        let ghost s = text@;
        let mut segs: Vec<String> = Vec::new();
        let mut start: usize = 0;
        let mut i: usize = 0;
        while i < n
            invariant
                n == s.len(),
                s == text@,
                0 <= start <= i <= n,
                forall|j: int| 0 <= j < segs@.len() ==> valid_segment(#[trigger] views(segs@)[j]),
                segs@.len() == 0 ==> start == 0,
                segs@.len() > 0 ==> start >= 1 && s[start - 1] == '/' && join(views(segs@))
                    == s.subrange(0, start - 1),
                seg_run(s, i - 1) == i - start,
                forall|k: int| start <= k < i ==> s[k] != '/' && segment_char(#[trigger] s[k]),
                i - start <= MAX_SEGMENT_LEN,
                forall|k: int|
                    0 <= k < i ==> (#[trigger] s[k] == '/' ==> seg_run(s, k - 1) >= 1) && (s[k]
                        != '/' ==> segment_char(s[k]) && seg_run(s, k) <= MAX_SEGMENT_LEN),
            decreases n - i,
        {
            let c = text.get_char(i);
            if c == '/' {
                if i == start {
                    return None;
                }
                let seg = text.substring_char(start, i).to_owned();
                proof {
                    let old_v = views(segs@);
                    assert(seg@ == s.subrange(start as int, i as int));
                    assert(valid_segment(seg@));
                    if segs@.len() > 0 {
                        lemma_join_push(old_v, seg@);
                        assert(s.subrange(0, start - 1) + seq!['/'] + s.subrange(
                            start as int,
                            i as int,
                        ) =~= s.subrange(0, i as int));
                    } else {
                        assert(s.subrange(0, i as int) =~= s.subrange(start as int, i as int));
                    }
                }
                let ghost before = segs@;
                segs.push(seg);
                proof {
                    assert(views(segs@) =~= views(before).push(seg@));
                }
                start = i + 1;
            } else {
                if !Self::is_segment_char(c) || i - start >= MAX_SEGMENT_LEN {
                    return None;
                }
            }
            i = i + 1;
        }
        if i == start {
            return None;
        }
        let seg = text.substring_char(start, n).to_owned();
        proof {
            let old_v = views(segs@);
            assert(seg@ == s.subrange(start as int, n as int));
            if segs@.len() > 0 {
                lemma_join_push(old_v, seg@);
                assert(s.subrange(0, start - 1) + seq!['/'] + s.subrange(start as int, n as int)
                    =~= s);
            } else {
                assert(s.subrange(0, n as int) =~= s);
            }
        }
        let ghost before = segs@;
        segs.push(seg);
        proof {
            assert(views(segs@) =~= views(before).push(seg@));
        }
        Some(segs)
    }

    fn is_segment_char(c: char) -> (r: bool)
        ensures
            r == segment_char(c),
    {
        ('a' <= c && c <= 'z') || ('A' <= c && c <= 'Z') || ('0' <= c && c <= '9') || c == '.'
            || c == '_' || c == '-'
    }
}

impl CellName {
    /// Accepts a present text that is a canonical hierarchical name.
    pub fn validate(input: Option<String>, field_name: &str, parent_name: Option<&str>) -> (r: Result<
        CellName,
        ValidationError,
    >)
        ensures
            match input {
                None => r is Err && r->Err_0.names(field_name, parent_name, ValidationReason::Required),
                Some(s) => if s@.len() == 0 {
                    r is Err && r->Err_0.names(field_name, parent_name, ValidationReason::Empty)
                } else if !valid_name_text(s@) {
                    r is Err && r->Err_0.names(field_name, parent_name, ValidationReason::InvalidName)
                } else {
                    r is Ok && join(r->Ok_0@) == s@
                },
            },
            r is Ok ==> valid_segments(r->Ok_0@),
    {
        match input {
            None => Err(ValidationError::new(field_name, parent_name, ValidationReason::Required)),
            Some(s) => {
                if s.as_str().is_empty() {
                    return Err(ValidationError::new(field_name, parent_name, ValidationReason::Empty));
                }
                match Self::split_text(s.as_str()) {
                    None => Err(
                        ValidationError::new(field_name, parent_name, ValidationReason::InvalidName),
                    ),
                    Some(segments) => Ok(CellName { segments }),
                }
            },
        }
    }

    /// Parses a cell name given as text, for the field `cell_name`.
    pub fn parse(text: &str) -> (r: Result<CellName, ValidationError>)
        ensures
            r is Ok <==> valid_name_text(text@),
            r is Ok ==> join(r->Ok_0@) == text@ && valid_segments(r->Ok_0@),
            r is Err ==> r->Err_0.field@ == "cell_name"@ && r->Err_0.parent is None,
            r is Err && text@.len() == 0 ==> r->Err_0.reason == ValidationReason::Empty,
            r is Err && text@.len() > 0 ==> r->Err_0.reason == ValidationReason::InvalidName,
    {
        Self::validate(Some(text.to_owned()), "cell_name", None)
    }

    /// A name of a single segment.
    pub fn from_segment(segment: &str) -> (r: Result<CellName, ValidationError>)
        ensures
            r is Ok <==> valid_segment(segment@),
            r is Ok ==> r->Ok_0@ == seq![segment@],
    {
        let checked = Self::check_segment(segment);
        if !checked {
            return Err(ValidationError::new("cell_name", None, ValidationReason::InvalidName));
        }
        let mut segments: Vec<String> = Vec::new();
        segments.push(segment.to_owned());
        proof {
            assert(views(segments@) =~= seq![segment@]);
        }
        Ok(CellName { segments })
    }

    fn check_segment(segment: &str) -> (r: bool)
        ensures
            r == valid_segment(segment@),
    {
        let n = segment.unicode_len();
        if n == 0 || n > MAX_SEGMENT_LEN {
            return false;
        }
        let mut i: usize = 0;
        while i < n
            invariant
                n == segment@.len(),
                i <= n,
                forall|k: int| 0 <= k < i ==> segment_char(#[trigger] segment@[k]),
            decreases n - i,
        {
            if !Self::is_segment_char(segment.get_char(i)) {
                return false;
            }
            i = i + 1;
        }
        true
    }

    /// The number of segments.
    pub fn depth(&self) -> (r: usize)
        ensures
            r == self@.len(),
            r >= 1,
    {
        proof {
            use_type_invariant(self);
        }
        self.segments.len()
    }

    /// The segment at position `i`.
    pub fn segment(&self, i: usize) -> (r: &String)
        requires
            i < self@.len(),
        ensures
            r@ == self@[i as int],
            valid_segment(r@),
    {
        proof {
            use_type_invariant(self);
        }
        &self.segments[i]
    }

    /// The final segment.
    pub fn leaf(&self) -> (r: &String)
        ensures
            self@.len() >= 1,
            r@ == self@.last(),
            valid_segment(r@),
    {
        proof {
            use_type_invariant(self);
        }
        &self.segments[self.segments.len() - 1]
    }

    /// The first `len` segments, as a name of their own.
    pub fn prefix(&self, len: usize) -> (r: CellName)
        requires
            1 <= len <= self@.len(),
        ensures
            r@ == self@.subrange(0, len as int),
    {
        proof {
            use_type_invariant(self);
        }
        let mut segments: Vec<String> = Vec::new();
        let mut i: usize = 0;
        while i < len
            invariant
                i <= len <= self@.len(),
                valid_segments(self@),
                views(segments@) =~= self@.subrange(0, i as int),
            decreases len - i,
        {
            let ghost before = segments@;
            segments.push(self.segments[i].clone());
            proof {
                assert(views(segments@) =~= views(before).push(self@[i as int]));
                assert(self@.subrange(0, i + 1) =~= self@.subrange(0, i as int).push(self@[i as int]));
            }
            i = i + 1;
        }
        CellName { segments }
    }

    /// The name without its final segment, or `None` for a single segment.
    pub fn parent(&self) -> (r: Option<CellName>)
        ensures
            self@.len() == 1 <==> r is None,
            r is Some ==> r->Some_0@ == self@.drop_last(),
    {
        let n = self.depth();
        if n == 1 {
            None
        } else {
            let p = self.prefix(n - 1);
            proof {
                assert(p@ =~= self@.drop_last());
            }
            Some(p)
        }
    }

    /// The name extended by one segment; fails if the segment is not valid.
    pub fn child(&self, segment: &str) -> (r: Result<CellName, ValidationError>)
        ensures
            r is Ok <==> valid_segment(segment@),
            r is Ok ==> r->Ok_0@ == self@.push(segment@),
    {
        proof {
            use_type_invariant(self);
        }
        if !Self::check_segment(segment) {
            return Err(ValidationError::new("cell_name", None, ValidationReason::InvalidName));
        }
        let mut segments = self.prefix(self.segments.len()).segments;
        let ghost before = segments@;
        segments.push(segment.to_owned());
        proof {
            assert(self@.subrange(0, self@.len() as int) =~= self@);
            assert(views(segments@) =~= views(before).push(segment@));
        }
        Ok(CellName { segments })
    }

    /// True when `self` is a strict prefix of `other`, segment by segment.
    pub fn is_ancestor_of(&self, other: &CellName) -> (r: bool)
        ensures
            r == (self@.len() < other@.len() && other@.subrange(0, self@.len() as int) == self@),
    {
        let n = self.segments.len();
        if n >= other.segments.len() {
            return false;
        }
        let mut i: usize = 0;
        while i < n
            invariant
                n == self@.len() < other@.len(),
                i <= n,
                forall|k: int| 0 <= k < i ==> self@[k] == other@[k],
            decreases n - i,
        {
            if self.segments[i] != other.segments[i] {
                assert(other@.subrange(0, n as int)[i as int] != self@[i as int]);
                return false;
            }
            i = i + 1;
        }
        assert(other@.subrange(0, n as int) =~= self@);
        true
    }

    /// True when the two names have the same segments.
    pub fn same_as(&self, other: &CellName) -> (r: bool)
        ensures
            r == (self@ == other@),
    {
        let n = self.segments.len();
        if n != other.segments.len() {
            return false;
        }
        let mut i: usize = 0;
        while i < n
            invariant
                n == self@.len() == other@.len(),
                i <= n,
                forall|k: int| 0 <= k < i ==> self@[k] == other@[k],
            decreases n - i,
        {
            if self.segments[i] != other.segments[i] {
                assert(self@[i as int] != other@[i as int]);
                return false;
            }
            i = i + 1;
        }
        assert(self@ =~= other@);
        true
    }

    /// The name written out with `/` between its segments.
    pub fn to_path(&self) -> (r: String)
        ensures
            r@ == join(self@),
    {
        proof {
            use_type_invariant(self);
        }
        let mut out = self.segments[0].clone();
        let mut i: usize = 1;
        while i < self.segments.len()
            invariant
                1 <= i <= self@.len(),
                out@ == join(self@.subrange(0, i as int)),
            decreases self@.len() - i,
        {
            proof {
                lemma_join_push(self@.subrange(0, i as int), self@[i as int]);
                assert(self@.subrange(0, i as int).push(self@[i as int]) =~= self@.subrange(0, i + 1));
            }
            out.append("/");
            proof {
                reveal_strlit("/");
            }
            out.append(self.segments[i].as_str());
            i = i + 1;
        }
        proof {
            assert(self@.subrange(0, self@.len() as int) =~= self@);
        }
        out
    }
}

impl Clone for CellName {
    fn clone(&self) -> (r: Self)
        ensures
            r@ == self@,
    {
        proof {
            use_type_invariant(self);
        }
        self.prefix(self.segments.len())
    }
}

} // verus!
