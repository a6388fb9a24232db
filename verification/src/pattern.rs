//! Route patterns: a pattern string such as `/items/{id:usize}` is parsed into
//! an ordered list of segment matchers — literal text, a named string
//! parameter `{name}`, or a named unsigned parameter `{name:usize}`.

use vstd::prelude::*;
use vstd::string::StrSliceExecFns;
use vstd::string::StringExecFns;

use crate::text::is_uint_str;
use crate::text::lemma_scan_to;
use crate::text::scan_to;
use crate::text::split_segs;
use crate::text::uint_of;

verus! {

/// The type a dynamic segment converts its text to.
#[derive(Clone, Copy, PartialEq, Eq, Structural, Debug)]
pub enum ParamType {
    /// The raw segment text.
    Str,
    /// A decimal unsigned integer that fits in `usize`.
    Uint,
}

/// One matcher of a route pattern.
#[derive(Debug)]
pub enum Segment {
    /// Matches exactly this text.
    Literal(String),
    /// Matches any segment convertible to the given type, capturing it under
    /// the given name.
    Param(String, ParamType),
}

/// The mathematical form of a segment matcher.
pub enum GSeg {
    Lit(Seq<char>),
    Param(Seq<char>, ParamType),
}

/// A captured parameter value.
pub enum GVal {
    S(Seq<char>),
    U(usize),
}

pub open spec fn seg_view(s: Segment) -> GSeg {
    match s {
        Segment::Literal(t) => GSeg::Lit(t@),
        Segment::Param(n, ty) => GSeg::Param(n@, ty),
    }
}

impl Segment {
    /// A structural copy: same text, same kind.
    pub fn dup(&self) -> (r: Segment)
        ensures
            seg_view(r) == seg_view(*self),
    {
        match self {
            Segment::Literal(t) => Segment::Literal(t.clone()),
            Segment::Param(n, ty) => Segment::Param(n.clone(), *ty),
        }
    }
}

/// Whether segment text `t` satisfies a matcher.
pub open spec fn seg_matches(g: GSeg, t: Seq<char>) -> bool {
    match g {
        GSeg::Lit(l) => l == t,
        GSeg::Param(_, ParamType::Str) => true,
        GSeg::Param(_, ParamType::Uint) => is_uint_str(t),
    }
}

/// A pattern matches a path when they have the same number of segments and
/// each matcher accepts the corresponding segment.
pub open spec fn pat_matches(pat: Seq<GSeg>, path: Seq<Seq<char>>) -> bool {
    pat.len() == path.len() && forall|i: int|
        0 <= i < pat.len() ==> seg_matches(pat[i], path[i])
}

/// The typed value a matcher captures from segment text.
pub open spec fn seg_captures(g: GSeg, t: Seq<char>) -> Seq<(Seq<char>, GVal)> {
    match g {
        GSeg::Lit(_) => Seq::empty(),
        GSeg::Param(n, ParamType::Str) => seq![(n, GVal::S(t))],
        GSeg::Param(n, ParamType::Uint) => seq![(n, GVal::U(uint_of(t) as usize))],
    }
}

/// The parameters a matching pattern captures from a path, in pattern order.
pub open spec fn captures(pat: Seq<GSeg>, path: Seq<Seq<char>>) -> Seq<(Seq<char>, GVal)>
    decreases pat.len(),
{
    if pat.len() == 0 || path.len() == 0 {
        Seq::empty()
    } else {
        seg_captures(pat[0], path[0]) + captures(pat.drop_first(), path.drop_first())
    }
}

/// What kept a pattern component from being understood.
#[derive(Clone, Copy, PartialEq, Eq, Structural, Debug)]
pub enum ParseErrorKind {
    /// A `{` without its `}`, or the reverse.
    UnbalancedBraces,
    /// `{}` or `{:type}`: a parameter needs a name.
    EmptyName,
    /// `{name:type}` with a type tag other than `usize`.
    UnknownType,
}

/// Identifies the first pattern component that could not be classified.
#[derive(Debug)]
pub struct ParseError {
    /// Position of the offending component among the pattern's segments.
    pub index: usize,
    /// The offending component's text.
    pub component: String,
    pub kind: ParseErrorKind,
}

/// How one pattern component is understood, if it is well formed: text that
/// is fully braced is a parameter (with an optional `:usize` type tag after
/// the name), anything else is a literal.
pub open spec fn classify(s: Seq<char>) -> Option<GSeg> {
    if s.len() > 0 && (s[0] == '{' || s[s.len() - 1] == '}') {
        if s.len() >= 2 && s[0] == '{' && s[s.len() - 1] == '}' {
            let inner = s.subrange(1, s.len() - 1);
            let ci = scan_to(inner, ':');
            if ci == inner.len() {
                if inner.len() > 0 {
                    Some(GSeg::Param(inner, ParamType::Str))
                } else {
                    None
                }
            } else {
                if ci > 0 && inner.skip(ci + 1) == "usize"@ {
                    Some(GSeg::Param(inner.take(ci), ParamType::Uint))
                } else {
                    None
                }
            }
        } else {
            None
        }
    } else {
        Some(GSeg::Lit(s))
    }
}

/// All components of a pattern, classified; nothing if any component is
/// malformed.
pub open spec fn classify_all(comps: Seq<Seq<char>>) -> Option<Seq<GSeg>>
    decreases comps.len(),
{
    if comps.len() == 0 {
        Some(Seq::empty())
    } else {
        match classify(comps[0]) {
            Some(g) => match classify_all(comps.drop_first()) {
                Some(rest) => Some(seq![g] + rest),
                None => None,
            },
            None => None,
        }
    }
}

/// The segment list a well-formed pattern string denotes.
pub open spec fn spec_parse(s: Seq<char>) -> Option<Seq<GSeg>> {
    classify_all(split_segs(s))
}

/// A parsed route pattern: an ordered list of segment matchers.
#[derive(Debug)]
pub struct PathPattern {
    pub segs: Vec<Segment>,
}

impl PathPattern {
    /// The mathematical form of the pattern.
    pub open spec fn view(&self) -> Seq<GSeg> {
        self.segs@.map_values(|s: Segment| seg_view(s))
    }

    /// A structural copy.
    pub fn dup(&self) -> (r: PathPattern)
        ensures
            r@ == self@,
    {
        let mut segs: Vec<Segment> = Vec::new();
        let mut i: usize = 0;
        while i < self.segs.len()
            invariant
                i <= self.segs.len(),
                segs@.map_values(|s: Segment| seg_view(s)) =~= self@.take(i as int),
            decreases self.segs.len() - i,
        {
            segs.push(self.segs[i].dup());
            proof {
                assert(self@.take(i + 1 as int) =~= self@.take(i as int).push(
                    seg_view(self.segs@[i as int]),
                ));
            }
            i = i + 1;
        }
        proof {
            assert(self@.take(self.segs@.len() as int) =~= self@);
        }
        PathPattern { segs }
    }
}

/// Classify one non-empty component, or say why it cannot be.
fn classify_component(s: &String) -> (r: Result<Segment, ParseErrorKind>)
    requires
        s@.len() > 0,
    ensures
        match r {
            Ok(seg) => classify(s@) == Some(seg_view(seg)),
            Err(_) => classify(s@) is None,
        },
{
    let n = s.as_str().unicode_len();
    let first = s.as_str().get_char(0);
    let last = s.as_str().get_char(n - 1);
    if first != '{' && last != '}' {
        return Ok(Segment::Literal(s.clone()));
    }
    if n < 2 || first != '{' || last != '}' {
        return Err(ParseErrorKind::UnbalancedBraces);
    }
    let inner = s.as_str().substring_char(1, n - 1);
    let inner_len = n - 2;
    proof {
        assert(inner@ == s@.subrange(1, s@.len() - 1));
        lemma_scan_to(inner@, ':');
    }
    // find the type-tag separator, if any
    let mut ci: usize = 0;
    while ci < inner_len && inner.get_char(ci) != ':'
        invariant
            ci <= inner_len,
            inner_len == inner@.len(),
            forall|k: int| 0 <= k < ci ==> inner@[k] != ':',
        decreases inner_len - ci,
    {
        ci = ci + 1;
    }
    proof {
        crate::text::lemma_scan_to_is(inner@, ':', ci as int);
    }
    if ci == inner_len {
        if inner_len == 0 {
            Err(ParseErrorKind::EmptyName)
        } else {
            proof {
                assert(inner@.len() > 0);
            }
            Ok(Segment::Param(inner.to_owned(), ParamType::Str))
        }
    } else {
        if ci == 0 {
            return Err(ParseErrorKind::EmptyName);
        }
        let tag = inner.substring_char(ci + 1, inner_len).to_owned();
        if tag == String::from_str("usize") {
            proof {
                assert(tag@ == inner@.skip(ci + 1 as int));
            }
            Ok(Segment::Param(inner.substring_char(0, ci).to_owned(), ParamType::Uint))
        } else {
            proof {
                assert(tag@ == inner@.skip(ci + 1 as int));
            }
            Err(ParseErrorKind::UnknownType)
        }
    }
}

/// Parse a route pattern string. Succeeds exactly when every `/`-separated
/// component is well formed, and then returns the denoted matcher list; fails
/// identifying the first offending component and its position.
pub fn parse(pattern: &str) -> (r: Result<PathPattern, ParseError>)
    ensures
        match r {
            Ok(p) => spec_parse(pattern@) == Some(p@),
            Err(e) => {
                &&& spec_parse(pattern@) is None
                &&& e.index < split_segs(pattern@).len()
                &&& classify(split_segs(pattern@)[e.index as int]) is None
                &&& e.component@ == split_segs(pattern@)[e.index as int]
            },
        },
{
    let comps = crate::text::split_path(pattern);
    let ghost gs = split_segs(pattern@);
    proof {
        crate::text::lemma_split_segs_nonempty(pattern@);
    }
    let mut segs: Vec<Segment> = Vec::new();
    let mut i: usize = 0;
    while i < comps.len()
        invariant
            i <= comps.len(),
            comps@.map_values(|t: String| t@) =~= gs,
            gs == split_segs(pattern@),
            forall|k: int| 0 <= k < gs.len() ==> gs[k].len() > 0,
            classify_all(gs.take(i as int)) == Some(
                segs@.map_values(|s: Segment| seg_view(s)),
            ),
        decreases comps.len() - i,
    {
        proof {
            assert(comps@[i as int]@ == gs[i as int]);
        }
        match classify_component(&comps[i]) {
            Ok(seg) => {
                proof {
                    lemma_classify_all_push(gs, i as int, seg_view(seg));
                    assert(segs@.push(seg).map_values(|s: Segment| seg_view(s)) =~= segs@
                        .map_values(|s: Segment| seg_view(s)).push(seg_view(seg)));
                }
                segs.push(seg);
            },
            Err(kind) => {
                proof {
                    lemma_classify_all_fail(gs, i as int);
                }
                let comp = comps[i].clone();
                return Err(ParseError { index: i, component: comp, kind });
            },
        }
        i = i + 1;
    }
    proof {
        assert(gs.take(gs.len() as int) =~= gs);
    }
    Ok(PathPattern { segs })
}

/// Classifying one more well-formed component extends the classified list.
proof fn lemma_classify_all_push(comps: Seq<Seq<char>>, i: int, g: GSeg)
    requires
        0 <= i < comps.len(),
        classify(comps[i]) == Some(g),
        classify_all(comps.take(i)) is Some,
    ensures
        classify_all(comps.take(i + 1)) == Some(classify_all(comps.take(i))->Some_0.push(g)),
    decreases i,
{
    if i == 0 {
        assert(comps.take(0) =~= Seq::<Seq<char>>::empty());
        assert(comps.take(1).drop_first() =~= Seq::<Seq<char>>::empty());
        assert(comps.take(1)[0] == comps[0]);
        assert(seq![g] + Seq::<GSeg>::empty() =~= Seq::<GSeg>::empty().push(g));
    } else {
        let t1 = comps.take(i + 1);
        let t0 = comps.take(i);
        assert(t1.drop_first() =~= comps.drop_first().take(i));
        assert(t0.drop_first() =~= comps.drop_first().take(i - 1));
        assert(comps.drop_first()[i - 1] == comps[i]);
        lemma_classify_all_push(comps.drop_first(), i - 1, g);
        assert(t1[0] == comps[0]);
        assert(t0[0] == comps[0]);
        assert(classify(t1[0]) == classify(comps[0]));
        let r0 = classify_all(comps.drop_first().take(i - 1))->Some_0;
        assert(seq![classify(comps[0])->Some_0] + r0.push(g) =~= (seq![
            classify(comps[0])->Some_0,
        ] + r0).push(g));
    }
}

/// A malformed component at `i` poisons the whole classification.
proof fn lemma_classify_all_fail(comps: Seq<Seq<char>>, i: int)
    requires
        0 <= i < comps.len(),
        classify(comps[i]) is None,
    ensures
        classify_all(comps) is None,
    decreases i,
{
    if i > 0 {
        assert(comps.drop_first()[i - 1] == comps[i]);
        lemma_classify_all_fail(comps.drop_first(), i - 1);
    }
}

/// The canonical text of one matcher, as `routes` prints it.
pub open spec fn seg_text(g: GSeg) -> Seq<char> {
    match g {
        GSeg::Lit(s) => s,
        GSeg::Param(n, ParamType::Str) => "{"@ + n + "}"@,
        GSeg::Param(n, ParamType::Uint) => "{"@ + n + ":usize}"@,
    }
}

/// The canonical text of a pattern: each segment after a `/`.
pub open spec fn pattern_text(pat: Seq<GSeg>) -> Seq<char>
    decreases pat.len(),
{
    if pat.len() == 0 {
        Seq::empty()
    } else {
        "/"@ + seg_text(pat[0]) + pattern_text(pat.drop_first())
    }
}

/// A pattern as printed: the root pattern shows as the bare `/`.
pub open spec fn pattern_display(pat: Seq<GSeg>) -> Seq<char> {
    if pat.len() == 0 {
        "/"@
    } else {
        pattern_text(pat)
    }
}

/// Pattern text distributes over concatenation of patterns.
pub proof fn lemma_pattern_text_append(a: Seq<GSeg>, b: Seq<GSeg>)
    ensures
        pattern_text(a + b) == pattern_text(a) + pattern_text(b),
    decreases a.len(),
{
    if a.len() == 0 {
        assert(a + b =~= b);
        assert(pattern_text(a) + pattern_text(b) =~= pattern_text(b));
    } else {
        assert((a + b)[0] == a[0]);
        assert((a + b).len() > 0);
        assert((a + b).drop_first() =~= a.drop_first() + b);
        lemma_pattern_text_append(a.drop_first(), b);
        assert("/"@ + seg_text(a[0]) + (pattern_text(a.drop_first()) + pattern_text(b)) =~= ("/"@
            + seg_text(a[0]) + pattern_text(a.drop_first())) + pattern_text(b));
    }
}

/// Rendering one more segment extends the rendered prefix.
pub proof fn lemma_pattern_text_snoc(pat: Seq<GSeg>, i: int)
    requires
        0 <= i < pat.len(),
    ensures
        pattern_text(pat.take(i + 1)) == pattern_text(pat.take(i)) + "/"@ + seg_text(pat[i]),
{
    assert(pat.take(i + 1) =~= pat.take(i) + seq![pat[i]]);
    lemma_pattern_text_append(pat.take(i), seq![pat[i]]);
    assert(seq![pat[i]].drop_first() =~= Seq::<GSeg>::empty());
    assert(seq![pat[i]].len() == 1);
    assert(seq![pat[i]][0] == pat[i]);
    assert(pattern_text(seq![pat[i]]) == "/"@ + seg_text(pat[i]) + pattern_text(
        Seq::<GSeg>::empty(),
    ));
    assert("/"@ + seg_text(pat[i]) + Seq::<char>::empty() =~= "/"@ + seg_text(pat[i]));
    assert(pattern_text(pat.take(i)) + ("/"@ + seg_text(pat[i])) =~= pattern_text(pat.take(i))
        + "/"@ + seg_text(pat[i]));
}

impl Segment {
    /// Append this matcher's canonical text to `out`.
    pub fn write_text(&self, out: &mut String)
        ensures
            final(out)@ == old(out)@ + seg_text(seg_view(*self)),
    {
        match self {
            Segment::Literal(t) => {
                out.append(t.as_str());
            },
            Segment::Param(n, ParamType::Str) => {
                out.append("{");
                out.append(n.as_str());
                out.append("}");
                proof {
                    assert(old(out)@ + ("{"@ + n@ + "}"@) =~= old(out)@ + "{"@ + n@ + "}"@);
                }
            },
            Segment::Param(n, ParamType::Uint) => {
                out.append("{");
                out.append(n.as_str());
                out.append(":usize}");
                proof {
                    assert(old(out)@ + ("{"@ + n@ + ":usize}"@) =~= old(out)@ + "{"@ + n@
                        + ":usize}"@);
                }
            },
        }
    }
}

impl PathPattern {
    /// The pattern's canonical text, `/` for the root pattern.
    pub fn to_text(&self) -> (r: String)
        ensures
            r@ == pattern_display(self@),
    {
        if self.segs.len() == 0 {
            proof {
                assert(self@.len() == 0);
            }
            return "/".to_owned();
        }
        let mut out = String::new();
        let mut i: usize = 0;
        proof {
            assert(pattern_text(self@.take(0)) =~= Seq::<char>::empty());
            assert(out@ =~= pattern_text(self@.take(0)));
        }
        while i < self.segs.len()
            invariant
                i <= self.segs@.len(),
                self@.len() == self.segs@.len(),
                out@ == pattern_text(self@.take(i as int)),
            decreases self.segs@.len() - i,
        {
            out.append("/");
            let ghost mid = out@;
            self.segs[i].write_text(&mut out);
            proof {
                lemma_pattern_text_snoc(self@, i as int);
                assert(self@[i as int] == seg_view(self.segs@[i as int]));
                assert(out@ =~= pattern_text(self@.take(i as int)) + "/"@ + seg_text(
                    self@[i as int],
                ));
            }
            i = i + 1;
        }
        proof {
            assert(self@.take(self@.len() as int) =~= self@);
        }
        out
    }
}

} // verus!
