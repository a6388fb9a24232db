//! The prefix tree at the heart of the router. Nodes are keyed by path
//! segment: literal children by their exact text, plus at most one parametric
//! child. Registration inserts a pattern segment by segment; resolution walks
//! a path, preferring an exact literal child over the parametric one at every
//! depth and backtracking into the parametric branch when the literal branch
//! yields nothing.

use vstd::prelude::*;

use crate::method::Method;
use crate::pattern::GSeg;
use crate::pattern::GVal;
use crate::pattern::ParamType;
use crate::pattern::Segment;
use crate::pattern::seg_matches;
use crate::pattern::seg_view;
use crate::text::is_uint_str;
use crate::text::uint_of;

verus! {

broadcast use vstd::std_specs::vec::axiom_vec_index_decreases;

/// One node of the prefix tree: literal children, at most one parametric
/// child, and one handler slot per method.
pub struct Node<H> {
    pub lits: Vec<(String, Node<H>)>,
    pub param: Option<Box<ParamChild<H>>>,
    pub handlers: Vec<(Method, H)>,
}

/// The single parametric child of a node, with the parameter's name and type.
pub struct ParamChild<H> {
    pub name: String,
    pub ty: ParamType,
    pub child: Node<H>,
}

/// The handler registered for `m`, scanning in registration order.
pub open spec fn handler_for<H>(hs: Seq<(Method, H)>, m: Method) -> Option<H>
    decreases hs.len(),
{
    if hs.len() == 0 {
        None
    } else if hs[0].0 == m {
        Some(hs[0].1)
    } else {
        handler_for(hs.drop_first(), m)
    }
}

/// The literal child keyed by exactly `s`.
pub open spec fn lit_lookup<H>(lits: Seq<(String, Node<H>)>, s: Seq<char>) -> Option<Node<H>>
    decreases lits.len(),
{
    if lits.len() == 0 {
        None
    } else if lits[0].0@ == s {
        Some(lits[0].1)
    } else {
        lit_lookup(lits.drop_first(), s)
    }
}

/// The handler the tree holds for exactly this (method, pattern) route, if
/// any: the content of the tree, seen as a route table.
pub open spec fn route_handler<H>(n: Node<H>, m: Method, pat: Seq<GSeg>) -> Option<H>
    decreases pat.len(),
{
    if pat.len() == 0 {
        handler_for(n.handlers@, m)
    } else {
        match pat[0] {
            GSeg::Lit(s) => match lit_lookup(n.lits@, s) {
                Some(c) => route_handler(c, m, pat.drop_first()),
                None => None,
            },
            GSeg::Param(name, ty) => match n.param {
                Some(b) => if b.name@ == name && b.ty == ty {
                    route_handler(b.child, m, pat.drop_first())
                } else {
                    None
                },
                None => None,
            },
        }
    }
}

/// Whether registering `pat` would meet a parametric child that disagrees in
/// name or type at some depth: the registration-time ambiguity the tree
/// refuses.
pub open spec fn param_conflict<H>(n: Node<H>, pat: Seq<GSeg>) -> bool
    decreases pat.len(),
{
    if pat.len() == 0 {
        false
    } else {
        match pat[0] {
            GSeg::Lit(s) => match lit_lookup(n.lits@, s) {
                Some(c) => param_conflict(c, pat.drop_first()),
                None => false,
            },
            GSeg::Param(name, ty) => match n.param {
                Some(b) => if b.name@ == name && b.ty == ty {
                    param_conflict(b.child, pat.drop_first())
                } else {
                    true
                },
                None => false,
            },
        }
    }
}

/// Well-formed tree: literal keys are distinct at every node.
pub open spec fn wf_node<H>(n: Node<H>) -> bool
    decreases n,
{
    &&& (forall|i: int, j: int|
        0 <= i < j < n.lits.len() ==> n.lits[i].0@ != n.lits[j].0@)
    &&& (forall|i: int| 0 <= i < n.lits.len() ==> wf_node(#[trigger] n.lits[i].1))
    &&& match n.param {
        Some(b) => wf_node(b.child),
        None => true,
    }
}

/// Segment text satisfies a parameter type.
pub open spec fn param_ok(ty: ParamType, t: Seq<char>) -> bool {
    match ty {
        ParamType::Str => true,
        ParamType::Uint => is_uint_str(t),
    }
}

/// The value a parameter of type `ty` captures from segment text `t`.
pub open spec fn param_val(ty: ParamType, t: Seq<char>) -> GVal {
    match ty {
        ParamType::Str => GVal::S(t),
        ParamType::Uint => GVal::U(uint_of(t) as usize),
    }
}

/// The outcome of resolving a path, in mathematical form.
pub enum GRes<H> {
    Matched(H, Seq<(Seq<char>, GVal)>),
    MissMethod,
    MissNotFound,
}

/// Resolution policy, segment by segment: try the literal child for the exact
/// segment text first; if that branch yields no match, fall into the
/// parametric child, whose type must accept the text. At the path's end the
/// node's handler slot decides: a handler for another method is a
/// method-not-allowed miss, an empty slot a not-found miss.
pub open spec fn spec_resolve<H>(n: Node<H>, m: Method, path: Seq<Seq<char>>) -> GRes<H>
    decreases path.len(),
{
    if path.len() == 0 {
        match handler_for(n.handlers@, m) {
            Some(h) => GRes::Matched(h, Seq::empty()),
            None => if n.handlers@.len() > 0 {
                GRes::MissMethod
            } else {
                GRes::MissNotFound
            },
        }
    } else {
        let seg = path[0];
        let lit_res = match lit_lookup(n.lits@, seg) {
            Some(c) => spec_resolve(c, m, path.drop_first()),
            None => GRes::MissNotFound,
        };
        if lit_res is Matched {
            lit_res
        } else {
            let par_res = match n.param {
                Some(b) => if param_ok(b.ty, seg) {
                    match spec_resolve(b.child, m, path.drop_first()) {
                        GRes::Matched(h, ps) => GRes::Matched(
                            h,
                            seq![(b.name@, param_val(b.ty, seg))] + ps,
                        ),
                        r => r,
                    }
                } else {
                    GRes::MissNotFound
                },
                None => GRes::MissNotFound,
            };
            if par_res is Matched {
                par_res
            } else if lit_res is MissMethod || par_res is MissMethod {
                GRes::MissMethod
            } else {
                GRes::MissNotFound
            }
        }
    }
}

/// The matchers of a pattern's tail, from position `i` on.
pub open spec fn pat_suffix(pat: Seq<Segment>, i: int) -> Seq<GSeg> {
    pat.skip(i).map_values(|s: Segment| seg_view(s))
}

proof fn lemma_pat_suffix_step(pat: Seq<Segment>, i: int)
    requires
        0 <= i < pat.len(),
    ensures
        pat_suffix(pat, i).len() == pat.len() - i,
        pat_suffix(pat, i)[0] == seg_view(pat[i]),
        pat_suffix(pat, i).drop_first() =~= pat_suffix(pat, i + 1),
{
    assert(pat.skip(i).drop_first() =~= pat.skip(i + 1));
    assert(pat_suffix(pat, i).drop_first() =~= pat.skip(i).drop_first().map_values(
        |s: Segment| seg_view(s),
    ));
}

/// Two patterns name different parameters for the same slot: at some depth
/// where their earlier segments agree exactly, both are parametric and they
/// disagree in name or type. Registering either after the other is the
/// ambiguity the tree refuses.
pub open spec fn pp_mismatch(p: Seq<GSeg>, q: Seq<GSeg>) -> bool {
    exists|d: int|
        #![trigger p.take(d), q.take(d)]
        0 <= d < p.len() && d < q.len() && p.take(d) == q.take(d) && p[d] is Param && q[d] is Param
            && p[d] != q[d]
}

/// With equal heads, a parameter disagreement sits strictly deeper.
pub proof fn lemma_ppm_shift(p: Seq<GSeg>, q: Seq<GSeg>)
    requires
        p.len() >= 1,
        q.len() >= 1,
        p[0] == q[0],
    ensures
        pp_mismatch(p, q) <==> pp_mismatch(p.drop_first(), q.drop_first()),
{
    let p1 = p.drop_first();
    let q1 = q.drop_first();
    if pp_mismatch(p, q) {
        let d = choose|d: int|
            #![trigger p.take(d), q.take(d)]
            0 <= d < p.len() && d < q.len() && p.take(d) == q.take(d) && p[d] is Param
                && q[d] is Param && p[d] != q[d];
        assert(d >= 1);
        assert(p1.take(d - 1) =~= p.take(d).drop_first());
        assert(q1.take(d - 1) =~= q.take(d).drop_first());
        assert(p1.take(d - 1) == q1.take(d - 1));
        assert(p1[d - 1] == p[d]);
        assert(q1[d - 1] == q[d]);
        assert(pp_mismatch(p1, q1));
    }
    if pp_mismatch(p1, q1) {
        let d = choose|d: int|
            #![trigger p1.take(d), q1.take(d)]
            0 <= d < p1.len() && d < q1.len() && p1.take(d) == q1.take(d) && p1[d] is Param
                && q1[d] is Param && p1[d] != q1[d];
        assert(p.take(d + 1) =~= seq![p[0]] + p1.take(d));
        assert(q.take(d + 1) =~= seq![q[0]] + q1.take(d));
        assert(seq![p[0]] + p1.take(d) == seq![q[0]] + q1.take(d));
        assert(p[d + 1] == p1[d]);
        assert(q[d + 1] == q1[d]);
        assert(pp_mismatch(p, q));
    }
}

/// With unequal heads, the only possible disagreement is the heads
/// themselves: it exists exactly when both are parametric.
pub proof fn lemma_ppm_head(p: Seq<GSeg>, q: Seq<GSeg>)
    requires
        p.len() >= 1,
        q.len() >= 1,
        p[0] != q[0],
    ensures
        pp_mismatch(p, q) <==> (p[0] is Param && q[0] is Param),
{
    if p[0] is Param && q[0] is Param {
        assert(p.take(0) =~= q.take(0));
        assert(pp_mismatch(p, q));
    }
    if pp_mismatch(p, q) {
        let d = choose|d: int|
            #![trigger p.take(d), q.take(d)]
            0 <= d < p.len() && d < q.len() && p.take(d) == q.take(d) && p[d] is Param
                && q[d] is Param && p[d] != q[d];
        if d >= 1 {
            assert(p.take(d)[0] == p[0]);
            assert(q.take(d)[0] == q[0]);
            assert(false);
        }
    }
}

impl<H> Node<H> {
    /// A leaf with nothing registered.
    pub fn empty() -> (r: Node<H>)
        ensures
            r.lits@.len() == 0,
            r.param is None,
            r.handlers@.len() == 0,
            wf_node(r),
            forall|m: Method, q: Seq<GSeg>| #[trigger] route_handler(r, m, q) is None,
            forall|q: Seq<GSeg>| !param_conflict(r, q),
    {
        let r = Node { lits: Vec::new(), param: None, handlers: Vec::new() };
        proof {
            lemma_empty_node(r);
        }
        r
    }
}

proof fn lemma_empty_node<H>(n: Node<H>)
    requires
        n.lits@.len() == 0,
        n.param is None,
        n.handlers@.len() == 0,
    ensures
        wf_node(n),
        forall|m: Method, q: Seq<GSeg>| route_handler(n, m, q) is None,
        forall|q: Seq<GSeg>| !param_conflict(n, q),
{
    assert forall|m: Method, q: Seq<GSeg>| route_handler(n, m, q) is None by {
        if q.len() == 0 {
            assert(handler_for(n.handlers@, m) is None);
        }
    }
    assert forall|q: Seq<GSeg>| !param_conflict(n, q) by {}
}

/// Appending a handler binds a new method and keeps the others.
proof fn lemma_handler_for_push<H>(hs: Seq<(Method, H)>, m: Method, h: H, m2: Method)
    ensures
        handler_for(hs.push((m, h)), m2) == if handler_for(hs, m2) is Some {
            handler_for(hs, m2)
        } else if m2 == m {
            Some(h)
        } else {
            None::<H>
        },
    decreases hs.len(),
{
    let p = hs.push((m, h));
    assert(p.len() == hs.len() + 1);
    if hs.len() == 0 {
        assert(p[0] == (m, h));
        assert(p.drop_first() =~= hs);
        assert(handler_for(hs, m2) is None);
    } else {
        assert(p[0] == hs[0]);
        assert(p.drop_first() =~= hs.drop_first().push((m, h)));
        lemma_handler_for_push(hs.drop_first(), m, h, m2);
    }
}

/// Replacing the child at the key's slot changes lookups for that key alone.
proof fn lemma_lit_lookup_update<H>(
    lits: Seq<(String, Node<H>)>,
    idx: int,
    e: (String, Node<H>),
    s: Seq<char>,
)
    requires
        0 <= idx < lits.len(),
        e.0@ == lits[idx].0@,
        forall|k: int| 0 <= k < lits.len() && k != idx ==> lits[k].0@ != e.0@,
    ensures
        lit_lookup(lits.update(idx, e), s) == if s == e.0@ {
            Some(e.1)
        } else {
            lit_lookup(lits, s)
        },
    decreases lits.len(),
{
    let l2 = lits.update(idx, e);
    assert(l2.len() == lits.len());
    if idx == 0 {
        assert(l2[0] == e);
        assert(l2.drop_first() =~= lits.drop_first());
    } else {
        assert(l2[0] == lits[0]);
        assert(l2.drop_first() =~= lits.drop_first().update(idx - 1, e));
        assert(lits.drop_first()[idx - 1] == lits[idx]);
        assert forall|k: int| 0 <= k < lits.drop_first().len() && k != idx - 1
            implies lits.drop_first()[k].0@ != e.0@ by {
            assert(lits.drop_first()[k] == lits[k + 1]);
        }
        lemma_lit_lookup_update(lits.drop_first(), idx - 1, e, s);
        if s == e.0@ {
            assert(lits[0].0@ != s);
        }
    }
}

/// Appending a child under a fresh key adds lookups for that key alone.
proof fn lemma_lit_lookup_push<H>(lits: Seq<(String, Node<H>)>, e: (String, Node<H>), s: Seq<char>)
    requires
        lit_lookup(lits, e.0@) is None,
    ensures
        lit_lookup(lits.push(e), s) == if s == e.0@ {
            Some(e.1)
        } else {
            lit_lookup(lits, s)
        },
    decreases lits.len(),
{
    let p = lits.push(e);
    assert(p.len() == lits.len() + 1);
    if lits.len() == 0 {
        assert(p[0] == e);
        assert(p.drop_first() =~= lits);
        assert(lit_lookup(lits, s) is None);
    } else {
        assert(p[0] == lits[0]);
        assert(p.drop_first() =~= lits.drop_first().push(e));
        lemma_lit_lookup_push(lits.drop_first(), e, s);
    }
}

/// Find the handler slot for `m`.
fn find_handler<H: Copy>(hs: &Vec<(Method, H)>, m: Method) -> (r: Option<H>)
    ensures
        r == handler_for(hs@, m),
{
    let mut j: usize = 0;
    proof {
        assert(hs@.skip(0) =~= hs@);
    }
    while j < hs.len()
        invariant
            j <= hs@.len(),
            handler_for(hs@, m) == handler_for(hs@.skip(j as int), m),
        decreases hs@.len() - j,
    {
        if hs[j].0 == m {
            proof {
                assert(hs@.skip(j as int)[0] == hs@[j as int]);
            }
            return Some(hs[j].1);
        }
        proof {
            assert(hs@.skip(j as int)[0] == hs@[j as int]);
            assert(hs@.skip(j as int).drop_first() =~= hs@.skip(j as int + 1));
        }
        j = j + 1;
    }
    proof {
        assert(hs@.skip(hs@.len() as int) =~= Seq::<(Method, H)>::empty());
    }
    None
}

/// Find the position of the literal child keyed by `s`.
fn find_lit<H>(lits: &Vec<(String, Node<H>)>, s: &String) -> (r: Option<usize>)
    ensures
        match r {
            Some(idx) => idx < lits@.len() && lits@[idx as int].0@ == s@ && lit_lookup(
                lits@,
                s@,
            ) == Some(lits@[idx as int].1) && (forall|k: int|
                0 <= k < idx ==> lits@[k].0@ != s@),
            None => lit_lookup(lits@, s@) is None,
        },
{
    let mut j: usize = 0;
    proof {
        assert(lits@.skip(0) =~= lits@);
    }
    while j < lits.len()
        invariant
            j <= lits@.len(),
            lit_lookup(lits@, s@) == lit_lookup(lits@.skip(j as int), s@),
            forall|k: int| 0 <= k < j ==> lits@[k].0@ != s@,
        decreases lits@.len() - j,
    {
        if lits[j].0 == *s {
            proof {
                assert(lits@.skip(j as int)[0] == lits@[j as int]);
            }
            return Some(j);
        }
        proof {
            assert(lits@.skip(j as int)[0] == lits@[j as int]);
            assert(lits@.skip(j as int).drop_first() =~= lits@.skip(j as int + 1));
        }
        j = j + 1;
    }
    proof {
        assert(lits@.skip(lits@.len() as int) =~= Seq::<(String, Node<H>)>::empty());
    }
    None
}

/// Why a registration is refused.
#[derive(Clone, Copy, PartialEq, Eq, Structural, Debug)]
pub enum ConflictKind {
    /// This (method, pattern) pair is already registered.
    Duplicate,
    /// A parametric segment disagrees with the parametric child already
    /// present at its depth.
    ParamMismatch,
}

/// Decide, without changing the tree, whether registering `pat[i..]` for `m`
/// here would be refused, and why.
pub fn check_at<H>(n: &Node<H>, pat: &Vec<Segment>, i: usize, m: Method) -> (r: Option<
    ConflictKind,
>)
    requires
        i <= pat@.len(),
    ensures
        r == Some(ConflictKind::ParamMismatch) <==> param_conflict(*n, pat_suffix(pat@, i as int)),
        r == Some(ConflictKind::Duplicate) <==> (route_handler(*n, m, pat_suffix(pat@, i as int))
            is Some && !param_conflict(*n, pat_suffix(pat@, i as int))),
        r is None <==> (route_handler(*n, m, pat_suffix(pat@, i as int)) is None
            && !param_conflict(*n, pat_suffix(pat@, i as int))),
    decreases pat@.len() - i,
{
    let ghost pv = pat_suffix(pat@, i as int);
    if i == pat.len() {
        proof {
            assert(pat@.skip(i as int) =~= Seq::<Segment>::empty());
            assert(pv.len() == 0);
        }
        let mut j: usize = 0;
        let mut found = false;
        proof {
            assert(n.handlers@.skip(0) =~= n.handlers@);
        }
        while j < n.handlers.len() && !found
            invariant
                j <= n.handlers@.len(),
                found ==> handler_for(n.handlers@, m) is Some,
                !found ==> handler_for(n.handlers@, m) == handler_for(
                    n.handlers@.skip(j as int),
                    m,
                ),
            decreases n.handlers@.len() - j,
        {
            proof {
                assert(n.handlers@.skip(j as int)[0] == n.handlers@[j as int]);
                assert(n.handlers@.skip(j as int).drop_first() =~= n.handlers@.skip(j as int + 1));
            }
            if n.handlers[j].0 == m {
                found = true;
            }
            j = j + 1;
        }
        proof {
            if !found {
                assert(j == n.handlers@.len());
                assert(n.handlers@.skip(n.handlers@.len() as int) =~= Seq::<(
                    Method,
                    H,
                )>::empty());
            }
        }
        if found {
            Some(ConflictKind::Duplicate)
        } else {
            None
        }
    } else {
        proof {
            lemma_pat_suffix_step(pat@, i as int);
        }
        match &pat[i] {
            Segment::Literal(s) => {
                match find_lit(&n.lits, s) {
                    Some(idx) => check_at(&n.lits[idx].1, pat, i + 1, m),
                    None => None,
                }
            },
            Segment::Param(name, ty) => {
                match &n.param {
                    Some(b) => {
                        if b.name == *name && b.ty == *ty {
                            check_at(&b.child, pat, i + 1, m)
                        } else {
                            Some(ConflictKind::ParamMismatch)
                        }
                    },
                    None => None,
                }
            },
        }
    }
}

/// Insert the route `(m, pat[i..])` with handler `h`, extending the tree with
/// whatever nodes the pattern still needs. The tree's route table gains
/// exactly this one route; everything else resolves as before.
pub fn insert_at<H>(n: Node<H>, pat: &Vec<Segment>, i: usize, m: Method, h: H) -> (r: Node<H>)
    requires
        i <= pat@.len(),
        wf_node(n),
        route_handler(n, m, pat_suffix(pat@, i as int)) is None,
        !param_conflict(n, pat_suffix(pat@, i as int)),
    ensures
        wf_node(r),
        forall|m2: Method, q: Seq<GSeg>|
            route_handler(r, m2, q) == if m2 == m && q == pat_suffix(pat@, i as int) {
                Some(h)
            } else {
                route_handler(n, m2, q)
            },
        forall|q: Seq<GSeg>|
            param_conflict(r, q) <==> (param_conflict(n, q) || pp_mismatch(
                pat_suffix(pat@, i as int),
                q,
            )),
    decreases pat@.len() - i,
{
    let ghost pv = pat_suffix(pat@, i as int);
    let ghost n0 = n;
    let Node { mut lits, param, mut handlers } = n;
    if i == pat.len() {
        proof {
            assert(pat@.skip(i as int) =~= Seq::<Segment>::empty());
            assert(pv.len() == 0);
        }
        handlers.push((m, h));
        let r = Node { lits, param, handlers };
        proof {
            assert forall|m2: Method, q: Seq<GSeg>| route_handler(r, m2, q) == (if m2 == m && q
                == pv {
                Some(h)
            } else {
                route_handler(n0, m2, q)
            }) by {
                lemma_handler_for_push(n0.handlers@, m, h, m2);
                if q.len() == 0 {
                    assert(q =~= pv);
                } else {
                    assert(q != pv);
                    assert(route_handler(r, m2, q) == route_handler(n0, m2, q));
                }
            }
            assert forall|q: Seq<GSeg>| #![trigger param_conflict(r, q)]
                param_conflict(r, q) == (param_conflict(n0, q) || pp_mismatch(pv, q)) by {
                assert(!pp_mismatch(pv, q));
                if q.len() > 0 {
                    assert(param_conflict(r, q) == param_conflict(n0, q));
                }
            }
        }
        r
    } else {
        proof {
            lemma_pat_suffix_step(pat@, i as int);
        }
        let ghost pv1 = pat_suffix(pat@, i as int + 1);
        match &pat[i] {
            Segment::Literal(s) => {
                match find_lit(&lits, s) {
                    Some(idx) => {
                        let (k, c) = lits.remove(idx);
                        let ghost c_old = c;
                        let c2 = insert_at(c, pat, i + 1, m, h);
                        lits.insert(idx, (k, c2));
                        let r = Node { lits, param, handlers };
                        proof {
                            assert(r.lits@ =~= n0.lits@.update(idx as int, (k, c2)));
                            assert forall|k2: int|
                                0 <= k2 < n0.lits@.len() && k2 != idx
                                implies n0.lits@[k2].0@ != k@ by {
                                if k2 < idx {
                                    assert(n0.lits@[k2].0@ != n0.lits@[idx as int].0@);
                                } else {
                                    assert(n0.lits@[idx as int].0@ != n0.lits@[k2].0@);
                                }
                            }
                            assert forall|s2: Seq<char>|
                                lit_lookup(r.lits@, s2) == (if s2 == k@ {
                                    Some(c2)
                                } else {
                                    lit_lookup(n0.lits@, s2)
                                }) by {
                                lemma_lit_lookup_update(n0.lits@, idx as int, (k, c2), s2);
                            }
                            assert(wf_node(r)) by {
                                assert forall|a: int| 0 <= a < r.lits.len() implies wf_node(
                                    #[trigger] r.lits[a].1,
                                ) by {
                                    if a != idx {
                                        assert(r.lits[a] == n0.lits[a]);
                                        assert(wf_node(n0.lits[a].1));
                                    }
                                }
                            }
                            assert forall|m2: Method, q: Seq<GSeg>| route_handler(r, m2, q) == (
                            if m2 == m && q == pv {
                                Some(h)
                            } else {
                                route_handler(n0, m2, q)
                            }) by {
                                lemma_insert_lit_case(r, n0, q, m2, m, h, k@, c_old, c2, pv, pv1);
                            }
                            assert forall|q: Seq<GSeg>| #![trigger param_conflict(r, q)]
                                param_conflict(r, q) == (param_conflict(n0, q) || pp_mismatch(
                                    pv,
                                    q,
                                )) by {
                                lemma_insert_lit_case(r, n0, q, m, m, h, k@, c_old, c2, pv, pv1);
                            }
                        }
                        r
                    },
                    None => {
                        let c2 = insert_at(Node::empty(), pat, i + 1, m, h);
                        let key = s.clone();
                        lits.push((key, c2));
                        let r = Node { lits, param, handlers };
                        proof {
                            assert(r.lits@ =~= n0.lits@.push((key, c2)));
                            assert forall|s2: Seq<char>|
                                lit_lookup(r.lits@, s2) == (if s2 == key@ {
                                    Some(c2)
                                } else {
                                    lit_lookup(n0.lits@, s2)
                                }) by {
                                lemma_lit_lookup_push(n0.lits@, (key, c2), s2);
                            }
                            assert(wf_node(r)) by {
                                assert forall|a: int, b: int|
                                    0 <= a < b < r.lits.len()
                                    implies r.lits[a].0@ != r.lits[b].0@ by {
                                    if b == r.lits.len() - 1 {
                                        lemma_lit_lookup_present(n0.lits@, a);
                                    }
                                }
                                assert forall|a: int| 0 <= a < r.lits.len() implies wf_node(
                                    #[trigger] r.lits[a].1,
                                ) by {
                                    if a < r.lits.len() - 1 {
                                        assert(r.lits[a] == n0.lits[a]);
                                        assert(wf_node(n0.lits[a].1));
                                    }
                                }
                            }
                            assert forall|m2: Method, q: Seq<GSeg>| route_handler(r, m2, q) == (
                            if m2 == m && q == pv {
                                Some(h)
                            } else {
                                route_handler(n0, m2, q)
                            }) by {
                                lemma_insert_lit_fresh_case(r, n0, q, m2, m, h, key@, c2, pv, pv1);
                            }
                            assert forall|q: Seq<GSeg>| #![trigger param_conflict(r, q)]
                                param_conflict(r, q) == (param_conflict(n0, q) || pp_mismatch(
                                    pv,
                                    q,
                                )) by {
                                lemma_insert_lit_fresh_case(r, n0, q, m, m, h, key@, c2, pv, pv1);
                            }
                        }
                        r
                    },
                }
            },
            Segment::Param(name, ty) => {
                match param {
                    Some(b) => {
                        let pc = *b;
                        proof {
                            assert(pc.name@ == seg_view(pat@[i as int])->Param_0);
                            assert(pc.ty == seg_view(pat@[i as int])->Param_1);
                        }
                        let ghost c_old = pc.child;
                        let c2 = insert_at(pc.child, pat, i + 1, m, h);
                        let nb = Box::new(ParamChild { name: pc.name, ty: pc.ty, child: c2 });
                        let r = Node { lits, param: Some(nb), handlers };
                        proof {
                            assert forall|m2: Method, q: Seq<GSeg>| route_handler(r, m2, q) == (
                            if m2 == m && q == pv {
                                Some(h)
                            } else {
                                route_handler(n0, m2, q)
                            }) by {
                                lemma_insert_param_case(r, n0, q, m2, m, h, c_old, c2, pv, pv1);
                            }
                            assert forall|q: Seq<GSeg>| #![trigger param_conflict(r, q)]
                                param_conflict(r, q) == (param_conflict(n0, q) || pp_mismatch(
                                    pv,
                                    q,
                                )) by {
                                lemma_insert_param_case(r, n0, q, m, m, h, c_old, c2, pv, pv1);
                            }
                        }
                        r
                    },
                    None => {
                        let c2 = insert_at(Node::empty(), pat, i + 1, m, h);
                        let nb = Box::new(ParamChild { name: name.clone(), ty: *ty, child: c2 });
                        let r = Node { lits, param: Some(nb), handlers };
                        proof {
                            assert forall|m2: Method, q: Seq<GSeg>| route_handler(r, m2, q) == (
                            if m2 == m && q == pv {
                                Some(h)
                            } else {
                                route_handler(n0, m2, q)
                            }) by {
                                lemma_insert_param_fresh_case(r, n0, q, m2, m, h, c2, pv, pv1);
                            }
                            assert forall|q: Seq<GSeg>| #![trigger param_conflict(r, q)]
                                param_conflict(r, q) == (param_conflict(n0, q) || pp_mismatch(
                                    pv,
                                    q,
                                )) by {
                                lemma_insert_param_fresh_case(r, n0, q, m, m, h, c2, pv, pv1);
                            }
                        }
                        r
                    },
                }
            },
        }
    }
}

/// Two non-empty sequences with equal heads and equal tails are equal.
proof fn lemma_cons_eq(q: Seq<GSeg>, pv: Seq<GSeg>)
    requires
        q.len() >= 1,
        pv.len() >= 1,
        q[0] == pv[0],
        q.drop_first() == pv.drop_first(),
    ensures
        q == pv,
{
    assert(q.drop_first().len() == pv.drop_first().len());
    assert(q.drop_first().len() == q.len() - 1);
    assert(pv.drop_first().len() == pv.len() - 1);
    assert forall|k: int| 0 <= k < q.len() implies q[k] == pv[k] by {
        if k > 0 {
            assert(q[k] == q.drop_first()[k - 1]);
            assert(pv[k] == pv.drop_first()[k - 1]);
        }
    }
    assert(q =~= pv);
}

/// A key at a valid position is found by lookup.
proof fn lemma_lit_lookup_present<H>(lits: Seq<(String, Node<H>)>, a: int)
    requires
        0 <= a < lits.len(),
    ensures
        lit_lookup(lits, lits[a].0@) is Some,
    decreases lits.len(),
{
    if lits[0].0@ != lits[a].0@ {
        assert(a > 0);
        assert(lits.drop_first()[a - 1] == lits[a]);
        lemma_lit_lookup_present(lits.drop_first(), a - 1);
    }
}

/// One step of the route-table change, literal segment with an existing child.
#[verifier::spinoff_prover]
proof fn lemma_insert_lit_case<H>(
    r: Node<H>,
    n0: Node<H>,
    q: Seq<GSeg>,
    m2: Method,
    m: Method,
    h: H,
    key: Seq<char>,
    c_old: Node<H>,
    c2: Node<H>,
    pv: Seq<GSeg>,
    pv1: Seq<GSeg>,
)
    requires
        pv.len() >= 1,
        pv[0] == GSeg::Lit(key),
        pv1 =~= pv.drop_first(),
        r.handlers@ == n0.handlers@,
        r.param == n0.param,
        lit_lookup(n0.lits@, key) == Some(c_old),
        forall|s: Seq<char>|
            lit_lookup(#[trigger] r.lits@, s) == if s == key {
                Some(c2)
            } else {
                lit_lookup(n0.lits@, s)
            },
        forall|m3: Method, q3: Seq<GSeg>|
            route_handler(c2, m3, q3) == if m3 == m && q3 == pv1 {
                Some(h)
            } else {
                route_handler(c_old, m3, q3)
            },
        forall|q3: Seq<GSeg>|
            param_conflict(c2, q3) <==> (param_conflict(c_old, q3) || pp_mismatch(pv1, q3)),
    ensures
        route_handler(r, m2, q) == if m2 == m && q == pv {
            Some(h)
        } else {
            route_handler(n0, m2, q)
        },
        param_conflict(r, q) <==> (param_conflict(n0, q) || pp_mismatch(pv, q)),
{
    if q.len() == 0 {
        assert(q != pv);
    } else {
        match q[0] {
            GSeg::Lit(s) => {
                if s == key {
                    assert(route_handler(r, m2, q) == route_handler(c2, m2, q.drop_first()));
                    assert(route_handler(n0, m2, q) == route_handler(c_old, m2, q.drop_first()));
                    if m2 == m && q.drop_first() == pv1 {
                        assert(q[0] == pv[0]);
                        lemma_cons_eq(q, pv);
                    } else {
                        if q == pv {
                            assert(q.drop_first() =~= pv.drop_first());
                        }
                    }
                } else {
                    assert(route_handler(r, m2, q) == route_handler(n0, m2, q));
                    assert(q != pv);
                }
            },
            GSeg::Param(_, _) => {
                assert(route_handler(r, m2, q) == route_handler(n0, m2, q));
                assert(q != pv);
            },
        }
    }
    if q.len() == 0 {
    } else {
        match q[0] {
            GSeg::Lit(s) => {
                if s == key {
                    assert(param_conflict(r, q) == param_conflict(c2, q.drop_first()));
                    assert(param_conflict(n0, q) == param_conflict(c_old, q.drop_first()));
                    lemma_ppm_shift(pv, q);
                    assert(pv.drop_first() == pv1);
                } else {
                    assert(param_conflict(r, q) == param_conflict(n0, q));
                    lemma_ppm_head(pv, q);
                }
            },
            GSeg::Param(_, _) => {
                assert(param_conflict(r, q) == param_conflict(n0, q));
                lemma_ppm_head(pv, q);
            },
        }
    }
}

/// One step of the route-table change, literal segment with a fresh child.
#[verifier::spinoff_prover]
proof fn lemma_insert_lit_fresh_case<H>(
    r: Node<H>,
    n0: Node<H>,
    q: Seq<GSeg>,
    m2: Method,
    m: Method,
    h: H,
    key: Seq<char>,
    c2: Node<H>,
    pv: Seq<GSeg>,
    pv1: Seq<GSeg>,
)
    requires
        pv.len() >= 1,
        pv[0] == GSeg::Lit(key),
        pv1 =~= pv.drop_first(),
        r.handlers@ == n0.handlers@,
        r.param == n0.param,
        lit_lookup(n0.lits@, key) is None,
        forall|s: Seq<char>|
            lit_lookup(#[trigger] r.lits@, s) == if s == key {
                Some(c2)
            } else {
                lit_lookup(n0.lits@, s)
            },
        forall|m3: Method, q3: Seq<GSeg>|
            route_handler(c2, m3, q3) == if m3 == m && q3 == pv1 {
                Some(h)
            } else {
                None::<H>
            },
        forall|q3: Seq<GSeg>|
            param_conflict(c2, q3) <==> pp_mismatch(pv1, q3),
    ensures
        route_handler(r, m2, q) == if m2 == m && q == pv {
            Some(h)
        } else {
            route_handler(n0, m2, q)
        },
        param_conflict(r, q) <==> (param_conflict(n0, q) || pp_mismatch(pv, q)),
{
    if q.len() == 0 {
        assert(q != pv);
    } else {
        match q[0] {
            GSeg::Lit(s) => {
                if s == key {
                    assert(route_handler(r, m2, q) == route_handler(c2, m2, q.drop_first()));
                    assert(route_handler(n0, m2, q) is None);
                    if m2 == m && q.drop_first() == pv1 {
                        assert(q[0] == pv[0]);
                        lemma_cons_eq(q, pv);
                    } else {
                        if q == pv {
                            assert(q.drop_first() =~= pv.drop_first());
                        }
                    }
                } else {
                    assert(route_handler(r, m2, q) == route_handler(n0, m2, q));
                    assert(q != pv);
                }
            },
            GSeg::Param(_, _) => {
                assert(route_handler(r, m2, q) == route_handler(n0, m2, q));
                assert(q != pv);
            },
        }
    }
    if q.len() == 0 {
    } else {
        match q[0] {
            GSeg::Lit(s) => {
                if s == key {
                    assert(param_conflict(r, q) == param_conflict(c2, q.drop_first()));
                    assert(!param_conflict(n0, q));
                    lemma_ppm_shift(pv, q);
                    assert(pv.drop_first() == pv1);
                } else {
                    assert(param_conflict(r, q) == param_conflict(n0, q));
                    lemma_ppm_head(pv, q);
                }
            },
            GSeg::Param(_, _) => {
                assert(param_conflict(r, q) == param_conflict(n0, q));
                lemma_ppm_head(pv, q);
            },
        }
    }
}

/// One step of the route-table change, parametric segment with an existing
/// agreeing child.
#[verifier::spinoff_prover]
proof fn lemma_insert_param_case<H>(
    r: Node<H>,
    n0: Node<H>,
    q: Seq<GSeg>,
    m2: Method,
    m: Method,
    h: H,
    c_old: Node<H>,
    c2: Node<H>,
    pv: Seq<GSeg>,
    pv1: Seq<GSeg>,
)
    requires
        pv.len() >= 1,
        pv[0] is Param,
        pv1 =~= pv.drop_first(),
        r.handlers@ == n0.handlers@,
        r.lits@ == n0.lits@,
        n0.param is Some,
        n0.param->0.name@ == pv[0]->Param_0,
        n0.param->0.ty == pv[0]->Param_1,
        n0.param->0.child == c_old,
        r.param is Some,
        r.param->0.name@ == n0.param->0.name@,
        r.param->0.ty == n0.param->0.ty,
        r.param->0.child == c2,
        forall|m3: Method, q3: Seq<GSeg>|
            route_handler(c2, m3, q3) == if m3 == m && q3 == pv1 {
                Some(h)
            } else {
                route_handler(c_old, m3, q3)
            },
        forall|q3: Seq<GSeg>|
            param_conflict(c2, q3) <==> (param_conflict(c_old, q3) || pp_mismatch(pv1, q3)),
    ensures
        route_handler(r, m2, q) == if m2 == m && q == pv {
            Some(h)
        } else {
            route_handler(n0, m2, q)
        },
        param_conflict(r, q) <==> (param_conflict(n0, q) || pp_mismatch(pv, q)),
{
    if q.len() == 0 {
        assert(q != pv);
    } else {
        match q[0] {
            GSeg::Lit(_) => {
                assert(route_handler(r, m2, q) == route_handler(n0, m2, q));
                assert(q != pv);
            },
            GSeg::Param(name, ty) => {
                if name == n0.param->0.name@ && ty == n0.param->0.ty {
                    assert(route_handler(r, m2, q) == route_handler(c2, m2, q.drop_first()));
                    assert(route_handler(n0, m2, q) == route_handler(c_old, m2, q.drop_first()));
                    if m2 == m && q.drop_first() == pv1 {
                        assert(q[0] == pv[0]);
                        lemma_cons_eq(q, pv);
                    } else {
                        if q == pv {
                            assert(q.drop_first() =~= pv.drop_first());
                        }
                    }
                } else {
                    assert(route_handler(r, m2, q) is None);
                    assert(route_handler(n0, m2, q) is None);
                    assert(q != pv);
                }
            },
        }
    }
    if q.len() == 0 {
    } else {
        match q[0] {
            GSeg::Lit(_) => {
                assert(param_conflict(r, q) == param_conflict(n0, q));
                lemma_ppm_head(pv, q);
            },
            GSeg::Param(name, ty) => {
                if name == n0.param->0.name@ && ty == n0.param->0.ty {
                    assert(param_conflict(r, q) == param_conflict(c2, q.drop_first()));
                    assert(param_conflict(n0, q) == param_conflict(c_old, q.drop_first()));
                    assert(q[0] == pv[0]);
                    lemma_ppm_shift(pv, q);
                    assert(pv.drop_first() == pv1);
                } else {
                    assert(param_conflict(r, q));
                    assert(param_conflict(n0, q));
                }
            },
        }
    }
}

/// One step of the route-table change, parametric segment with a fresh child.
#[verifier::spinoff_prover]
proof fn lemma_insert_param_fresh_case<H>(
    r: Node<H>,
    n0: Node<H>,
    q: Seq<GSeg>,
    m2: Method,
    m: Method,
    h: H,
    c2: Node<H>,
    pv: Seq<GSeg>,
    pv1: Seq<GSeg>,
)
    requires
        pv.len() >= 1,
        pv[0] is Param,
        pv1 =~= pv.drop_first(),
        r.handlers@ == n0.handlers@,
        r.lits@ == n0.lits@,
        n0.param is None,
        r.param is Some,
        r.param->0.name@ == pv[0]->Param_0,
        r.param->0.ty == pv[0]->Param_1,
        r.param->0.child == c2,
        forall|m3: Method, q3: Seq<GSeg>|
            route_handler(c2, m3, q3) == if m3 == m && q3 == pv1 {
                Some(h)
            } else {
                None::<H>
            },
        forall|q3: Seq<GSeg>|
            param_conflict(c2, q3) <==> pp_mismatch(pv1, q3),
    ensures
        route_handler(r, m2, q) == if m2 == m && q == pv {
            Some(h)
        } else {
            route_handler(n0, m2, q)
        },
        param_conflict(r, q) <==> (param_conflict(n0, q) || pp_mismatch(pv, q)),
{
    if q.len() == 0 {
        assert(q != pv);
    } else {
        match q[0] {
            GSeg::Lit(_) => {
                assert(route_handler(r, m2, q) == route_handler(n0, m2, q));
                assert(q != pv);
            },
            GSeg::Param(name, ty) => {
                assert(route_handler(n0, m2, q) is None);
                if name == r.param->0.name@ && ty == r.param->0.ty {
                    assert(route_handler(r, m2, q) == route_handler(c2, m2, q.drop_first()));
                    if m2 == m && q.drop_first() == pv1 {
                        assert(q[0] == pv[0]);
                        lemma_cons_eq(q, pv);
                    } else {
                        if q == pv {
                            assert(q.drop_first() =~= pv.drop_first());
                        }
                    }
                } else {
                    assert(route_handler(r, m2, q) is None);
                    assert(q != pv);
                }
            },
        }
    }
    if q.len() == 0 {
    } else {
        match q[0] {
            GSeg::Lit(_) => {
                assert(param_conflict(r, q) == param_conflict(n0, q));
                lemma_ppm_head(pv, q);
            },
            GSeg::Param(name, ty) => {
                assert(!param_conflict(n0, q));
                if name == r.param->0.name@ && ty == r.param->0.ty {
                    assert(q[0] == pv[0]);
                    assert(param_conflict(r, q) == param_conflict(c2, q.drop_first()));
                    lemma_ppm_shift(pv, q);
                    assert(pv.drop_first() == pv1);
                } else {
                    assert(param_conflict(r, q));
                    assert(q[0] != pv[0]);
                    lemma_ppm_head(pv, q);
                    assert(pp_mismatch(pv, q));
                }
            },
        }
    }
}

/// A captured parameter value, as handed to handlers.
#[derive(Debug)]
pub enum PVal {
    Str(String),
    Uint(usize),
}

pub open spec fn pval_view(p: PVal) -> GVal {
    match p {
        PVal::Str(s) => GVal::S(s@),
        PVal::Uint(u) => GVal::U(u),
    }
}

/// The mathematical form of a captured-parameter list.
pub open spec fn params_view(ps: Seq<(String, PVal)>) -> Seq<(Seq<char>, GVal)> {
    ps.map_values(|p: (String, PVal)| (p.0@, pval_view(p.1)))
}

/// The outcome of resolving a (method, path) pair.
pub enum Resolution<H> {
    /// A route matched: its handler, and the parameters captured along the
    /// way, in pattern order.
    Matched { handler: H, params: Vec<(String, PVal)> },
    /// The path names a registered node, but not for this method.
    MissMethodNotAllowed,
    /// No registered route matches the path.
    MissNotFound,
}

pub open spec fn res_view<H>(r: Resolution<H>) -> GRes<H> {
    match r {
        Resolution::Matched { handler, params } => GRes::Matched(handler, params_view(params@)),
        Resolution::MissMethodNotAllowed => GRes::MissMethod,
        Resolution::MissNotFound => GRes::MissNotFound,
    }
}

/// The texts of a segment list.
pub open spec fn strs_view(v: Seq<String>) -> Seq<Seq<char>> {
    v.map_values(|s: String| s@)
}

/// The literal branch of one resolution step.
pub open spec fn lit_branch<H>(n: Node<H>, m: Method, path: Seq<Seq<char>>) -> GRes<H> {
    match lit_lookup(n.lits@, path[0]) {
        Some(c) => spec_resolve(c, m, path.drop_first()),
        None => GRes::MissNotFound,
    }
}

/// The parametric branch of one resolution step.
pub open spec fn par_branch<H>(n: Node<H>, m: Method, path: Seq<Seq<char>>) -> GRes<H> {
    match n.param {
        Some(b) => if param_ok(b.ty, path[0]) {
            match spec_resolve(b.child, m, path.drop_first()) {
                GRes::Matched(h, ps) => GRes::Matched(
                    h,
                    seq![(b.name@, param_val(b.ty, path[0]))] + ps,
                ),
                r => r,
            }
        } else {
            GRes::MissNotFound
        },
        None => GRes::MissNotFound,
    }
}

/// Resolve `path[i..]` under `n`, returning exactly what the resolution
/// policy (`spec_resolve`) prescribes.
pub fn resolve_at<H: Copy>(n: &Node<H>, m: Method, path: &Vec<String>, i: usize) -> (r:
    Resolution<H>)
    requires
        i <= path@.len(),
    ensures
        res_view(r) == spec_resolve(*n, m, strs_view(path@).skip(i as int)),
    decreases path@.len() - i,
{
    let ghost sv = strs_view(path@).skip(i as int);
    if i == path.len() {
        proof {
            assert(sv =~= Seq::<Seq<char>>::empty());
        }
        match find_handler(&n.handlers, m) {
            Some(h) => {
                let r = Resolution::Matched { handler: h, params: Vec::new() };
                proof {
                    assert(params_view(Seq::<(String, PVal)>::empty()) =~= Seq::<(
                        Seq<char>,
                        GVal,
                    )>::empty());
                }
                r
            },
            None => {
                if n.handlers.len() > 0 {
                    Resolution::MissMethodNotAllowed
                } else {
                    Resolution::MissNotFound
                }
            },
        }
    } else {
        proof {
            assert(sv.len() == path@.len() - i);
            assert(sv[0] == path@[i as int]@);
            assert(sv.drop_first() =~= strs_view(path@).skip(i as int + 1));
        }
        let seg = &path[i];
        let ghost lit_g: GRes<H> = lit_branch(*n, m, sv);
        let mut lit_method_miss = false;
        match find_lit(&n.lits, seg) {
            Some(idx) => {
                let r1 = resolve_at(&n.lits[idx].1, m, path, i + 1);
                match r1 {
                    Resolution::Matched { handler, params } => {
                        return Resolution::Matched { handler, params };
                    },
                    Resolution::MissMethodNotAllowed => {
                        lit_method_miss = true;
                    },
                    Resolution::MissNotFound => {},
                }
            },
            None => {},
        }
        proof {
            assert(!(lit_g is Matched));
            assert(lit_method_miss == (lit_g is MissMethod));
        }
        let ghost par_g: GRes<H> = par_branch(*n, m, sv);
        let mut par_method_miss = false;
        match &n.param {
            Some(b) => {
                let cap: Option<PVal> = match b.ty {
                    ParamType::Str => Some(PVal::Str(seg.clone())),
                    ParamType::Uint => {
                        match crate::text::parse_usize(seg.as_str()) {
                            Some(u) => Some(PVal::Uint(u)),
                            None => None,
                        }
                    },
                };
                match cap {
                    Some(v) => {
                        proof {
                            assert(param_ok(b.ty, sv[0]));
                            assert(pval_view(v) == param_val(b.ty, sv[0]));
                        }
                        let r2 = resolve_at(&b.child, m, path, i + 1);
                        match r2 {
                            Resolution::Matched { handler, mut params } => {
                                let ghost ps_old = params@;
                                let name = b.name.clone();
                                params.insert(0, (name, v));
                                proof {
                                    assert(params_view(ps_old.insert(0, (name, v))) =~= seq![
                                        (b.name@, param_val(b.ty, sv[0])),
                                    ] + params_view(ps_old));
                                }
                                return Resolution::Matched { handler, params };
                            },
                            Resolution::MissMethodNotAllowed => {
                                par_method_miss = true;
                            },
                            Resolution::MissNotFound => {},
                        }
                    },
                    None => {
                        proof {
                            assert(!param_ok(b.ty, sv[0]));
                        }
                    },
                }
            },
            None => {},
        }
        proof {
            assert(!(par_g is Matched));
            assert(par_method_miss == (par_g is MissMethod));
        }
        if lit_method_miss || par_method_miss {
            Resolution::MissMethodNotAllowed
        } else {
            Resolution::MissNotFound
        }
    }
}

/// Every path as a fully literal pattern.
pub open spec fn lit_pat(path: Seq<Seq<char>>) -> Seq<GSeg> {
    path.map_values(|t: Seq<char>| GSeg::Lit(t))
}

/// Match completeness: if some registered route's pattern matches the path,
/// resolution finds a match — never a miss.
pub proof fn lemma_resolve_complete<H>(
    n: Node<H>,
    m: Method,
    pat: Seq<GSeg>,
    path: Seq<Seq<char>>,
)
    requires
        route_handler(n, m, pat) is Some,
        crate::pattern::pat_matches(pat, path),
    ensures
        spec_resolve(n, m, path) is Matched,
    decreases path.len(),
{
    if path.len() == 0 {
    } else {
        assert(seg_matches(pat[0], path[0]));
        assert forall|j: int|
            0 <= j < pat.drop_first().len() implies seg_matches(
            pat.drop_first()[j],
            path.drop_first()[j],
        ) by {
            assert(pat.drop_first()[j] == pat[j + 1]);
            assert(path.drop_first()[j] == path[j + 1]);
            assert(seg_matches(pat[j + 1], path[j + 1]));
        }
        assert(crate::pattern::pat_matches(pat.drop_first(), path.drop_first()));
        match pat[0] {
            GSeg::Lit(s) => {
                assert(s == path[0]);
                let c = lit_lookup(n.lits@, path[0])->Some_0;
                lemma_resolve_complete(c, m, pat.drop_first(), path.drop_first());
            },
            GSeg::Param(name, ty) => {
                let b = n.param->0;
                assert(b.name@ == name && b.ty == ty);
                assert(param_ok(ty, path[0]));
                lemma_resolve_complete(b.child, m, pat.drop_first(), path.drop_first());
            },
        }
    }
}

/// Match soundness: a match always comes from a registered route whose
/// pattern matches the path, carrying that handler, and the captured
/// parameters are exactly what that pattern captures from the path, each
/// converted to its declared type.
pub proof fn lemma_resolve_sound<H>(n: Node<H>, m: Method, path: Seq<Seq<char>>) -> (pat: Seq<
    GSeg,
>)
    requires
        spec_resolve(n, m, path) is Matched,
    ensures
        crate::pattern::pat_matches(pat, path),
        route_handler(n, m, pat) == Some(spec_resolve(n, m, path)->Matched_0),
        crate::pattern::captures(pat, path) == spec_resolve(n, m, path)->Matched_1,
    decreases path.len(),
{
    if path.len() == 0 {
        let pat = Seq::<GSeg>::empty();
        assert(crate::pattern::captures(pat, path) =~= spec_resolve(n, m, path)->Matched_1);
        pat
    } else {
        let lit_g: GRes<H> = match lit_lookup(n.lits@, path[0]) {
            Some(c) => spec_resolve(c, m, path.drop_first()),
            None => GRes::MissNotFound,
        };
        if lit_g is Matched {
            let c = lit_lookup(n.lits@, path[0])->Some_0;
            let pr = lemma_resolve_sound(c, m, path.drop_first());
            let pat = seq![GSeg::Lit(path[0])] + pr;
            assert(pat[0] == GSeg::Lit(path[0]));
            assert(pat.drop_first() =~= pr);
            assert forall|j: int| 0 <= j < pat.len() implies seg_matches(pat[j], path[j]) by {
                if j > 0 {
                    assert(pat[j] == pr[j - 1]);
                    assert(path[j] == path.drop_first()[j - 1]);
                    assert(seg_matches(pr[j - 1], path.drop_first()[j - 1]));
                }
            }
            assert(crate::pattern::captures(pat, path) == crate::pattern::captures(
                pr,
                path.drop_first(),
            )) by {
                assert(crate::pattern::seg_captures(pat[0], path[0]) =~= Seq::<(
                    Seq<char>,
                    GVal,
                )>::empty());
                assert(crate::pattern::seg_captures(pat[0], path[0]) + crate::pattern::captures(
                    pat.drop_first(),
                    path.drop_first(),
                ) =~= crate::pattern::captures(pr, path.drop_first()));
            }
            pat
        } else {
            let b = n.param->0;
            assert(param_ok(b.ty, path[0]));
            assert(spec_resolve(b.child, m, path.drop_first()) is Matched);
            let pr = lemma_resolve_sound(b.child, m, path.drop_first());
            let pat = seq![GSeg::Param(b.name@, b.ty)] + pr;
            assert(pat[0] == GSeg::Param(b.name@, b.ty));
            assert(pat.drop_first() =~= pr);
            assert(seg_matches(pat[0], path[0]));
            assert forall|j: int| 0 <= j < pat.len() implies seg_matches(pat[j], path[j]) by {
                if j > 0 {
                    assert(pat[j] == pr[j - 1]);
                    assert(path[j] == path.drop_first()[j - 1]);
                    assert(seg_matches(pr[j - 1], path.drop_first()[j - 1]));
                }
            }
            assert(crate::pattern::seg_captures(pat[0], path[0]) =~= seq![
                (b.name@, param_val(b.ty, path[0])),
            ]);
            assert(crate::pattern::captures(pat, path) == spec_resolve(n, m, path)->Matched_1) by {
                assert(crate::pattern::captures(pat, path) == crate::pattern::seg_captures(
                    pat[0],
                    path[0],
                ) + crate::pattern::captures(pat.drop_first(), path.drop_first()));
            }
            pat
        }
    }
}

/// Literal precedence: a path that is registered literally, segment for
/// segment, always resolves to that literal route's handler — the parametric
/// branch is never taken in its place.
pub proof fn lemma_literal_precedence<H>(n: Node<H>, m: Method, path: Seq<Seq<char>>)
    requires
        route_handler(n, m, lit_pat(path)) is Some,
    ensures
        spec_resolve(n, m, path) == GRes::Matched(
            route_handler(n, m, lit_pat(path))->Some_0,
            Seq::<(Seq<char>, GVal)>::empty(),
        ),
    decreases path.len(),
{
    if path.len() == 0 {
        assert(lit_pat(path).len() == 0);
    } else {
        assert(lit_pat(path)[0] == GSeg::Lit(path[0]));
        assert(lit_pat(path).drop_first() =~= lit_pat(path.drop_first()));
        let c = lit_lookup(n.lits@, path[0])->Some_0;
        lemma_literal_precedence(c, m, path.drop_first());
    }
}


/// A registered route that passes through a parametric slot fixes that
/// slot's name and type: any pattern sharing the same literal path to that
/// depth but naming a different parameter there is a registration conflict.
pub proof fn lemma_conflict_from_route<H>(
    n: Node<H>,
    m1: Method,
    p1: Seq<GSeg>,
    q: Seq<GSeg>,
    d: int,
)
    requires
        route_handler(n, m1, p1) is Some,
        0 <= d < p1.len(),
        d < q.len(),
        p1.take(d) == q.take(d),
        p1[d] is Param,
        q[d] is Param,
        p1[d] != q[d],
    ensures
        param_conflict(n, q),
    decreases d,
{
    if d == 0 {
        let b = n.param->0;
        assert(n.param is Some);
        assert(b.name@ == p1[0]->Param_0);
        assert(b.ty == p1[0]->Param_1);
        assert(!(b.name@ == q[0]->Param_0 && b.ty == q[0]->Param_1));
    } else {
        assert(p1.take(d)[0] == p1[0]);
        assert(q.take(d)[0] == q[0]);
        assert(p1[0] == q[0]);
        assert(p1.take(d).drop_first() =~= p1.drop_first().take(d - 1));
        assert(q.take(d).drop_first() =~= q.drop_first().take(d - 1));
        assert(p1.drop_first().take(d - 1) == q.drop_first().take(d - 1));
        assert(p1.drop_first()[d - 1] == p1[d]);
        assert(q.drop_first()[d - 1] == q[d]);
        match p1[0] {
            GSeg::Lit(s) => {
                let c = lit_lookup(n.lits@, s)->Some_0;
                assert(lit_lookup(n.lits@, s) is Some);
                lemma_conflict_from_route(c, m1, p1.drop_first(), q.drop_first(), d - 1);
            },
            GSeg::Param(name, ty) => {
                let b = n.param->0;
                assert(n.param is Some);
                assert(b.name@ == name && b.ty == ty);
                lemma_conflict_from_route(b.child, m1, p1.drop_first(), q.drop_first(), d - 1);
            },
        }
    }
}


} // verus!
