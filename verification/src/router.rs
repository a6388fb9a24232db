//! The router: a prefix tree plus the ordered table of registered routes.
//! Routes are registered under an HTTP method and a pattern string; child
//! routers mount under a path prefix, which composes route tables as if every
//! child route had been registered with the prefix prepended; resolution
//! walks the tree with literal-over-parametric precedence.

use vstd::prelude::*;
use vstd::string::StringExecFns;

use crate::method::Method;
use crate::method::method_name;
use crate::pattern::GSeg;
use crate::pattern::ParseError;
use crate::pattern::PathPattern;
use crate::pattern::Segment;
use crate::pattern::parse;
use crate::pattern::spec_parse;
use crate::text::split_segs;
use crate::tree::ConflictKind;
use crate::tree::GRes;
use crate::tree::Node;
use crate::tree::Resolution;
use crate::tree::check_at;
use crate::tree::insert_at;
use crate::tree::param_conflict;
use crate::tree::pat_suffix;
use crate::tree::res_view;
use crate::tree::resolve_at;
use crate::tree::route_handler;
use crate::tree::spec_resolve;
use crate::tree::wf_node;

verus! {

/// Cross-cutting behaviour of one router: whether `HEAD` requests fall back
/// to `GET` handlers, and headers appended to every response it produces.
pub struct Config {
    pub handle_head: bool,
    pub extra_headers: Vec<(String, String)>,
}

impl Config {
    /// The default configuration: `HEAD` is served from `GET` handlers and no
    /// extra headers are appended.
    pub fn new() -> (r: Config)
        ensures
            r.handle_head == true,
            r.extra_headers@.len() == 0,
    {
        Config { handle_head: true, extra_headers: Vec::new() }
    }

    /// Choose whether `HEAD` requests are served from `GET` handlers.
    pub fn handle_head(self, v: bool) -> (r: Config)
        ensures
            r.handle_head == v,
            r.extra_headers == self.extra_headers,
    {
        Config { handle_head: v, extra_headers: self.extra_headers }
    }

    /// Append one header to every response this router produces.
    pub fn extra_header(self, name: &str, value: &str) -> (r: Config)
        ensures
            r.handle_head == self.handle_head,
            r.extra_headers@.map_values(|p: (String, String)| (p.0@, p.1@))
                == self.extra_headers@.map_values(|p: (String, String)| (p.0@, p.1@)).push(
                (name@, value@),
            ),
    {
        let mut hs = self.extra_headers;
        hs.push((name.to_owned(), value.to_owned()));
        proof {
            assert(hs@.map_values(|p: (String, String)| (p.0@, p.1@)) =~= hs@.drop_last()
                .map_values(|p: (String, String)| (p.0@, p.1@)).push((name@, value@)));
        }
        Config { handle_head: self.handle_head, extra_headers: hs }
    }
}

/// One registered route.
pub struct Entry<H> {
    pub method: Method,
    pub pattern: PathPattern,
    pub handler: H,
}

/// The route table a list of entries denotes: first entry for an exact
/// (method, pattern) pair wins.
pub open spec fn table_lookup<H>(
    es: Seq<(Method, Seq<GSeg>, H)>,
    m: Method,
    q: Seq<GSeg>,
) -> Option<H>
    decreases es.len(),
{
    if es.len() == 0 {
        None
    } else if es[0].0 == m && es[0].1 == q {
        Some(es[0].2)
    } else {
        table_lookup(es.drop_first(), m, q)
    }
}

/// Appending an entry binds its route if it was absent, and keeps the rest.
pub proof fn lemma_table_lookup_push<H>(
    es: Seq<(Method, Seq<GSeg>, H)>,
    e: (Method, Seq<GSeg>, H),
    m: Method,
    q: Seq<GSeg>,
)
    ensures
        table_lookup(es.push(e), m, q) == if table_lookup(es, m, q) is Some {
            table_lookup(es, m, q)
        } else if e.0 == m && e.1 == q {
            Some(e.2)
        } else {
            None::<H>
        },
    decreases es.len(),
{
    let p = es.push(e);
    assert(p.len() == es.len() + 1);
    if es.len() == 0 {
        assert(p[0] == e);
        assert(p.drop_first() =~= es);
        assert(table_lookup(es, m, q) is None);
    } else {
        assert(p[0] == es[0]);
        assert(p.drop_first() =~= es.drop_first().push(e));
        lemma_table_lookup_push(es.drop_first(), e, m, q);
    }
}

/// An absent route matches no entry.
pub proof fn lemma_table_lookup_none_at<H>(
    es: Seq<(Method, Seq<GSeg>, H)>,
    m: Method,
    q: Seq<GSeg>,
    i: int,
)
    requires
        table_lookup(es, m, q) is None,
        0 <= i < es.len(),
    ensures
        !(es[i].0 == m && es[i].1 == q),
    decreases es.len(),
{
    if i > 0 {
        assert(es.drop_first()[i - 1] == es[i]);
        lemma_table_lookup_none_at(es.drop_first(), m, q, i - 1);
    }
}

/// A route that stands in the table is found by lookup.
pub proof fn lemma_table_lookup_present<H>(es: Seq<(Method, Seq<GSeg>, H)>, i: int)
    requires
        0 <= i < es.len(),
    ensures
        table_lookup(es, es[i].0, es[i].1) is Some,
    decreases es.len(),
{
    if !(es[0].0 == es[i].0 && es[0].1 == es[i].1) {
        assert(i > 0);
        assert(es.drop_first()[i - 1] == es[i]);
        lemma_table_lookup_present(es.drop_first(), i - 1);
    }
}

/// Lookup over a concatenation: the front table wins.
pub proof fn lemma_table_lookup_append<H>(
    a: Seq<(Method, Seq<GSeg>, H)>,
    b: Seq<(Method, Seq<GSeg>, H)>,
    m: Method,
    q: Seq<GSeg>,
)
    ensures
        table_lookup(a + b, m, q) == if table_lookup(a, m, q) is Some {
            table_lookup(a, m, q)
        } else {
            table_lookup(b, m, q)
        },
    decreases a.len(),
{
    if a.len() == 0 {
        assert(a + b =~= b);
    } else {
        assert((a + b).len() == a.len() + b.len());
        assert((a + b)[0] == a[0]);
        assert((a + b).drop_first() =~= a.drop_first() + b);
        lemma_table_lookup_append(a.drop_first(), b, m, q);
    }
}

/// A route matching no entry is not found.
pub proof fn lemma_table_lookup_absent<H>(es: Seq<(Method, Seq<GSeg>, H)>, m: Method, q: Seq<GSeg>)
    requires
        forall|i: int| 0 <= i < es.len() ==> !(es[i].0 == m && es[i].1 == q),
    ensures
        table_lookup(es, m, q) is None,
    decreases es.len(),
{
    if es.len() > 0 {
        assert forall|i: int|
            0 <= i < es.drop_first().len() implies !(es.drop_first()[i].0 == m
            && es.drop_first()[i].1 == q) by {
            assert(es.drop_first()[i] == es[i + 1]);
        }
        lemma_table_lookup_absent(es.drop_first(), m, q);
    }
}

/// A clean mount: no child route's prefixed form is already registered or
/// meets a parametric slot it disagrees with, and no two child routes name
/// the same route or disagreeing parameters among themselves.
pub open spec fn mount_clean<H>(
    parent_table: Seq<(Method, Seq<GSeg>, H)>,
    parent_root: Node<H>,
    pre: Seq<GSeg>,
    ct: Seq<(Method, Seq<GSeg>, H)>,
) -> bool {
    &&& (forall|k: int|
        0 <= k < ct.len() ==> table_lookup(parent_table, ct[k].0, pre + ct[k].1) is None
            && !param_conflict(parent_root, #[trigger] (pre + ct[k].1)))
    &&& (forall|j: int, k: int|
        #![trigger ct[j], ct[k]]
        0 <= j < ct.len() && 0 <= k < ct.len() && j != k ==> !(ct[j].0 == ct[k].0 && ct[j].1
            == ct[k].1) && !crate::tree::pp_mismatch(pre + ct[j].1, pre + ct[k].1))
}

/// Why a registration was refused.
#[derive(Debug)]
pub enum RegisterError {
    /// The pattern string is malformed.
    Pattern(ParseError),
    /// The route collides with one already registered.
    Conflict(ConflictKind),
}

/// A request router: the prefix tree, the table of registered routes in
/// registration order, and the configuration.
pub struct Router<H> {
    pub root: Node<H>,
    pub entries: Vec<Entry<H>>,
    pub config: Config,
}

impl<H> Router<H> {
    /// The router's route table, in registration order.
    pub open spec fn table(&self) -> Seq<(Method, Seq<GSeg>, H)> {
        self.entries@.map_values(|e: Entry<H>| (e.method, e.pattern@, e.handler))
    }

    /// The tree holds exactly the registered routes, and no (method, pattern)
    /// pair is registered twice.
    pub open spec fn wf(&self) -> bool {
        &&& wf_node(self.root)
        &&& (forall|m: Method, q: Seq<GSeg>|
            route_handler(self.root, m, q) == table_lookup(self.table(), m, q))
        &&& (forall|i: int, j: int|
            0 <= i < j < self.table().len() ==> !(self.table()[i].0 == self.table()[j].0
                && self.table()[i].1 == self.table()[j].1))
    }

    /// What resolving (method, path) returns: the tree walk, with `HEAD`
    /// falling back to the `GET` route when configured and `HEAD` itself
    /// matches nothing.
    pub open spec fn spec_route(&self, m: Method, path: Seq<char>) -> GRes<H> {
        let base = spec_resolve(self.root, m, split_segs(path));
        if m == Method::Head && self.config.handle_head && !(base is Matched) {
            let alt = spec_resolve(self.root, Method::Get, split_segs(path));
            if alt is Matched {
                alt
            } else {
                base
            }
        } else {
            base
        }
    }

    /// An empty router with the default configuration.
    pub fn new() -> (r: Router<H>)
        ensures
            r.wf(),
            r.table() =~= Seq::<(Method, Seq<GSeg>, H)>::empty(),
            forall|q: Seq<GSeg>| !param_conflict(r.root, q),
            r.config.handle_head == true,
            r.config.extra_headers@.len() == 0,
    {
        Self::with_config(Config::new())
    }

    /// An empty router with the given configuration.
    pub fn with_config(config: Config) -> (r: Router<H>)
        ensures
            r.wf(),
            r.table() =~= Seq::<(Method, Seq<GSeg>, H)>::empty(),
            forall|q: Seq<GSeg>| !param_conflict(r.root, q),
            r.config == config,
    {
        let r = Router { root: Node::empty(), entries: Vec::new(), config };
        proof {
            assert(r.table() =~= Seq::<(Method, Seq<GSeg>, H)>::empty());
        }
        r
    }

}

/// The routes of a child router, re-rooted under a mount prefix.
pub open spec fn prefixed<H>(
    pre: Seq<GSeg>,
    es: Seq<(Method, Seq<GSeg>, H)>,
) -> Seq<(Method, Seq<GSeg>, H)> {
    es.map_values(|e: (Method, Seq<GSeg>, H)| (e.0, pre + e.1, e.2))
}

impl<H: Copy> Router<H> {
    /// Register `handler` for `m` at the pattern `pattern`. Succeeds exactly
    /// when the pattern parses and collides with nothing already registered;
    /// on success the route table grows by this one route, on failure the
    /// router is unchanged and the error says what was wrong.
    pub fn register(&mut self, m: Method, pattern: &str, handler: H) -> (r: Result<
        (),
        RegisterError,
    >)
        requires
            old(self).wf(),
        ensures
            final(self).wf(),
            final(self).config == old(self).config,
            match r {
                Ok(()) => {
                    &&& spec_parse(pattern@) is Some
                    &&& table_lookup(
                        old(self).table(),
                        m,
                        spec_parse(pattern@)->Some_0,
                    ) is None
                    &&& !param_conflict(old(self).root, spec_parse(pattern@)->Some_0)
                    &&& final(self).table() == old(self).table().push(
                        (m, spec_parse(pattern@)->Some_0, handler),
                    )
                },
                Err(RegisterError::Pattern(_)) => {
                    &&& *final(self) == *old(self)
                    &&& spec_parse(pattern@) is None
                },
                Err(RegisterError::Conflict(ConflictKind::Duplicate)) => {
                    &&& *final(self) == *old(self)
                    &&& spec_parse(pattern@) is Some
                    &&& table_lookup(
                        old(self).table(),
                        m,
                        spec_parse(pattern@)->Some_0,
                    ) is Some
                },
                Err(RegisterError::Conflict(ConflictKind::ParamMismatch)) => {
                    &&& *final(self) == *old(self)
                    &&& spec_parse(pattern@) is Some
                    &&& param_conflict(old(self).root, spec_parse(pattern@)->Some_0)
                },
            },
    {
        let pat = match parse(pattern) {
            Ok(p) => p,
            Err(pe) => {
                return Err(RegisterError::Pattern(pe));
            },
        };
        let ghost pv = pat@;
        proof {
            assert(pat_suffix(pat.segs@, 0) =~= pv);
        }
        match check_at(&self.root, &pat.segs, 0, m) {
            Some(c) => {
                return Err(RegisterError::Conflict(c));
            },
            None => {},
        }
        let ghost old_table = self.table();
        let ghost old_root = self.root;
        let mut root = Node::empty();
        core::mem::swap(&mut self.root, &mut root);
        let root2 = insert_at(root, &pat.segs, 0, m, handler);
        self.root = root2;
        self.entries.push(Entry { method: m, pattern: pat, handler });
        proof {
            let e = (m, pv, handler);
            assert(self.table() =~= old_table.push(e));
            assert forall|m2: Method, q: Seq<GSeg>|
                route_handler(self.root, m2, q) == table_lookup(self.table(), m2, q) by {
                lemma_table_lookup_push(old_table, e, m2, q);
            }
            assert forall|i: int, j: int|
                0 <= i < j < self.table().len() implies !(self.table()[i].0
                == self.table()[j].0 && self.table()[i].1 == self.table()[j].1) by {
                if j == self.table().len() - 1 {
                    lemma_table_lookup_none_at(old_table, m, pv, i);
                } else {
                    assert(self.table()[i] == old_table[i]);
                    assert(self.table()[j] == old_table[j]);
                }
            }
        }
        Ok(())
    }

    /// Register a `GET` route: exactly `register` with the method fixed.
    pub fn get(&mut self, pattern: &str, handler: H) -> (r: Result<(), RegisterError>)
        requires
            old(self).wf(),
        ensures
            final(self).wf(),
            final(self).config == old(self).config,
            match r {
                Ok(()) => {
                    &&& spec_parse(pattern@) is Some
                    &&& table_lookup(
                        old(self).table(),
                        Method::Get,
                        spec_parse(pattern@)->Some_0,
                    ) is None
                    &&& !param_conflict(old(self).root, spec_parse(pattern@)->Some_0)
                    &&& final(self).table() == old(self).table().push(
                        (Method::Get, spec_parse(pattern@)->Some_0, handler),
                    )
                },
                Err(RegisterError::Pattern(_)) => {
                    &&& *final(self) == *old(self)
                    &&& spec_parse(pattern@) is None
                },
                Err(RegisterError::Conflict(ConflictKind::Duplicate)) => {
                    &&& *final(self) == *old(self)
                    &&& spec_parse(pattern@) is Some
                    &&& table_lookup(
                        old(self).table(),
                        Method::Get,
                        spec_parse(pattern@)->Some_0,
                    ) is Some
                },
                Err(RegisterError::Conflict(ConflictKind::ParamMismatch)) => {
                    &&& *final(self) == *old(self)
                    &&& spec_parse(pattern@) is Some
                    &&& param_conflict(old(self).root, spec_parse(pattern@)->Some_0)
                },
            },
    {
        self.register(Method::Get, pattern, handler)
    }

    /// Register a `POST` route: exactly `register` with the method fixed.
    pub fn post(&mut self, pattern: &str, handler: H) -> (r: Result<(), RegisterError>)
        requires
            old(self).wf(),
        ensures
            final(self).wf(),
            final(self).config == old(self).config,
            match r {
                Ok(()) => {
                    &&& spec_parse(pattern@) is Some
                    &&& table_lookup(
                        old(self).table(),
                        Method::Post,
                        spec_parse(pattern@)->Some_0,
                    ) is None
                    &&& !param_conflict(old(self).root, spec_parse(pattern@)->Some_0)
                    &&& final(self).table() == old(self).table().push(
                        (Method::Post, spec_parse(pattern@)->Some_0, handler),
                    )
                },
                Err(RegisterError::Pattern(_)) => {
                    &&& *final(self) == *old(self)
                    &&& spec_parse(pattern@) is None
                },
                Err(RegisterError::Conflict(ConflictKind::Duplicate)) => {
                    &&& *final(self) == *old(self)
                    &&& spec_parse(pattern@) is Some
                    &&& table_lookup(
                        old(self).table(),
                        Method::Post,
                        spec_parse(pattern@)->Some_0,
                    ) is Some
                },
                Err(RegisterError::Conflict(ConflictKind::ParamMismatch)) => {
                    &&& *final(self) == *old(self)
                    &&& spec_parse(pattern@) is Some
                    &&& param_conflict(old(self).root, spec_parse(pattern@)->Some_0)
                },
            },
    {
        self.register(Method::Post, pattern, handler)
    }

    /// Register a `PUT` route: exactly `register` with the method fixed.
    pub fn put(&mut self, pattern: &str, handler: H) -> (r: Result<(), RegisterError>)
        requires
            old(self).wf(),
        ensures
            final(self).wf(),
            final(self).config == old(self).config,
            match r {
                Ok(()) => {
                    &&& spec_parse(pattern@) is Some
                    &&& table_lookup(
                        old(self).table(),
                        Method::Put,
                        spec_parse(pattern@)->Some_0,
                    ) is None
                    &&& !param_conflict(old(self).root, spec_parse(pattern@)->Some_0)
                    &&& final(self).table() == old(self).table().push(
                        (Method::Put, spec_parse(pattern@)->Some_0, handler),
                    )
                },
                Err(RegisterError::Pattern(_)) => {
                    &&& *final(self) == *old(self)
                    &&& spec_parse(pattern@) is None
                },
                Err(RegisterError::Conflict(ConflictKind::Duplicate)) => {
                    &&& *final(self) == *old(self)
                    &&& spec_parse(pattern@) is Some
                    &&& table_lookup(
                        old(self).table(),
                        Method::Put,
                        spec_parse(pattern@)->Some_0,
                    ) is Some
                },
                Err(RegisterError::Conflict(ConflictKind::ParamMismatch)) => {
                    &&& *final(self) == *old(self)
                    &&& spec_parse(pattern@) is Some
                    &&& param_conflict(old(self).root, spec_parse(pattern@)->Some_0)
                },
            },
    {
        self.register(Method::Put, pattern, handler)
    }

    /// Register a `DELETE` route: exactly `register` with the method fixed.
    pub fn delete(&mut self, pattern: &str, handler: H) -> (r: Result<(), RegisterError>)
        requires
            old(self).wf(),
        ensures
            final(self).wf(),
            final(self).config == old(self).config,
            match r {
                Ok(()) => {
                    &&& spec_parse(pattern@) is Some
                    &&& table_lookup(
                        old(self).table(),
                        Method::Delete,
                        spec_parse(pattern@)->Some_0,
                    ) is None
                    &&& !param_conflict(old(self).root, spec_parse(pattern@)->Some_0)
                    &&& final(self).table() == old(self).table().push(
                        (Method::Delete, spec_parse(pattern@)->Some_0, handler),
                    )
                },
                Err(RegisterError::Pattern(_)) => {
                    &&& *final(self) == *old(self)
                    &&& spec_parse(pattern@) is None
                },
                Err(RegisterError::Conflict(ConflictKind::Duplicate)) => {
                    &&& *final(self) == *old(self)
                    &&& spec_parse(pattern@) is Some
                    &&& table_lookup(
                        old(self).table(),
                        Method::Delete,
                        spec_parse(pattern@)->Some_0,
                    ) is Some
                },
                Err(RegisterError::Conflict(ConflictKind::ParamMismatch)) => {
                    &&& *final(self) == *old(self)
                    &&& spec_parse(pattern@) is Some
                    &&& param_conflict(old(self).root, spec_parse(pattern@)->Some_0)
                },
            },
    {
        self.register(Method::Delete, pattern, handler)
    }

    /// Mount `child` under the path prefix `prefix`: every route of the child
    /// is registered here with the prefix prepended, in the child's
    /// registration order — mounting is flattening. A child route whose
    /// prefixed form collides with something already present is skipped, so
    /// the earlier registration wins; the count of skipped routes is
    /// returned, and when it is zero the new route table is exactly the old
    /// one followed by the child's prefixed routes.
    pub fn add(&mut self, prefix: &str, child: Router<H>) -> (r: Result<usize, ParseError>)
        requires
            old(self).wf(),
        ensures
            final(self).wf(),
            final(self).config == old(self).config,
            match r {
                Ok(skipped) => {
                    &&& spec_parse(prefix@) is Some
                    &&& (mount_clean(
                        old(self).table(),
                        old(self).root,
                        spec_parse(prefix@)->Some_0,
                        child.table(),
                    ) ==> skipped == 0)
                    &&& (skipped == 0 ==> final(self).table() == old(self).table()
                        + prefixed(spec_parse(prefix@)->Some_0, child.table()))
                    &&& (forall|m: Method, q: Seq<GSeg>|
                        table_lookup(old(self).table(), m, q) is Some ==> table_lookup(
                            final(self).table(),
                            m,
                            q,
                        ) == table_lookup(old(self).table(), m, q))
                    &&& (forall|m: Method, q: Seq<GSeg>|
                        table_lookup(final(self).table(), m, q) is Some ==> table_lookup(
                            old(self).table(),
                            m,
                            q,
                        ) is Some || table_lookup(
                            prefixed(spec_parse(prefix@)->Some_0, child.table()),
                            m,
                            q,
                        ) is Some)
                },
                Err(_) => {
                    &&& *final(self) == *old(self)
                    &&& spec_parse(prefix@) is None
                },
            },
    {
        let pre = match parse(prefix) {
            Ok(p) => p,
            Err(pe) => {
                return Err(pe);
            },
        };
        let ghost prev = pre@;
        let ghost old_table = self.table();
        let ghost child_table = child.table();
        let ghost root0 = self.root;
        let mut skipped: usize = 0;
        let mut k: usize = 0;
        proof {
            assert forall|q: Seq<GSeg>| #![trigger param_conflict(self.root, q)]
                param_conflict(self.root, q) <==> (param_conflict(root0, q) || exists|j: int|
                    0 <= j < 0 && crate::tree::pp_mismatch(
                        #[trigger] (prev + child_table[j].1),
                        q,
                    )) by {}
        }
        while k < child.entries.len()
            invariant
                k <= child.entries@.len(),
                child_table == child.table(),
                child_table.len() == child.entries@.len(),
                prev == pre@,
                self.wf(),
                self.config == old(self).config,
                skipped <= k,
                skipped == 0 ==> self.table() =~= old_table + prefixed(
                    prev,
                    child_table.take(k as int),
                ),
                forall|m: Method, q: Seq<GSeg>|
                    table_lookup(old_table, m, q) is Some ==> table_lookup(self.table(), m, q)
                        == table_lookup(old_table, m, q),
                forall|m: Method, q: Seq<GSeg>|
                    table_lookup(self.table(), m, q) is Some ==> table_lookup(
                        old_table,
                        m,
                        q,
                    ) is Some || table_lookup(prefixed(prev, child_table), m, q) is Some,
                root0 == old(self).root,
                mount_clean(old_table, root0, prev, child_table) ==> skipped == 0,
                mount_clean(old_table, root0, prev, child_table) ==> (forall|q: Seq<GSeg>|
                    #![trigger param_conflict(self.root, q)]
                    param_conflict(self.root, q) <==> (param_conflict(root0, q) || exists|j: int|
                        0 <= j < k && crate::tree::pp_mismatch(
                            #[trigger] (prev + child_table[j].1),
                            q,
                        ))),
            decreases child.entries@.len() - k,
        {
            let entry = &child.entries[k];
            let mut segs: Vec<Segment> = Vec::new();
            let mut a: usize = 0;
            while a < pre.segs.len()
                invariant
                    a <= pre.segs@.len(),
                    segs@.map_values(|s: Segment| crate::pattern::seg_view(s)) =~= pre@.take(
                        a as int,
                    ),
                decreases pre.segs@.len() - a,
            {
                segs.push(pre.segs[a].dup());
                proof {
                    assert(pre@.take(a + 1 as int) =~= pre@.take(a as int).push(
                        crate::pattern::seg_view(pre.segs@[a as int]),
                    ));
                }
                a = a + 1;
            }
            let mut b: usize = 0;
            while b < entry.pattern.segs.len()
                invariant
                    b <= entry.pattern.segs@.len(),
                    segs@.map_values(|s: Segment| crate::pattern::seg_view(s)) =~= pre@
                        + entry.pattern@.take(b as int),
                decreases entry.pattern.segs@.len() - b,
            {
                segs.push(entry.pattern.segs[b].dup());
                proof {
                    assert(pre@ + entry.pattern@.take(b + 1 as int) =~= (pre@
                        + entry.pattern@.take(b as int)).push(
                        crate::pattern::seg_view(entry.pattern.segs@[b as int]),
                    ));
                }
                b = b + 1;
            }
            proof {
                assert(pre@.take(pre.segs@.len() as int) =~= pre@);
                assert(entry.pattern@.take(entry.pattern.segs@.len() as int) =~= entry.pattern@);
                assert(segs@.map_values(|s: Segment| crate::pattern::seg_view(s)) =~= pre@
                    + entry.pattern@);
            }
            let ghost full = prev + child_table[k as int].1;
            proof {
                assert(child_table[k as int].1 == entry.pattern@);
                assert(pat_suffix(segs@, 0) =~= full);
            }
            let m = entry.method;
            let h = entry.handler;
            match check_at(&self.root, &segs, 0, m) {
                Some(_) => {
                    proof {
                        if mount_clean(old_table, root0, prev, child_table) {
                            let pct = prefixed(prev, child_table.take(k as int));
                            assert(self.table() =~= old_table + pct);
                            lemma_table_lookup_append(old_table, pct, m, full);
                            assert(table_lookup(old_table, m, full) is None);
                            assert forall|i2: int| 0 <= i2 < pct.len() implies !(pct[i2].0 == m
                                && pct[i2].1 == full) by {
                                if child_table[i2].0 == m && prev + child_table[i2].1 == full {
                                    assert(child_table[i2].1 =~= (prev + child_table[i2].1).skip(
                                        prev.len() as int,
                                    ));
                                    assert(child_table[k as int].1 =~= (prev
                                        + child_table[k as int].1).skip(prev.len() as int));
                                    assert(child_table[i2].1 == child_table[k as int].1);
                                }
                            }
                            lemma_table_lookup_absent(pct, m, full);
                            assert(route_handler(self.root, m, full) is None);
                            assert(!param_conflict(root0, full));
                            assert(!param_conflict(self.root, full)) by {
                                if param_conflict(self.root, full) {
                                    let j = choose|j: int|
                                        0 <= j < k && crate::tree::pp_mismatch(
                                            #[trigger] (prev + child_table[j].1),
                                            full,
                                        );
                                    assert(!crate::tree::pp_mismatch(
                                        prev + child_table[j].1,
                                        prev + child_table[k as int].1,
                                    ));
                                }
                            }
                            assert(false);
                        }
                    }
                    skipped = skipped + 1;
                },
                None => {
                    let ghost cur_table = self.table();
                    let ghost cur_root = self.root;
                    let mut root = Node::empty();
                    core::mem::swap(&mut self.root, &mut root);
                    let root2 = insert_at(root, &segs, 0, m, h);
                    self.root = root2;
                    self.entries.push(Entry { method: m, pattern: PathPattern { segs }, handler: h });
                    proof {
                        let e = (m, full, h);
                        assert(self.table() =~= cur_table.push(e));
                        assert forall|m2: Method, q: Seq<GSeg>|
                            route_handler(self.root, m2, q) == table_lookup(
                            self.table(),
                            m2,
                            q,
                        ) by {
                            lemma_table_lookup_push(cur_table, e, m2, q);
                        }
                        assert forall|i: int, j: int|
                            0 <= i < j < self.table().len() implies !(self.table()[i].0
                            == self.table()[j].0 && self.table()[i].1 == self.table()[j].1) by {
                            if j == self.table().len() - 1 {
                                lemma_table_lookup_none_at(cur_table, m, full, i);
                            } else {
                                assert(self.table()[i] == cur_table[i]);
                                assert(self.table()[j] == cur_table[j]);
                            }
                        }
                        if skipped == 0 {
                            assert(prefixed(prev, child_table.take(k + 1 as int)) =~= prefixed(
                                prev,
                                child_table.take(k as int),
                            ).push(e));
                            assert(self.table() =~= old_table + prefixed(
                                prev,
                                child_table.take(k + 1 as int),
                            ));
                        }
                        assert forall|m2: Method, q: Seq<GSeg>|
                            table_lookup(old_table, m2, q) is Some implies table_lookup(
                            self.table(),
                            m2,
                            q,
                        ) == table_lookup(old_table, m2, q) by {
                            lemma_table_lookup_push(cur_table, e, m2, q);
                        }
                        assert(prefixed(prev, child_table)[k as int] == e);
                        assert forall|m2: Method, q: Seq<GSeg>|
                            table_lookup(self.table(), m2, q) is Some implies table_lookup(
                            old_table,
                            m2,
                            q,
                        ) is Some || table_lookup(prefixed(prev, child_table), m2, q)
                            is Some by {
                            lemma_table_lookup_push(cur_table, e, m2, q);
                            if !(table_lookup(cur_table, m2, q) is Some) {
                                lemma_table_lookup_present(
                                    prefixed(prev, child_table),
                                    k as int,
                                );
                            }
                        }
                        if mount_clean(old_table, root0, prev, child_table) {
                            assert forall|q: Seq<GSeg>| #![trigger param_conflict(self.root, q)]
                                param_conflict(self.root, q) <==> (param_conflict(root0, q)
                                || exists|j: int|
                                    0 <= j < k + 1 && crate::tree::pp_mismatch(
                                        #[trigger] (prev + child_table[j].1),
                                        q,
                                    )) by {
                                assert(param_conflict(self.root, q) <==> (param_conflict(
                                    cur_root,
                                    q,
                                ) || crate::tree::pp_mismatch(full, q)));
                                if param_conflict(self.root, q) {
                                    if param_conflict(cur_root, q) {
                                        if !param_conflict(root0, q) {
                                            let j = choose|j: int|
                                                0 <= j < k && crate::tree::pp_mismatch(
                                                    #[trigger] (prev + child_table[j].1),
                                                    q,
                                                );
                                            assert(0 <= j < k + 1 && crate::tree::pp_mismatch(
                                                prev + child_table[j].1,
                                                q,
                                            ));
                                        }
                                    } else {
                                        assert(crate::tree::pp_mismatch(
                                            prev + child_table[k as int].1,
                                            q,
                                        ));
                                    }
                                }
                                if param_conflict(root0, q) {
                                    assert(param_conflict(cur_root, q));
                                }
                                if exists|j: int|
                                    0 <= j < k + 1 && crate::tree::pp_mismatch(
                                        #[trigger] (prev + child_table[j].1),
                                        q,
                                    ) {
                                    let j = choose|j: int|
                                        0 <= j < k + 1 && crate::tree::pp_mismatch(
                                            #[trigger] (prev + child_table[j].1),
                                            q,
                                        );
                                    if j < k {
                                        assert(param_conflict(cur_root, q));
                                    } else {
                                        assert(crate::tree::pp_mismatch(full, q));
                                    }
                                }
                            }
                        }
                    }
                },
            }
            k = k + 1;
        }
        proof {
            if skipped == 0 {
                assert(child_table.take(child_table.len() as int) =~= child_table);
            }
        }
        Ok(skipped)
    }

    /// Resolve an incoming (method, path) pair against everything registered.
    pub fn resolve(&self, m: Method, path: &str) -> (r: Resolution<H>)
        ensures
            res_view(r) == self.spec_route(m, path@),
    {
        let segs = crate::text::split_path(path);
        proof {
            assert(crate::tree::strs_view(segs@).skip(0) =~= split_segs(path@));
        }
        let base = resolve_at(&self.root, m, &segs, 0);
        let base_matched = match &base {
            Resolution::Matched { .. } => true,
            _ => false,
        };
        if m == Method::Head && self.config.handle_head && !base_matched {
            let alt = resolve_at(&self.root, Method::Get, &segs, 0);
            match alt {
                Resolution::Matched { handler, params } => Resolution::Matched {
                    handler,
                    params,
                },
                _ => base,
            }
        } else {
            base
        }
    }
}

/// Resolution is a function of the router's state alone: with no registration
/// in between, resolving the same method and path twice gives the same
/// outcome, match or miss.
pub proof fn lemma_resolve_idempotent<H>(
    router: Router<H>,
    m: Method,
    path: Seq<char>,
    r1: GRes<H>,
    r2: GRes<H>,
)
    requires
        r1 == router.spec_route(m, path),
        r2 == router.spec_route(m, path),
    ensures
        r1 == r2,
{
}

/// A route just registered is present in the table, so registering the same
/// (method, pattern) again is refused as a duplicate.
pub proof fn lemma_duplicate_after_push<H>(
    es: Seq<(Method, Seq<GSeg>, H)>,
    m: Method,
    q: Seq<GSeg>,
    h: H,
)
    ensures
        table_lookup(es.push((m, q, h)), m, q) is Some,
    decreases es.len(),
{
    lemma_table_lookup_push(es, (m, q, h), m, q);
}

/// The `routes` line of one registered route.
pub open spec fn route_line<H>(e: (Method, Seq<GSeg>, H)) -> Seq<char> {
    method_name(e.0) + " "@ + crate::pattern::pattern_display(e.1)
}

impl<H> Router<H> {
    /// Every registered route as a `METHOD /full/path` line, one per route,
    /// in registration order. The listing is a function of the route table
    /// alone, so repeated calls return the same lines; a well-formed router
    /// never registers one (method, pattern) pair twice, so each route shows
    /// exactly once.
    pub fn routes(&self) -> (r: Vec<String>)
        ensures
            r@.map_values(|s: String| s@) == self.table().map_values(
                |e: (Method, Seq<GSeg>, H)| route_line(e),
            ),
    {
        let mut out: Vec<String> = Vec::new();
        let mut k: usize = 0;
        proof {
            assert(out@.map_values(|s: String| s@) =~= self.table().take(0).map_values(
                |e: (Method, Seq<GSeg>, H)| route_line(e),
            ));
        }
        while k < self.entries.len()
            invariant
                k <= self.entries@.len(),
                self.table().len() == self.entries@.len(),
                out@.map_values(|s: String| s@) =~= self.table().take(k as int).map_values(
                    |e: (Method, Seq<GSeg>, H)| route_line(e),
                ),
            decreases self.entries@.len() - k,
        {
            let entry = &self.entries[k];
            let mut line = entry.method.name().to_owned();
            line.append(" ");
            let pt = entry.pattern.to_text();
            line.append(pt.as_str());
            proof {
                assert(line@ =~= route_line(self.table()[k as int]));
                assert(out@.push(line).map_values(|s: String| s@) =~= out@.map_values(
                    |s: String| s@,
                ).push(line@));
                assert(self.table().take(k + 1 as int).map_values(
                    |e: (Method, Seq<GSeg>, H)| route_line(e),
                ) =~= self.table().take(k as int).map_values(
                    |e: (Method, Seq<GSeg>, H)| route_line(e),
                ).push(route_line(self.table()[k as int])));
            }
            out.push(line);
            k = k + 1;
        }
        proof {
            assert(self.table().take(self.table().len() as int) =~= self.table());
        }
        out
    }
}

/// No route is listed twice: distinct positions in the table always differ
/// in method or pattern.
pub proof fn lemma_routes_one_entry_per_route<H>(router: Router<H>, i: int, j: int)
    requires
        router.wf(),
        0 <= i < j < router.table().len(),
    ensures
        !(router.table()[i].0 == router.table()[j].0 && router.table()[i].1
            == router.table()[j].1),
{
}

/// Conflict detection happens at registration, not at the first request:
/// once a route whose pattern has a parameter at depth `d` is registered,
/// any pattern that reaches the same slot but names a different parameter
/// there meets the registration-time conflict that `register` refuses as a
/// parameter mismatch.
pub proof fn lemma_param_style_conflict<H>(
    router: Router<H>,
    m1: Method,
    p1: Seq<GSeg>,
    q: Seq<GSeg>,
    d: int,
)
    requires
        router.wf(),
        table_lookup(router.table(), m1, p1) is Some,
        0 <= d < p1.len(),
        d < q.len(),
        p1.take(d) == q.take(d),
        p1[d] is Param,
        q[d] is Param,
        p1[d] != q[d],
    ensures
        param_conflict(router.root, q),
{
    crate::tree::lemma_conflict_from_route(router.root, m1, p1, q, d);
}

/// Match completeness at the router: if some registered route's pattern
/// matches the path, the plain tree walk for that method finds a match.
pub proof fn lemma_router_match_complete<H>(
    router: Router<H>,
    m: Method,
    pat: Seq<GSeg>,
    path: Seq<char>,
)
    requires
        router.wf(),
        table_lookup(router.table(), m, pat) is Some,
        crate::pattern::pat_matches(pat, split_segs(path)),
    ensures
        spec_resolve(router.root, m, split_segs(path)) is Matched,
{
    crate::tree::lemma_resolve_complete(router.root, m, pat, split_segs(path));
}

/// Match soundness at the router: every match carries the handler of a
/// registered route whose pattern matches the path, and the captured
/// parameters are exactly that pattern's typed captures from the path.
pub proof fn lemma_router_match_sound<H>(router: Router<H>, m: Method, path: Seq<char>) -> (pat:
    Seq<GSeg>)
    requires
        router.wf(),
        spec_resolve(router.root, m, split_segs(path)) is Matched,
    ensures
        table_lookup(router.table(), m, pat) == Some(
            spec_resolve(router.root, m, split_segs(path))->Matched_0,
        ),
        crate::pattern::pat_matches(pat, split_segs(path)),
        crate::pattern::captures(pat, split_segs(path)) == spec_resolve(
            router.root,
            m,
            split_segs(path),
        )->Matched_1,
{
    crate::tree::lemma_resolve_sound(router.root, m, split_segs(path))
}

/// Literal precedence at the router: a path registered literally, segment
/// for segment, always resolves to that literal route's handler, with no
/// captured parameters — a parametric sibling is never chosen over it.
pub proof fn lemma_router_literal_precedence<H>(router: Router<H>, m: Method, path: Seq<char>)
    requires
        router.wf(),
        table_lookup(router.table(), m, crate::tree::lit_pat(split_segs(path))) is Some,
    ensures
        spec_resolve(router.root, m, split_segs(path)) == GRes::Matched(
            table_lookup(router.table(), m, crate::tree::lit_pat(split_segs(path)))->Some_0,
            Seq::<(Seq<char>, crate::pattern::GVal)>::empty(),
        ),
{
    crate::tree::lemma_literal_precedence(router.root, m, split_segs(path));
}

/// The text of a line listing: each line followed by a newline.
pub open spec fn lines_text(ls: Seq<Seq<char>>) -> Seq<char>
    decreases ls.len(),
{
    if ls.len() == 0 {
        Seq::empty()
    } else {
        ls[0] + "\n"@ + lines_text(ls.drop_first())
    }
}

proof fn lemma_lines_text_append(a: Seq<Seq<char>>, b: Seq<Seq<char>>)
    ensures
        lines_text(a + b) == lines_text(a) + lines_text(b),
    decreases a.len(),
{
    if a.len() == 0 {
        assert(a + b =~= b);
        assert(lines_text(a) + lines_text(b) =~= lines_text(b));
    } else {
        assert((a + b)[0] == a[0]);
        assert((a + b).drop_first() =~= a.drop_first() + b);
        lemma_lines_text_append(a.drop_first(), b);
        assert(a[0] + "\n"@ + (lines_text(a.drop_first()) + lines_text(b)) =~= (a[0] + "\n"@
            + lines_text(a.drop_first())) + lines_text(b));
    }
}

proof fn lemma_lines_text_snoc(ls: Seq<Seq<char>>, i: int)
    requires
        0 <= i < ls.len(),
    ensures
        lines_text(ls.take(i + 1)) == lines_text(ls.take(i)) + ls[i] + "\n"@,
{
    assert(ls.take(i + 1) =~= ls.take(i) + seq![ls[i]]);
    lemma_lines_text_append(ls.take(i), seq![ls[i]]);
    assert(seq![ls[i]].len() == 1);
    assert(seq![ls[i]][0] == ls[i]);
    assert(seq![ls[i]].drop_first() =~= Seq::<Seq<char>>::empty());
    assert(lines_text(seq![ls[i]]) == ls[i] + "\n"@ + lines_text(Seq::<Seq<char>>::empty()));
    assert(ls[i] + "\n"@ + Seq::<char>::empty() =~= ls[i] + "\n"@);
    assert(lines_text(ls.take(i)) + (ls[i] + "\n"@) =~= lines_text(ls.take(i)) + ls[i] + "\n"@);
}

impl<H> Router<H> {
    /// The whole `routes` listing as one printable text, one line per
    /// registered route, each ended by a newline.
    pub fn routes_text(&self) -> (r: String)
        ensures
            r@ == lines_text(
                self.table().map_values(|e: (Method, Seq<GSeg>, H)| route_line(e)),
            ),
    {
        let lines = self.routes();
        let ghost ls = self.table().map_values(|e: (Method, Seq<GSeg>, H)| route_line(e));
        let mut out = String::new();
        let mut k: usize = 0;
        proof {
            assert(lines_text(ls.take(0)) =~= Seq::<char>::empty());
            assert(out@ =~= lines_text(ls.take(0)));
        }
        while k < lines.len()
            invariant
                k <= lines@.len(),
                lines@.map_values(|s: String| s@) == ls,
                ls.len() == lines@.len(),
                out@ == lines_text(ls.take(k as int)),
            decreases lines@.len() - k,
        {
            out.append(lines[k].as_str());
            out.append("\n");
            proof {
                lemma_lines_text_snoc(ls, k as int);
                assert(ls[k as int] == lines@[k as int]@);
            }
            k = k + 1;
        }
        proof {
            assert(ls.take(ls.len() as int) =~= ls);
        }
        out
    }
}

} // verus!
