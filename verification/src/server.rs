//! The server: the routing table, the static-directory mappings, and the
//! dispatch decision for one decoded request.
//!
//! Handlers themselves are asynchronous work the caller owns; the table
//! identifies each registered route by the index this module hands out, and
//! [`Server::dispatch`] names the route or static mapping a request resolves
//! to. The caller invokes the handler, or reads the resolved file, and
//! builds the response.

use vstd::prelude::*;
use vstd::string::StringSliceAdditionalSpecFns;

use crate::bytes::bytes_eq;
use crate::bytes::find_first;
use crate::bytes::push_all;
use crate::bytes::split_at_first;
use crate::bytes::split_at_first_exec;
use crate::bytes::starts_with;
use crate::bytes::str_bytes;
use crate::bytes::subvec;
use crate::headers::distinct_names;
use crate::headers::has_name;
use crate::headers::lemma_name_index_is;
use crate::headers::lemma_name_index_props;
use crate::headers::lemma_put_distinct;
use crate::headers::name_index;
use crate::headers::put;
use crate::logs::Logger;
use crate::request::method_bytes;
use crate::request::Method;

verus! {

/// Some route key of `keys` equals `k`.
pub open spec fn has_route(keys: Seq<Seq<u8>>, k: Seq<u8>) -> bool {
    exists|j: int| 0 <= j < keys.len() && #[trigger] keys[j] == k
}

/// One static mapping: its lookup key (`GET ` and the URL prefix) and the
/// directory root it serves from.
pub struct StaticDir {
    pub key: Vec<u8>,
    pub root: Vec<u8>,
}

/// Where one request goes.
pub enum Dispatch {
    /// The handler registered under this index.
    Route(usize),
    /// The static mapping at this index, with the residual path under its
    /// prefix.
    StaticFile { mapping: usize, residual: Vec<u8> },
    /// Nothing matched.
    NotFound,
}

/// The path with any `?query` suffix discarded.
pub open spec fn strip_query(path: Seq<u8>) -> Seq<u8> {
    match split_at_first(path, seq![63u8]) {
        Some(p) => p.0,
        None => path,
    }
}

/// The lookup key of a request: method, a space, and the query-free path.
pub open spec fn dispatch_key(method: Seq<u8>, path: Seq<u8>) -> Seq<u8> {
    method + seq![32u8] + strip_query(path)
}

/// `p` is a prefix of `s`.
pub open spec fn is_prefix_of(p: Seq<u8>, s: Seq<u8>) -> bool {
    p.len() <= s.len() && s.take(p.len() as int) == p
}

/// The static mapping at `j` matches the key `k`.
pub open spec fn static_matches(statics: Seq<(Seq<u8>, Seq<u8>)>, k: Seq<u8>, j: int) -> bool {
    0 <= j < statics.len() && is_prefix_of(statics[j].0, k)
}

/// The mapping at `j` is the canonical match for `k`: it matches, no match
/// has a longer prefix, and among equally long prefixes it was registered
/// first.
pub open spec fn best_static_match(statics: Seq<(Seq<u8>, Seq<u8>)>, k: Seq<u8>, j: int) -> bool {
    &&& static_matches(statics, k, j)
    &&& forall|j2: int| #[trigger]
        static_matches(statics, k, j2) ==> statics[j2].0.len() <= statics[j].0.len()
    &&& forall|j2: int| #[trigger]
        static_matches(statics, k, j2) && statics[j2].0.len() == statics[j].0.len() ==> j <= j2
}

/// The server: its bind address, the exact-match routing table, and the
/// static mappings, both immutable once connection handling begins.
pub struct Server {
    pub address: String,
    pub port: String,
    pub routes: Vec<Vec<u8>>,
    pub static_dirs: Vec<StaticDir>,
    pub logger: Logger,
}

impl Server {
    /// The registered route keys, in registration order.
    pub open spec fn routes_view(&self) -> Seq<Seq<u8>> {
        self.routes@.map_values(|e: Vec<u8>| e@)
    }

    /// The registered static mappings, in registration order.
    pub open spec fn statics_view(&self) -> Seq<(Seq<u8>, Seq<u8>)> {
        self.static_dirs@.map_values(|e: StaticDir| (e.key@, e.root@))
    }

    /// No route key and no static key occurs twice.
    pub open spec fn wf(&self) -> bool {
        &&& forall|i: int, j: int|
            0 <= i < j < self.routes_view().len() ==> (#[trigger] self.routes_view()[i]) != (
            #[trigger] self.routes_view()[j])
        &&& distinct_names(self.statics_view())
    }

    /// A server bound to the given address and port, with their usual
    /// defaults, and nothing registered yet.
    pub fn new(address: Option<String>, port: Option<String>) -> (r: Server)
        ensures
            r.address@ == match address {
                Some(a) => a@,
                None => "0.0.0.0"@,
            },
            r.port@ == match port {
                Some(p) => p@,
                None => "8080"@,
            },
            r.routes_view() == Seq::<Seq<u8>>::empty(),
            r.statics_view() == Seq::<(Seq<u8>, Seq<u8>)>::empty(),
            r.wf(),
    {
        let r = Server {
            address: match address {
                Some(a) => a,
                None => String::from_str("0.0.0.0"),
            },
            port: match port {
                Some(p) => p,
                None => String::from_str("8080"),
            },
            routes: Vec::new(),
            static_dirs: Vec::new(),
            logger: Logger::new(),
        };
        proof {
            assert(r.routes_view() =~= Seq::<Seq<u8>>::empty());
            assert(r.statics_view() =~= Seq::<(Seq<u8>, Seq<u8>)>::empty());
        }
        r
    }

    /// Register a route for the exact method/path pair and hand back the
    /// slot index its handler lives under. Registering the same pair again
    /// returns the same slot, so the caller's new handler replaces the old.
    pub fn register_route(&mut self, method: Method, path: &str) -> (h: usize)
        requires
            old(self).wf(),
        ensures
            final(self).wf(),
            final(self).address@ == old(self).address@,
            final(self).port@ == old(self).port@,
            final(self).statics_view() == old(self).statics_view(),
            ({
                let k = method_bytes(method) + seq![32u8] + path.spec_bytes();
                if has_route(old(self).routes_view(), k) {
                    &&& final(self).routes_view() == old(self).routes_view()
                    &&& 0 <= h < final(self).routes_view().len()
                    &&& final(self).routes_view()[h as int] == k
                } else {
                    &&& final(self).routes_view() == old(self).routes_view().push(k)
                    &&& h == old(self).routes_view().len()
                    &&& final(self).routes_view()[h as int] == k
                }
            }),
    {
        let ms = method.to_string();
        let mut key = str_bytes(ms.as_str());
        key.push(32);
        push_all(&mut key, path.as_bytes());
        let ghost k = method_bytes(method) + seq![32u8] + path.spec_bytes();
        proof {
            assert(key@ =~= k);
        }
        let ghost keys = self.routes_view();
        let mut i: usize = 0;
        while i < self.routes.len()
            invariant
                self == old(self),
                old(self).wf(),
                keys == self.routes_view(),
                0 <= i <= self.routes.len(),
                k == key@,
                k == method_bytes(method) + seq![32u8] + path.spec_bytes(),
                forall|j: int| 0 <= j < i ==> (#[trigger] keys[j]) != k,
            decreases self.routes.len() - i,
        {
            if bytes_eq(self.routes[i].as_slice(), key.as_slice()) {
                proof {
                    assert(keys[i as int] == k);
                    assert(has_route(keys, k));
                    assert(final(self).routes_view() == keys);
                }
                return i;
            }
            i += 1;
        }
        proof {
            if has_route(keys, k) {
                let w = choose|j: int| 0 <= j < keys.len() && #[trigger] keys[j] == k;
                assert(keys[w] != k);
            }
        }
        let h = self.routes.len();
        self.routes.push(key);
        proof {
            assert(self.routes_view() =~= keys.push(k));
            assert forall|a: int, b: int|
                0 <= a < b < self.routes_view().len() implies (
            #[trigger] self.routes_view()[a]) != (#[trigger] self.routes_view()[b]) by {
                if b == keys.len() {
                    assert(self.routes_view()[a] == keys[a]);
                    assert(keys[a] != k);
                } else {
                    assert(self.routes_view()[a] == keys[a]);
                    assert(self.routes_view()[b] == keys[b]);
                }
            }
        }
        h
    }

    /// Register a static mapping: requests under `GET url_path` are served
    /// from the directory `dir_path`, defaulted to the URL path itself.
    /// Registering the same URL path again replaces its directory.
    pub fn register_static_dir(&mut self, url_path: &str, dir_path: Option<&str>)
        requires
            old(self).wf(),
        ensures
            final(self).wf(),
            final(self).address@ == old(self).address@,
            final(self).port@ == old(self).port@,
            final(self).routes_view() == old(self).routes_view(),
            final(self).statics_view() == put(
                old(self).statics_view(),
                "GET ".spec_bytes() + url_path.spec_bytes(),
                match dir_path {
                    Some(d) => d.spec_bytes(),
                    None => url_path.spec_bytes(),
                },
            ),
    {
        let mut key = str_bytes("GET ");
        push_all(&mut key, url_path.as_bytes());
        let root = match dir_path {
            Some(d) => str_bytes(d),
            None => str_bytes(url_path),
        };
        let ghost k = "GET ".spec_bytes() + url_path.spec_bytes();
        let ghost v = match dir_path {
            Some(d) => d.spec_bytes(),
            None => url_path.spec_bytes(),
        };
        let ghost m = self.statics_view();
        let mut i: usize = 0;
        while i < self.static_dirs.len()
            invariant
                self == old(self),
                old(self).wf(),
                m == self.statics_view(),
                distinct_names(m),
                0 <= i <= self.static_dirs.len(),
                k == key@,
                v == root@,
                k == "GET ".spec_bytes() + url_path.spec_bytes(),
                v == (match dir_path {
                    Some(d) => d.spec_bytes(),
                    None => url_path.spec_bytes(),
                }),
                forall|j: int| 0 <= j < i ==> (#[trigger] m[j].0) != k,
            decreases self.static_dirs.len() - i,
        {
            if bytes_eq(self.static_dirs[i].key.as_slice(), key.as_slice()) {
                proof {
                    lemma_name_index_is(m, k, i as int);
                    lemma_put_distinct(m, k, v);
                }
                self.static_dirs[i] = StaticDir { key, root };
                proof {
                    assert(self.statics_view() =~= put(m, k, v));
                    assert(self.routes == old(self).routes);
                    assert(self.routes_view() =~= old(self).routes_view());
                    assert(distinct_names(self.statics_view()));
                    assert(forall|a: int, b: int|
                        0 <= a < b < self.routes_view().len() ==> (#[trigger] self.routes_view()[a])
                            != (#[trigger] self.routes_view()[b]));
                    assert(self.wf());
                }
                return ;
            }
            i += 1;
        }
        proof {
            if has_name(m, k) {
                lemma_name_index_props(m, k);
                assert(m[name_index(m, k)].0 != k);
            }
            lemma_put_distinct(m, k, v);
        }
        self.static_dirs.push(StaticDir { key, root });
        proof {
            assert(self.statics_view() =~= put(m, k, v));
            assert(self.routes == old(self).routes);
            assert(self.routes_view() =~= old(self).routes_view());
            assert(distinct_names(self.statics_view()));
            assert(forall|a: int, b: int|
                0 <= a < b < self.routes_view().len() ==> (#[trigger] self.routes_view()[a]) != (
                #[trigger] self.routes_view()[b]));
            assert(self.wf());
        }
    }

    /// Decide where a request goes: the route registered for exactly its
    /// method and query-free path; otherwise the static mapping whose key is
    /// the longest prefix of the request's key, registration order breaking
    /// ties; otherwise nothing.
    pub fn dispatch(&self, method: &[u8], path: &[u8]) -> (d: Dispatch)
        requires
            self.wf(),
        ensures
            ({
                let k = dispatch_key(method@, path@);
                match d {
                    Dispatch::Route(h) => 0 <= h < self.routes_view().len()
                        && self.routes_view()[h as int] == k,
                    Dispatch::StaticFile { mapping, residual } => {
                        &&& !has_route(self.routes_view(), k)
                        &&& best_static_match(self.statics_view(), k, mapping as int)
                        &&& residual@ == k.skip(
                            self.statics_view()[mapping as int].0.len() as int,
                        )
                    },
                    Dispatch::NotFound => {
                        &&& !has_route(self.routes_view(), k)
                        &&& forall|j: int| !static_matches(self.statics_view(), k, j)
                    },
                }
            }),
    {
        let mut key = subvec(method, 0, method.len());
        key.push(32);
        let mut qmark: Vec<u8> = Vec::new();
        qmark.push(63);
        proof {
            assert(qmark@ =~= seq![63u8]);
        }
        match split_at_first_exec(path, qmark.as_slice()) {
            Some(p) => {
                push_all(&mut key, p.0.as_slice());
            },
            None => {
                push_all(&mut key, path);
            },
        }
        let ghost k = dispatch_key(method@, path@);
        proof {
            assert(method@.subrange(0, method@.len() as int) =~= method@);
            assert(key@ =~= k);
        }
        let ghost keys = self.routes_view();
        let mut i: usize = 0;
        while i < self.routes.len()
            invariant
                self.wf(),
                keys == self.routes_view(),
                0 <= i <= self.routes.len(),
                k == key@,
                k == dispatch_key(method@, path@),
                forall|j: int| 0 <= j < i ==> (#[trigger] keys[j]) != k,
            decreases self.routes.len() - i,
        {
            if bytes_eq(self.routes[i].as_slice(), key.as_slice()) {
                assert(keys[i as int] == k);
                return Dispatch::Route(i);
            }
            i += 1;
        }
        proof {
            if has_route(keys, k) {
                let w = choose|j: int| 0 <= j < keys.len() && #[trigger] keys[j] == k;
                assert(keys[w] != k);
            }
        }
        let ghost statics = self.statics_view();
        let mut best: Option<usize> = None;
        let mut j: usize = 0;
        while j < self.static_dirs.len()
            invariant
                self.wf(),
                statics == self.statics_view(),
                0 <= j <= self.static_dirs.len(),
                k == key@,
                k == dispatch_key(method@, path@),
                match best {
                    None => forall|j2: int| 0 <= j2 < j ==> !static_matches(statics, k, j2),
                    Some(b) => {
                        &&& 0 <= b < j <= self.static_dirs.len()
                        &&& static_matches(statics, k, b as int)
                        &&& forall|j2: int|
                            0 <= j2 < j && #[trigger] static_matches(statics, k, j2)
                                ==> statics[j2].0.len() <= statics[b as int].0.len()
                        &&& forall|j2: int|
                            0 <= j2 < j && #[trigger] static_matches(statics, k, j2)
                                && statics[j2].0.len() == statics[b as int].0.len() ==> b <= j2
                    },
                },
            decreases self.static_dirs.len() - j,
        {
            let matches_here = starts_with(key.as_slice(), self.static_dirs[j].key.as_slice());
            let replace: bool = match best {
                None => matches_here,
                Some(b) => matches_here && self.static_dirs[j].key.len() > self.static_dirs[b]
                    .key
                    .len(),
            };
            if replace {
                best = Some(j);
            }
            j += 1;
        }
        match best {
            Some(b) => {
                let plen = self.static_dirs[b].key.len();
                let residual = subvec(key.as_slice(), plen, key.len());
                proof {
                    assert(residual@ =~= k.skip(statics[b as int].0.len() as int));
                }
                Dispatch::StaticFile { mapping: b, residual }
            },
            None => {
                proof {
                    assert forall|j2: int| !static_matches(statics, k, j2) by {
                        if 0 <= j2 < statics.len() {
                            assert(!static_matches(statics, k, j2));
                        }
                    }
                }
                Dispatch::NotFound
            },
        }
    }
}

/// Among pairwise distinct route keys there is only one slot for a key, so
/// a registered method/path pair always dispatches to the handler that was
/// registered for it.
pub proof fn lemma_route_slot_unique(keys: Seq<Seq<u8>>, i: int, j: int)
    requires
        forall|a: int, b: int|
            0 <= a < b < keys.len() ==> (#[trigger] keys[a]) != (#[trigger] keys[b]),
        0 <= i < keys.len(),
        0 <= j < keys.len(),
        keys[i] == keys[j],
    ensures
        i == j,
{
    if i < j {
        assert(keys[i] != keys[j]);
    } else if j < i {
        assert(keys[j] != keys[i]);
    }
}

/// The run of `/` bytes at the front of `s` removed.
pub open spec fn drop_leading_slashes(s: Seq<u8>) -> Seq<u8>
    decreases s.len(),
{
    if s.len() > 0 && s[0] == 47 {
        drop_leading_slashes(s.drop_first())
    } else {
        s
    }
}

/// The file a static mapping serves for a residual path: the root, a path
/// separator, and the residual with leading separators dropped; an empty or
/// `/`-terminated residual gets `index.html` appended. A residual that
/// contains a `..` traversal step resolves to nothing at all.
pub open spec fn resolved_static_path(root: Seq<u8>, residual: Seq<u8>) -> Option<Seq<u8>> {
    if find_first(residual, "..".spec_bytes()) is Some {
        None
    } else {
        let joined = root + seq![47u8] + drop_leading_slashes(residual);
        if residual.len() == 0 || residual[residual.len() - 1] == 47 {
            Some(joined + "index.html".spec_bytes())
        } else {
            Some(joined)
        }
    }
}

/// Resolve the file a static mapping serves, refusing path traversal.
#[verifier::rlimit(100)]
pub fn resolve_static_path(root: &[u8], residual: &[u8]) -> (r: Option<Vec<u8>>)
    ensures
        match r {
            Some(p) => resolved_static_path(root@, residual@) == Some(p@),
            None => resolved_static_path(root@, residual@) is None,
        },
{
    let dots = str_bytes("..");
    if crate::bytes::find_subslice(residual, dots.as_slice()).is_some() {
        return None;
    }
    let mut start: usize = 0;
    proof {
        assert(residual@.skip(0) =~= residual@);
    }
    while start < residual.len() && residual[start] == 47
        invariant
            0 <= start <= residual.len(),
            drop_leading_slashes(residual@) == drop_leading_slashes(residual@.skip(start as int)),
        decreases residual.len() - start,
    {
        proof {
            assert(residual@.skip(start as int).drop_first() =~= residual@.skip(start + 1));
        }
        start += 1;
    }
    proof {
        assert(drop_leading_slashes(residual@.skip(start as int)) == residual@.skip(
            start as int,
        ));
    }
    let mut path = subvec(root, 0, root.len());
    path.push(47);
    let rel = subvec(residual, start, residual.len());
    push_all(&mut path, rel.as_slice());
    proof {
        assert(root@.subrange(0, root@.len() as int) =~= root@);
        assert(residual@.subrange(start as int, residual@.len() as int) =~= residual@.skip(
            start as int,
        ));
        assert(path@ =~= root@ + seq![47u8] + drop_leading_slashes(residual@));
    }
    if residual.len() == 0 || residual[residual.len() - 1] == 47 {
        let idx = str_bytes("index.html");
        push_all(&mut path, idx.as_slice());
        Some(path)
    } else {
        Some(path)
    }
}

/// An empty or `/`-terminated residual path is served by the `index.html`
/// under the mapped root.
pub proof fn lemma_slash_residual_serves_index(root: Seq<u8>, residual: Seq<u8>)
    requires
        find_first(residual, "..".spec_bytes()) is None,
        residual.len() == 0 || residual[residual.len() - 1] == 47,
    ensures
        resolved_static_path(root, residual) == Some(
            root + seq![47u8] + drop_leading_slashes(residual) + "index.html".spec_bytes(),
        ),
{
}

/// The one log line a successfully decoded request produces: its method,
/// its path, and its `User-Agent` header, with a placeholder when absent.
pub fn request_log_line(method: &[u8], path: &[u8], user_agent: Option<&Vec<u8>>) -> (r: Vec<u8>)
    ensures
        r@ == method@ + seq![32u8] + path@ + " | User-Agent: ".spec_bytes() + (
        match user_agent {
            Some(ua) => ua@,
            None => "N/A".spec_bytes(),
        }),
{
    let mut line = subvec(method, 0, method.len());
    line.push(32);
    push_all(&mut line, path);
    let mid = str_bytes(" | User-Agent: ");
    push_all(&mut line, mid.as_slice());
    match user_agent {
        Some(ua) => {
            push_all(&mut line, ua.as_slice());
        },
        None => {
            let na = str_bytes("N/A");
            push_all(&mut line, na.as_slice());
        },
    }
    proof {
        assert(method@.subrange(0, method@.len() as int) =~= method@);
        assert(line@ =~= method@ + seq![32u8] + path@ + " | User-Agent: ".spec_bytes() + (
        match user_agent {
            Some(ua) => ua@,
            None => "N/A".spec_bytes(),
        }));
    }
    line
}

} // verus!
