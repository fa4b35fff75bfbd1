//! Querying the nix store through several backends, falling back from one to
//! the next when a backend cannot connect or cannot answer.
use vstd::prelude::*;

use crate::strings::{char_is_whitespace, is_whitespace};
use crate::text::{chars_of, parse_u64_text, parsed_u64};

verus! {

/// The normal database connection.
pub const DATABASE_PATH: &'static str = "file:/nix/var/nix/db/db.sqlite";

/// A database connection that can read the database even in a read-only
/// environment, at the risk of reading it while another process changes it.
pub const DATABASE_PATH_IMMUTABLE: &'static str = "file:/nix/var/nix/db/db.sqlite?immutable=1";

/// Why a store query, a connection or a close did not succeed.
#[derive(Debug, Clone, PartialEq, Eq)]
pub enum StoreError {
    /// One backend's own failure, with its message.
    Backend(String),
    /// There was no backend to connect to.
    NoBackends,
    /// Every backend failed to connect; their failures in the order the
    /// backends stand.
    AllFailedToConnect(Vec<String>),
    /// No backend was connected, so none could be asked.
    NoStoresToQuery,
    /// Every connected backend failed the query; their failures in order.
    AllQueriesFailed(Vec<String>),
    /// One or more backends failed to close; their failures in order.
    FailedToClose(Vec<String>),
}

/// The message of a failure: a backend's own, or a fixed one.
pub open spec fn error_message(e: StoreError) -> Seq<char> {
    match e {
        StoreError::Backend(m) => m@,
        StoreError::NoBackends => "No backends to connect to."@,
        StoreError::AllFailedToConnect(_) => "All backends failed to connect."@,
        StoreError::NoStoresToQuery => "No internal stores to query."@,
        StoreError::AllQueriesFailed(_) => "All store backends failed."@,
        StoreError::FailedToClose(_) => "One or more backends failed to close."@,
    }
}

impl StoreError {
    /// The message a backend gives for this failure.
    pub fn message(&self) -> (m: String)
        ensures
            m@ == error_message(*self),
    {
        match self {
            StoreError::Backend(m) => m.as_str().to_owned(),
            StoreError::NoBackends => "No backends to connect to.".to_owned(),
            StoreError::AllFailedToConnect(_) => "All backends failed to connect.".to_owned(),
            StoreError::NoStoresToQuery => "No internal stores to query.".to_owned(),
            StoreError::AllQueriesFailed(_) => "All store backends failed.".to_owned(),
            StoreError::FailedToClose(_) => "One or more backends failed to close.".to_owned(),
        }
    }
}

/// An interface to a nix store database.
///
/// Each operation's result is tied to a relation of the backend's own, which
/// says what results the operation can have: which answers a query for a
/// path can get, and which state and result connecting can lead to.
pub trait StoreBackend {
    /// Whether this backend holds an open connection.
    spec fn is_connected(&self) -> bool;

    /// Whether connecting this backend can leave it as `after` with result `r`.
    spec fn connect_answer(&self, after: &Self, r: &Result<(), StoreError>) -> bool;

    /// Whether `r` is an answer this backend can give when asked for the
    /// closure size of `path`.
    spec fn closure_size_answer(&self, path: &str, r: &Result<u64, StoreError>) -> bool;

    /// Whether `r` is an answer this backend can give when asked for the
    /// store paths of the system closure `system`.
    spec fn system_derivations_answer(&self, system: &str, r: &Result<Vec<String>, StoreError>) -> bool;

    /// Whether `r` is an answer this backend can give when asked for the
    /// store paths that `path` depends on.
    spec fn dependents_answer(&self, path: &str, r: &Result<Vec<String>, StoreError>) -> bool;

    /// Opens the connection: a backend that connects holds a connection, and
    /// one that fails is left connected as far as it was.
    fn connect(&mut self) -> (r: Result<(), StoreError>)
        ensures
            old(self).connect_answer(final(self), &r),
            r is Ok ==> final(self).is_connected(),
            r is Err ==> final(self).is_connected() == old(self).is_connected(),
    ;

    /// Whether this backend holds an open connection.
    fn connected(&self) -> (b: bool)
        ensures
            b == self.is_connected(),
    ;

    /// Closes the connection.
    fn close(&mut self) -> Result<(), StoreError>;

    /// The size in bytes of the closure of the store path `path`.
    fn query_closure_size(&self, path: &str) -> (r: Result<u64, StoreError>)
        ensures
            self.closure_size_answer(path, &r),
    ;

    /// The store paths that the system closure `system` is made of.
    fn query_system_derivations(&self, system: &str) -> (r: Result<Vec<String>, StoreError>)
        ensures
            self.system_derivations_answer(system, &r),
    ;

    /// The store paths that `path` depends on.
    fn query_dependents(&self, path: &str) -> (r: Result<Vec<String>, StoreError>)
        ensures
            self.dependents_answer(path, &r),
    ;
}

/// Whether some backend of `backends` holds a connection.
pub open spec fn some_connected<B: StoreBackend>(backends: Seq<B>) -> bool {
    exists|i: int| 0 <= i < backends.len() && #[trigger] backends[i].is_connected()
}

/// What connecting all backends comes to, given the failures that were met
/// on the way and whether any backend is connected at the end: success if one
/// is; otherwise every failure, or, where there was none, that there was
/// nothing to connect to.
pub fn connect_outcome(failures: Vec<String>, any_connected: bool) -> (r: Result<(), StoreError>)
    ensures
        any_connected ==> r == Ok::<(), StoreError>(()),
        !any_connected && failures.len() > 0 ==> r == Err::<(), StoreError>(
            StoreError::AllFailedToConnect(failures),
        ),
        !any_connected && failures.len() == 0 ==> r == Err::<(), StoreError>(
            StoreError::NoBackends,
        ),
{
    if any_connected {
        Ok(())
    } else if failures.len() > 0 {
        Err(StoreError::AllFailedToConnect(failures))
    } else {
        Err(StoreError::NoBackends)
    }
}

/// What a query comes to once every connected backend has failed it: each
/// failure, or, where no backend was asked, that there was none to ask.
pub fn query_failure(failures: Vec<String>) -> (e: StoreError)
    ensures
        failures.len() > 0 ==> e == StoreError::AllQueriesFailed(failures),
        failures.len() == 0 ==> e == StoreError::NoStoresToQuery,
{
    if failures.len() > 0 {
        StoreError::AllQueriesFailed(failures)
    } else {
        StoreError::NoStoresToQuery
    }
}

/// What closing the connected backends comes to: success where none failed,
/// else every failure.
pub fn close_outcome(failures: Vec<String>) -> (r: Result<(), StoreError>)
    ensures
        failures.len() == 0 ==> r == Ok::<(), StoreError>(()),
        failures.len() > 0 ==> r == Err::<(), StoreError>(StoreError::FailedToClose(failures)),
{
    if failures.len() == 0 {
        Ok(())
    } else {
        Err(StoreError::FailedToClose(failures))
    }
}

/// The messages of a list of strings.
pub open spec fn message_views(v: Seq<String>) -> Seq<Seq<char>> {
    v.map_values(|s: String| s@)
}

/// Whether `r` is what a query comes to once every connected backend failed
/// it with the messages `failures`: each failure, or, where no backend was
/// asked, that there was none to ask.
pub open spec fn failed_with<T>(failures: Seq<Seq<char>>, r: Result<T, StoreError>) -> bool {
    match r {
        Ok(_) => false,
        Err(e) => if failures.len() > 0 {
            e matches StoreError::AllQueriesFailed(v) && message_views(v@) == failures
        } else {
            e == StoreError::NoStoresToQuery
        },
    }
}

/// Whether `r` is what asking the backends from the `k`-th on can come to,
/// after the connected backends before them failed with `failures`: each
/// connected backend is asked in turn, one that is not connected is passed
/// over, the first answer that is no failure is the result and no later
/// backend is asked; when every connected backend fails, the failures are.
pub open spec fn asked_from<B: StoreBackend, T>(
    bs: Seq<B>,
    k: int,
    failures: Seq<Seq<char>>,
    r: Result<T, StoreError>,
    answer: spec_fn(B, Result<T, StoreError>) -> bool,
) -> bool
    decreases bs.len() - k,
{
    if k < 0 || k >= bs.len() {
        failed_with(failures, r)
    } else if !bs[k].is_connected() {
        asked_from(bs, k + 1, failures, r, answer)
    } else {
        exists|a: Result<T, StoreError>|
            #[trigger] answer(bs[k], a) && match a {
                Ok(v) => r == Ok::<T, StoreError>(v),
                Err(e) => asked_from(bs, k + 1, failures.push(error_message(e)), r, answer),
            }
    }
}

/// The messages of the failures among connection results, in order.
pub open spec fn connect_failures(rs: Seq<Result<(), StoreError>>) -> Seq<Seq<char>>
    decreases rs.len(),
{
    if rs.len() == 0 {
        seq![]
    } else {
        let f = connect_failures(rs.drop_last());
        match rs.last() {
            Ok(()) => f,
            Err(e) => f.push(error_message(e)),
        }
    }
}

/// What connecting all backends comes to, given the messages of the
/// failures met and whether any backend is connected at the end.
pub open spec fn connect_result(failures: Seq<Seq<char>>, any: bool, r: Result<(), StoreError>) -> bool {
    if any {
        r == Ok::<(), StoreError>(())
    } else if failures.len() > 0 {
        r matches Err(StoreError::AllFailedToConnect(v)) && message_views(v@) == failures
    } else {
        r == Err::<(), StoreError>(StoreError::NoBackends)
    }
}

/// What a backend can answer when asked for the closure size of `path`.
pub open spec fn size_answer_of<B: StoreBackend>(path: &str) -> spec_fn(B, Result<u64, StoreError>) -> bool {
    |b: B, a: Result<u64, StoreError>| b.closure_size_answer(path, &a)
}

/// What a backend can answer when asked for the derivations of the system
/// `path` (when `system` holds) or for the dependents of `path`.
pub open spec fn paths_answer_of<B: StoreBackend>(path: &str, system: bool) -> spec_fn(
    B,
    Result<Vec<String>, StoreError>,
) -> bool {
    |b: B, a: Result<Vec<String>, StoreError>|
        if system {
            b.system_derivations_answer(path, &a)
        } else {
            b.dependents_answer(path, &a)
        }
}

/// Several store backends, used in turn: the first connected backend that
/// answers a query gives the answer.
pub struct CombinedStoreBackend<B: StoreBackend> {
    backends: Vec<B>,
}

impl<B: StoreBackend> CombinedStoreBackend<B> {
    /// The backends, in the order they are tried.
    pub closed spec fn backends(&self) -> Seq<B> {
        self.backends@
    }

    /// A combined backend over `backends`, tried in that order.
    pub fn new(backends: Vec<B>) -> (s: Self)
        ensures
            s.backends() == backends@,
    {
        CombinedStoreBackend { backends }
    }

    /// Whether some backend is connected.
    fn any_connected(&self) -> (b: bool)
        ensures
            b == some_connected(self.backends()),
    {
        let mut i: usize = 0;
        let mut found = false;
        while i < self.backends.len() && !found
            invariant
                i <= self.backends.len(),
                found ==> some_connected(self.backends()),
                !found ==> forall|j: int| 0 <= j < i ==> !(#[trigger] self.backends@[j]).is_connected(),
            decreases self.backends.len() - i,
        {
            if self.backends[i].connected() {
                found = true;
            }
            i = i + 1;
        }
        found
    }

    /// Asks the connected backends in turn for the closure size of `path`,
    /// giving the first answer.
    fn fallback_closure_size(&self, path: &str) -> (r: Result<u64, StoreError>)
        ensures
            asked_from(self.backends(), 0, seq![], r, size_answer_of::<B>(path)),
            r is Ok ==> some_connected(self.backends()),
            r == Err::<u64, StoreError>(StoreError::NoStoresToQuery) <==> !some_connected(self.backends()),
            r is Err ==> (r->Err_0 is AllQueriesFailed || r->Err_0 is NoStoresToQuery),
    {
        let ghost bs = self.backends();
        let ghost ans = size_answer_of::<B>(path);
        let mut failures: Vec<String> = Vec::new();
        let mut i: usize = 0;
        assert(message_views(failures@) =~= Seq::<Seq<char>>::empty());
        while i < self.backends.len()
            invariant
                i <= self.backends.len(),
                bs == self.backends(),
                ans == size_answer_of::<B>(path),
                forall|x: Result<u64, StoreError>|
                    #[trigger] asked_from(bs, i as int, message_views(failures@), x, ans) ==> asked_from(
                        bs,
                        0,
                        seq![],
                        x,
                        ans,
                    ),
                (failures@.len() > 0) == (exists|j: int| 0 <= j < i && (#[trigger] bs[j]).is_connected()),
            decreases self.backends.len() - i,
        {
            let ghost f = message_views(failures@);
            if self.backends[i].connected() {
                let res = self.backends[i].query_closure_size(path);
                assert(ans(bs[i as int], res));
                match res {
                    Ok(size) => {
                        assert(asked_from(bs, i as int, f, Ok::<u64, StoreError>(size), ans));
                        proof {
                            assert(bs[i as int].is_connected());
                        }
                        return Ok(size);
                    },
                    Err(err) => {
                        let m = err.message();
                        failures.push(m);
                        proof {
                            assert(message_views(failures@) =~= f.push(error_message(err)));
                            assert forall|x: Result<u64, StoreError>|
                                #[trigger] asked_from(bs, i + 1, message_views(failures@), x, ans) implies asked_from(
                                    bs,
                                    i as int,
                                    f,
                                    x,
                                    ans,
                                ) by {
                                assert(ans(bs[i as int], Err::<u64, StoreError>(err)));
                            }
                            assert(bs[i as int].is_connected());
                        }
                    },
                }
            } else {
                proof {
                    assert forall|x: Result<u64, StoreError>|
                        #[trigger] asked_from(bs, i + 1, f, x, ans) implies asked_from(bs, i as int, f, x, ans) by {}
                    assert forall|j: int| 0 <= j < i + 1 && (#[trigger] bs[j]).is_connected() implies j < i by {}
                }
            }
            i = i + 1;
        }
        let e = query_failure(failures);
        proof {
            assert(asked_from(bs, i as int, message_views(failures@), Err::<u64, StoreError>(e), ans));
            if some_connected(bs) {
                let j = choose|j: int| 0 <= j < bs.len() && #[trigger] bs[j].is_connected();
            }
        }
        Err(e)
    }

    /// Asks the connected backends in turn for a list of store paths, the
    /// derivations of a system when `system` is set, else the dependents of
    /// `path`, giving the first answer.
    fn fallback_paths(&self, path: &str, system: bool) -> (r: Result<Vec<String>, StoreError>)
        ensures
            asked_from(self.backends(), 0, seq![], r, paths_answer_of::<B>(path, system)),
            r is Ok ==> some_connected(self.backends()),
            r == Err::<Vec<String>, StoreError>(StoreError::NoStoresToQuery) <==> !some_connected(
                self.backends(),
            ),
            r is Err ==> (r->Err_0 is AllQueriesFailed || r->Err_0 is NoStoresToQuery),
    {
        let ghost bs = self.backends();
        let ghost ans = paths_answer_of::<B>(path, system);
        let mut failures: Vec<String> = Vec::new();
        let mut i: usize = 0;
        assert(message_views(failures@) =~= Seq::<Seq<char>>::empty());
        while i < self.backends.len()
            invariant
                i <= self.backends.len(),
                bs == self.backends(),
                ans == paths_answer_of::<B>(path, system),
                forall|x: Result<Vec<String>, StoreError>|
                    #[trigger] asked_from(bs, i as int, message_views(failures@), x, ans) ==> asked_from(
                        bs,
                        0,
                        seq![],
                        x,
                        ans,
                    ),
                (failures@.len() > 0) == (exists|j: int| 0 <= j < i && (#[trigger] bs[j]).is_connected()),
            decreases self.backends.len() - i,
        {
            let ghost f = message_views(failures@);
            if self.backends[i].connected() {
                let res = if system {
                    self.backends[i].query_system_derivations(path)
                } else {
                    self.backends[i].query_dependents(path)
                };
                assert(ans(bs[i as int], res));
                match res {
                    Ok(paths) => {
                        assert(asked_from(bs, i as int, f, Ok::<Vec<String>, StoreError>(paths), ans));
                        proof {
                            assert(bs[i as int].is_connected());
                        }
                        return Ok(paths);
                    },
                    Err(err) => {
                        let m = err.message();
                        failures.push(m);
                        proof {
                            assert(message_views(failures@) =~= f.push(error_message(err)));
                            assert forall|x: Result<Vec<String>, StoreError>|
                                #[trigger] asked_from(bs, i + 1, message_views(failures@), x, ans) implies asked_from(
                                    bs,
                                    i as int,
                                    f,
                                    x,
                                    ans,
                                ) by {
                                assert(ans(bs[i as int], Err::<Vec<String>, StoreError>(err)));
                            }
                            assert(bs[i as int].is_connected());
                        }
                    },
                }
            } else {
                proof {
                    assert forall|x: Result<Vec<String>, StoreError>|
                        #[trigger] asked_from(bs, i + 1, f, x, ans) implies asked_from(bs, i as int, f, x, ans) by {}
                    assert forall|j: int| 0 <= j < i + 1 && (#[trigger] bs[j]).is_connected() implies j < i by {}
                }
            }
            i = i + 1;
        }
        let e = query_failure(failures);
        proof {
            assert(asked_from(bs, i as int, message_views(failures@), Err::<Vec<String>, StoreError>(e), ans));
            if some_connected(bs) {
                let j = choose|j: int| 0 <= j < bs.len() && #[trigger] bs[j].is_connected();
            }
        }
        Err(e)
    }
}

impl<B: StoreBackend> StoreBackend for CombinedStoreBackend<B> {
    /// Connected when some backend is.
    open spec fn is_connected(&self) -> bool {
        some_connected(self.backends())
    }

    /// Connecting connects every backend in turn, each as its own connecting
    /// can go; the result is success when some backend is connected after,
    /// else every failure met, or that there was no backend.
    open spec fn connect_answer(&self, after: &Self, r: &Result<(), StoreError>) -> bool {
        &&& after.backends().len() == self.backends().len()
        &&& exists|rs: Seq<Result<(), StoreError>>|
            #![trigger connect_failures(rs)]
            rs.len() == self.backends().len() && (forall|i: int|
                0 <= i < rs.len() ==> #[trigger] self.backends()[i].connect_answer(&after.backends()[i], &rs[i]))
                && connect_result(connect_failures(rs), some_connected(after.backends()), *r)
    }

    /// The first connected backend's answer that is no failure, else every
    /// failure.
    open spec fn closure_size_answer(&self, path: &str, r: &Result<u64, StoreError>) -> bool {
        asked_from(self.backends(), 0, seq![], *r, size_answer_of::<B>(path))
    }

    open spec fn system_derivations_answer(&self, system: &str, r: &Result<Vec<String>, StoreError>) -> bool {
        asked_from(self.backends(), 0, seq![], *r, paths_answer_of::<B>(system, true))
    }

    open spec fn dependents_answer(&self, path: &str, r: &Result<Vec<String>, StoreError>) -> bool {
        asked_from(self.backends(), 0, seq![], *r, paths_answer_of::<B>(path, false))
    }

    /// Connects every backend in turn; succeeds when at least one is
    /// connected afterwards.
    fn connect(&mut self) -> (r: Result<(), StoreError>)
        ensures
            final(self).backends().len() == old(self).backends().len(),
            r is Ok <==> final(self).is_connected(),
            old(self).backends().len() == 0 ==> r == Err::<(), StoreError>(StoreError::NoBackends),
            r is Err ==> (r->Err_0 is AllFailedToConnect || r->Err_0 is NoBackends),
    {
        let ghost before = self.backends();
        let mut pending: Vec<B> = Vec::new();
        std::mem::swap(&mut pending, &mut self.backends);
        let ghost n = pending.len();
        let ghost mut rs: Seq<Result<(), StoreError>> = seq![];
        let mut failures: Vec<String> = Vec::new();
        while pending.len() > 0
            invariant
                self.backends.len() + pending.len() == n,
                n == before.len(),
                pending@ == before.subrange(self.backends.len() as int, n as int),
                rs.len() == self.backends.len(),
                message_views(failures@) == connect_failures(rs),
                forall|i: int|
                    0 <= i < rs.len() ==> #[trigger] before[i].connect_answer(&self.backends@[i], &rs[i]),
                forall|i: int|
                    0 <= i < rs.len() ==> (rs[i] is Ok ==> (#[trigger] self.backends@[i]).is_connected()) && (
                    rs[i] is Err ==> self.backends@[i].is_connected() == before[i].is_connected()),
            decreases pending.len(),
        {
            let ghost k = self.backends.len();
            let mut backend = pending.remove(0);
            assert(backend == before[k as int]);
            let res = backend.connect();
            match &res {
                Ok(()) => {},
                Err(err) => {
                    failures.push(err.message());
                },
            }
            self.backends.push(backend);
            proof {
                let rs2 = rs.push(res);
                assert(rs2.drop_last() =~= rs);
                assert(message_views(failures@) =~= connect_failures(rs2));
                assert forall|i: int| 0 <= i < rs2.len() implies #[trigger] before[i].connect_answer(
                    &self.backends@[i],
                    &rs2[i],
                ) by {
                    if i < k {
                        assert(rs2[i] == rs[i]);
                    }
                }
                rs = rs2;
            }
        }
        let any = self.any_connected();
        proof {
            if n == 0 {
                assert(!some_connected(self.backends()));
            }
        }
        let r = connect_outcome(failures, any);
        proof {
            assert(connect_result(connect_failures(rs), some_connected(self.backends()), r));
            assert(rs.len() == before.len() && (forall|i: int|
                0 <= i < rs.len() ==> #[trigger] before[i].connect_answer(&self.backends()[i], &rs[i]))
                && connect_result(connect_failures(rs), some_connected(self.backends()), r));
            if !some_connected(self.backends()) {
                assert forall|i: int| 0 <= i < before.len() implies !(#[trigger] before[i]).is_connected() by {
                    assert(!self.backends@[i].is_connected());
                }
            }
        }
        r
    }


    /// Whether some backend is connected.
    fn connected(&self) -> (b: bool) {
        self.any_connected()
    }

    /// Closes every connected backend; fails with every failure met.
    fn close(&mut self) -> (r: Result<(), StoreError>)
        ensures
            final(self).backends().len() == old(self).backends().len(),
            !old(self).is_connected() ==> r == Ok::<(), StoreError>(()) && final(self).backends()
                == old(self).backends(),
            forall|i: int|
                0 <= i < old(self).backends().len() && !(#[trigger] old(self).backends()[i]).is_connected()
                    ==> final(self).backends()[i] == old(self).backends()[i],
            r is Err ==> r->Err_0 is FailedToClose,
    {
        let mut pending: Vec<B> = Vec::new();
        std::mem::swap(&mut pending, &mut self.backends);
        let ghost n = pending.len();
        let ghost before = pending@;
        let mut failures: Vec<String> = Vec::new();
        while pending.len() > 0
            invariant
                self.backends.len() + pending.len() == n,
                pending@ == before.subrange(self.backends.len() as int, n as int),
                n == before.len(),
                failures.len() > 0 ==> some_connected(before),
                !some_connected(before) ==> self.backends@ == before.subrange(
                    0,
                    self.backends.len() as int,
                ),
                forall|j: int|
                    0 <= j < self.backends.len() && !(#[trigger] before[j]).is_connected() ==> self.backends@[j]
                        == before[j],
            decreases pending.len(),
        {
            let ghost k = self.backends.len();
            let mut backend = pending.remove(0);
            assert(backend == before[k as int]);
            if backend.connected() {
                match backend.close() {
                    Ok(()) => {},
                    Err(err) => {
                        failures.push(err.message());
                    },
                }
            }
            self.backends.push(backend);
            proof {
                if !some_connected(before) {
                    assert(self.backends@ =~= before.subrange(0, k + 1));
                }
            }
        }
        proof {
            if !some_connected(before) {
                assert(self.backends@ =~= before);
            }
        }
        close_outcome(failures)
    }

    /// The closure size of `path`, from the first connected backend that
    /// answers.
    fn query_closure_size(&self, path: &str) -> (r: Result<u64, StoreError>)
        ensures
            r is Ok ==> self.is_connected(),
            r == Err::<u64, StoreError>(StoreError::NoStoresToQuery) <==> !self.is_connected(),
            r is Err ==> (r->Err_0 is AllQueriesFailed || r->Err_0 is NoStoresToQuery),
    {
        self.fallback_closure_size(path)
    }

    /// The derivations of the system closure `system`, from the first
    /// connected backend that answers.
    fn query_system_derivations(&self, system: &str) -> (r: Result<Vec<String>, StoreError>)
        ensures
            r is Ok ==> self.is_connected(),
            r == Err::<Vec<String>, StoreError>(StoreError::NoStoresToQuery) <==> !self.is_connected(),
            r is Err ==> (r->Err_0 is AllQueriesFailed || r->Err_0 is NoStoresToQuery),
    {
        self.fallback_paths(system, true)
    }

    /// The dependents of `path`, from the first connected backend that
    /// answers.
    fn query_dependents(&self, path: &str) -> (r: Result<Vec<String>, StoreError>)
        ensures
            r is Ok ==> self.is_connected(),
            r == Err::<Vec<String>, StoreError>(StoreError::NoStoresToQuery) <==> !self.is_connected(),
            r is Err ==> (r->Err_0 is AllQueriesFailed || r->Err_0 is NoStoresToQuery),
    {
        self.fallback_paths(path, false)
    }
}

/// The word that ends a text: the characters after its last whitespace.
pub open spec fn word_ending(s: Seq<char>) -> Seq<char>
    decreases s.len(),
{
    if s.len() == 0 || is_whitespace(s.last()) {
        seq![]
    } else {
        word_ending(s.drop_last()).push(s.last())
    }
}

/// The last whitespace-separated word of a text, if it has any.
pub open spec fn last_word(s: Seq<char>) -> Option<Seq<char>>
    decreases s.len(),
{
    if s.len() == 0 {
        None
    } else if is_whitespace(s.last()) {
        last_word(s.drop_last())
    } else {
        Some(word_ending(s))
    }
}

/// The size in bytes that `nix path-info --closure-size` printed: its last
/// word, read as a `u64`.
pub fn closure_size_of_output(output: &str) -> (r: Option<u64>)
    ensures
        r matches Some(n) ==> (last_word(output@) matches Some(w) && parsed_u64(w) == Some(n as nat)),
        r is None ==> (last_word(output@) matches Some(w) ==> parsed_u64(w) is None),
{
    let cs = chars_of(output);
    let mut j: usize = cs.len();
    assert(output@.take(j as int) =~= output@);
    while j > 0 && char_is_whitespace(cs[j - 1])
        invariant
            j <= cs@.len(),
            cs@ == output@,
            last_word(output@) == last_word(output@.take(j as int)),
        decreases j,
    {
        assert(output@.take(j as int).drop_last() =~= output@.take(j - 1));
        j = j - 1;
    }
    if j == 0 {
        return None;
    }
    let mut i: usize = j;
    assert(output@.subrange(j as int, j as int) =~= seq![]);
    while i > 0 && !char_is_whitespace(cs[i - 1])
        invariant
            0 <= i <= j <= cs@.len(),
            cs@ == output@,
            word_ending(output@.take(j as int)) == word_ending(output@.take(i as int)) + output@.subrange(
                i as int,
                j as int,
            ),
        decreases i,
    {
        assert(output@.take(i as int).drop_last() =~= output@.take(i - 1));
        assert(output@.subrange(i - 1, j as int) =~= seq![output@[i - 1]] + output@.subrange(
            i as int,
            j as int,
        ));
        assert(word_ending(output@.take(i as int)) =~= word_ending(output@.take(i - 1)).push(output@[i - 1]));
        i = i - 1;
    }
    assert(word_ending(output@.take(i as int)) =~= seq![]);
    assert(output@.take(j as int).last() == output@[j - 1]);
    let word = output.substring_char(i, j);
    parse_u64_text(word)
}

} // verus!
