//! The per-child proxy core: id allocation, the pending-response table,
//! the initialization latch, and the routing rules of the reader task.
//!
//! The surrounding shell owns the subprocess and the I/O; it drives this
//! state machine with events (a line arrived, the child closed stdout,
//! the child was spawned) and performs the actions these methods hand
//! back (write this request, deliver this response to that waiter).
//! Everything decided here — which id a call gets, which waiter a
//! response reaches, what happens to in-flight calls on teardown — is
//! stated in the contracts.

use vstd::prelude::*;
use crate::json::{Json, json_view};
use crate::mcp::{Request, RequestId, RequestIdV, Response, ResponseV, decode_response};
use crate::mcp::{wf_response, ser_response};
use crate::registry::{Tool, ToolV, wf_tool};
use vstd::string::StringExecFns;

verus! {

/// What the reader task does with one line from the child.
pub enum ReaderStep {
    /// The line is a response for this pending id: hand the response
    /// to that id's waiter, now removed from the table.
    Deliver(i64, Response),
    /// Drop the line: not a response, a string id, or no matching waiter.
    Ignore,
}

/// The proxy core.  One per child subprocess.
pub struct ToolProxy {
    tool: Tool,
    next_id: i64,
    pending: Vec<i64>,
    running: bool,
    initialized: bool,
    init_in_flight: bool,
    issued: Ghost<Seq<i64>>,
    inits_begun: Ghost<nat>,
    inits_failed: Ghost<nat>,
}

impl ToolProxy {
    /// The descriptor this proxy runs.
    pub closed spec fn tool_view(&self) -> ToolV {
        self.tool@
    }

    /// The ids with a waiter attached.
    pub closed spec fn pending_ids(&self) -> Seq<i64> {
        self.pending@
    }

    /// The next id the allocator will hand out.
    pub closed spec fn next_id_spec(&self) -> int {
        self.next_id as int
    }

    /// Whether the child is (believed) running.
    pub closed spec fn is_running(&self) -> bool {
        self.running
    }

    /// Whether the handshake has completed for the live child.
    pub closed spec fn is_init(&self) -> bool {
        self.initialized
    }

    /// Whether some caller holds the initialization latch.
    pub closed spec fn init_held(&self) -> bool {
        self.init_in_flight
    }

    /// Every id ever handed out, in order.
    pub closed spec fn issued_ids(&self) -> Seq<i64> {
        self.issued@
    }

    /// How many handshakes were started since the child came up.
    pub closed spec fn inits_started(&self) -> nat {
        self.inits_begun@
    }

    /// How many of those handshakes failed.
    pub closed spec fn inits_gone_wrong(&self) -> nat {
        self.inits_failed@
    }

    /// The state invariant: ids strictly increase, stay below the
    /// allocator, and the latch agrees with the handshake count.
    pub closed spec fn wf(&self) -> bool {
        &&& wf_tool(self.tool@)
        &&& 1 <= self.next_id
        &&& forall|i: int, j: int|
            0 <= i < j < self.issued@.len() ==> #[trigger] self.issued@[i] < #[trigger] self.issued@[j]
        &&& forall|i: int| 0 <= i < self.issued@.len() ==> #[trigger] self.issued@[i] < self.next_id
        &&& forall|i: int, j: int|
            0 <= i < j < self.pending@.len() ==> #[trigger] self.pending@[i]
                < #[trigger] self.pending@[j]
        &&& forall|i: int| 0 <= i < self.pending@.len() ==> #[trigger] self.pending@[i] < self.next_id
        &&& !(self.initialized && self.init_in_flight)
        &&& self.inits_begun@ == self.inits_failed@ + (if self.initialized || self.init_in_flight {
            1nat
        } else {
            0nat
        })
        &&& (self.initialized || self.init_in_flight) ==> self.running
    }

    /// A fresh proxy: nothing running, nothing pending, ids start at 1.
    pub fn new(tool: Tool) -> (p: ToolProxy)
        requires
            wf_tool(tool@),
        ensures
            p.wf(),
            p.tool_view() == tool@,
            p.next_id_spec() == 1,
            p.pending_ids().len() == 0,
            !p.is_running(),
            !p.is_init(),
            !p.init_held(),
            p.issued_ids().len() == 0,
            p.inits_started() == 0,
            p.inits_gone_wrong() == 0,
    {
        ToolProxy {
            tool,
            next_id: 1,
            pending: Vec::new(),
            running: false,
            initialized: false,
            init_in_flight: false,
            issued: Ghost(Seq::empty()),
            inits_begun: Ghost(0),
            inits_failed: Ghost(0),
        }
    }

    /// A copy of the descriptor, for the shell to spawn from.
    pub fn tool(&self) -> (r: &Tool)
        ensures
            r@ == self.tool_view(),
    {
        &self.tool
    }

    /// The cheap pre-check of the double-checked latch.
    pub fn is_initialized(&self) -> (r: bool)
        ensures
            r == self.is_init(),
    {
        self.initialized
    }

    /// Whether the shell believes the child is running.
    pub fn running(&self) -> (r: bool)
        ensures
            r == self.is_running(),
    {
        self.running
    }

    /// The id the next call would get; the caller can see the
    /// allocator is not exhausted.
    pub fn next_call_id(&self) -> (r: i64)
        ensures
            r as int == self.next_id_spec(),
    {
        self.next_id
    }

    /// Fails every pending waiter with an error response carrying
    /// `code` and `message`, and empties the table.
    fn drain_pending(&mut self, code: i32, message: &str) -> (drained: Vec<(i64, Response)>)
        ensures
            final(self).pending@.len() == 0,
            final(self).tool == old(self).tool,
            final(self).next_id == old(self).next_id,
            final(self).running == old(self).running,
            final(self).initialized == old(self).initialized,
            final(self).init_in_flight == old(self).init_in_flight,
            final(self).issued == old(self).issued,
            final(self).inits_begun == old(self).inits_begun,
            final(self).inits_failed == old(self).inits_failed,
            drained@.len() == old(self).pending@.len(),
            forall|k: int|
                0 <= k < drained@.len() ==> (#[trigger] drained@[k]).0 == old(self).pending@[k]
                    && drained@[k].1@.id == RequestIdV::Number(old(self).pending@[k] as int)
                    && drained@[k].1@.result is None && (drained@[k].1@.error matches Some(e)
                    && e.code == code && e.message == message@ && e.data is None)
                    && drained@[k].1@.jsonrpc == "2.0"@,
    {
        let mut drained: Vec<(i64, Response)> = Vec::new();
        let mut i: usize = 0;
        while i < self.pending.len()
            invariant
                0 <= i <= self.pending@.len(),
                self.pending@ == old(self).pending@,
                self.tool == old(self).tool,
                self.next_id == old(self).next_id,
                self.running == old(self).running,
                self.initialized == old(self).initialized,
                self.init_in_flight == old(self).init_in_flight,
                self.issued == old(self).issued,
                self.inits_begun == old(self).inits_begun,
                self.inits_failed == old(self).inits_failed,
                drained@.len() == i,
                forall|k: int|
                    0 <= k < i ==> (#[trigger] drained@[k]).0 == old(self).pending@[k]
                        && drained@[k].1@.id == RequestIdV::Number(old(self).pending@[k] as int)
                        && drained@[k].1@.result is None && (drained@[k].1@.error matches Some(e)
                        && e.code == code && e.message == message@ && e.data is None)
                        && drained@[k].1@.jsonrpc == "2.0"@,
            decreases self.pending@.len() - i,
        {
            let id = self.pending[i];
            let resp = Response::error(RequestId::Number(id), code, message);
            drained.push((id, resp));
            i = i + 1;
        }
        self.pending = Vec::new();
        drained
    }

    /// The child was (re)spawned: the reader is fresh, the handshake is
    /// owed again, and whatever was in flight is failed with a
    /// "proxy restarted" error.
    pub fn on_spawned(&mut self) -> (drained: Vec<(i64, Response)>)
        requires
            old(self).wf(),
        ensures
            final(self).wf(),
            final(self).is_running(),
            !final(self).is_init(),
            !final(self).init_held(),
            final(self).pending_ids().len() == 0,
            final(self).next_id_spec() == old(self).next_id_spec(),
            final(self).issued_ids() == old(self).issued_ids(),
            final(self).tool_view() == old(self).tool_view(),
            final(self).inits_started() == 0,
            final(self).inits_gone_wrong() == 0,
            drained@.len() == old(self).pending_ids().len(),
            forall|k: int|
                0 <= k < drained@.len() ==> (#[trigger] drained@[k]).0 == old(self).pending_ids()[k]
                    && drained@[k].1@.id == RequestIdV::Number(
                    old(self).pending_ids()[k] as int,
                ) && drained@[k].1@.result is None && (drained@[k].1@.error matches Some(e)
                    && e.code == -1 && e.message == "proxy restarted"@),
    {
        let drained = self.drain_pending(-1, "proxy restarted");
        self.running = true;
        self.initialized = false;
        self.init_in_flight = false;
        proof {
            self.inits_begun@ = 0;
            self.inits_failed@ = 0;
        }
        drained
    }

    /// The child closed stdout: every in-flight call completes with an
    /// "EOF from subprocess" error, and the proxy returns to idle.
    pub fn on_eof(&mut self) -> (drained: Vec<(i64, Response)>)
        requires
            old(self).wf(),
        ensures
            final(self).wf(),
            !final(self).is_running(),
            !final(self).is_init(),
            !final(self).init_held(),
            final(self).pending_ids().len() == 0,
            final(self).next_id_spec() == old(self).next_id_spec(),
            final(self).issued_ids() == old(self).issued_ids(),
            final(self).tool_view() == old(self).tool_view(),
            drained@.len() == old(self).pending_ids().len(),
            forall|k: int|
                0 <= k < drained@.len() ==> (#[trigger] drained@[k]).0 == old(self).pending_ids()[k]
                    && drained@[k].1@.id == RequestIdV::Number(
                    old(self).pending_ids()[k] as int,
                ) && drained@[k].1@.result is None && (drained@[k].1@.error matches Some(e)
                    && e.code == -1 && e.message == "EOF from subprocess"@),
    {
        let drained = self.drain_pending(-1, "EOF from subprocess");
        self.running = false;
        self.initialized = false;
        self.init_in_flight = false;
        proof {
            self.inits_begun@ = self.inits_failed@;
        }
        drained
    }

    /// Reading from the child failed: treated like EOF, with a
    /// "read error" message.
    pub fn on_read_error(&mut self) -> (drained: Vec<(i64, Response)>)
        requires
            old(self).wf(),
        ensures
            final(self).wf(),
            !final(self).is_running(),
            !final(self).is_init(),
            !final(self).init_held(),
            final(self).pending_ids().len() == 0,
            final(self).next_id_spec() == old(self).next_id_spec(),
            final(self).issued_ids() == old(self).issued_ids(),
            drained@.len() == old(self).pending_ids().len(),
            forall|k: int|
                0 <= k < drained@.len() ==> (#[trigger] drained@[k]).0 == old(self).pending_ids()[k]
                    && (drained@[k].1@.error matches Some(e) && e.code == -1 && e.message
                    == "read error"@),
    {
        let drained = self.drain_pending(-1, "read error");
        self.running = false;
        self.initialized = false;
        self.init_in_flight = false;
        proof {
            self.inits_begun@ = self.inits_failed@;
        }
        drained
    }

    /// The proxy is being stopped: every pending waiter is failed with
    /// a "Proxy stopped" error and the child is considered gone.
    pub fn on_stop(&mut self) -> (drained: Vec<(i64, Response)>)
        requires
            old(self).wf(),
        ensures
            final(self).wf(),
            !final(self).is_running(),
            !final(self).is_init(),
            !final(self).init_held(),
            final(self).pending_ids().len() == 0,
            final(self).next_id_spec() == old(self).next_id_spec(),
            final(self).issued_ids() == old(self).issued_ids(),
            drained@.len() == old(self).pending_ids().len(),
            forall|k: int|
                0 <= k < drained@.len() ==> (#[trigger] drained@[k]).0 == old(self).pending_ids()[k]
                    && (drained@[k].1@.error matches Some(e) && e.code == -1 && e.message
                    == "Proxy stopped"@),
    {
        let drained = self.drain_pending(-1, "Proxy stopped");
        self.running = false;
        self.initialized = false;
        self.init_in_flight = false;
        proof {
            self.inits_begun@ = self.inits_failed@;
        }
        drained
    }

    /// Allocates a fresh id, registers a waiter for it, and builds the
    /// request to write.  The id is one the proxy never handed out
    /// before.
    pub fn begin_call(&mut self, method: &str, params: Option<Json>) -> (r: (i64, Request))
        requires
            old(self).wf(),
            old(self).is_running(),
            old(self).next_id_spec() < i64::MAX,
        ensures
            final(self).wf(),
            r.0 as int == old(self).next_id_spec(),
            final(self).next_id_spec() == old(self).next_id_spec() + 1,
            final(self).pending_ids() == old(self).pending_ids().push(r.0),
            final(self).issued_ids() == old(self).issued_ids().push(r.0),
            !old(self).pending_ids().contains(r.0),
            !old(self).issued_ids().contains(r.0),
            final(self).is_running() == old(self).is_running(),
            final(self).is_init() == old(self).is_init(),
            final(self).init_held() == old(self).init_held(),
            final(self).inits_started() == old(self).inits_started(),
            final(self).inits_gone_wrong() == old(self).inits_gone_wrong(),
            final(self).tool_view() == old(self).tool_view(),
            r.1.id == RequestId::Number(r.0),
            r.1.method@ == method@,
            r.1.params == params,
            r.1.jsonrpc@ == "2.0"@,
    {
        let id = self.next_id;
        self.next_id = self.next_id + 1;
        self.pending.push(id);
        proof {
            self.issued@ = self.issued@.push(id);
            assert forall|k: int| 0 <= k < old(self).pending@.len() implies old(
                self,
            ).pending@[k] != id by {
                assert(old(self).pending@[k] < id);
            }
            if old(self).pending@.contains(id) {
                let k = choose|k: int|
                    0 <= k < old(self).pending@.len() && old(self).pending@[k] == id;
                assert(false);
            }
            if old(self).issued@.contains(id) {
                let k = choose|k: int|
                    0 <= k < old(self).issued@.len() && old(self).issued@[k] == id;
                assert(old(self).issued@[k] < id);
                assert(false);
            }
        }
        let req = Request::new(RequestId::Number(id), method, params);
        (id, req)
    }

    /// Removes `id` from the pending table, if present, and says where
    /// it sat.
    fn take_pending(&mut self, id: i64) -> (r: Option<usize>)
        ensures
            final(self).tool == old(self).tool,
            final(self).next_id == old(self).next_id,
            final(self).running == old(self).running,
            final(self).initialized == old(self).initialized,
            final(self).init_in_flight == old(self).init_in_flight,
            final(self).issued == old(self).issued,
            final(self).inits_begun == old(self).inits_begun,
            final(self).inits_failed == old(self).inits_failed,
            match r {
                Some(k) => k < old(self).pending@.len() && old(self).pending@[k as int] == id
                    && final(self).pending@ == old(self).pending@.remove(k as int),
                None => final(self).pending@ == old(self).pending@ && !old(self).pending@.contains(
                    id,
                ),
            },
    {
        let mut i: usize = 0;
        while i < self.pending.len()
            invariant
                0 <= i <= self.pending@.len(),
                self.pending@ == old(self).pending@,
                self.tool == old(self).tool,
                self.next_id == old(self).next_id,
                self.running == old(self).running,
                self.initialized == old(self).initialized,
                self.init_in_flight == old(self).init_in_flight,
                self.issued == old(self).issued,
                self.inits_begun == old(self).inits_begun,
                self.inits_failed == old(self).inits_failed,
                forall|k: int| 0 <= k < i ==> #[trigger] self.pending@[k] != id,
            decreases self.pending@.len() - i,
        {
            if self.pending[i] == id {
                self.pending.remove(i);
                return Some(i);
            }
            i = i + 1;
        }
        proof {
            if old(self).pending@.contains(id) {
                let k = choose|k: int|
                    0 <= k < old(self).pending@.len() && old(self).pending@[k] == id;
                assert(false);
            }
        }
        None
    }

    /// Routes one already-decoded response from the child: delivered to
    /// its waiter exactly when its id is a pending number; a string id
    /// or an unknown id is dropped.
    pub fn route_response(&mut self, resp: Response) -> (r: ReaderStep)
        requires
            old(self).wf(),
        ensures
            final(self).wf(),
            final(self).tool_view() == old(self).tool_view(),
            final(self).next_id_spec() == old(self).next_id_spec(),
            final(self).issued_ids() == old(self).issued_ids(),
            final(self).is_running() == old(self).is_running(),
            final(self).is_init() == old(self).is_init(),
            final(self).init_held() == old(self).init_held(),
            final(self).inits_started() == old(self).inits_started(),
            forall|n: i64| #![trigger old(self).pending_ids().contains(n)]
                (resp.id == RequestId::Number(n) && old(self).pending_ids().contains(n)) ==> (
                r matches ReaderStep::Deliver(id, out) && id == n && out == resp && (exists|k: int|
                    0 <= k < old(self).pending_ids().len() && old(self).pending_ids()[k] == n
                        && final(self).pending_ids() == old(self).pending_ids().remove(k))),
            (match resp.id {
                RequestId::Str(_) => true,
                RequestId::Number(n) => !old(self).pending_ids().contains(n),
            }) ==> r is Ignore && final(self).pending_ids() == old(self).pending_ids(),
            r is Ignore ==> final(self).pending_ids() == old(self).pending_ids(),
    {
        match &resp.id {
            RequestId::Str(_) => ReaderStep::Ignore,
            RequestId::Number(n) => {
                let id = *n;
                match self.take_pending(id) {
                    Some(kk) => {
                        proof {
                            assert(old(self).pending@[kk as int] == id);
                            assert(old(self).pending_ids().contains(id));
                            assert(0 <= kk < old(self).pending_ids().len() && old(
                                self,
                            ).pending_ids()[kk as int] == id && self.pending_ids() == old(
                                self,
                            ).pending_ids().remove(kk as int));
                            assert forall|i: int, j: int|
                                0 <= i < j < self.pending@.len() implies
                                #[trigger] self.pending@[i] < #[trigger] self.pending@[j] by {
                                let k = choose|k: int|
                                    0 <= k < old(self).pending@.len() && old(self).pending@[
                                    k as int] == id && self.pending@ == old(self).pending@.remove(
                                        k as int,
                                    );
                                let oi: int = if i < k {
                                    i
                                } else {
                                    i + 1
                                };
                                let oj: int = if j < k {
                                    j
                                } else {
                                    j + 1
                                };
                                assert(self.pending@[i] == old(self).pending@[oi]);
                                assert(self.pending@[j] == old(self).pending@[oj]);
                            }
                        }
                        ReaderStep::Deliver(id, resp)
                    },
                    None => ReaderStep::Ignore,
                }
            },
        }
    }

    /// One line arrived from the child.  A line that decodes to a
    /// response with a pending numeric id is delivered to exactly that
    /// id's waiter; anything else — a malformed line, a string id, an
    /// unknown id — is dropped.
    pub fn on_child_line(&mut self, line: &str) -> (r: ReaderStep)
        requires
            old(self).wf(),
        ensures
            final(self).wf(),
            final(self).tool_view() == old(self).tool_view(),
            final(self).next_id_spec() == old(self).next_id_spec(),
            final(self).issued_ids() == old(self).issued_ids(),
            final(self).is_running() == old(self).is_running(),
            final(self).is_init() == old(self).is_init(),
            final(self).init_held() == old(self).init_held(),
            final(self).inits_started() == old(self).inits_started(),
            match r {
                ReaderStep::Deliver(id, resp) => {
                    &&& wf_response(resp@)
                    &&& resp@.id == RequestIdV::Number(id as int)
                    &&& old(self).pending_ids().contains(id)
                    &&& exists|k: int|
                        0 <= k < old(self).pending_ids().len() && old(self).pending_ids()[k] == id
                            && final(self).pending_ids() == old(self).pending_ids().remove(k)
                },
                ReaderStep::Ignore => final(self).pending_ids() == old(self).pending_ids(),
            },
            // response correlation: when the line is the rendering of a
            // response whose numeric id has a waiter, that waiter gets
            // exactly that response
            forall|rv: ResponseV, n: i64| #![trigger ser_response(rv), old(self).pending_ids().contains(n)]
                (wf_response(rv) && line@ == ser_response(rv) && rv.id == RequestIdV::Number(
                    n as int,
                ) && old(self).pending_ids().contains(n)) ==> (r matches ReaderStep::Deliver(
                    id,
                    resp,
                ) && id == n && resp@ == rv),
    {
        match decode_response(line) {
            None => {
                proof {
                    assert forall|rv: ResponseV, n: i64|
                        wf_response(rv) && line@ == ser_response(rv) && rv.id
                            == RequestIdV::Number(n as int) && old(self).pending_ids().contains(
                            n,
                        ) implies false by {
                        assert(ser_response(rv) == ser_response(rv));
                    }
                }
                ReaderStep::Ignore
            },
            Some(resp) => {
                let ghost respg = resp;
                let r = self.route_response(resp);
                proof {
                    assert forall|rv: ResponseV, n: i64|
                        wf_response(rv) && line@ == ser_response(rv) && rv.id
                            == RequestIdV::Number(n as int) && old(self).pending_ids().contains(
                            n,
                        ) implies (r matches ReaderStep::Deliver(id, out) && id == n && out@
                        == rv) by {
                        assert(ser_response(rv) == ser_response(rv));
                        assert(respg@ == rv);
                        assert(respg.id == RequestId::Number(n)) by {
                            match respg.id {
                                RequestId::Number(m) => {
                                    assert(respg@.id == RequestIdV::Number(m as int));
                                    assert(m == n);
                                },
                                RequestId::Str(_) => {
                                    assert(false);
                                },
                            }
                        }
                        assert(RequestId::Number(n) == respg.id);
                    }
                    if r is Deliver {
                        let id = r->Deliver_0;
                        let out = r->Deliver_1;
                        assert(wf_response(out@) && out@.id == RequestIdV::Number(id as int)
                            && old(self).pending_ids().contains(id)) by {
                            match respg.id {
                                RequestId::Number(m) => {
                                    if !old(self).pending_ids().contains(m) {
                                        assert(r is Ignore);
                                        assert(false);
                                    }
                                    assert(RequestId::Number(m) == respg.id);
                                },
                                RequestId::Str(_) => {
                                    assert(r is Ignore);
                                    assert(false);
                                },
                            }
                        }
                    }
                }
                r
            },
        }
    }

    /// Tries to take the initialization latch.  Succeeds exactly when
    /// no handshake has completed and none is in flight.
    pub fn try_begin_init(&mut self) -> (r: bool)
        requires
            old(self).wf(),
            old(self).is_running(),
        ensures
            final(self).wf(),
            r == (!old(self).is_init() && !old(self).init_held()),
            r ==> final(self).init_held() && !final(self).is_init() && final(self).inits_started()
                == old(self).inits_started() + 1,
            !r ==> *final(self) == *old(self),
            final(self).pending_ids() == old(self).pending_ids(),
            final(self).next_id_spec() == old(self).next_id_spec(),
            final(self).issued_ids() == old(self).issued_ids(),
            final(self).is_running(),
            final(self).inits_gone_wrong() == old(self).inits_gone_wrong(),
            final(self).tool_view() == old(self).tool_view(),
    {
        if !self.initialized && !self.init_in_flight {
            self.init_in_flight = true;
            proof {
                self.inits_begun@ = self.inits_begun@ + 1;
            }
            true
        } else {
            false
        }
    }

    /// The handshake completed: the latch is released and the proxy is
    /// initialized.
    pub fn finish_init(&mut self)
        requires
            old(self).wf(),
            old(self).init_held(),
        ensures
            final(self).wf(),
            final(self).is_init(),
            !final(self).init_held(),
            final(self).pending_ids() == old(self).pending_ids(),
            final(self).next_id_spec() == old(self).next_id_spec(),
            final(self).issued_ids() == old(self).issued_ids(),
            final(self).is_running() == old(self).is_running(),
            final(self).inits_started() == old(self).inits_started(),
            final(self).inits_gone_wrong() == old(self).inits_gone_wrong(),
            final(self).tool_view() == old(self).tool_view(),
    {
        self.initialized = true;
        self.init_in_flight = false;
    }

    /// The handshake failed: the latch is released so a later caller
    /// may try again.
    pub fn fail_init(&mut self)
        requires
            old(self).wf(),
            old(self).init_held(),
        ensures
            final(self).wf(),
            !final(self).is_init(),
            !final(self).init_held(),
            final(self).pending_ids() == old(self).pending_ids(),
            final(self).next_id_spec() == old(self).next_id_spec(),
            final(self).issued_ids() == old(self).issued_ids(),
            final(self).is_running() == old(self).is_running(),
            final(self).inits_started() == old(self).inits_started(),
            final(self).inits_gone_wrong() == old(self).inits_gone_wrong() + 1,
            final(self).tool_view() == old(self).tool_view(),
    {
        self.initialized = false;
        self.init_in_flight = false;
        proof {
            self.inits_failed@ = self.inits_failed@ + 1;
        }
    }
}

impl ToolProxy {
    /// The `initialize` handshake request, with this gateway as the
    /// client.
    pub fn initialize_request(&mut self) -> (r: (i64, Request))
        requires
            old(self).wf(),
            old(self).is_running(),
            old(self).next_id_spec() < i64::MAX,
        ensures
            final(self).wf(),
            r.0 as int == old(self).next_id_spec(),
            final(self).next_id_spec() == old(self).next_id_spec() + 1,
            final(self).pending_ids() == old(self).pending_ids().push(r.0),
            final(self).issued_ids() == old(self).issued_ids().push(r.0),
            final(self).is_running() && final(self).is_init() == old(self).is_init()
                && final(self).init_held() == old(self).init_held(),
            final(self).inits_started() == old(self).inits_started(),
            final(self).inits_gone_wrong() == old(self).inits_gone_wrong(),
            final(self).tool_view() == old(self).tool_view(),
            r.1.id == RequestId::Number(r.0),
            r.1.method@ == "initialize"@,
            r.1.jsonrpc@ == "2.0"@,
            r.1.params matches Some(p) && json_view(p) == crate::mcp::initialize_params_json(
                crate::mcp::spec_protocol_version(),
                crate::mcp::spec_server_name(),
                crate::mcp::spec_server_version(),
            ),
    {
        let params = crate::mcp::InitializeParams {
            protocol_version: String::from_str(crate::mcp::protocol_version()),
            capabilities: crate::mcp::ClientCapabilities {},
            client_info: crate::mcp::ClientInfo {
                name: String::from_str("mcpd"),
                version: String::from_str("0.1.0"),
            },
        };
        let pj = params.to_json();
        self.begin_call("initialize", Some(pj))
    }

    /// The `notifications/initialized` notice that follows the
    /// handshake.
    pub fn initialized_notification(&self) -> (n: crate::mcp::Notification)
        ensures
            n.method@ == "notifications/initialized"@,
            n.jsonrpc@ == "2.0"@,
            n.params is None,
    {
        crate::mcp::Notification::new("notifications/initialized")
    }

    /// The `tools/list` request.
    pub fn list_tools_request(&mut self) -> (r: (i64, Request))
        requires
            old(self).wf(),
            old(self).is_running(),
            old(self).next_id_spec() < i64::MAX,
        ensures
            final(self).wf(),
            r.0 as int == old(self).next_id_spec(),
            final(self).next_id_spec() == old(self).next_id_spec() + 1,
            final(self).pending_ids() == old(self).pending_ids().push(r.0),
            final(self).issued_ids() == old(self).issued_ids().push(r.0),
            final(self).is_running() && final(self).is_init() == old(self).is_init()
                && final(self).init_held() == old(self).init_held(),
            final(self).inits_started() == old(self).inits_started(),
            final(self).inits_gone_wrong() == old(self).inits_gone_wrong(),
            final(self).tool_view() == old(self).tool_view(),
            r.1.id == RequestId::Number(r.0),
            r.1.method@ == "tools/list"@,
            r.1.jsonrpc@ == "2.0"@,
            r.1.params is None,
    {
        self.begin_call("tools/list", None)
    }

    /// The `tools/call` request for one named tool.
    pub fn call_tool_request(&mut self, name: &str, arguments: Json) -> (r: (i64, Request))
        requires
            old(self).wf(),
            old(self).is_running(),
            old(self).next_id_spec() < i64::MAX,
        ensures
            final(self).wf(),
            r.0 as int == old(self).next_id_spec(),
            final(self).next_id_spec() == old(self).next_id_spec() + 1,
            final(self).pending_ids() == old(self).pending_ids().push(r.0),
            final(self).issued_ids() == old(self).issued_ids().push(r.0),
            final(self).is_running() && final(self).is_init() == old(self).is_init()
                && final(self).init_held() == old(self).init_held(),
            final(self).inits_started() == old(self).inits_started(),
            final(self).inits_gone_wrong() == old(self).inits_gone_wrong(),
            final(self).tool_view() == old(self).tool_view(),
            r.1.id == RequestId::Number(r.0),
            r.1.method@ == "tools/call"@,
            r.1.jsonrpc@ == "2.0"@,
            r.1.params matches Some(p) && json_view(p) == crate::mcp::call_tool_params_json(
                name@,
                json_view(arguments),
            ),
    {
        let params = crate::mcp::CallToolParams { name: String::from_str(name), arguments };
        let pj = params.to_json();
        self.begin_call("tools/call", Some(pj))
    }
}

/// Ids are never reused: every id the proxy ever handed out is distinct
/// from every other.
pub proof fn lemma_issued_ids_distinct(p: &ToolProxy)
    requires
        p.wf(),
    ensures
        forall|i: int, j: int|
            0 <= i < j < p.issued_ids().len() ==> #[trigger] p.issued_ids()[i]
                != #[trigger] p.issued_ids()[j],
{
}

/// Since the child came up, at most one handshake was started unless
/// one failed first; once initialized, exactly one succeeded.
pub proof fn lemma_single_init(p: &ToolProxy)
    requires
        p.wf(),
        p.inits_gone_wrong() == 0,
    ensures
        p.inits_started() <= 1,
        p.is_init() ==> p.inits_started() == 1,
{
}

} // verus!
