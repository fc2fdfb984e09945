//! The dispatcher: the upstream request router, the server-side
//! handshake, and the virtual tool namespace that fans `tools/call` out
//! to the right child.
//!
//! The surrounding shell runs the stdio loop and the child calls; it
//! asks these functions what each inbound line means and writes back the
//! responses they build.

use vstd::prelude::*;
use crate::json::{Json, json_view};
use crate::json::str_eq;
use crate::mcp::{Request, RequestId, Response, Notification, CallToolParams,
    CallToolResult, Content, ContentV, InitializeResult, ServerCapabilities, ServerInfo,
    ToolsCapability, ListToolsResult, McpToolV, mcp_tool_views, list_tools_result_json,
    call_tool_result_json, content_views, initialize_result_json, spec_protocol_version,
    spec_server_name, spec_server_version, protocol_version};
use crate::registry::{Registry, Tool};
use vstd::string::StringExecFns;

verus! {

/// A duplicate of a request id with the same value.
pub fn id_dup(id: &RequestId) -> (r: RequestId)
    ensures
        r@ == id@,
{
    match id {
        RequestId::Number(n) => RequestId::Number(*n),
        RequestId::Str(s) => RequestId::Str(s.clone()),
    }
}

/// The flat namespace name of a child's tool.
pub open spec fn prefixed(p: Seq<char>, t: Seq<char>) -> Seq<char> {
    p + "__"@ + t
}

/// `proxy-name __ tool-name`, the name shown upstream.
pub fn prefix_tool_name(p: &str, t: &str) -> (r: String)
    ensures
        r@ == prefixed(p@, t@),
{
    let mut s = String::from_str(p);
    s.append("__");
    s.append(t);
    s
}

/// One entry of the virtual namespace: the prefixed name and where it
/// leads.
pub struct ToolMapEntry {
    pub prefixed: String,
    pub proxy_name: String,
    pub tool_name: String,
}

pub open spec fn entry_view(e: ToolMapEntry) -> (Seq<char>, Seq<char>, Seq<char>) {
    (e.prefixed@, e.proxy_name@, e.tool_name@)
}

pub open spec fn entry_views(es: Seq<ToolMapEntry>) -> Seq<(Seq<char>, Seq<char>, Seq<char>)> {
    es.map_values(|e: ToolMapEntry| entry_view(e))
}

/// What one proxy answered to `tools/list`, or nothing if it failed.
pub struct ListingOutcome {
    pub proxy_name: String,
    pub listing: Option<ListToolsResult>,
}

/// The namespace entries one listing contributes.
pub open spec fn per_proxy_entries(p: Seq<char>, ts: Seq<McpToolV>) -> Seq<
    (Seq<char>, Seq<char>, Seq<char>),
> {
    Seq::new(ts.len(), |i: int| (prefixed(p, ts[i].name), p, ts[i].name))
}

/// The prefixed tools one listing contributes.
pub open spec fn per_proxy_tools(p: Seq<char>, ts: Seq<McpToolV>) -> Seq<McpToolV> {
    Seq::new(
        ts.len(),
        |i: int| McpToolV {
            name: prefixed(p, ts[i].name),
            description: ts[i].description,
            input_schema: ts[i].input_schema,
        },
    )
}

pub open spec fn outcome_entries(o: ListingOutcome) -> Seq<(Seq<char>, Seq<char>, Seq<char>)> {
    match o.listing {
        Some(lt) => per_proxy_entries(o.proxy_name@, mcp_tool_views(lt.tools@)),
        None => Seq::empty(),
    }
}

pub open spec fn outcome_tools(o: ListingOutcome) -> Seq<McpToolV> {
    match o.listing {
        Some(lt) => per_proxy_tools(o.proxy_name@, mcp_tool_views(lt.tools@)),
        None => Seq::empty(),
    }
}

/// All namespace entries of a round of listings, in order.
pub open spec fn agg_entries(os: Seq<ListingOutcome>) -> Seq<(Seq<char>, Seq<char>, Seq<char>)>
    decreases os.len(),
{
    if os.len() == 0 {
        Seq::empty()
    } else {
        outcome_entries(os[0]) + agg_entries(os.drop_first())
    }
}

/// All prefixed tools of a round of listings, in order.
pub open spec fn agg_tools(os: Seq<ListingOutcome>) -> Seq<McpToolV>
    decreases os.len(),
{
    if os.len() == 0 {
        Seq::empty()
    } else {
        outcome_tools(os[0]) + agg_tools(os.drop_first())
    }
}

proof fn lemma_agg_split(os: Seq<ListingOutcome>, k: int)
    requires
        0 <= k <= os.len(),
    ensures
        agg_entries(os) == agg_entries(os.subrange(0, k)) + agg_entries(
            os.subrange(k, os.len() as int),
        ),
        agg_tools(os) == agg_tools(os.subrange(0, k)) + agg_tools(os.subrange(k, os.len() as int)),
    decreases k,
{
    if k == 0 {
        assert(os.subrange(0, 0) =~= Seq::<ListingOutcome>::empty());
        assert(os.subrange(0, os.len() as int) =~= os);
        assert(agg_entries(os.subrange(0, 0)) =~= Seq::<(Seq<char>, Seq<char>, Seq<char>)>::empty());
        assert(agg_entries(os) =~= agg_entries(os.subrange(0, 0)) + agg_entries(
            os.subrange(0, os.len() as int),
        ));
        assert(agg_tools(os.subrange(0, 0)) =~= Seq::<McpToolV>::empty());
        assert(agg_tools(os) =~= agg_tools(os.subrange(0, 0)) + agg_tools(
            os.subrange(0, os.len() as int),
        ));
    } else {
        let rest = os.drop_first();
        lemma_agg_split(rest, k - 1);
        assert(os.subrange(0, k).drop_first() =~= rest.subrange(0, k - 1));
        assert(os.subrange(0, k)[0] == os[0]);
        assert(os.subrange(0, k).len() > 0);
        assert(rest.subrange(k - 1, rest.len() as int) =~= os.subrange(k, os.len() as int));
        assert(agg_entries(os.subrange(0, k)) == outcome_entries(os[0]) + agg_entries(
            rest.subrange(0, k - 1),
        ));
        assert((outcome_entries(os[0]) + agg_entries(rest.subrange(0, k - 1))) + agg_entries(
            os.subrange(k, os.len() as int),
        ) =~= outcome_entries(os[0]) + (agg_entries(rest.subrange(0, k - 1)) + agg_entries(
            rest.subrange(k - 1, rest.len() as int),
        )));
        assert(agg_tools(os.subrange(0, k)) == outcome_tools(os[0]) + agg_tools(
            rest.subrange(0, k - 1),
        ));
        assert((outcome_tools(os[0]) + agg_tools(rest.subrange(0, k - 1))) + agg_tools(
            os.subrange(k, os.len() as int),
        ) =~= outcome_tools(os[0]) + (agg_tools(rest.subrange(0, k - 1)) + agg_tools(
            rest.subrange(k - 1, rest.len() as int),
        )));
    }
}

/// The target of the last namespace entry named `n`, if any — the one
/// a later listing would have overwritten the earlier ones with.
pub open spec fn lookup_last(
    es: Seq<(Seq<char>, Seq<char>, Seq<char>)>,
    n: Seq<char>,
) -> Option<(Seq<char>, Seq<char>)>
    decreases es.len(),
{
    if es.len() == 0 {
        None
    } else if es.last().0 == n {
        Some((es.last().1, es.last().2))
    } else {
        lookup_last(es.drop_last(), n)
    }
}

/// What the dispatcher should do with one upstream request.
pub enum RequestAction {
    /// Answer the `initialize` handshake.
    Init,
    /// Gather `tools/list` from every proxy and aggregate.
    ListTools,
    /// Forward a `tools/call` to the named virtual tool.
    CallTool(CallToolParams),
    /// Nothing to forward: answer with this response directly.
    Respond(Response),
}

/// What the dispatcher should do with one upstream notification.
pub enum NotificationAction {
    ClientInitialized,
    Cancelled,
    Unknown,
}

/// The dispatcher's own state: the registry snapshot, which proxies
/// exist, the virtual namespace, and the observational handshake latch.
pub struct Server {
    registry: Registry,
    proxy_names: Vec<String>,
    tool_map: Vec<ToolMapEntry>,
    initialized: bool,
}

pub open spec fn names_has(names: Seq<String>, n: Seq<char>) -> bool {
    exists|i: int| 0 <= i < names.len() && (#[trigger] names[i])@ == n
}

impl Server {
    pub closed spec fn registry_tools(&self) -> Seq<Tool> {
        self.registry.data.tools@
    }

    pub closed spec fn proxy_name_list(&self) -> Seq<String> {
        self.proxy_names@
    }

    pub closed spec fn tool_map_view(&self) -> Seq<(Seq<char>, Seq<char>, Seq<char>)> {
        entry_views(self.tool_map@)
    }

    pub closed spec fn is_initialized(&self) -> bool {
        self.initialized
    }

    pub closed spec fn inv(&self) -> bool {
        &&& self.registry.inv()
        &&& forall|i: int, j: int|
            0 <= i < j < self.proxy_names@.len() ==> (#[trigger] self.proxy_names@[i])@ != (
            #[trigger] self.proxy_names@[j])@
    }

    /// A dispatcher over one registry snapshot: no proxies yet, an
    /// empty namespace, the latch unset.
    pub fn new(registry: Registry) -> (s: Server)
        requires
            registry.inv(),
        ensures
            s.inv(),
            s.registry_tools() == registry.data.tools@,
            s.proxy_name_list().len() == 0,
            s.tool_map_view().len() == 0,
            !s.is_initialized(),
    {
        let s = Server { registry, proxy_names: Vec::new(), tool_map: Vec::new(), initialized: false };
        proof {
            assert(entry_views(s.tool_map@) =~= Seq::<(Seq<char>, Seq<char>, Seq<char>)>::empty());
        }
        s
    }

    fn has_proxy(&self, name: &str) -> (r: bool)
        ensures
            r == names_has(self.proxy_names@, name@),
    {
        let mut i: usize = 0;
        while i < self.proxy_names.len()
            invariant
                0 <= i <= self.proxy_names@.len(),
                forall|k: int| 0 <= k < i ==> (#[trigger] self.proxy_names@[k])@ != name@,
            decreases self.proxy_names@.len() - i,
        {
            if str_eq(self.proxy_names[i].as_str(), name) {
                return true;
            }
            i = i + 1;
        }
        proof {
            if names_has(self.proxy_names@, name@) {
                let k = choose|k: int|
                    0 <= k < self.proxy_names@.len() && (#[trigger] self.proxy_names@[k])@
                        == name@;
                assert(false);
            }
        }
        false
    }

    /// Walks the registry and says which descriptors still need a
    /// proxy; those names are recorded as present from now on.
    pub fn ensure_proxies(&mut self) -> (created: Vec<Tool>)
        requires
            old(self).inv(),
        ensures
            final(self).inv(),
            final(self).registry_tools() == old(self).registry_tools(),
            final(self).tool_map_view() == old(self).tool_map_view(),
            final(self).is_initialized() == old(self).is_initialized(),
            // every registered name now has a proxy
            forall|k: int|
                0 <= k < final(self).registry_tools().len() ==> names_has(
                    final(self).proxy_name_list(),
                    (#[trigger] final(self).registry_tools()[k])@.name,
                ),
            // the old proxies are kept
            final(self).proxy_name_list().len() >= old(self).proxy_name_list().len(),
            final(self).proxy_name_list().subrange(0, old(self).proxy_name_list().len() as int)
                == old(self).proxy_name_list(),
            // each created descriptor is a registered tool that had no
            // proxy, and its name was appended
            created@.len() + old(self).proxy_name_list().len()
                == final(self).proxy_name_list().len(),
            forall|k: int|
                0 <= k < created@.len() ==> (exists|i: int|
                    0 <= i < old(self).registry_tools().len() && (#[trigger] created@[k])@ == (
                    #[trigger] old(self).registry_tools()[i])@) && !names_has(
                    old(self).proxy_name_list(),
                    created@[k]@.name,
                ) && final(self).proxy_name_list()[old(self).proxy_name_list().len() + k]@
                    == created@[k]@.name,
    {
        let mut created: Vec<Tool> = Vec::new();
        let mut i: usize = 0;
        let n = self.registry.len();
        while i < n
            invariant
                0 <= i <= self.registry.data.tools@.len(),
                n == self.registry.data.tools@.len(),
                self.registry == old(self).registry,
                self.tool_map == old(self).tool_map,
                self.initialized == old(self).initialized,
                self.inv(),
                self.proxy_names@.len() >= old(self).proxy_names@.len(),
                self.proxy_names@.subrange(0, old(self).proxy_names@.len() as int) == old(
                    self,
                ).proxy_names@,
                created@.len() + old(self).proxy_names@.len() == self.proxy_names@.len(),
                forall|k: int|
                    0 <= k < i ==> names_has(
                        self.proxy_names@,
                        (#[trigger] self.registry.data.tools@[k])@.name,
                    ),
                forall|k: int|
                    0 <= k < created@.len() ==> (exists|i2: int|
                        0 <= i2 < old(self).registry.data.tools@.len() && (
                        #[trigger] created@[k])@ == (#[trigger] old(
                            self,
                        ).registry.data.tools@[i2])@) && !names_has(
                        old(self).proxy_names@,
                        created@[k]@.name,
                    ) && self.proxy_names@[old(self).proxy_names@.len() + k]@ == created@[k]@.name,
            decreases n - i,
        {
            let t = &self.registry.data.tools[i];
            if !self.has_proxy(t.name.as_str()) {
                let ghost names0 = self.proxy_names@;
                let copy = t.duplicate();
                self.proxy_names.push(t.name.clone());
                created.push(copy);
                proof {
                    assert forall|a: int, b: int|
                        0 <= a < b < self.proxy_names@.len() implies (
                    #[trigger] self.proxy_names@[a])@ != (#[trigger] self.proxy_names@[b])@ by {
                        if b < names0.len() {
                            assert(names0[a]@ != names0[b]@);
                        } else {
                            assert(self.proxy_names@[b]@ == self.registry.data.tools@[
                                i as int]@.name);
                            if names_has(names0, self.proxy_names@[b]@) {
                            } else {
                                assert(self.proxy_names@[a] == names0[a]);
                                assert(names_has(names0, names0[a]@));
                            }
                        }
                    }
                    assert(self.proxy_names@.subrange(0, old(self).proxy_names@.len() as int)
                        =~= names0.subrange(0, old(self).proxy_names@.len() as int));
                    assert forall|k: int|
                        0 <= k < i + 1 implies names_has(
                        self.proxy_names@,
                        (#[trigger] self.registry.data.tools@[k])@.name,
                    ) by {
                        if k < i {
                            let w = choose|w: int|
                                0 <= w < names0.len() && (#[trigger] names0[w])@
                                    == self.registry.data.tools@[k]@.name;
                            assert(self.proxy_names@[w] == names0[w]);
                            assert(names_has(
                                self.proxy_names@,
                                self.registry.data.tools@[k]@.name,
                            ));
                        } else {
                            assert(self.proxy_names@[self.proxy_names@.len() - 1]@
                                == self.registry.data.tools@[i as int]@.name);
                        }
                    }
                }
            } else {
                proof {
                    assert(names_has(
                        self.proxy_names@,
                        self.registry.data.tools@[i as int]@.name,
                    ));
                }
            }
            i = i + 1;
        }
        created
    }

    /// Answers the `initialize` handshake with this gateway's identity
    /// and capabilities, and sets the observational latch.
    pub fn handle_initialize(&mut self, id: RequestId) -> (r: Response)
        requires
            old(self).inv(),
        ensures
            final(self).inv(),
            final(self).is_initialized(),
            final(self).registry_tools() == old(self).registry_tools(),
            final(self).proxy_name_list() == old(self).proxy_name_list(),
            final(self).tool_map_view() == old(self).tool_map_view(),
            r.jsonrpc@ == "2.0"@,
            r@.id == id@,
            r.error is None,
            r.result matches Some(j) && json_view(j) == initialize_result_json(
                spec_protocol_version(),
                Some(false),
                spec_server_name(),
                spec_server_version(),
            ),
    {
        self.initialized = true;
        let result = InitializeResult {
            protocol_version: String::from_str(protocol_version()),
            capabilities: ServerCapabilities {
                tools: Some(ToolsCapability { list_changed: false }),
            },
            server_info: ServerInfo {
                name: String::from_str("mcpd"),
                version: String::from_str("0.1.0"),
            },
        };
        let j = result.to_json();
        Response::success(id, j)
    }

    /// Replaces the namespace with the outcome of one listing round and
    /// builds the aggregated `tools/list` response: every advertised
    /// tool under its prefixed name; proxies that failed contribute
    /// nothing.
    pub fn aggregate_tools(&mut self, id: RequestId, outcomes: Vec<ListingOutcome>) -> (r:
        Response)
        requires
            old(self).inv(),
        ensures
            final(self).inv(),
            final(self).registry_tools() == old(self).registry_tools(),
            final(self).proxy_name_list() == old(self).proxy_name_list(),
            final(self).is_initialized() == old(self).is_initialized(),
            final(self).tool_map_view() == agg_entries(outcomes@),
            r.jsonrpc@ == "2.0"@,
            r@.id == id@,
            r.error is None,
            r.result matches Some(j) && json_view(j) == list_tools_result_json(
                agg_tools(outcomes@),
            ),
    {
        let mut entries: Vec<ToolMapEntry> = Vec::new();
        let mut all_tools: Vec<crate::mcp::Tool> = Vec::new();
        let mut i: usize = 0;
        while i < outcomes.len()
            invariant
                0 <= i <= outcomes@.len(),
                entry_views(entries@) =~= agg_entries(outcomes@.subrange(0, i as int)),
                mcp_tool_views(all_tools@) =~= agg_tools(outcomes@.subrange(0, i as int)),
            decreases outcomes@.len() - i,
        {
            let ghost pre = outcomes@.subrange(0, i as int);
            let o = &outcomes[i];
            match &o.listing {
                Some(lt) => {
                    let ghost ts = mcp_tool_views(lt.tools@);
                    let mut k: usize = 0;
                    while k < lt.tools.len()
                        invariant
                            0 <= k <= lt.tools@.len(),
                            ts == mcp_tool_views(lt.tools@),
                            outcomes@[i as int].listing matches Some(l2) && l2.tools@ == lt.tools@
                                && outcomes@[i as int].proxy_name@ == o.proxy_name@,
                            i < outcomes@.len(),
                            pre == outcomes@.subrange(0, i as int),
                            entry_views(entries@) =~= agg_entries(pre) + per_proxy_entries(
                                o.proxy_name@,
                                ts,
                            ).subrange(0, k as int),
                            mcp_tool_views(all_tools@) =~= agg_tools(pre) + per_proxy_tools(
                                o.proxy_name@,
                                ts,
                            ).subrange(0, k as int),
                        decreases lt.tools@.len() - k,
                    {
                        let t = &lt.tools[k];
                        let pname = prefix_tool_name(o.proxy_name.as_str(), t.name.as_str());
                        let ghost e0 = entries@;
                        let ghost a0 = all_tools@;
                        entries.push(
                            ToolMapEntry {
                                prefixed: pname.clone(),
                                proxy_name: o.proxy_name.clone(),
                                tool_name: t.name.clone(),
                            },
                        );
                        let desc: Option<String> = match &t.description {
                            Some(d) => Some(d.clone()),
                            None => None,
                        };
                        all_tools.push(
                            crate::mcp::Tool {
                                name: pname,
                                description: desc,
                                input_schema: crate::json::json_clone(&t.input_schema),
                            },
                        );
                        k = k + 1;
                        proof {
                            assert(ts[k - 1] == lt.tools@[k - 1]@);
                            let aggp = agg_entries(pre);
                            let perk = per_proxy_entries(o.proxy_name@, ts);
                            assert(entry_views(e0) == aggp + perk.subrange(0, k - 1));
                            assert(entry_views(e0).len() == e0.len());
                            assert(ts.len() == lt.tools@.len());
                            assert(perk.len() == ts.len());
                            assert(perk.subrange(0, k - 1).len() == k - 1);
                            assert(e0.len() == aggp.len() + (k - 1));
                            assert forall|w: int| 0 <= w < entries@.len() implies entry_views(
                                entries@,
                            )[w] == (aggp + perk.subrange(0, k as int))[w] by {
                                assert(entry_views(entries@)[w] == entry_view(entries@[w]));
                                if w < e0.len() {
                                    assert(entries@[w] == e0[w]);
                                    assert(entry_views(e0)[w] == entry_view(e0[w]));
                                    if w < aggp.len() {
                                        assert((aggp + perk.subrange(0, k - 1))[w] == aggp[w]);
                                        assert((aggp + perk.subrange(0, k as int))[w] == aggp[w]);
                                    } else {
                                        assert((aggp + perk.subrange(0, k - 1))[w]
                                            == perk.subrange(0, k - 1)[w - aggp.len()]);
                                        assert(perk.subrange(0, k - 1)[w - aggp.len()]
                                            == perk[w - aggp.len()]);
                                        assert((aggp + perk.subrange(0, k as int))[w]
                                            == perk.subrange(0, k as int)[w - aggp.len()]);
                                        assert(perk.subrange(0, k as int)[w - aggp.len()]
                                            == perk[w - aggp.len()]);
                                    }
                                } else {
                                    assert(entries@[w] == entries@[entries@.len() - 1]);
                                    assert((aggp + perk.subrange(0, k as int))[w]
                                        == perk.subrange(0, k as int)[k - 1]);
                                    assert(perk.subrange(0, k as int)[k - 1] == perk[k - 1]);
                                }
                            }
                            let agga = agg_tools(pre);
                            let pert = per_proxy_tools(o.proxy_name@, ts);
                            assert(mcp_tool_views(a0) == agga + pert.subrange(0, k - 1));
                            assert(mcp_tool_views(a0).len() == a0.len());
                            assert(pert.len() == ts.len());
                            assert(pert.subrange(0, k - 1).len() == k - 1);
                            assert(a0.len() == agga.len() + (k - 1));
                            assert forall|w: int| 0 <= w < all_tools@.len() implies
                                mcp_tool_views(all_tools@)[w] == (agga + pert.subrange(
                                0,
                                k as int,
                            ))[w] by {
                                assert(mcp_tool_views(all_tools@)[w] == all_tools@[w]@);
                                if w < a0.len() {
                                    assert(all_tools@[w] == a0[w]);
                                    assert(mcp_tool_views(a0)[w] == a0[w]@);
                                    if w < agga.len() {
                                        assert((agga + pert.subrange(0, k - 1))[w] == agga[w]);
                                        assert((agga + pert.subrange(0, k as int))[w] == agga[w]);
                                    } else {
                                        assert((agga + pert.subrange(0, k - 1))[w]
                                            == pert.subrange(0, k - 1)[w - agga.len()]);
                                        assert(pert.subrange(0, k - 1)[w - agga.len()]
                                            == pert[w - agga.len()]);
                                        assert((agga + pert.subrange(0, k as int))[w]
                                            == pert.subrange(0, k as int)[w - agga.len()]);
                                        assert(pert.subrange(0, k as int)[w - agga.len()]
                                            == pert[w - agga.len()]);
                                    }
                                } else {
                                    assert(all_tools@[w] == all_tools@[all_tools@.len() - 1]);
                                    assert((agga + pert.subrange(0, k as int))[w]
                                        == pert.subrange(0, k as int)[k - 1]);
                                    assert(pert.subrange(0, k as int)[k - 1] == pert[k - 1]);
                                }
                            }
                        }
                    }
                    proof {
                        assert(per_proxy_entries(o.proxy_name@, ts).subrange(
                            0,
                            ts.len() as int,
                        ) =~= per_proxy_entries(o.proxy_name@, ts));
                        assert(per_proxy_tools(o.proxy_name@, ts).subrange(0, ts.len() as int)
                            =~= per_proxy_tools(o.proxy_name@, ts));
                        assert(outcome_entries(outcomes@[i as int]) == per_proxy_entries(
                            o.proxy_name@,
                            ts,
                        ));
                        assert(outcome_tools(outcomes@[i as int]) == per_proxy_tools(
                            o.proxy_name@,
                            ts,
                        ));
                    }
                },
                None => {
                    proof {
                        assert(outcome_entries(outcomes@[i as int]) =~= Seq::<
                            (Seq<char>, Seq<char>, Seq<char>),
                        >::empty());
                        assert(outcome_tools(outcomes@[i as int]) =~= Seq::<McpToolV>::empty());
                    }
                },
            }
            i = i + 1;
            proof {
                let pre1 = outcomes@.subrange(0, i as int);
                lemma_agg_split(pre1, i - 1);
                assert(pre1.subrange(0, i - 1) =~= pre);
                let single = seq![outcomes@[i - 1]];
                assert(pre1.subrange(i - 1, pre1.len() as int) =~= single);
                assert(single.drop_first() =~= Seq::<ListingOutcome>::empty());
                assert(agg_entries(Seq::<ListingOutcome>::empty()) =~= Seq::<
                    (Seq<char>, Seq<char>, Seq<char>),
                >::empty());
                assert(agg_tools(Seq::<ListingOutcome>::empty()) =~= Seq::<McpToolV>::empty());
                assert(single[0] == outcomes@[i - 1]);
                assert(agg_entries(single) =~= outcome_entries(outcomes@[i - 1]));
                assert(agg_tools(single) =~= outcome_tools(outcomes@[i - 1]));
                assert(entry_views(entries@) =~= agg_entries(pre1));
                assert(mcp_tool_views(all_tools@) =~= agg_tools(pre1));
            }
        }
        proof {
            assert(outcomes@.subrange(0, outcomes@.len() as int) =~= outcomes@);
        }
        self.tool_map = entries;
        let result = ListToolsResult { tools: all_tools };
        let j = result.to_json();
        Response::success(id, j)
    }

    /// Looks a prefixed name up in the namespace, taking the latest
    /// entry, as a fresh listing would have overwritten older ones.
    pub fn resolve_tool(&self, name: &str) -> (r: Option<(String, String)>)
        ensures
            match r {
                Some(pt) => lookup_last(self.tool_map_view(), name@) == Some((pt.0@, pt.1@)),
                None => lookup_last(self.tool_map_view(), name@) is None,
            },
    {
        proof {
            assert(self.tool_map_view().subrange(0, self.tool_map_view().len() as int)
                =~= self.tool_map_view());
        }
        let mut i: usize = self.tool_map.len();
        while i > 0
            invariant
                0 <= i <= self.tool_map@.len(),
                entry_views(self.tool_map@).len() == self.tool_map@.len(),
                lookup_last(entry_views(self.tool_map@), name@) == lookup_last(
                    entry_views(self.tool_map@).subrange(0, i as int),
                    name@,
                ),
            decreases i,
        {
            let e = &self.tool_map[i - 1];
            proof {
                let evs = entry_views(self.tool_map@);
                let sub = evs.subrange(0, i as int);
                assert(sub.last() == evs[i - 1]);
                assert(evs[i - 1] == entry_view(self.tool_map@[i - 1]));
                assert(sub.drop_last() =~= evs.subrange(0, i - 1));
            }
            if str_eq(e.prefixed.as_str(), name) {
                return Some((e.proxy_name.clone(), e.tool_name.clone()));
            }
            i = i - 1;
        }
        proof {
            assert(entry_views(self.tool_map@).subrange(0, 0) =~= Seq::<
                (Seq<char>, Seq<char>, Seq<char>),
            >::empty());
        }
        None
    }

    /// Decides what one upstream request means, without contacting any
    /// child: the handshake and the two tool methods are recognized;
    /// anything else is answered with a protocol error on the spot.
    pub fn route_request(&self, req: &Request) -> (r: RequestAction)
        ensures
            req.method@ == "initialize"@ ==> r is Init,
            req.method@ == "tools/list"@ ==> r is ListTools,
            req.method@ == "tools/call"@ ==> match r {
                RequestAction::CallTool(p) => req.params matches Some(pj)
                    && crate::mcp::call_tool_params_of_json(json_view(pj)) == Some(
                    (p.name@, json_view(p.arguments)),
                ),
                RequestAction::Respond(resp) => resp@.id == req.id@ && resp.jsonrpc@ == "2.0"@
                    && resp.result is None && (resp.error matches Some(e) && e.code == -32602) && (
                req.params is None ==> (resp.error matches Some(e) && e.message@
                    == "Missing params"@)) && (req.params matches Some(pj)
                    ==> crate::mcp::call_tool_params_of_json(json_view(pj)) is None),
                _ => false,
            },
            req.method@ != "initialize"@ && req.method@ != "tools/list"@ && req.method@
                != "tools/call"@ ==> (r matches RequestAction::Respond(resp) && resp@.id == req.id@
                && resp.jsonrpc@ == "2.0"@ && resp.result is None && (resp.error matches Some(e)
                && e.code == -32601 && e.message@ == "Unknown method: "@ + req.method@)),
    {
        proof {
            reveal_strlit("initialize");
            reveal_strlit("tools/list");
            reveal_strlit("tools/call");
            assert("initialize"@[0] == 'i' && "tools/list"@[0] == 't' && "tools/call"@[0] == 't');
            assert("tools/list"@[6] == 'l' && "tools/call"@[6] == 'c');
        }
        if str_eq(req.method.as_str(), "initialize") {
            return RequestAction::Init;
        }
        if str_eq(req.method.as_str(), "tools/list") {
            return RequestAction::ListTools;
        }
        if str_eq(req.method.as_str(), "tools/call") {
            match &req.params {
                None => {
                    return RequestAction::Respond(
                        Response::error(id_dup(&req.id), -32602, "Missing params"),
                    );
                },
                Some(pj) => {
                    match CallToolParams::from_json(pj) {
                        Some(p) => {
                            return RequestAction::CallTool(p);
                        },
                        None => {
                            return RequestAction::Respond(
                                Response::error(
                                    id_dup(&req.id),
                                    -32602,
                                    "Invalid params: malformed tools/call parameters",
                                ),
                            );
                        },
                    }
                },
            }
        }
        let mut msg = String::from_str("Unknown method: ");
        msg.append(req.method.as_str());
        RequestAction::Respond(Response::error(id_dup(&req.id), -32601, msg.as_str()))
    }

    /// Decides what one upstream notification means; none changes any
    /// state.
    pub fn route_notification(&self, n: &Notification) -> (r: NotificationAction)
        ensures
            n.method@ == "notifications/initialized"@ ==> r is ClientInitialized,
            n.method@ == "notifications/cancelled"@ ==> r is Cancelled,
            n.method@ != "notifications/initialized"@ && n.method@ != "notifications/cancelled"@
                ==> r is Unknown,
    {
        proof {
            reveal_strlit("notifications/initialized");
            reveal_strlit("notifications/cancelled");
            assert("notifications/initialized"@.len() == 25);
            assert("notifications/cancelled"@.len() == 23);
        }
        if str_eq(n.method.as_str(), "notifications/initialized") {
            return NotificationAction::ClientInitialized;
        }
        if str_eq(n.method.as_str(), "notifications/cancelled") {
            return NotificationAction::Cancelled;
        }
        NotificationAction::Unknown
    }
}

/// The answer when a `tools/call` names no known virtual tool.
pub fn unknown_tool_response(id: RequestId, name: &str) -> (r: Response)
    ensures
        r.jsonrpc@ == "2.0"@,
        r@.id == id@,
        r.result is None,
        r.error matches Some(e) && e.code == -1 && e.message@ == "Unknown tool: "@ + name@,
{
    let mut msg = String::from_str("Unknown tool: ");
    msg.append(name);
    Response::error(id, -1, msg.as_str())
}

/// The answer when a resolved tool points at a proxy that is gone.
pub fn proxy_missing_response(id: RequestId, proxy_name: &str) -> (r: Response)
    ensures
        r.jsonrpc@ == "2.0"@,
        r@.id == id@,
        r.result is None,
        r.error matches Some(e) && e.code == -1 && e.message@ == "Proxy not found: "@
            + proxy_name@,
{
    let mut msg = String::from_str("Proxy not found: ");
    msg.append(proxy_name);
    Response::error(id, -1, msg.as_str())
}

/// Wraps the outcome of a forwarded tool call the way the gateway
/// answers upstream: a child result passes through; a failure becomes a
/// successful response whose payload is an error-flagged tool result
/// with the failure text.
pub fn wrap_tool_outcome(id: RequestId, outcome: Result<CallToolResult, String>) -> (r: Response)
    ensures
        r.jsonrpc@ == "2.0"@,
        r@.id == id@,
        r.error is None,
        outcome matches Ok(res) ==> r.result matches Some(j) && json_view(j)
            == call_tool_result_json(content_views(res.content@), res.is_error),
        outcome matches Err(msg) ==> r.result matches Some(j) && json_view(j)
            == call_tool_result_json(seq![ContentV::Text("Error: "@ + msg@)], true),
{
    match outcome {
        Ok(res) => {
            let j = res.to_json();
            Response::success(id, j)
        },
        Err(msg) => {
            let mut text = String::from_str("Error: ");
            text.append(msg.as_str());
            let mut content: Vec<Content> = Vec::new();
            content.push(Content::Text { text });
            let res = CallToolResult { content, is_error: true };
            let j = res.to_json();
            proof {
                assert(content_views(res.content@) =~= seq![ContentV::Text("Error: "@ + msg@)]);
            }
            Response::success(id, j)
        },
    }
}

} // verus!
