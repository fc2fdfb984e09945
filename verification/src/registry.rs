//! The registry of tool descriptors: an ordered set of named commands,
//! unique by name, with its JSON file shape.  Reading and writing the
//! file itself is left to the surrounding shell; this module owns the
//! data and its rendering.

use vstd::prelude::*;
use crate::json::{Json, JsonField, JsonV, json_view, json_views, field_views, obj_get};
use crate::json::{obj_find, str_eq};
use vstd::string::StringExecFns;

verus! {

/// A registered tool server: the command that starts it and the
/// environment handed to it.
#[derive(Debug)]
pub struct Tool {
    pub name: String,
    pub command: Vec<String>,
    pub env: Vec<(String, String)>,
}

pub struct ToolV {
    pub name: Seq<char>,
    pub command: Seq<Seq<char>>,
    pub env: Seq<(Seq<char>, Seq<char>)>,
}

impl View for Tool {
    type V = ToolV;

    open spec fn view(&self) -> ToolV {
        ToolV { name: self.name@, command: self.command.deep_view(), env: self.env.deep_view() }
    }
}

impl Tool {
    /// A value copy of the descriptor.
    pub fn duplicate(&self) -> (r: Tool)
        ensures
            r@ == self@,
    {
        let mut command: Vec<String> = Vec::new();
        let mut i: usize = 0;
        while i < self.command.len()
            invariant
                0 <= i <= self.command@.len(),
                command@.len() == i,
                forall|k: int| 0 <= k < i ==> (#[trigger] command@[k])@ == self.command@[k]@,
            decreases self.command@.len() - i,
        {
            command.push(self.command[i].clone());
            i = i + 1;
        }
        let mut env: Vec<(String, String)> = Vec::new();
        let mut j: usize = 0;
        while j < self.env.len()
            invariant
                0 <= j <= self.env@.len(),
                env@.len() == j,
                forall|k: int|
                    0 <= k < j ==> (#[trigger] env@[k]).0@ == self.env@[k].0@ && env@[k].1@
                        == self.env@[k].1@,
            decreases self.env@.len() - j,
        {
            env.push((self.env[j].0.clone(), self.env[j].1.clone()));
            j = j + 1;
        }
        let r = Tool { name: self.name.clone(), command, env };
        proof {
            assert forall|k: int| 0 <= k < r.command@.len() implies r.command.deep_view()[k]
                == self.command.deep_view()[k] by {
                assert(r.command.deep_view()[k] == r.command@[k].deep_view());
                assert(self.command.deep_view()[k] == self.command@[k].deep_view());
            }
            assert(r.command.deep_view() =~= self.command.deep_view());
            assert forall|k: int| 0 <= k < r.env@.len() implies r.env.deep_view()[k]
                == self.env.deep_view()[k] by {
                assert(r.env.deep_view()[k] == r.env@[k].deep_view());
                assert(self.env.deep_view()[k] == self.env@[k].deep_view());
                assert(r.env@[k].deep_view() == (r.env@[k].0@, r.env@[k].1@));
                assert(self.env@[k].deep_view() == (self.env@[k].0@, self.env@[k].1@));
            }
            assert(r.env.deep_view() =~= self.env.deep_view());
        }
        r
    }
}

/// A descriptor the proxy can start: at least the executable path.
pub open spec fn wf_tool(t: ToolV) -> bool {
    t.command.len() > 0
}

/// The file's data: the registered tools, in order.
#[derive(Debug)]
pub struct RegistryData {
    pub tools: Vec<Tool>,
}

/// The in-memory registry.  The surrounding shell pairs it with the
/// file path it was read from.
#[derive(Debug)]
pub struct Registry {
    pub data: RegistryData,
}

/// Tool names are unique.
pub open spec fn registry_inv(tools: Seq<Tool>) -> bool {
    forall|i: int, j: int|
        0 <= i < j < tools.len() ==> (#[trigger] tools[i])@.name != (#[trigger] tools[j])@.name
}

impl Registry {
    pub open spec fn inv(&self) -> bool {
        registry_inv(self.data.tools@)
    }

    /// An empty registry.
    pub fn new() -> (r: Registry)
        ensures
            r.inv(),
            r.data.tools@.len() == 0,
    {
        Registry { data: RegistryData { tools: Vec::new() } }
    }

    /// The position of the tool named `name`, if any.
    fn find(&self, name: &str) -> (r: Option<usize>)
        ensures
            match r {
                Some(k) => k < self.data.tools@.len() && self.data.tools@[k as int]@.name == name@,
                None => forall|i: int|
                    0 <= i < self.data.tools@.len() ==> (#[trigger] self.data.tools@[i])@.name
                        != name@,
            },
    {
        let mut i: usize = 0;
        while i < self.data.tools.len()
            invariant
                0 <= i <= self.data.tools@.len(),
                forall|k: int|
                    0 <= k < i ==> (#[trigger] self.data.tools@[k])@.name != name@,
            decreases self.data.tools@.len() - i,
        {
            if str_eq(self.data.tools[i].name.as_str(), name) {
                return Some(i);
            }
            i = i + 1;
        }
        None
    }

    /// Adds `tool`, replacing any tool of the same name in place.
    pub fn register(&mut self, tool: Tool)
        requires
            old(self).inv(),
        ensures
            final(self).inv(),
            (exists|k: int|
                0 <= k < old(self).data.tools@.len() && (#[trigger] old(
                    self,
                ).data.tools@[k])@.name == tool@.name) ==> {
                &&& final(self).data.tools@.len() == old(self).data.tools@.len()
                &&& forall|i: int|
                    0 <= i < old(self).data.tools@.len() ==> if (#[trigger] old(
                        self,
                    ).data.tools@[i])@.name == tool@.name {
                        final(self).data.tools@[i]@ == tool@
                    } else {
                        final(self).data.tools@[i] == old(self).data.tools@[i]
                    }
            },
            (forall|k: int|
                0 <= k < old(self).data.tools@.len() ==> (#[trigger] old(
                    self,
                ).data.tools@[k])@.name != tool@.name) ==> final(self).data.tools@ == old(
                self,
            ).data.tools@.push(tool),
    {
        let found = self.find(tool.name.as_str());
        match found {
            Some(k) => {
                self.data.tools.set(k, tool);
                proof {
                    assert forall|i: int, j: int|
                        0 <= i < j < self.data.tools@.len() implies (
                    #[trigger] self.data.tools@[i])@.name != (
                    #[trigger] self.data.tools@[j])@.name by {
                        assert(old(self).data.tools@[i]@.name != old(self).data.tools@[j]@.name);
                    }
                }
            },
            None => {
                self.data.tools.push(tool);
                proof {
                    assert forall|i: int, j: int|
                        0 <= i < j < self.data.tools@.len() implies (
                    #[trigger] self.data.tools@[i])@.name != (
                    #[trigger] self.data.tools@[j])@.name by {
                        if j < old(self).data.tools@.len() {
                            assert(old(self).data.tools@[i]@.name != old(
                                self,
                            ).data.tools@[j]@.name);
                        } else {
                            assert(self.data.tools@[j] == self.data.tools@[self.data.tools@.len()
                                - 1]);
                        }
                    }
                }
            },
        }
    }

    /// Removes the tool named `name`.  Returns whether one was there.
    pub fn unregister(&mut self, name: &str) -> (r: bool)
        requires
            old(self).inv(),
        ensures
            final(self).inv(),
            r == exists|k: int|
                0 <= k < old(self).data.tools@.len() && (#[trigger] old(
                    self,
                ).data.tools@[k])@.name == name@,
            r ==> exists|k: int|
                0 <= k < old(self).data.tools@.len() && (#[trigger] old(
                    self,
                ).data.tools@[k])@.name == name@ && final(self).data.tools@ == old(
                    self,
                ).data.tools@.remove(k),
            !r ==> *final(self) == *old(self),
    {
        let found = self.find(name);
        match found {
            Some(k) => {
                self.data.tools.remove(k);
                proof {
                    assert forall|i: int, j: int|
                        0 <= i < j < self.data.tools@.len() implies (
                    #[trigger] self.data.tools@[i])@.name != (
                    #[trigger] self.data.tools@[j])@.name by {
                        let oi: int = if i < k { i } else { i + 1 };
                        let oj: int = if j < k { j } else { j + 1 };
                        assert(self.data.tools@[i] == old(self).data.tools@[oi]);
                        assert(self.data.tools@[j] == old(self).data.tools@[oj]);
                        assert(old(self).data.tools@[oi]@.name != old(self).data.tools@[oj]@.name);
                    }
                }
                true
            },
            None => false,
        }
    }

    /// The registered tools, in order.
    pub fn list(&self) -> (r: &Vec<Tool>)
        ensures
            r@ == self.data.tools@,
    {
        &self.data.tools
    }

    /// How many tools are registered.
    pub fn len(&self) -> (r: usize)
        ensures
            r == self.data.tools@.len(),
    {
        self.data.tools.len()
    }

    /// Whether no tool is registered.
    pub fn is_empty(&self) -> (r: bool)
        ensures
            r == (self.data.tools@.len() == 0),
    {
        self.data.tools.len() == 0
    }

    /// The registered names, in registration order.
    pub fn names(&self) -> (r: Vec<String>)
        ensures
            r@.len() == self.data.tools@.len(),
            forall|i: int|
                0 <= i < r@.len() ==> (#[trigger] r@[i])@ == self.data.tools@[i]@.name,
    {
        let mut out: Vec<String> = Vec::new();
        let mut i: usize = 0;
        while i < self.data.tools.len()
            invariant
                0 <= i <= self.data.tools@.len(),
                out@.len() == i,
                forall|k: int|
                    0 <= k < i ==> (#[trigger] out@[k])@ == self.data.tools@[k]@.name,
            decreases self.data.tools@.len() - i,
        {
            out.push(self.data.tools[i].name.clone());
            i = i + 1;
        }
        out
    }
}

// ---------------------------------------------------------------------
// The file's JSON shape
// ---------------------------------------------------------------------

pub open spec fn str_jsons(cs: Seq<Seq<char>>) -> Seq<JsonV> {
    cs.map_values(|c: Seq<char>| JsonV::Str(c))
}

pub open spec fn env_fields(es: Seq<(Seq<char>, Seq<char>)>) -> Seq<(Seq<char>, JsonV)> {
    es.map_values(|e: (Seq<char>, Seq<char>)| (e.0, JsonV::Str(e.1)))
}

/// One descriptor as it stands in the file.
pub open spec fn tool_json(t: ToolV) -> JsonV {
    JsonV::Obj(
        seq![
            ("name"@, JsonV::Str(t.name)),
            ("command"@, JsonV::Arr(str_jsons(t.command))),
            ("env"@, JsonV::Obj(env_fields(t.env))),
        ],
    )
}

/// The whole file: `{"tools": {name: descriptor, ...}}`.
pub open spec fn registry_json(ts: Seq<ToolV>) -> JsonV {
    JsonV::Obj(seq![("tools"@, JsonV::Obj(ts.map_values(|t: ToolV| (t.name, tool_json(t)))))])
}

pub open spec fn tool_views(ts: Seq<Tool>) -> Seq<ToolV> {
    ts.map_values(|t: Tool| t@)
}

fn strings_to_json(v: &Vec<String>) -> (r: Json)
    ensures
        r@ == JsonV::Arr(str_jsons(v.deep_view())),
{
    let mut items: Vec<Json> = Vec::new();
    let mut i: usize = 0;
    while i < v.len()
        invariant
            0 <= i <= v@.len(),
            items@.len() == i,
            forall|k: int| 0 <= k < i ==> json_view(#[trigger] items@[k]) == JsonV::Str(v@[k]@),
        decreases v@.len() - i,
    {
        items.push(Json::Str(v[i].clone()));
        i = i + 1;
    }
    let ghost is = items@;
    let r = Json::Arr(items);
    proof {
        crate::json::lemma_json_views(is);
        assert(v.deep_view().len() == v@.len());
        assert forall|k: int| 0 <= k < v@.len() implies json_views(is)[k] == str_jsons(
            v.deep_view(),
        )[k] by {
            assert(json_views(is)[k] == json_view(is[k]));
            assert(json_view(is[k]) == JsonV::Str(v@[k]@));
            assert(str_jsons(v.deep_view())[k] == JsonV::Str(v.deep_view()[k]));
            assert(v.deep_view()[k] == v@[k].deep_view());
        }
        assert(json_views(is) =~= str_jsons(v.deep_view()));
    }
    r
}

fn env_to_json(v: &Vec<(String, String)>) -> (r: Json)
    ensures
        r@ == JsonV::Obj(env_fields(v.deep_view())),
{
    let mut fields: Vec<JsonField> = Vec::new();
    let mut i: usize = 0;
    while i < v.len()
        invariant
            0 <= i <= v@.len(),
            fields@.len() == i,
            forall|k: int| 0 <= k < i ==> (#[trigger] fields@[k])@ == (v@[k].0@, JsonV::Str(
                v@[k].1@,
            )),
        decreases v@.len() - i,
    {
        fields.push(JsonField { key: v[i].0.clone(), value: Json::Str(v[i].1.clone()) });
        i = i + 1;
    }
    let ghost fs = fields@;
    let r = Json::Obj(fields);
    proof {
        crate::json::lemma_field_views(fs);
        assert(v.deep_view().len() == v@.len());
        assert forall|k: int| 0 <= k < v@.len() implies field_views(fs)[k] == env_fields(
            v.deep_view(),
        )[k] by {
            assert(field_views(fs)[k] == (fs[k].key@, json_view(fs[k].value)));
            assert(fs[k]@ == (v@[k].0@, JsonV::Str(v@[k].1@)));
            assert(env_fields(v.deep_view())[k] == (v.deep_view()[k].0, JsonV::Str(
                v.deep_view()[k].1,
            )));
            assert(v.deep_view()[k] == v@[k].deep_view());
            assert(v@[k].deep_view() == (v@[k].0@, v@[k].1@));
        }
        assert(field_views(fs) =~= env_fields(v.deep_view()));
    }
    r
}

/// Renders one descriptor.
pub fn tool_to_json(t: &Tool) -> (r: Json)
    ensures
        r@ == tool_json(t@),
{
    let mut fields: Vec<JsonField> = Vec::new();
    fields.push(JsonField { key: String::from_str("name"), value: Json::Str(t.name.clone()) });
    fields.push(JsonField { key: String::from_str("command"), value: strings_to_json(&t.command) });
    fields.push(JsonField { key: String::from_str("env"), value: env_to_json(&t.env) });
    let ghost fs = fields@;
    let r = Json::Obj(fields);
    proof {
        crate::json::lemma_field_views(fs);
        let target = tool_json(t@)->Obj_0;
        assert forall|k: int| 0 <= k < fs.len() implies field_views(fs)[k] == target[k] by {
            assert(field_views(fs)[k] == (fs[k].key@, json_view(fs[k].value)));
        }
        assert(field_views(fs) =~= target);
    }
    r
}

/// Renders the whole registry in file shape.
pub fn registry_to_json(r: &Registry) -> (out: Json)
    ensures
        out@ == registry_json(tool_views(r.data.tools@)),
{
    let mut entries: Vec<JsonField> = Vec::new();
    let mut i: usize = 0;
    while i < r.data.tools.len()
        invariant
            0 <= i <= r.data.tools@.len(),
            entries@.len() == i,
            forall|k: int| 0 <= k < i ==> (#[trigger] entries@[k])@ == (
                r.data.tools@[k]@.name,
                tool_json(r.data.tools@[k]@),
            ),
        decreases r.data.tools@.len() - i,
    {
        let t = &r.data.tools[i];
        entries.push(JsonField { key: t.name.clone(), value: tool_to_json(t) });
        i = i + 1;
    }
    let ghost es = entries@;
    let inner = Json::Obj(entries);
    proof {
        crate::json::lemma_field_views(es);
        let target = tool_views(r.data.tools@).map_values(|t: ToolV| (t.name, tool_json(t)));
        assert forall|k: int| 0 <= k < es.len() implies field_views(es)[k] == target[k] by {
            assert(field_views(es)[k] == (es[k].key@, json_view(es[k].value)));
            assert(es[k]@ == (r.data.tools@[k]@.name, tool_json(r.data.tools@[k]@)));
            assert(tool_views(r.data.tools@)[k] == r.data.tools@[k]@);
            assert(target[k] == (
                tool_views(r.data.tools@)[k].name,
                tool_json(tool_views(r.data.tools@)[k]),
            ));
        }
        assert(field_views(es) =~= target);
    }
    let mut fields: Vec<JsonField> = Vec::new();
    fields.push(JsonField { key: String::from_str("tools"), value: inner });
    let ghost fs = fields@;
    let out = Json::Obj(fields);
    proof {
        crate::json::lemma_field_views(fs);
        let target = registry_json(tool_views(r.data.tools@))->Obj_0;
        assert forall|k: int| 0 <= k < fs.len() implies field_views(fs)[k] == target[k] by {
            assert(field_views(fs)[k] == (fs[k].key@, json_view(fs[k].value)));
        }
        assert(field_views(fs) =~= target);
    }
    out
}

// ---------------------------------------------------------------------
// Reading the file's JSON shape
// ---------------------------------------------------------------------

pub open spec fn strs_of_json(items: Seq<JsonV>) -> Option<Seq<Seq<char>>>
    decreases items.len(),
{
    if items.len() == 0 {
        Some(Seq::empty())
    } else {
        match items[0] {
            JsonV::Str(s) => match strs_of_json(items.drop_first()) {
                Some(r) => Some(seq![s] + r),
                None => None,
            },
            _ => None,
        }
    }
}

pub open spec fn env_of_json(fs: Seq<(Seq<char>, JsonV)>) -> Option<Seq<(Seq<char>, Seq<char>)>>
    decreases fs.len(),
{
    if fs.len() == 0 {
        Some(Seq::empty())
    } else {
        match fs[0].1 {
            JsonV::Str(v) => match env_of_json(fs.drop_first()) {
                Some(r) => Some(seq![(fs[0].0, v)] + r),
                None => None,
            },
            _ => None,
        }
    }
}

/// Reads one descriptor: `name` and `command` required, `env` optional.
pub open spec fn tool_of_json(j: JsonV) -> Option<ToolV> {
    match j {
        JsonV::Obj(fs) => match (obj_get(fs, "name"@), obj_get(fs, "command"@)) {
            (Some(JsonV::Str(n)), Some(JsonV::Arr(items))) => match strs_of_json(items) {
                Some(cmd) => {
                    let envr = match obj_get(fs, "env"@) {
                        Some(ej) => match ej {
                            JsonV::Obj(efs) => env_of_json(efs),
                            _ => None,
                        },
                        None => Some(Seq::empty()),
                    };
                    match envr {
                        Some(es) => Some(ToolV { name: n, command: cmd, env: es }),
                        None => None,
                    }
                },
                None => None,
            },
            _ => None,
        },
        _ => None,
    }
}

pub open spec fn tools_of_json(fs: Seq<(Seq<char>, JsonV)>) -> Option<Seq<ToolV>>
    decreases fs.len(),
{
    if fs.len() == 0 {
        Some(Seq::empty())
    } else {
        match tool_of_json(fs[0].1) {
            Some(t) => match tools_of_json(fs.drop_first()) {
                Some(r) => Some(seq![t] + r),
                None => None,
            },
            None => None,
        }
    }
}

/// Reads the whole file: a missing `tools` member means no tools.
pub open spec fn registry_of_json(j: JsonV) -> Option<Seq<ToolV>> {
    match j {
        JsonV::Obj(fs) => match obj_get(fs, "tools"@) {
            Some(tj) => match tj {
                JsonV::Obj(tfs) => tools_of_json(tfs),
                _ => None,
            },
            None => Some(Seq::empty()),
        },
        _ => None,
    }
}

pub open spec fn unique_names(ts: Seq<ToolV>) -> bool {
    forall|i: int, j: int| 0 <= i < j < ts.len() ==> (#[trigger] ts[i]).name != (#[trigger] ts[j]).name
}

proof fn lemma_strs_of_json(items: Seq<JsonV>)
    ensures
        (strs_of_json(items) is Some) == (forall|k: int|
            0 <= k < items.len() ==> (#[trigger] items[k]) is Str),
        strs_of_json(items) matches Some(r) ==> r.len() == items.len() && (forall|k: int|
            0 <= k < items.len() ==> #[trigger] r[k] == items[k]->Str_0),
    decreases items.len(),
{
    if items.len() > 0 {
        let rest = items.drop_first();
        lemma_strs_of_json(rest);
        assert(forall|k: int| 0 <= k < rest.len() ==> #[trigger] rest[k] == items[k + 1]);
        if items[0] is Str && strs_of_json(rest) is Some {
            assert forall|k: int| 0 <= k < items.len() implies (#[trigger] items[k]) is Str by {
                if k > 0 {
                    assert(rest[k - 1] is Str);
                }
            }
            let r = strs_of_json(items)->0;
            let rr = strs_of_json(rest)->0;
            assert forall|k: int| 0 <= k < items.len() implies #[trigger] r[k] == items[k]->Str_0 by {
                if k > 0 {
                    assert(r[k] == rr[k - 1]);
                }
            }
        }
        if strs_of_json(items) is Some {
            assert(items[0] is Str && strs_of_json(rest) is Some);
        }
        if forall|k: int| 0 <= k < items.len() ==> (#[trigger] items[k]) is Str {
            assert(items[0] is Str);
            assert forall|k: int| 0 <= k < rest.len() implies (#[trigger] rest[k]) is Str by {
                assert(rest[k] == items[k + 1]);
            }
        }
    }
}

proof fn lemma_env_of_json(fs: Seq<(Seq<char>, JsonV)>)
    ensures
        (env_of_json(fs) is Some) == (forall|k: int|
            0 <= k < fs.len() ==> (#[trigger] fs[k]).1 is Str),
        env_of_json(fs) matches Some(r) ==> r.len() == fs.len() && (forall|k: int|
            0 <= k < fs.len() ==> #[trigger] r[k] == (fs[k].0, fs[k].1->Str_0)),
    decreases fs.len(),
{
    if fs.len() > 0 {
        let rest = fs.drop_first();
        lemma_env_of_json(rest);
        assert(forall|k: int| 0 <= k < rest.len() ==> #[trigger] rest[k] == fs[k + 1]);
        if fs[0].1 is Str && env_of_json(rest) is Some {
            assert forall|k: int| 0 <= k < fs.len() implies (#[trigger] fs[k]).1 is Str by {
                if k > 0 {
                    assert(rest[k - 1].1 is Str);
                }
            }
            let r = env_of_json(fs)->0;
            let rr = env_of_json(rest)->0;
            assert forall|k: int| 0 <= k < fs.len() implies #[trigger] r[k] == (
                fs[k].0,
                fs[k].1->Str_0,
            ) by {
                if k > 0 {
                    assert(r[k] == rr[k - 1]);
                }
            }
        }
        if env_of_json(fs) is Some {
            assert(fs[0].1 is Str && env_of_json(rest) is Some);
        }
        if forall|k: int| 0 <= k < fs.len() ==> (#[trigger] fs[k]).1 is Str {
            assert(fs[0].1 is Str);
            assert forall|k: int| 0 <= k < rest.len() implies (#[trigger] rest[k]).1 is Str by {
                assert(rest[k] == fs[k + 1]);
            }
        }
    }
}

proof fn lemma_tools_of_json(fs: Seq<(Seq<char>, JsonV)>)
    ensures
        (tools_of_json(fs) is Some) == (forall|k: int|
            0 <= k < fs.len() ==> tool_of_json((#[trigger] fs[k]).1) is Some),
        tools_of_json(fs) matches Some(r) ==> r.len() == fs.len() && (forall|k: int|
            0 <= k < fs.len() ==> #[trigger] r[k] == tool_of_json(fs[k].1)->0),
    decreases fs.len(),
{
    if fs.len() > 0 {
        let rest = fs.drop_first();
        lemma_tools_of_json(rest);
        assert(forall|k: int| 0 <= k < rest.len() ==> #[trigger] rest[k] == fs[k + 1]);
        if tool_of_json(fs[0].1) is Some && tools_of_json(rest) is Some {
            assert forall|k: int| 0 <= k < fs.len() implies tool_of_json(
                (#[trigger] fs[k]).1,
            ) is Some by {
                if k > 0 {
                    assert(tool_of_json(rest[k - 1].1) is Some);
                }
            }
            let r = tools_of_json(fs)->0;
            let rr = tools_of_json(rest)->0;
            assert forall|k: int| 0 <= k < fs.len() implies #[trigger] r[k] == tool_of_json(
                fs[k].1,
            )->0 by {
                if k > 0 {
                    assert(r[k] == rr[k - 1]);
                }
            }
        }
        if tools_of_json(fs) is Some {
            assert(tool_of_json(fs[0].1) is Some && tools_of_json(rest) is Some);
        }
        if forall|k: int| 0 <= k < fs.len() ==> tool_of_json((#[trigger] fs[k]).1) is Some {
            assert(tool_of_json(fs[0].1) is Some);
            assert forall|k: int| 0 <= k < rest.len() implies tool_of_json(
                (#[trigger] rest[k]).1,
            ) is Some by {
                assert(rest[k] == fs[k + 1]);
            }
        }
    }
}

fn strings_from(items: &Vec<Json>) -> (r: Option<Vec<String>>)
    ensures
        match r {
            Some(v) => strs_of_json(json_views(items@)) == Some(v.deep_view()),
            None => strs_of_json(json_views(items@)) is None,
        },
{
    proof {
        crate::json::lemma_json_views(items@);
        lemma_strs_of_json(json_views(items@));
    }
    let mut out: Vec<String> = Vec::new();
    let mut i: usize = 0;
    while i < items.len()
        invariant
            0 <= i <= items@.len(),
            out@.len() == i,
            json_views(items@).len() == items@.len(),
            forall|k: int| 0 <= k < items@.len() ==> json_views(items@)[k] == json_view(
                #[trigger] items@[k],
            ),
            forall|k: int|
                0 <= k < i ==> (#[trigger] json_views(items@)[k]) is Str && out@[k]@ == json_views(
                    items@,
                )[k]->Str_0,
        decreases items@.len() - i,
    {
        match &items[i] {
            Json::Str(s) => {
                out.push(s.clone());
            },
            _ => {
                proof {
                    lemma_strs_of_json(json_views(items@));
                }
                return None;
            },
        }
        i = i + 1;
    }
    proof {
        lemma_strs_of_json(json_views(items@));
        let r = strs_of_json(json_views(items@))->0;
        assert forall|k: int| 0 <= k < items@.len() implies r[k] == out.deep_view()[k] by {
            assert(out.deep_view()[k] == out@[k]@);
        }
        assert(r =~= out.deep_view());
    }
    Some(out)
}

fn env_from(fields: &Vec<JsonField>) -> (r: Option<Vec<(String, String)>>)
    ensures
        match r {
            Some(v) => env_of_json(field_views(fields@)) == Some(v.deep_view()),
            None => env_of_json(field_views(fields@)) is None,
        },
{
    proof {
        crate::json::lemma_field_views(fields@);
        lemma_env_of_json(field_views(fields@));
    }
    let mut out: Vec<(String, String)> = Vec::new();
    let mut i: usize = 0;
    while i < fields.len()
        invariant
            0 <= i <= fields@.len(),
            out@.len() == i,
            field_views(fields@).len() == fields@.len(),
            forall|k: int| 0 <= k < fields@.len() ==> field_views(fields@)[k] == (
            #[trigger] fields@[k])@,
            forall|k: int|
                0 <= k < i ==> (#[trigger] field_views(fields@)[k]).1 is Str && out@[k].0@
                    == field_views(fields@)[k].0 && out@[k].1@ == field_views(fields@)[k].1->Str_0,
        decreases fields@.len() - i,
    {
        let f = &fields[i];
        match &f.value {
            Json::Str(s) => {
                out.push((f.key.clone(), s.clone()));
            },
            _ => {
                proof {
                    lemma_env_of_json(field_views(fields@));
                }
                return None;
            },
        }
        i = i + 1;
    }
    proof {
        lemma_env_of_json(field_views(fields@));
        let r = env_of_json(field_views(fields@))->0;
        assert forall|k: int| 0 <= k < fields@.len() implies r[k] == out.deep_view()[k] by {
            assert(out.deep_view()[k] == (out@[k].0@, out@[k].1@));
        }
        assert(r =~= out.deep_view());
    }
    Some(out)
}

/// Reads one descriptor out of a decoded value.
pub fn tool_from(j: &Json) -> (r: Option<Tool>)
    ensures
        match r {
            Some(t) => tool_of_json(json_view(*j)) == Some(t@),
            None => tool_of_json(json_view(*j)) is None,
        },
{
    let fields = match j {
        Json::Obj(fs) => fs,
        _ => {
            return None;
        },
    };
    let name = match obj_find(fields, "name") {
        Some(v) => match v {
            Json::Str(s) => s.clone(),
            _ => {
                return None;
            },
        },
        None => {
            return None;
        },
    };
    let command = match obj_find(fields, "command") {
        Some(v) => match v {
            Json::Arr(items) => match strings_from(items) {
                Some(c) => c,
                None => {
                    return None;
                },
            },
            _ => {
                return None;
            },
        },
        None => {
            return None;
        },
    };
    let env = match obj_find(fields, "env") {
        Some(v) => match v {
            Json::Obj(efs) => match env_from(efs) {
                Some(e) => e,
                None => {
                    return None;
                },
            },
            _ => {
                return None;
            },
        },
        None => {
            let empty_env: Vec<(String, String)> = Vec::new();
            proof {
                assert(empty_env.deep_view() =~= Seq::<(Seq<char>, Seq<char>)>::empty());
            }
            empty_env
        },
    };
    Some(Tool { name, command, env })
}

/// Reads the whole registry out of a decoded file, refusing duplicate
/// names.
pub fn registry_from_json(j: &Json) -> (r: Option<Registry>)
    ensures
        match r {
            Some(reg) => registry_of_json(json_view(*j)) == Some(tool_views(reg.data.tools@))
                && reg.inv(),
            None => registry_of_json(json_view(*j)) is None || (registry_of_json(json_view(*j))
                matches Some(ts) && !unique_names(ts)),
        },
{
    let fields = match j {
        Json::Obj(fs) => fs,
        _ => {
            return None;
        },
    };
    let entries = match obj_find(fields, "tools") {
        Some(v) => match v {
            Json::Obj(tfs) => tfs,
            _ => {
                return None;
            },
        },
        None => {
            let reg = Registry { data: RegistryData { tools: Vec::new() } };
            proof {
                assert(tool_views(reg.data.tools@) =~= Seq::<ToolV>::empty());
            }
            return Some(reg);
        },
    };
    proof {
        crate::json::lemma_field_views(entries@);
        lemma_tools_of_json(field_views(entries@));
    }
    let mut out: Vec<Tool> = Vec::new();
    let mut i: usize = 0;
    while i < entries.len()
        invariant
            0 <= i <= entries@.len(),
            out@.len() == i,
            field_views(entries@).len() == entries@.len(),
            forall|k: int| 0 <= k < entries@.len() ==> field_views(entries@)[k] == (
            #[trigger] entries@[k])@,
            forall|k: int|
                0 <= k < i ==> tool_of_json((#[trigger] field_views(entries@)[k]).1) == Some(
                    out@[k]@,
                ),
            registry_of_json(json_view(*j)) == tools_of_json(field_views(entries@)),
        decreases entries@.len() - i,
    {
        match tool_from(&entries[i].value) {
            Some(t) => {
                out.push(t);
            },
            None => {
                proof {
                    lemma_tools_of_json(field_views(entries@));
                }
                return None;
            },
        }
        i = i + 1;
    }
    proof {
        lemma_tools_of_json(field_views(entries@));
        let ts = tools_of_json(field_views(entries@))->0;
        assert forall|k: int| 0 <= k < entries@.len() implies ts[k] == tool_views(out@)[k] by {
            assert(tool_views(out@)[k] == out@[k]@);
        }
        assert(ts =~= tool_views(out@));
        assert(registry_of_json(json_view(*j)) == Some(tool_views(out@)));
    }
    // refuse duplicate names, so the registry invariant holds
    let mut a: usize = 0;
    while a < out.len()
        invariant
            0 <= a <= out@.len(),
            registry_of_json(json_view(*j)) == Some(tool_views(out@)),
            forall|i2: int, j2: int|
                0 <= i2 < j2 < out@.len() && i2 < a ==> (#[trigger] out@[i2])@.name != (
                #[trigger] out@[j2])@.name,
        decreases out@.len() - a,
    {
        let mut b: usize = a + 1;
        while b < out.len()
            invariant
                0 <= a < b <= out@.len() || (a >= out@.len() && b >= out@.len()),
                a < out@.len() ==> a + 1 <= b,
                registry_of_json(json_view(*j)) == Some(tool_views(out@)),
                forall|i2: int, j2: int|
                    0 <= i2 < j2 < out@.len() && i2 < a ==> (#[trigger] out@[i2])@.name != (
                    #[trigger] out@[j2])@.name,
                forall|j2: int|
                    (a as int) < j2 < b ==> out@[a as int]@.name != (#[trigger] out@[j2])@.name,
            decreases out@.len() - b,
        {
            if str_eq(out[a].name.as_str(), out[b].name.as_str()) {
                proof {
                    let ts = tool_views(out@);
                    assert(ts[a as int] == out@[a as int]@);
                    assert(ts[b as int] == out@[b as int]@);
                    assert(ts[a as int].name == ts[b as int].name);
                    assert(0 <= a < b < ts.len());
                    assert(!unique_names(ts));
                }
                return None;
            }
            b = b + 1;
        }
        a = a + 1;
    }
    let reg = Registry { data: RegistryData { tools: out } };
    Some(reg)
}

} // verus!
