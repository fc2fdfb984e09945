//! The JSON value model: the tree that frames carry, its mathematical
//! view, and well-formedness.

use vstd::prelude::*;

verus! {

/// A JSON value.  A number that is a 64-bit integer in canonical form
/// is held as one — ids and the values this gateway inspects are such —
/// and any other number (fractions, exponents, integers out of range)
/// is held as its literal text, carried through opaquely and re-emitted
/// exactly as it was read.
#[derive(Debug, PartialEq, Eq)]
pub enum Json {
    Null,
    Bool(bool),
    Int(i64),
    Num(String),
    Str(String),
    Arr(Vec<Json>),
    Obj(Vec<JsonField>),
}

/// One `key: value` member of a JSON object.
#[derive(Debug, PartialEq, Eq)]
pub struct JsonField {
    pub key: String,
    pub value: Json,
}

/// The mathematical shape of a JSON value.
#[verifier::ext_equal]
pub enum JsonV {
    Null,
    Bool(bool),
    Int(int),
    Num(Seq<char>),
    Str(Seq<char>),
    Arr(Seq<JsonV>),
    Obj(Seq<(Seq<char>, JsonV)>),
}

pub open spec fn json_view(j: Json) -> JsonV
    decreases j,
    via json_view_dec
{
    match j {
        Json::Null => JsonV::Null,
        Json::Bool(b) => JsonV::Bool(b),
        Json::Int(n) => JsonV::Int(n as int),
        Json::Num(m) => JsonV::Num(m@),
        Json::Str(s) => JsonV::Str(s@),
        Json::Arr(items) => JsonV::Arr(json_views(items@)),
        Json::Obj(fields) => JsonV::Obj(field_views(fields@)),
    }
}

pub open spec fn json_views(items: Seq<Json>) -> Seq<JsonV>
    decreases items,
{
    if items.len() == 0 {
        Seq::empty()
    } else {
        seq![json_view(items[0])] + json_views(items.subrange(1, items.len() as int))
    }
}

pub open spec fn field_views(fields: Seq<JsonField>) -> Seq<(Seq<char>, JsonV)>
    decreases fields,
{
    if fields.len() == 0 {
        Seq::empty()
    } else {
        seq![(fields[0].key@, json_view(fields[0].value))] + field_views(
            fields.subrange(1, fields.len() as int),
        )
    }
}

#[via_fn]
proof fn json_view_dec(j: Json) {
    match j {
        Json::Arr(items) => {
            assert(decreases_to!(j => items));
            assert(decreases_to!(items => items@));
        },
        Json::Obj(fields) => {
            assert(decreases_to!(j => fields));
            assert(decreases_to!(fields => fields@));
        },
        _ => {},
    }
}

impl View for Json {
    type V = JsonV;

    open spec fn view(&self) -> JsonV {
        json_view(*self)
    }
}

impl View for JsonField {
    type V = (Seq<char>, JsonV);

    open spec fn view(&self) -> (Seq<char>, JsonV) {
        (self.key@, json_view(self.value))
    }
}

/// `json_views` is the element-wise view.
pub proof fn lemma_json_views(items: Seq<Json>)
    ensures
        json_views(items).len() == items.len(),
        forall|i: int| 0 <= i < items.len() ==> json_views(items)[i] == json_view(#[trigger] items[i]),
    decreases items.len(),
{
    if items.len() > 0 {
        let rest = items.subrange(1, items.len() as int);
        lemma_json_views(rest);
        assert forall|i: int| 0 <= i < items.len() implies json_views(items)[i] == json_view(
            #[trigger] items[i],
        ) by {
            if i > 0 {
                assert(rest[i - 1] == items[i]);
            }
        }
    }
}

/// `field_views` is the element-wise view.
pub proof fn lemma_field_views(fields: Seq<JsonField>)
    ensures
        field_views(fields).len() == fields.len(),
        forall|i: int|
            0 <= i < fields.len() ==> field_views(fields)[i] == ((#[trigger] fields[i]).key@,
            json_view(fields[i].value)),
    decreases fields.len(),
{
    if fields.len() > 0 {
        let rest = fields.subrange(1, fields.len() as int);
        lemma_field_views(rest);
        assert forall|i: int| 0 <= i < fields.len() implies field_views(fields)[i] == ((
        #[trigger] fields[i]).key@, json_view(fields[i].value)) by {
            if i > 0 {
                assert(rest[i - 1] == fields[i]);
            }
        }
    }
}

/// A value the codec round-trips: held integers fit in 64 bits, and a
/// number held as text is a number token that is not itself a canonical
/// 64-bit integer (those are held as integers).
pub open spec fn wf_json(v: JsonV) -> bool
    decreases v,
{
    match v {
        JsonV::Null => true,
        JsonV::Bool(_) => true,
        JsonV::Int(n) => i64::MIN <= n <= i64::MAX,
        JsonV::Num(m) => crate::codec::wf_num(m),
        JsonV::Str(_) => true,
        JsonV::Arr(items) => wf_jsons(items),
        JsonV::Obj(fields) => wf_fields(fields),
    }
}

pub open spec fn wf_jsons(items: Seq<JsonV>) -> bool
    decreases items,
{
    items.len() == 0 || (wf_json(items[0]) && wf_jsons(items.subrange(1, items.len() as int)))
}

pub open spec fn wf_fields(fields: Seq<(Seq<char>, JsonV)>) -> bool
    decreases fields,
{
    fields.len() == 0 || (wf_json(fields[0].1) && wf_fields(
        fields.subrange(1, fields.len() as int),
    ))
}

/// Appending an element appends its view.
pub proof fn lemma_json_views_push(s: Seq<Json>, e: Json)
    ensures
        json_views(s.push(e)) == json_views(s).push(json_view(e)),
{
    lemma_json_views(s.push(e));
    lemma_json_views(s);
    assert forall|i: int| 0 <= i < s.len() + 1 implies json_views(s.push(e))[i] == json_views(
        s,
    ).push(json_view(e))[i] by {
        if i < s.len() {
            assert(s.push(e)[i] == s[i]);
        } else {
            assert(s.push(e)[i] == e);
        }
    }
    assert(json_views(s.push(e)) =~= json_views(s).push(json_view(e)));
}

/// Appending a member appends its view.
pub proof fn lemma_field_views_push(s: Seq<JsonField>, f: JsonField)
    ensures
        field_views(s.push(f)) == field_views(s).push(f@),
{
    lemma_field_views(s.push(f));
    lemma_field_views(s);
    assert forall|i: int| 0 <= i < s.len() + 1 implies field_views(s.push(f))[i] == field_views(
        s,
    ).push(f@)[i] by {
        if i < s.len() {
            assert(s.push(f)[i] == s[i]);
        } else {
            assert(s.push(f)[i] == f);
        }
    }
    assert(field_views(s.push(f)) =~= field_views(s).push(f@));
}

/// A sequence of values is well formed exactly when each element is.
pub proof fn lemma_wf_jsons(items: Seq<JsonV>)
    ensures
        wf_jsons(items) == (forall|i: int| 0 <= i < items.len() ==> wf_json(#[trigger] items[i])),
    decreases items.len(),
{
    if items.len() > 0 {
        let rest = items.subrange(1, items.len() as int);
        lemma_wf_jsons(rest);
        assert(forall|i: int| 0 <= i < rest.len() ==> rest[i] == items[i + 1]);
        if wf_jsons(items) {
            assert forall|i: int| 0 <= i < items.len() implies wf_json(#[trigger] items[i]) by {
                if i > 0 {
                    assert(items[i] == rest[i - 1]);
                }
            }
        }
        if forall|i: int| 0 <= i < items.len() ==> wf_json(#[trigger] items[i]) {
            assert(wf_json(items[0]));
            assert(forall|i: int| 0 <= i < rest.len() ==> wf_json(#[trigger] rest[i]));
        }
    }
}

/// A sequence of members is well formed exactly when each member is.
pub proof fn lemma_wf_fields(fields: Seq<(Seq<char>, JsonV)>)
    ensures
        wf_fields(fields) == (forall|i: int|
            0 <= i < fields.len() ==> wf_json((#[trigger] fields[i]).1)),
    decreases fields.len(),
{
    if fields.len() > 0 {
        let rest = fields.subrange(1, fields.len() as int);
        lemma_wf_fields(rest);
        assert(forall|i: int| 0 <= i < rest.len() ==> rest[i] == fields[i + 1]);
        if wf_fields(fields) {
            assert forall|i: int| 0 <= i < fields.len() implies wf_json(
                (#[trigger] fields[i]).1,
            ) by {
                if i > 0 {
                    assert(fields[i] == rest[i - 1]);
                }
            }
        }
        if forall|i: int| 0 <= i < fields.len() ==> wf_json((#[trigger] fields[i]).1) {
            assert(wf_json(fields[0].1));
            assert(forall|i: int| 0 <= i < rest.len() ==> wf_json((#[trigger] rest[i]).1));
        }
    }
}

/// The value of the first field named `k`, if any.
pub open spec fn obj_get(fields: Seq<(Seq<char>, JsonV)>, k: Seq<char>) -> Option<JsonV>
    decreases fields.len(),
{
    if fields.len() == 0 {
        None
    } else if fields[0].0 == k {
        Some(fields[0].1)
    } else {
        obj_get(fields.drop_first(), k)
    }
}

/// Whether the codec round-trips this value.
pub fn json_is_wf(j: &Json) -> (r: bool)
    ensures
        r == wf_json(j@),
    decreases *j, 0int,
{
    match j {
        Json::Null => true,
        Json::Bool(_) => true,
        Json::Int(_) => true,
        Json::Num(m) => crate::codec::num_is_wf(m.as_str()),
        Json::Str(_) => true,
        Json::Arr(items) => {
            proof {
                assert(decreases_to!(*j => *items));
                assert(decreases_to!(*items => items@));
            }
            let r = jsons_are_wf(items);
            proof {
                lemma_json_views(items@);
            }
            r
        },
        Json::Obj(fields) => {
            proof {
                assert(decreases_to!(*j => *fields));
                assert(decreases_to!(*fields => fields@));
            }
            let r = fields_are_wf(fields);
            proof {
                lemma_field_views(fields@);
            }
            r
        },
    }
}

fn jsons_are_wf(items: &Vec<Json>) -> (r: bool)
    ensures
        r == wf_jsons(json_views(items@)),
    decreases *items, 1int,
{
    proof {
        lemma_json_views(items@);
        lemma_wf_jsons(json_views(items@));
    }
    let mut i: usize = 0;
    while i < items.len()
        invariant
            0 <= i <= items@.len(),
            json_views(items@).len() == items@.len(),
            forall|k: int| 0 <= k < items@.len() ==> json_views(items@)[k] == json_view(
                #[trigger] items@[k],
            ),
            forall|k: int| 0 <= k < i ==> wf_json(#[trigger] json_views(items@)[k]),
        decreases items@.len() - i,
    {
        proof {
            assert(decreases_to!(*items => items@));
            assert(decreases_to!(items@ => items@[i as int]));
        }
        if !json_is_wf(&items[i]) {
            proof {
                lemma_wf_jsons(json_views(items@));
            }
            return false;
        }
        i = i + 1;
    }
    proof {
        lemma_wf_jsons(json_views(items@));
    }
    true
}

fn fields_are_wf(fields: &Vec<JsonField>) -> (r: bool)
    ensures
        r == wf_fields(field_views(fields@)),
    decreases *fields, 1int,
{
    proof {
        lemma_field_views(fields@);
        lemma_wf_fields(field_views(fields@));
    }
    let mut i: usize = 0;
    while i < fields.len()
        invariant
            0 <= i <= fields@.len(),
            field_views(fields@).len() == fields@.len(),
            forall|k: int| 0 <= k < fields@.len() ==> field_views(fields@)[k] == (
            #[trigger] fields@[k])@,
            forall|k: int|
                0 <= k < i ==> wf_json((#[trigger] field_views(fields@)[k]).1),
        decreases fields@.len() - i,
    {
        proof {
            assert(decreases_to!(*fields => fields@));
            assert(decreases_to!(fields@ => fields@[i as int]));
            assert(decreases_to!(fields@[i as int] => fields@[i as int].value));
        }
        let f = &fields[i];
        if !json_is_wf(&f.value) {
            proof {
                lemma_wf_fields(field_views(fields@));
            }
            return false;
        }
        i = i + 1;
    }
    proof {
        lemma_wf_fields(field_views(fields@));
    }
    true
}

/// Finds the first field named `key`.
pub fn obj_find<'a>(fields: &'a Vec<JsonField>, key: &str) -> (r: Option<&'a Json>)
    ensures
        match r {
            Some(j) => obj_get(field_views(fields@), key@) == Some(json_view(*j)),
            None => obj_get(field_views(fields@), key@) is None,
        },
{
    proof {
        lemma_field_views(fields@);
    }
    let ghost fvs = field_views(fields@);
    proof {
        assert(fvs.subrange(0, fvs.len() as int) =~= fvs);
    }
    let mut i: usize = 0;
    while i < fields.len()
        invariant
            0 <= i <= fields@.len(),
            fvs == field_views(fields@),
            fvs.len() == fields@.len(),
            forall|k: int| 0 <= k < fields@.len() ==> fvs[k] == ((#[trigger] fields@[k]).key@,
            json_view(fields@[k].value)),
            obj_get(fvs, key@) == obj_get(fvs.subrange(i as int, fvs.len() as int), key@),
        decreases fields@.len() - i,
    {
        let hit = crate::json::str_eq(fields[i].key.as_str(), key);
        proof {
            let sub = fvs.subrange(i as int, fvs.len() as int);
            assert(sub[0] == fvs[i as int]);
            if !hit {
                assert(sub.subrange(1, sub.len() as int) =~= fvs.subrange(
                    i + 1,
                    fvs.len() as int,
                ));
            }
        }
        if hit {
            return Some(&fields[i].value);
        }
        i = i + 1;
    }
    proof {
        assert(fvs.subrange(i as int, fvs.len() as int) =~= Seq::<(Seq<char>, JsonV)>::empty());
    }
    None
}

/// A deep copy of a value.
pub fn json_clone(j: &Json) -> (r: Json)
    ensures
        r@ == j@,
    decreases *j, 0int,
{
    match j {
        Json::Null => Json::Null,
        Json::Bool(b) => Json::Bool(*b),
        Json::Int(n) => Json::Int(*n),
        Json::Num(m) => Json::Num(m.clone()),
        Json::Str(s) => Json::Str(s.clone()),
        Json::Arr(items) => {
            proof {
                assert(decreases_to!(*j => *items));
                assert(decreases_to!(*items => items@));
            }
            let copy = json_clone_vec(items);
            let r = Json::Arr(copy);
            proof {
                lemma_json_views(items@);
                lemma_json_views(copy@);
                assert forall|k: int| 0 <= k < items@.len() implies json_views(copy@)[k]
                    == json_views(items@)[k] by {
                    assert(json_view(copy@[k]) == json_view(items@[k]));
                }
                assert(json_views(copy@) =~= json_views(items@));
            }
            r
        },
        Json::Obj(fields) => {
            proof {
                assert(decreases_to!(*j => *fields));
                assert(decreases_to!(*fields => fields@));
            }
            let copy = json_clone_fields(fields);
            let r = Json::Obj(copy);
            proof {
                lemma_field_views(fields@);
                lemma_field_views(copy@);
                assert forall|k: int| 0 <= k < fields@.len() implies field_views(copy@)[k]
                    == field_views(fields@)[k] by {
                    assert(copy@[k]@ == fields@[k]@);
                }
                assert(field_views(copy@) =~= field_views(fields@));
            }
            r
        },
    }
}

fn json_clone_vec(items: &Vec<Json>) -> (r: Vec<Json>)
    ensures
        r@.len() == items@.len(),
        forall|i: int| 0 <= i < items@.len() ==> json_view(#[trigger] r@[i]) == json_view(
            items@[i],
        ),
    decreases *items, 1int,
{
    let mut out: Vec<Json> = Vec::new();
    let mut i: usize = 0;
    while i < items.len()
        invariant
            0 <= i <= items@.len(),
            out@.len() == i,
            forall|k: int| 0 <= k < i ==> json_view(#[trigger] out@[k]) == json_view(items@[k]),
        decreases items@.len() - i,
    {
        proof {
            assert(decreases_to!(*items => items@));
            assert(decreases_to!(items@ => items@[i as int]));
        }
        let c = json_clone(&items[i]);
        out.push(c);
        i = i + 1;
    }
    out
}

fn json_clone_fields(fields: &Vec<JsonField>) -> (r: Vec<JsonField>)
    ensures
        r@.len() == fields@.len(),
        forall|i: int| 0 <= i < fields@.len() ==> (#[trigger] r@[i])@ == fields@[i]@,
    decreases *fields, 1int,
{
    let mut out: Vec<JsonField> = Vec::new();
    let mut i: usize = 0;
    while i < fields.len()
        invariant
            0 <= i <= fields@.len(),
            out@.len() == i,
            forall|k: int| 0 <= k < i ==> (#[trigger] out@[k])@ == fields@[k]@,
        decreases fields@.len() - i,
    {
        proof {
            assert(decreases_to!(*fields => fields@));
            assert(decreases_to!(fields@ => fields@[i as int]));
            assert(decreases_to!(fields@[i as int] => fields@[i as int].value));
        }
        let f = &fields[i];
        let c = JsonField { key: f.key.clone(), value: json_clone(&f.value) };
        out.push(c);
        i = i + 1;
    }
    out
}

/// The characters of the string, in order, read off `str::chars`.
pub fn str_to_chars(s: &str) -> (r: Vec<char>)
    ensures
        r@ == s@,
{
    broadcast use vstd::string::group_string_axioms;

    let mut it = s.chars();
    let mut r: Vec<char> = Vec::new();
    loop
        invariant
            vstd::std_specs::iter::IteratorSpec::obeys_prophetic_iter_laws(&it),
            vstd::std_specs::iter::IteratorSpec::decrease(&it) is Some,
            r@ + vstd::std_specs::iter::IteratorSpec::remaining(&it) == s@,
        ensures
            r@ + vstd::std_specs::iter::IteratorSpec::remaining(&it) == s@,
            vstd::std_specs::iter::IteratorSpec::remaining(&it).len() == 0,
        decreases vstd::std_specs::iter::IteratorSpec::decrease(&it)->0,
    {
        let ghost pre = vstd::std_specs::iter::IteratorSpec::remaining(&it);
        match it.next() {
            Some(c) => {
                r.push(c);
                proof {
                    assert(r@ + vstd::std_specs::iter::IteratorSpec::remaining(&it) =~= s@);
                }
            },
            None => {
                break;
            },
        }
    }
    proof {
        assert(r@ =~= s@);
    }
    r
}

/// Relies on `String`'s `FromIterator<char>`: collecting characters
/// builds the string holding exactly those characters in order.
#[verifier::external_body]
pub fn chars_to_string(v: &Vec<char>) -> (r: String)
    ensures
        r@ == v@,
{
    v.iter().collect()
}

/// The substring of `chars` between `from` and `to`, as a `String`.
pub fn chars_to_string_range(chars: &Vec<char>, from: usize, to: usize) -> (r: String)
    requires
        from <= to <= chars@.len(),
    ensures
        r@ == chars@.subrange(from as int, to as int),
{
    let mut buf: Vec<char> = Vec::new();
    let mut i: usize = from;
    while i < to
        invariant
            from <= i <= to <= chars@.len(),
            buf@ =~= chars@.subrange(from as int, i as int),
        decreases to - i,
    {
        buf.push(chars[i]);
        i = i + 1;
    }
    chars_to_string(&buf)
}

/// Exact character-for-character equality of two strings.
pub fn str_eq(a: &str, b: &str) -> (r: bool)
    ensures
        r == (a@ == b@),
{
    let av = str_to_chars(a);
    let bv = str_to_chars(b);
    if av.len() != bv.len() {
        proof {
            assert(a@.len() != b@.len());
        }
        return false;
    }
    let mut i: usize = 0;
    while i < av.len()
        invariant
            0 <= i <= av@.len(),
            av@ == a@,
            bv@ == b@,
            av@.len() == bv@.len(),
            forall|j: int| 0 <= j < i ==> av@[j] == bv@[j],
        decreases av.len() - i,
    {
        if av[i] != bv[i] {
            return false;
        }
        i = i + 1;
    }
    proof {
        assert(a@ =~= b@);
    }
    true
}

} // verus!

