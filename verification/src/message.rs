//! The message envelope: one JSON object per line.
//!
//! An envelope carries an `id`, a `type`, and the fields its type
//! needs: `method` and `args` for requests, responses and callbacks;
//! `path` (and `value` for writes) for property access. `callbackIds`
//! and `version` travel as advisory fields. `serialize_message` frames
//! one envelope as a newline-terminated line; `deserialize_message`
//! reads one back, tolerating unknown fields and foreign key orders.

use vstd::prelude::*;

use crate::json::{
    JVal, JsonValue, jvals_of, jmembers_of, lemma_jvals_of, lemma_jmembers_of, obj_lookup, str_eq,
};
use crate::parse::parse_json;
use crate::ser::{ser_val, json_text};
use crate::text::push_char;

verus! {

broadcast use vstd::std_specs::vec::group_vec_axioms;

/// The six kinds of envelope the protocol knows.
#[derive(Clone, Copy, PartialEq, Eq, Structural, Debug)]
pub enum MessageType {
    Request,
    Response,
    Callback,
    Get,
    SetValue,
    Construct,
}

/// One protocol envelope.
///
/// `args` is `None` where the wire omits the field (an empty argument
/// list); `path` and `value` are used by `Get` and `Set` only.
#[derive(Debug)]
pub struct Message {
    pub id: String,
    pub method: String,
    pub args: Option<JsonValue>,
    pub msg_type: MessageType,
    pub callback_ids: Option<Vec<String>>,
    pub version: Option<String>,
    pub path: Option<Vec<String>>,
    pub value: Option<JsonValue>,
}

/// Mathematical model of an envelope.
pub struct MsgModel {
    pub id: Seq<char>,
    pub method: Seq<char>,
    pub args: Option<JVal>,
    pub msg_type: MessageType,
    pub callback_ids: Option<Seq<Seq<char>>>,
    pub version: Option<Seq<char>>,
    pub path: Option<Seq<Seq<char>>>,
    pub value: Option<JVal>,
}

/// The views of a vector of strings.
pub open spec fn strings_view(v: Seq<String>) -> Seq<Seq<char>> {
    Seq::new(v.len(), |i: int| v[i]@)
}

impl View for Message {
    type V = MsgModel;

    open spec fn view(&self) -> MsgModel {
        MsgModel {
            id: self.id@,
            method: self.method@,
            args: match self.args {
                Option::Some(a) => Option::Some(a@),
                Option::None => Option::None,
            },
            msg_type: self.msg_type,
            callback_ids: match self.callback_ids {
                Option::Some(ids) => Option::Some(strings_view(ids@)),
                Option::None => Option::None,
            },
            version: match self.version {
                Option::Some(v) => Option::Some(v@),
                Option::None => Option::None,
            },
            path: match self.path {
                Option::Some(p) => Option::Some(strings_view(p@)),
                Option::None => Option::None,
            },
            value: match self.value {
                Option::Some(v) => Option::Some(v@),
                Option::None => Option::None,
            },
        }
    }
}

/// The wire name of an envelope type.
pub open spec fn type_label(t: MessageType) -> Seq<char> {
    match t {
        MessageType::Request => "request"@,
        MessageType::Response => "response"@,
        MessageType::Callback => "callback"@,
        MessageType::Get => "get"@,
        MessageType::SetValue => "set"@,
        MessageType::Construct => "construct"@,
    }
}

/// The envelope type a wire name names.
pub open spec fn parse_type_label(s: Seq<char>) -> Option<MessageType> {
    if s == "request"@ {
        Option::Some(MessageType::Request)
    } else if s == "response"@ {
        Option::Some(MessageType::Response)
    } else if s == "callback"@ {
        Option::Some(MessageType::Callback)
    } else if s == "get"@ {
        Option::Some(MessageType::Get)
    } else if s == "set"@ {
        Option::Some(MessageType::SetValue)
    } else if s == "construct"@ {
        Option::Some(MessageType::Construct)
    } else {
        Option::None
    }
}

/// Each string as a JSON string value.
pub open spec fn strs_jvals(ss: Seq<Seq<char>>) -> Seq<JVal> {
    Seq::new(ss.len(), |i: int| JVal::Str(ss[i]))
}

/// A property envelope carries no `method` field.
pub open spec fn is_prop_type(t: MessageType) -> bool {
    t == MessageType::Get || t == MessageType::SetValue
}

pub open spec fn part_args(m: MsgModel) -> Seq<(Seq<char>, JVal)> {
    match m.args {
        Option::Some(a) => seq![("args"@, a)],
        Option::None => Seq::empty(),
    }
}

pub open spec fn part_cbids(m: MsgModel) -> Seq<(Seq<char>, JVal)> {
    match m.callback_ids {
        Option::Some(ids) => seq![("callbackIds"@, JVal::Arr(strs_jvals(ids)))],
        Option::None => Seq::empty(),
    }
}

pub open spec fn part_id(m: MsgModel) -> Seq<(Seq<char>, JVal)> {
    seq![("id"@, JVal::Str(m.id))]
}

pub open spec fn part_method(m: MsgModel) -> Seq<(Seq<char>, JVal)> {
    if is_prop_type(m.msg_type) {
        Seq::empty()
    } else {
        seq![("method"@, JVal::Str(m.method))]
    }
}

pub open spec fn part_path(m: MsgModel) -> Seq<(Seq<char>, JVal)> {
    match m.path {
        Option::Some(p) => seq![("path"@, JVal::Arr(strs_jvals(p)))],
        Option::None => Seq::empty(),
    }
}

pub open spec fn part_type(m: MsgModel) -> Seq<(Seq<char>, JVal)> {
    seq![("type"@, JVal::Str(type_label(m.msg_type)))]
}

pub open spec fn part_value(m: MsgModel) -> Seq<(Seq<char>, JVal)> {
    match m.value {
        Option::Some(v) => seq![("value"@, v)],
        Option::None => Seq::empty(),
    }
}

pub open spec fn part_version(m: MsgModel) -> Seq<(Seq<char>, JVal)> {
    match m.version {
        Option::Some(v) => seq![("version"@, JVal::Str(v))],
        Option::None => Seq::empty(),
    }
}

/// The members of the envelope object, keys in alphabetical order.
pub open spec fn msg_members(m: MsgModel) -> Seq<(Seq<char>, JVal)> {
    part_args(m) + part_cbids(m) + part_id(m) + part_method(m) + part_path(m) + part_type(m)
        + part_value(m) + part_version(m)
}

/// The envelope as a JSON value.
pub open spec fn msg_jval(m: MsgModel) -> JVal {
    JVal::Obj(msg_members(m))
}

/// The canonical wire text of an envelope, without its newline.
pub open spec fn ser_msg(m: MsgModel) -> Seq<char> {
    ser_val(msg_jval(m))
}

/// All items as strings, or nothing if one is not a string.
pub open spec fn strs_of(items: Seq<JVal>) -> Option<Seq<Seq<char>>>
    decreases items.len(),
{
    if items.len() == 0 {
        Option::Some(Seq::empty())
    } else {
        match items[0] {
            JVal::Str(s) => match strs_of(items.skip(1)) {
                Option::Some(r) => Option::Some(seq![s] + r),
                Option::None => Option::None,
            },
            _ => Option::None,
        }
    }
}

/// The string items, in order, anything else skipped.
pub open spec fn str_items(items: Seq<JVal>) -> Seq<Seq<char>>
    decreases items.len(),
{
    if items.len() == 0 {
        Seq::empty()
    } else {
        match items[0] {
            JVal::Str(s) => seq![s] + str_items(items.skip(1)),
            _ => str_items(items.skip(1)),
        }
    }
}

/// Read an envelope out of a decoded JSON value.
pub open spec fn msg_of_jval(j: JVal) -> Option<MsgModel> {
    match j {
        JVal::Obj(ms) => {
            match obj_lookup(ms, "type"@) {
                Option::Some(JVal::Str(ts)) => {
                    match parse_type_label(ts) {
                        Option::Some(mt) => Option::Some(
                            MsgModel {
                                id: match obj_lookup(ms, "id"@) {
                                    Option::Some(JVal::Str(s)) => s,
                                    _ => Seq::empty(),
                                },
                                method: match obj_lookup(ms, "method"@) {
                                    Option::Some(JVal::Str(s)) => s,
                                    _ => Seq::empty(),
                                },
                                args: obj_lookup(ms, "args"@),
                                msg_type: mt,
                                callback_ids: match obj_lookup(ms, "callbackIds"@) {
                                    Option::Some(JVal::Arr(items)) => strs_of(items),
                                    _ => Option::None,
                                },
                                version: match obj_lookup(ms, "version"@) {
                                    Option::Some(JVal::Str(s)) => Option::Some(s),
                                    _ => Option::None,
                                },
                                path: match obj_lookup(ms, "path"@) {
                                    Option::Some(JVal::Arr(items)) => Option::Some(
                                        str_items(items),
                                    ),
                                    _ => Option::None,
                                },
                                value: obj_lookup(ms, "value"@),
                            },
                        ),
                        Option::None => Option::None,
                    }
                },
                _ => Option::None,
            }
        },
        _ => Option::None,
    }
}

/// What one line of wire text means, if anything.
pub open spec fn spec_decode_line(t: Seq<char>) -> Option<MsgModel> {
    match crate::parse::sp_text(t) {
        Option::Some(j) => msg_of_jval(j),
        Option::None => Option::None,
    }
}

/// One side of a response payload, typed by its carrier.
pub struct Response<T> {
    pub result: Option<T>,
    pub error: Option<String>,
}

/// Why a line was rejected.
#[derive(Clone, Copy, PartialEq, Eq, Structural, Debug)]
pub enum DecodeError {
    /// The line is not parseable JSON.
    Malformed,
    /// The line is JSON, but not an envelope with a recognized type.
    UnrecognizedType,
}

fn type_label_exec(t: MessageType) -> (r: String)
    ensures
        r@ == type_label(t),
{
    match t {
        MessageType::Request => String::from_str("request"),
        MessageType::Response => String::from_str("response"),
        MessageType::Callback => String::from_str("callback"),
        MessageType::Get => String::from_str("get"),
        MessageType::SetValue => String::from_str("set"),
        MessageType::Construct => String::from_str("construct"),
    }
}

fn strings_items(ss: &Vec<String>) -> (r: Vec<JsonValue>)
    ensures
        jvals_of(r@) == strs_jvals(strings_view(ss@)),
{
    let mut items: Vec<JsonValue> = Vec::new();
    let n = ss.len();
    let mut i: usize = 0;
    while i < n
        invariant
            n == ss@.len(),
            0 <= i <= n,
            items@.len() == i,
            forall|j: int| 0 <= j < i ==> items@[j] == JsonValue::Str(ss@[j]),
        decreases n - i,
    {
        items.push(JsonValue::Str(ss[i].clone()));
        i = i + 1;
    }
    proof {
        lemma_jvals_of(items@);
        assert(jvals_of(items@) =~= strs_jvals(strings_view(ss@)));
    }
    items
}

/// One envelope as one framed line: its JSON text and a newline.
pub fn serialize_message(message: &Message) -> (r: String)
    ensures
        r@ == ser_msg(message@).push('\n'),
{
    let ghost mm = message@;
    let mut members: Vec<(String, JsonValue)> = Vec::new();
    match &message.args {
        Option::Some(a) => {
            members.push((String::from_str("args"), a.deep_clone()));
        },
        Option::None => {},
    }
    proof {
        lemma_jmembers_of(members@);
        assert(jmembers_of(members@) =~= part_args(mm));
    }
    let ghost c1 = part_args(mm);
    match &message.callback_ids {
        Option::Some(ids) => {
            let items = strings_items(ids);
            let ghost old_members = members@;
            members.push((String::from_str("callbackIds"), JsonValue::Arr(items)));
            proof {
                lemma_jmembers_of(members@);
                lemma_jmembers_of(old_members);
                assert(jmembers_of(members@) =~= c1 + part_cbids(mm));
            }
        },
        Option::None => {
            proof {
                assert(jmembers_of(members@) =~= c1 + part_cbids(mm));
            }
        },
    }
    let ghost c2 = c1 + part_cbids(mm);
    {
        let ghost old_members = members@;
        members.push((String::from_str("id"), JsonValue::Str(message.id.clone())));
        proof {
            lemma_jmembers_of(members@);
            lemma_jmembers_of(old_members);
            assert(jmembers_of(members@) =~= c2 + part_id(mm));
        }
    }
    let ghost c3 = c2 + part_id(mm);
    let is_prop = match message.msg_type {
        MessageType::Get => true,
        MessageType::SetValue => true,
        _ => false,
    };
    if !is_prop {
        let ghost old_members = members@;
        members.push((String::from_str("method"), JsonValue::Str(message.method.clone())));
        proof {
            lemma_jmembers_of(members@);
            lemma_jmembers_of(old_members);
            assert(jmembers_of(members@) =~= c3 + part_method(mm));
        }
    } else {
        proof {
            assert(jmembers_of(members@) =~= c3 + part_method(mm));
        }
    }
    let ghost c4 = c3 + part_method(mm);
    match &message.path {
        Option::Some(p) => {
            let items = strings_items(p);
            let ghost old_members = members@;
            members.push((String::from_str("path"), JsonValue::Arr(items)));
            proof {
                lemma_jmembers_of(members@);
                lemma_jmembers_of(old_members);
                assert(jmembers_of(members@) =~= c4 + part_path(mm));
            }
        },
        Option::None => {
            proof {
                assert(jmembers_of(members@) =~= c4 + part_path(mm));
            }
        },
    }
    let ghost c5 = c4 + part_path(mm);
    {
        let ghost old_members = members@;
        members.push((String::from_str("type"), JsonValue::Str(type_label_exec(message.msg_type))));
        proof {
            lemma_jmembers_of(members@);
            lemma_jmembers_of(old_members);
            assert(jmembers_of(members@) =~= c5 + part_type(mm));
        }
    }
    let ghost c6 = c5 + part_type(mm);
    match &message.value {
        Option::Some(v) => {
            let ghost old_members = members@;
            members.push((String::from_str("value"), v.deep_clone()));
            proof {
                lemma_jmembers_of(members@);
                lemma_jmembers_of(old_members);
                assert(jmembers_of(members@) =~= c6 + part_value(mm));
            }
        },
        Option::None => {
            proof {
                assert(jmembers_of(members@) =~= c6 + part_value(mm));
            }
        },
    }
    let ghost c7 = c6 + part_value(mm);
    match &message.version {
        Option::Some(v) => {
            let ghost old_members = members@;
            members.push((String::from_str("version"), JsonValue::Str(v.clone())));
            proof {
                lemma_jmembers_of(members@);
                lemma_jmembers_of(old_members);
                assert(jmembers_of(members@) =~= c7 + part_version(mm));
            }
        },
        Option::None => {
            proof {
                assert(jmembers_of(members@) =~= c7 + part_version(mm));
            }
        },
    }
    proof {
        assert(jmembers_of(members@) =~= msg_members(mm));
    }
    let envelope = JsonValue::Obj(members);
    proof {
        assert(envelope@ == msg_jval(mm));
    }
    let mut line = json_text(&envelope);
    push_char(&mut line, '\n');
    line
}


/// The wire type of an envelope type name.
fn parse_type_exec(s: &str) -> (r: Option<MessageType>)
    ensures
        r == parse_type_label(s@),
{
    if str_eq(s, "request") {
        Option::Some(MessageType::Request)
    } else if str_eq(s, "response") {
        Option::Some(MessageType::Response)
    } else if str_eq(s, "callback") {
        Option::Some(MessageType::Callback)
    } else if str_eq(s, "get") {
        Option::Some(MessageType::Get)
    } else if str_eq(s, "set") {
        Option::Some(MessageType::SetValue)
    } else if str_eq(s, "construct") {
        Option::Some(MessageType::Construct)
    } else {
        Option::None
    }
}

/// A non-string item anywhere makes `strs_of` fail.
proof fn lemma_strs_of_none(items: Seq<JVal>, i: int)
    requires
        0 <= i < items.len(),
        !(items[i] is Str),
    ensures
        strs_of(items) is None,
    decreases i,
{
    if i > 0 {
        if items[0] is Str {
            assert(items.skip(1)[i - 1] == items[i]);
            lemma_strs_of_none(items.skip(1), i - 1);
        }
    }
}

/// Appending one string item extends `strs_of` at its end.
proof fn lemma_strs_of_snoc(items: Seq<JVal>, s: Seq<char>)
    ensures
        strs_of(items.push(JVal::Str(s))) == (match strs_of(items) {
            Option::Some(r) => Option::Some(r.push(s)),
            Option::None => Option::None,
        }),
    decreases items.len(),
{
    reveal_with_fuel(strs_of, 3);
    let w = items.push(JVal::Str(s));
    if items.len() == 0 {
        assert(w[0] == JVal::Str(s));
        assert(w.skip(1) =~= Seq::<JVal>::empty());
        assert(seq![s] + Seq::<Seq<char>>::empty() =~= Seq::<Seq<char>>::empty().push(s));
    } else {
        assert(w[0] == items[0]);
        assert(w.skip(1) =~= items.skip(1).push(JVal::Str(s)));
        lemma_strs_of_snoc(items.skip(1), s);
        match items[0] {
            JVal::Str(s0) => {
                match strs_of(items.skip(1)) {
                    Option::Some(r) => {
                        assert(seq![s0] + r.push(s) =~= (seq![s0] + r).push(s));
                    },
                    Option::None => {},
                }
            },
            _ => {},
        }
    }
}

/// Appending one item extends `str_items` at its end.
proof fn lemma_str_items_snoc(items: Seq<JVal>, x: JVal)
    ensures
        str_items(items.push(x)) == (match x {
            JVal::Str(s) => str_items(items).push(s),
            _ => str_items(items),
        }),
    decreases items.len(),
{
    reveal_with_fuel(str_items, 3);
    let w = items.push(x);
    if items.len() == 0 {
        assert(w[0] == x);
        assert(w.skip(1) =~= Seq::<JVal>::empty());
        match x {
            JVal::Str(s) => {
                assert(seq![s] + Seq::<Seq<char>>::empty() =~= Seq::<Seq<char>>::empty().push(s));
            },
            _ => {},
        }
    } else {
        assert(w[0] == items[0]);
        assert(w.skip(1) =~= items.skip(1).push(x));
        lemma_str_items_snoc(items.skip(1), x);
        match items[0] {
            JVal::Str(s0) => {
                match x {
                    JVal::Str(s) => {
                        assert(seq![s0] + str_items(items.skip(1)).push(s)
                            =~= (seq![s0] + str_items(items.skip(1))).push(s));
                    },
                    _ => {},
                }
            },
            _ => {},
        }
    }
}

/// All items as owned strings, or nothing if one is not a string.
fn collect_strs(items: &Vec<JsonValue>) -> (r: Option<Vec<String>>)
    ensures
        match r {
            Option::Some(ss) => strs_of(jvals_of(items@)) == Option::Some(strings_view(ss@)),
            Option::None => strs_of(jvals_of(items@)) is None,
        },
{
    proof {
        lemma_jvals_of(items@);
    }
    let n = items.len();
    let mut out: Vec<String> = Vec::new();
    let mut i: usize = 0;
    while i < n
        invariant
            n == items@.len(),
            0 <= i <= n,
            out@.len() == i,
            jvals_of(items@).len() == n,
            forall|j: int| 0 <= j < n ==> jvals_of(items@)[j] == items@[j]@,
            strs_of(jvals_of(items@).take(i as int)) == Option::Some(strings_view(out@)),
        decreases n - i,
    {
        match &items[i] {
            JsonValue::Str(s) => {
                let ghost old_out = out@;
                out.push(s.clone());
                proof {
                    assert(jvals_of(items@).take(i + 1)
                        =~= jvals_of(items@).take(i as int).push(JVal::Str(s@)));
                    lemma_strs_of_snoc(jvals_of(items@).take(i as int), s@);
                    assert(strings_view(out@) =~= strings_view(old_out).push(s@));
                }
            },
            _ => {
                proof {
                    lemma_strs_of_none(jvals_of(items@), i as int);
                }
                return Option::None;
            },
        }
        i = i + 1;
    }
    proof {
        assert(jvals_of(items@).take(n as int) =~= jvals_of(items@));
    }
    Option::Some(out)
}

/// The string items, in order, anything else skipped.
fn collect_str_items(items: &Vec<JsonValue>) -> (r: Vec<String>)
    ensures
        strings_view(r@) == str_items(jvals_of(items@)),
{
    proof {
        lemma_jvals_of(items@);
    }
    let n = items.len();
    let mut out: Vec<String> = Vec::new();
    let mut i: usize = 0;
    while i < n
        invariant
            n == items@.len(),
            0 <= i <= n,
            jvals_of(items@).len() == n,
            forall|j: int| 0 <= j < n ==> jvals_of(items@)[j] == items@[j]@,
            strings_view(out@) == str_items(jvals_of(items@).take(i as int)),
        decreases n - i,
    {
        proof {
            lemma_str_items_snoc(jvals_of(items@).take(i as int), items@[i as int]@);
            assert(jvals_of(items@).take(i + 1)
                =~= jvals_of(items@).take(i as int).push(jvals_of(items@)[i as int]));
        }
        match &items[i] {
            JsonValue::Str(s) => {
                let ghost old_out = out@;
                out.push(s.clone());
                proof {
                    assert(strings_view(out@) =~= strings_view(old_out).push(s@));
                }
            },
            _ => {},
        }
        i = i + 1;
    }
    proof {
        assert(jvals_of(items@).take(n as int) =~= jvals_of(items@));
    }
    out
}

/// One line read back as an envelope, exactly as `spec_decode_line`
/// says: a line that is not JSON is malformed; JSON that is not an
/// envelope with a recognized `type` is rejected; anything else
/// yields the envelope, missing fields defaulted.
pub fn deserialize_message(message_str: &str) -> (r: Result<Message, DecodeError>)
    ensures
        match r {
            Result::Ok(m) => spec_decode_line(message_str@) == Option::Some(m@),
            Result::Err(e) => spec_decode_line(message_str@) is None && (e == DecodeError::Malformed
                <==> crate::parse::sp_text(message_str@) is None),
        },
{
    let parsed = match parse_json(message_str) {
        Option::Some(v) => v,
        Option::None => {
            return Result::Err(DecodeError::Malformed);
        },
    };
    let mt = match parsed.get_member("type") {
        Option::Some(tv) => {
            match tv.as_str() {
                Option::Some(ts) => {
                    match parse_type_exec(ts.as_str()) {
                        Option::Some(mt) => mt,
                        Option::None => {
                            return Result::Err(DecodeError::UnrecognizedType);
                        },
                    }
                },
                Option::None => {
                    return Result::Err(DecodeError::UnrecognizedType);
                },
            }
        },
        Option::None => {
            return Result::Err(DecodeError::UnrecognizedType);
        },
    };
    let id = match parsed.get_member("id") {
        Option::Some(v) => match v.as_str() {
            Option::Some(s) => s.clone(),
            Option::None => String::new(),
        },
        Option::None => String::new(),
    };
    let method = match parsed.get_member("method") {
        Option::Some(v) => match v.as_str() {
            Option::Some(s) => s.clone(),
            Option::None => String::new(),
        },
        Option::None => String::new(),
    };
    let args = match parsed.get_member("args") {
        Option::Some(v) => Option::Some(v.deep_clone()),
        Option::None => Option::None,
    };
    let callback_ids = match parsed.get_member("callbackIds") {
        Option::Some(v) => match v {
            JsonValue::Arr(items) => collect_strs(items),
            _ => Option::None,
        },
        Option::None => Option::None,
    };
    let version = match parsed.get_member("version") {
        Option::Some(v) => match v.as_str() {
            Option::Some(s) => Option::Some(s.clone()),
            Option::None => Option::None,
        },
        Option::None => Option::None,
    };
    let path = match parsed.get_member("path") {
        Option::Some(v) => match v {
            JsonValue::Arr(items) => Option::Some(collect_str_items(items)),
            _ => Option::None,
        },
        Option::None => Option::None,
    };
    let value = match parsed.get_member("value") {
        Option::Some(v) => Option::Some(v.deep_clone()),
        Option::None => Option::None,
    };
    Result::Ok(
        Message { id, method, args, msg_type: mt, callback_ids, version, path, value },
    )
}

/// The first of two optional answers.
pub open spec fn first_of(a: Option<JVal>, b: Option<JVal>) -> Option<JVal> {
    match a {
        Option::Some(v) => Option::Some(v),
        Option::None => b,
    }
}

/// A lookup in the envelope object tries each field in key order.
proof fn lemma_msg_members_lookup(m: MsgModel, k: Seq<char>)
    ensures
        obj_lookup(msg_members(m), k) == first_of(
            obj_lookup(part_args(m), k),
            first_of(
                obj_lookup(part_cbids(m), k),
                first_of(
                    obj_lookup(part_id(m), k),
                    first_of(
                        obj_lookup(part_method(m), k),
                        first_of(
                            obj_lookup(part_path(m), k),
                            first_of(
                                obj_lookup(part_type(m), k),
                                first_of(
                                    obj_lookup(part_value(m), k),
                                    obj_lookup(part_version(m), k),
                                ),
                            ),
                        ),
                    ),
                ),
            ),
        ),
{
    let p1 = part_args(m);
    let p2 = part_cbids(m);
    let p3 = part_id(m);
    let p4 = part_method(m);
    let p5 = part_path(m);
    let p6 = part_type(m);
    let p7 = part_value(m);
    let p8 = part_version(m);
    crate::json::lemma_obj_lookup_concat(p1 + p2 + p3 + p4 + p5 + p6 + p7, p8, k);
    crate::json::lemma_obj_lookup_concat(p1 + p2 + p3 + p4 + p5 + p6, p7, k);
    crate::json::lemma_obj_lookup_concat(p1 + p2 + p3 + p4 + p5, p6, k);
    crate::json::lemma_obj_lookup_concat(p1 + p2 + p3 + p4, p5, k);
    crate::json::lemma_obj_lookup_concat(p1 + p2 + p3, p4, k);
    crate::json::lemma_obj_lookup_concat(p1 + p2, p3, k);
    crate::json::lemma_obj_lookup_concat(p1, p2, k);
}

/// A type label reads back as its own type.
proof fn lemma_type_label_roundtrip(t: MessageType)
    ensures
        parse_type_label(type_label(t)) == Option::Some(t),
{
    reveal_strlit("request");
    reveal_strlit("response");
    reveal_strlit("callback");
    reveal_strlit("get");
    reveal_strlit("set");
    reveal_strlit("construct");
    assert("request"@.len() == 7);
    assert("response"@.len() == 8);
    assert("callback"@.len() == 8);
    assert("get"@.len() == 3);
    assert("set"@.len() == 3);
    assert("construct"@.len() == 9);
    assert("response"@[0] == 'r' && "callback"@[0] == 'c');
    assert("get"@[0] == 'g' && "set"@[0] == 's');
    match t {
        MessageType::Request => {
            assert(parse_type_label(type_label(t)) == Option::Some(MessageType::Request));
        },
        MessageType::Response => {
            assert(type_label(t) != "request"@);
            assert(parse_type_label(type_label(t)) == Option::Some(MessageType::Response));
        },
        MessageType::Callback => {
            assert(parse_type_label(type_label(t)) == Option::Some(MessageType::Callback));
        },
        MessageType::Get => {
            assert(parse_type_label(type_label(t)) == Option::Some(MessageType::Get));
        },
        MessageType::SetValue => {
            assert(parse_type_label(type_label(t)) == Option::Some(MessageType::SetValue));
        },
        MessageType::Construct => {
            assert(parse_type_label(type_label(t)) == Option::Some(MessageType::Construct));
        },
    }
}

/// Strings wrapped as JSON values read back as the same strings.
proof fn lemma_strs_of_jvals(ss: Seq<Seq<char>>)
    ensures
        strs_of(strs_jvals(ss)) == Option::Some(ss),
        str_items(strs_jvals(ss)) == ss,
    decreases ss.len(),
{
    if ss.len() == 0 {
        assert(strs_jvals(ss).len() == 0);
    } else {
        lemma_strs_of_jvals(ss.skip(1));
        assert(strs_jvals(ss).skip(1) =~= strs_jvals(ss.skip(1)));
        assert(strs_jvals(ss)[0] == JVal::Str(ss[0]));
        assert(seq![ss[0]] + ss.skip(1) =~= ss);
    }
}

/// An encoded envelope reads back as itself. Property envelopes carry
/// no method name on the wire, so theirs must be empty.
pub proof fn lemma_msg_roundtrip(m: MsgModel)
    requires
        is_prop_type(m.msg_type) ==> m.method == Seq::<char>::empty(),
    ensures
        spec_decode_line(ser_msg(m)) == Option::Some(m),
{
    crate::roundtrip::lemma_sp_text_ser(msg_jval(m));
    reveal_strlit("args");
    reveal_strlit("callbackIds");
    reveal_strlit("id");
    reveal_strlit("method");
    reveal_strlit("path");
    reveal_strlit("type");
    reveal_strlit("value");
    reveal_strlit("version");
    assert("args"@.len() == 4);
    assert("callbackIds"@.len() == 11);
    assert("id"@.len() == 2);
    assert("method"@.len() == 6);
    assert("path"@.len() == 4);
    assert("type"@.len() == 4);
    assert("value"@.len() == 5);
    assert("version"@.len() == 7);
    assert("args"@[0] == 'a' && "path"@[0] == 'p' && "type"@[0] == 't');
    crate::json::lemma_obj_lookup_single_all();
    lemma_msg_members_lookup(m, "type"@);
    lemma_msg_members_lookup(m, "id"@);
    lemma_msg_members_lookup(m, "method"@);
    lemma_msg_members_lookup(m, "args"@);
    lemma_msg_members_lookup(m, "callbackIds"@);
    lemma_msg_members_lookup(m, "version"@);
    lemma_msg_members_lookup(m, "path"@);
    lemma_msg_members_lookup(m, "value"@);
    lemma_type_label_roundtrip(m.msg_type);
    match m.callback_ids {
        Option::Some(ids) => {
            lemma_strs_of_jvals(ids);
        },
        Option::None => {},
    }
    match m.path {
        Option::Some(p) => {
            lemma_strs_of_jvals(p);
        },
        Option::None => {},
    }
    assert(msg_of_jval(msg_jval(m)) == Option::Some(m));
}

/// A framed envelope line decodes back to its envelope: the newline
/// the frame adds does not disturb it.
pub proof fn lemma_msg_roundtrip_framed(m: MsgModel)
    requires
        is_prop_type(m.msg_type) ==> m.method == Seq::<char>::empty(),
    ensures
        spec_decode_line(ser_msg(m).push('\n')) == Option::Some(m),
{
    crate::roundtrip::lemma_sp_text_ser_framed(msg_jval(m));
    lemma_msg_roundtrip(m);
    crate::roundtrip::lemma_sp_text_ser(msg_jval(m));
}

} // verus!
