//! The peer engine: registries, dispatch and envelope builders.
//!
//! A `PeerCore` holds everything a peer decides with: the pending-call
//! table, the callback-token registry, and the local `RpcApi`. It does
//! no I/O itself: builders return the framed line to write, and
//! `handle_line` maps one received line to the action the transport
//! loop must carry out. `dispatch_spec` is the mathematical transition
//! the dispatcher implements, exactly.

use vstd::prelude::*;

use crate::ids::IdSource;
use crate::json::{
    JVal, JsonValue, jvals_of, jmembers_of, lemma_jvals_of, lemma_jmembers_of, obj_lookup, str_eq,
};
use crate::message::{
    Message, MessageType, MsgModel, ser_msg, serialize_message, deserialize_message,
    spec_decode_line, strings_view,
};
use crate::ser::ser_val;

verus! {

broadcast use vstd::std_specs::vec::group_vec_axioms;

/// The marker in front of a callback token on the wire.
pub open spec fn cb_prefix() -> Seq<char> {
    "__callback__"@
}

/// An error reported for one call: the remote side's error name and
/// message, and the whole error value for diagnostics.
#[derive(Debug)]
pub struct RpcError {
    pub name: Option<String>,
    pub message: String,
    pub data: JsonValue,
}

/// Mathematical model of an `RpcError`.
pub struct ErrModel {
    pub name: Option<Seq<char>>,
    pub message: Seq<char>,
    pub data: JVal,
}

impl View for RpcError {
    type V = ErrModel;

    open spec fn view(&self) -> ErrModel {
        ErrModel {
            name: match self.name {
                Option::Some(n) => Option::Some(n@),
                Option::None => Option::None,
            },
            message: self.message@,
            data: self.data@,
        }
    }
}

impl RpcError {
    /// The error's display text: `name: message`, or the message alone.
    pub fn display_string(&self) -> (r: String)
        ensures
            r@ == (match self@.name {
                Option::Some(n) => n + ": "@ + self@.message,
                Option::None => self@.message,
            }),
    {
        match &self.name {
            Option::Some(n) => {
                let mut out = n.clone();
                out.append(": ");
                out.append(self.message.as_str());
                out
            },
            Option::None => self.message.clone(),
        }
    }
}

/// How one call ended.
pub enum CallOutcome {
    Success(JsonValue),
    Failure(RpcError),
}

/// Mathematical model of a `CallOutcome`.
pub enum OutcomeModel {
    Success(JVal),
    Failure(ErrModel),
}

impl View for CallOutcome {
    type V = OutcomeModel;

    open spec fn view(&self) -> OutcomeModel {
        match self {
            CallOutcome::Success(v) => OutcomeModel::Success(v@),
            CallOutcome::Failure(e) => OutcomeModel::Failure(e@),
        }
    }
}

/// An outbound call argument: a value, or a local function to expose.
/// The function itself stays with the caller; the engine only assigns
/// its wire token.
pub enum Arg {
    Value(JsonValue),
    Callback,
}

/// Mathematical model of an `Arg`.
pub enum ArgModel {
    Value(JVal),
    Callback,
}

impl View for Arg {
    type V = ArgModel;

    open spec fn view(&self) -> ArgModel {
        match self {
            Arg::Value(v) => ArgModel::Value(v@),
            Arg::Callback => ArgModel::Callback,
        }
    }
}

/// The views of a vector of outbound arguments.
pub open spec fn args_view(s: Seq<Arg>) -> Seq<ArgModel> {
    Seq::new(s.len(), |i: int| s[i]@)
}

/// An argument handed to a local handler: a plain value, or the token
/// of a remote callback the handler may invoke.
pub enum IncomingArg {
    Value(JsonValue),
    Callback(String),
}

/// Mathematical model of an `IncomingArg`.
pub enum InArgModel {
    Value(JVal),
    Callback(Seq<char>),
}

impl View for IncomingArg {
    type V = InArgModel;

    open spec fn view(&self) -> InArgModel {
        match self {
            IncomingArg::Value(v) => InArgModel::Value(v@),
            IncomingArg::Callback(t) => InArgModel::Callback(t@),
        }
    }
}

/// The views of a vector of incoming arguments.
pub open spec fn in_args_view(s: Seq<IncomingArg>) -> Seq<InArgModel> {
    Seq::new(s.len(), |i: int| s[i]@)
}

/// The views of a vector of values.
pub open spec fn values_view(s: Seq<JsonValue>) -> Seq<JVal> {
    Seq::new(s.len(), |i: int| s[i]@)
}

/// Whether a wire string is a callback marker.
pub open spec fn is_cb_str(s: Seq<char>) -> bool {
    s.len() >= 12 && s.subrange(0, 12) == cb_prefix()
}

/// One inbound wire argument, classified.
pub open spec fn unmarshal_one(v: JVal) -> InArgModel {
    match v {
        JVal::Str(s) => if is_cb_str(s) {
            InArgModel::Callback(s.skip(12))
        } else {
            InArgModel::Value(v)
        },
        _ => InArgModel::Value(v),
    }
}

/// Inbound wire arguments, classified one for one.
pub open spec fn unmarshal_spec(items: Seq<JVal>) -> Seq<InArgModel> {
    Seq::new(items.len(), |i: int| unmarshal_one(items[i]))
}

/// The items of an argument array, or nothing for any other shape.
pub open spec fn arr_items(a: Option<JVal>) -> Seq<JVal> {
    match a {
        Option::Some(JVal::Arr(items)) => items,
        _ => Seq::empty(),
    }
}

/// The error carried in a response's `error` value: its `name` and
/// `message` fields when it is an object, else its JSON text.
pub open spec fn err_of(e: JVal) -> ErrModel {
    match e {
        JVal::Obj(ms) => ErrModel {
            name: match obj_lookup(ms, "name"@) {
                Option::Some(JVal::Str(s)) => Option::Some(s),
                _ => Option::None,
            },
            message: match obj_lookup(ms, "message"@) {
                Option::Some(JVal::Str(s)) => s,
                _ => "RPC error"@,
            },
            data: e,
        },
        _ => ErrModel { name: Option::None, message: ser_val(e), data: e },
    }
}

/// How a response's `args` object ends the call it answers: a failure
/// when `error` is present, else success with `result` or null.
pub open spec fn outcome_of(args: Option<JVal>) -> OutcomeModel {
    match args {
        Option::Some(JVal::Obj(ms)) => match obj_lookup(ms, "error"@) {
            Option::Some(e) => OutcomeModel::Failure(err_of(e)),
            Option::None => match obj_lookup(ms, "result"@) {
                Option::Some(r) => OutcomeModel::Success(r),
                Option::None => OutcomeModel::Success(JVal::Null),
            },
        },
        _ => OutcomeModel::Success(JVal::Null),
    }
}

/// Read a response's `args` into the outcome of the call, exactly as
/// `outcome_of` says.
pub fn response_outcome(args: &Option<JsonValue>) -> (r: CallOutcome)
    ensures
        r@ == outcome_of(match args {
            Option::Some(a) => Option::Some(a@),
            Option::None => Option::None,
        }),
{
    let a = match args {
        Option::Some(a) => a,
        Option::None => {
            return CallOutcome::Success(JsonValue::Null);
        },
    };
    match a.get_member("error") {
        Option::Some(e) => {
            let name = match e.get_member("name") {
                Option::Some(n) => match n.as_str() {
                    Option::Some(s) => Option::Some(s.clone()),
                    Option::None => Option::None,
                },
                Option::None => Option::None,
            };
            let message = match e.get_member("message") {
                Option::Some(m) => match m.as_str() {
                    Option::Some(s) => s.clone(),
                    Option::None => String::from_str("RPC error"),
                },
                Option::None => String::from_str("RPC error"),
            };
            let message = if e.is_object() {
                message
            } else {
                crate::ser::json_text(e)
            };
            CallOutcome::Failure(RpcError { name, message, data: e.deep_clone() })
        },
        Option::None => {
            match a.get_member("result") {
                Option::Some(v) => CallOutcome::Success(v.deep_clone()),
                Option::None => CallOutcome::Success(JsonValue::Null),
            }
        },
    }
}

/// A dotted path: the parts joined with `.`.
pub open spec fn join_dotted(parts: Seq<Seq<char>>) -> Seq<char>
    decreases parts.len(),
{
    if parts.len() == 0 {
        Seq::empty()
    } else if parts.len() == 1 {
        parts[0]
    } else {
        parts[0] + "."@ + join_dotted(parts.skip(1))
    }
}

/// Appending one part extends the joined path at its end.
proof fn lemma_join_dotted_snoc(parts: Seq<Seq<char>>, x: Seq<char>)
    ensures
        parts.len() == 0 ==> join_dotted(parts.push(x)) == x,
        parts.len() > 0 ==> join_dotted(parts.push(x)) == join_dotted(parts) + "."@ + x,
    decreases parts.len(),
{
    let w = parts.push(x);
    if parts.len() == 0 {
        assert(w[0] == x);
    } else {
        lemma_join_dotted_snoc(parts.skip(1), x);
        assert(w[0] == parts[0]);
        assert(w.skip(1) =~= parts.skip(1).push(x));
        if parts.len() == 1 {
            assert(join_dotted(w) =~= join_dotted(parts) + "."@ + x);
        } else {
            assert(join_dotted(w) =~= join_dotted(parts) + "."@ + x);
        }
    }
}

/// Join path parts with dots, as `join_dotted` says.
pub fn join_path(parts: &Vec<String>) -> (r: String)
    ensures
        r@ == join_dotted(strings_view(parts@)),
{
    let n = parts.len();
    let mut out = String::new();
    let mut i: usize = 0;
    while i < n
        invariant
            n == parts@.len(),
            0 <= i <= n,
            out@ == join_dotted(strings_view(parts@).take(i as int)),
        decreases n - i,
    {
        if i > 0 {
            out.append(".");
        }
        out.append(parts[i].as_str());
        proof {
            lemma_join_dotted_snoc(
                strings_view(parts@).take(i as int),
                strings_view(parts@)[i as int],
            );
            assert(strings_view(parts@).take(i + 1)
                =~= strings_view(parts@).take(i as int).push(strings_view(parts@)[i as int]));
        }
        i = i + 1;
    }
    proof {
        assert(strings_view(parts@).take(n as int) =~= strings_view(parts@));
    }
    out
}

/// First index holding `x`, or a negative answer.
pub open spec fn find_first(ss: Seq<Seq<char>>, x: Seq<char>) -> int
    decreases ss.len(),
{
    if ss.len() == 0 {
        -1
    } else if ss[0] == x {
        0
    } else {
        let r = find_first(ss.skip(1), x);
        if r < 0 {
            -1
        } else {
            r + 1
        }
    }
}

/// `find_first` returns the first hit.
pub proof fn lemma_find_first_hit(ss: Seq<Seq<char>>, x: Seq<char>, i: int)
    requires
        0 <= i < ss.len(),
        ss[i] == x,
        forall|j: int| 0 <= j < i ==> ss[j] != x,
    ensures
        find_first(ss, x) == i,
    decreases i,
{
    if i > 0 {
        assert(forall|j: int| 0 <= j < i - 1 ==> ss.skip(1)[j] == ss[j + 1]);
        assert(ss.skip(1)[i - 1] == ss[i]);
        lemma_find_first_hit(ss.skip(1), x, i - 1);
    }
}

/// `find_first` misses exactly when nothing holds `x`.
pub proof fn lemma_find_first_miss(ss: Seq<Seq<char>>, x: Seq<char>)
    requires
        forall|j: int| 0 <= j < ss.len() ==> ss[j] != x,
    ensures
        find_first(ss, x) == -1,
    decreases ss.len(),
{
    if ss.len() > 0 {
        assert(forall|j: int| 0 <= j < ss.skip(1).len() ==> ss.skip(1)[j] == ss[j + 1]);
        lemma_find_first_miss(ss.skip(1), x);
    }
}

/// First index of `x` among the strings, if any.
pub fn index_of_str(v: &Vec<String>, x: &str) -> (r: Option<usize>)
    ensures
        match r {
            Option::Some(i) => i < v@.len() && find_first(strings_view(v@), x@) == i as int,
            Option::None => find_first(strings_view(v@), x@) == -1,
        },
{
    let n = v.len();
    let mut i: usize = 0;
    while i < n
        invariant
            n == v@.len(),
            0 <= i <= n,
            forall|j: int| 0 <= j < i ==> strings_view(v@)[j] != x@,
        decreases n - i,
    {
        if str_eq(v[i].as_str(), x) {
            proof {
                lemma_find_first_hit(strings_view(v@), x@, i as int);
            }
            return Option::Some(i);
        }
        i = i + 1;
    }
    proof {
        lemma_find_first_miss(strings_view(v@), x@);
    }
    Option::None
}


/// First index of a key among data entries, or a negative answer.
pub open spec fn find_first_key(entries: Seq<(Seq<char>, JVal)>, k: Seq<char>) -> int
    decreases entries.len(),
{
    if entries.len() == 0 {
        -1
    } else if entries[0].0 == k {
        0
    } else {
        let r = find_first_key(entries.skip(1), k);
        if r < 0 {
            -1
        } else {
            r + 1
        }
    }
}

/// `find_first_key` returns the first hit.
pub proof fn lemma_find_first_key_hit(entries: Seq<(Seq<char>, JVal)>, k: Seq<char>, i: int)
    requires
        0 <= i < entries.len(),
        entries[i].0 == k,
        forall|j: int| 0 <= j < i ==> entries[j].0 != k,
    ensures
        find_first_key(entries, k) == i,
    decreases i,
{
    if i > 0 {
        assert(forall|j: int|
            0 <= j < entries.skip(1).len() ==> entries.skip(1)[j] == entries[j + 1]);
        lemma_find_first_key_hit(entries.skip(1), k, i - 1);
    }
}

/// `find_first_key` misses exactly when no entry has the key.
pub proof fn lemma_find_first_key_miss(entries: Seq<(Seq<char>, JVal)>, k: Seq<char>)
    requires
        forall|j: int| 0 <= j < entries.len() ==> entries[j].0 != k,
    ensures
        find_first_key(entries, k) == -1,
    decreases entries.len(),
{
    if entries.len() > 0 {
        assert(forall|j: int|
            0 <= j < entries.skip(1).len() ==> entries.skip(1)[j] == entries[j + 1]);
        lemma_find_first_key_miss(entries.skip(1), k);
    }
}

/// Store a value under a key: replace the first entry with that key,
/// or append a new one.
pub open spec fn data_set(entries: Seq<(Seq<char>, JVal)>, k: Seq<char>, v: JVal) -> Seq<
    (Seq<char>, JVal),
> {
    let i = find_first_key(entries, k);
    if i >= 0 {
        entries.update(i, (k, v))
    } else {
        entries.push((k, v))
    }
}

/// The local API registry: method and constructor names, and the flat
/// dotted-path property store. The handler functions themselves live
/// with the caller, keyed by these names.
pub struct RpcApi {
    methods: Vec<String>,
    constructors: Vec<String>,
    data: Vec<(String, JsonValue)>,
}

/// Mathematical model of an `RpcApi`.
pub struct ApiModel {
    pub methods: Seq<Seq<char>>,
    pub constructors: Seq<Seq<char>>,
    pub data: Seq<(Seq<char>, JVal)>,
}

impl View for RpcApi {
    type V = ApiModel;

    closed spec fn view(&self) -> ApiModel {
        ApiModel {
            methods: strings_view(self.methods@),
            constructors: strings_view(self.constructors@),
            data: jmembers_of(self.data@),
        }
    }
}

/// Look the first entry with a key up among data entries.
fn lookup_entry<'a>(entries: &'a Vec<(String, JsonValue)>, key: &str) -> (r: Option<
    &'a JsonValue,
>)
    ensures
        match r {
            Option::Some(v) => obj_lookup(jmembers_of(entries@), key@) == Option::Some(v@),
            Option::None => obj_lookup(jmembers_of(entries@), key@) is None,
        },
{
    let ghost mv = jmembers_of(entries@);
    proof {
        lemma_jmembers_of(entries@);
        assert(mv.skip(0) =~= mv);
    }
    let n = entries.len();
    let mut i: usize = 0;
    while i < n
        invariant
            n == entries@.len(),
            0 <= i <= n,
            mv == jmembers_of(entries@),
            mv.len() == n,
            forall|j: int| 0 <= j < mv.len()
                ==> mv[j] == (entries@[j].0@, crate::json::jval_of(entries@[j].1)),
            obj_lookup(mv.skip(i as int), key@) == obj_lookup(mv, key@),
        decreases n - i,
    {
        if str_eq(entries[i].0.as_str(), key) {
            proof {
                assert(mv.skip(i as int)[0] == mv[i as int]);
            }
            return Option::Some(&entries[i].1);
        }
        proof {
            assert(mv.skip(i as int)[0] == mv[i as int]);
            assert(mv.skip(i as int).skip(1) =~= mv.skip(i + 1));
        }
        i = i + 1;
    }
    proof {
        assert(mv.skip(i as int) =~= Seq::<(Seq<char>, JVal)>::empty());
    }
    Option::None
}

impl RpcApi {
    /// An empty registry.
    pub fn new() -> (r: RpcApi)
        ensures
            r@.methods == Seq::<Seq<char>>::empty(),
            r@.constructors == Seq::<Seq<char>>::empty(),
            r@.data == Seq::<(Seq<char>, JVal)>::empty(),
    {
        let r = RpcApi { methods: Vec::new(), constructors: Vec::new(), data: Vec::new() };
        proof {
            assert(strings_view(r.methods@) =~= Seq::<Seq<char>>::empty());
            assert(strings_view(r.constructors@) =~= Seq::<Seq<char>>::empty());
        }
        r
    }

    /// Expose a method under its full dotted name.
    pub fn register_method(&mut self, name: &str)
        ensures
            final(self)@.methods == old(self)@.methods.push(name@),
            final(self)@.constructors == old(self)@.constructors,
            final(self)@.data == old(self)@.data,
    {
        self.methods.push(String::from_str(name));
        proof {
            assert(strings_view(self.methods@) =~= strings_view(old(self).methods@).push(name@));
        }
    }

    /// Expose a constructor under its name.
    pub fn register_constructor(&mut self, name: &str)
        ensures
            final(self)@.constructors == old(self)@.constructors.push(name@),
            final(self)@.methods == old(self)@.methods,
            final(self)@.data == old(self)@.data,
    {
        self.constructors.push(String::from_str(name));
        proof {
            assert(strings_view(self.constructors@)
                =~= strings_view(old(self).constructors@).push(name@));
        }
    }

    /// Store a value under a dotted path, overwriting any old value.
    pub fn set_value(&mut self, path: &str, value: JsonValue)
        ensures
            final(self)@.data == data_set(old(self)@.data, path@, value@),
            final(self)@.methods == old(self)@.methods,
            final(self)@.constructors == old(self)@.constructors,
    {
        let ghost dv = jmembers_of(self.data@);
        proof {
            lemma_jmembers_of(self.data@);
        }
        let n = self.data.len();
        let mut i: usize = 0;
        while i < n
            invariant
                n == self.data@.len(),
                0 <= i <= n,
                dv == jmembers_of(self.data@),
                dv.len() == n,
                forall|j: int| 0 <= j < dv.len()
                    ==> dv[j] == (self.data@[j].0@, crate::json::jval_of(self.data@[j].1)),
                forall|j: int| 0 <= j < i ==> dv[j].0 != path@,
                self.methods == old(self).methods,
                self.constructors == old(self).constructors,
                self.data == old(self).data,
            decreases n - i,
        {
            if str_eq(self.data[i].0.as_str(), path) {
                proof {
                    lemma_find_first_key_hit(dv, path@, i as int);
                }
                self.data.set(i, (String::from_str(path), value));
                proof {
                    lemma_jmembers_of(self.data@);
                    assert(jmembers_of(self.data@) =~= dv.update(i as int, (path@, value@)));
                }
                return ;
            }
            i = i + 1;
        }
        proof {
            lemma_find_first_key_miss(dv, path@);
        }
        let ghost old_data = self.data@;
        self.data.push((String::from_str(path), value));
        proof {
            lemma_jmembers_of(self.data@);
            lemma_jmembers_of(old_data);
            assert(jmembers_of(self.data@) =~= dv.push((path@, value@)));
        }
    }

    /// The value stored under a dotted path, if any.
    pub fn get_value(&self, path: &str) -> (r: Option<JsonValue>)
        ensures
            match r {
                Option::Some(v) => obj_lookup(self@.data, path@) == Option::Some(v@),
                Option::None => obj_lookup(self@.data, path@) is None,
            },
    {
        match lookup_entry(&self.data, path) {
            Option::Some(v) => Option::Some(v.deep_clone()),
            Option::None => Option::None,
        }
    }
}

/// What the transport loop must do with one received line.
pub enum Action {
    /// Nothing: the line was empty, malformed, or matched nothing.
    Ignore,
    /// Complete the caller waiting on `id` with `outcome`.
    Deliver { id: String, outcome: CallOutcome },
    /// Invoke the local function registered under `token`.
    InvokeCallback { token: String, args: Vec<JsonValue> },
    /// Run the named handler and reply with `response_line`.
    RunHandler { constructor: bool, id: String, method: String, args: Vec<IncomingArg> },
    /// Write this line to the transport.
    Reply { line: String },
}

/// Mathematical model of an `Action`.
pub enum ActModel {
    Ignore,
    Deliver { id: Seq<char>, outcome: OutcomeModel },
    InvokeCallback { token: Seq<char>, args: Seq<JVal> },
    RunHandler { constructor: bool, id: Seq<char>, method: Seq<char>, args: Seq<InArgModel> },
    Reply { line: Seq<char> },
}

impl View for Action {
    type V = ActModel;

    open spec fn view(&self) -> ActModel {
        match self {
            Action::Ignore => ActModel::Ignore,
            Action::Deliver { id, outcome } => ActModel::Deliver { id: id@, outcome: outcome@ },
            Action::InvokeCallback { token, args } => ActModel::InvokeCallback {
                token: token@,
                args: values_view(args@),
            },
            Action::RunHandler { constructor, id, method, args } => ActModel::RunHandler {
                constructor: *constructor,
                id: id@,
                method: method@,
                args: in_args_view(args@),
            },
            Action::Reply { line } => ActModel::Reply { line: line@ },
        }
    }
}

/// The envelope that answers request `id` with `result`.
pub open spec fn response_model(id: Seq<char>, result: JVal) -> MsgModel {
    MsgModel {
        id: id,
        method: Seq::empty(),
        args: Option::Some(JVal::Obj(seq![("result"@, result)])),
        msg_type: MessageType::Response,
        callback_ids: Option::None,
        version: Option::Some("json"@),
        path: Option::None,
        value: Option::None,
    }
}

/// The envelope that invokes callback `token` of request `id`.
pub open spec fn callback_model(id: Seq<char>, token: Seq<char>, args: Seq<JVal>) -> MsgModel {
    MsgModel {
        id: id,
        method: token,
        args: Option::Some(JVal::Arr(args)),
        msg_type: MessageType::Callback,
        callback_ids: Option::None,
        version: Option::Some("json"@),
        path: Option::None,
        value: Option::None,
    }
}

/// The envelope of an outbound call: its marshaled arguments, and the
/// advisory list of callback tokens they hold.
pub open spec fn request_model(
    mt: MessageType,
    id: Seq<char>,
    method: Seq<char>,
    wire_args: Seq<JVal>,
    tokens: Seq<Seq<char>>,
) -> MsgModel {
    MsgModel {
        id: id,
        method: method,
        args: if wire_args.len() == 0 {
            Option::None
        } else {
            Option::Some(JVal::Arr(wire_args))
        },
        msg_type: mt,
        callback_ids: if tokens.len() == 0 {
            Option::None
        } else {
            Option::Some(tokens)
        },
        version: Option::Some("json"@),
        path: Option::None,
        value: Option::None,
    }
}

/// The envelope of a property read.
pub open spec fn get_model(id: Seq<char>, path: Seq<Seq<char>>) -> MsgModel {
    MsgModel {
        id: id,
        method: Seq::empty(),
        args: Option::None,
        msg_type: MessageType::Get,
        callback_ids: Option::None,
        version: Option::Some("json"@),
        path: Option::Some(path),
        value: Option::None,
    }
}

/// The envelope of a property write.
pub open spec fn set_model(id: Seq<char>, path: Seq<Seq<char>>, v: JVal) -> MsgModel {
    MsgModel {
        id: id,
        method: Seq::empty(),
        args: Option::None,
        msg_type: MessageType::SetValue,
        callback_ids: Option::None,
        version: Option::Some("json"@),
        path: Option::Some(path),
        value: Option::Some(v),
    }
}

/// The line that answers request `id` with `result`.
pub fn response_line(id: &str, result: JsonValue) -> (r: String)
    ensures
        r@ == ser_msg(response_model(id@, result@)).push('\n'),
{
    let mut members: Vec<(String, JsonValue)> = Vec::new();
    members.push((String::from_str("result"), result));
    let args_obj = JsonValue::Obj(members);
    proof {
        lemma_jmembers_of(members@);
        assert(args_obj@ =~= JVal::Obj(seq![("result"@, result@)]));
    }
    let msg = Message {
        id: String::from_str(id),
        method: String::new(),
        args: Option::Some(args_obj),
        msg_type: MessageType::Response,
        callback_ids: Option::None,
        version: Option::Some(String::from_str("json")),
        path: Option::None,
        value: Option::None,
    };
    proof {
        assert(msg@ == response_model(id@, result@));
    }
    serialize_message(&msg)
}

/// The line that invokes callback `token` of request `id` with `args`.
pub fn callback_line(id: &str, token: &str, args: Vec<JsonValue>) -> (r: String)
    ensures
        r@ == ser_msg(callback_model(id@, token@, values_view(args@))).push('\n'),
{
    let ghost argsm = args@;
    let msg = Message {
        id: String::from_str(id),
        method: String::from_str(token),
        args: Option::Some(JsonValue::Arr(args)),
        msg_type: MessageType::Callback,
        callback_ids: Option::None,
        version: Option::Some(String::from_str("json")),
        path: Option::None,
        value: Option::None,
    };
    proof {
        lemma_jvals_of(argsm);
        assert(jvals_of(argsm) =~= values_view(argsm));
        assert(msg@ == callback_model(id@, token@, values_view(argsm)));
    }
    serialize_message(&msg)
}

/// Classify the inbound argument array: each `__callback__` string
/// becomes the token of a remote callback, everything else stays a
/// plain value.
pub fn unmarshal_args(args: Option<JsonValue>) -> (r: Vec<IncomingArg>)
    ensures
        in_args_view(r@) == unmarshal_spec(arr_items(match args {
            Option::Some(a) => Option::Some(a@),
            Option::None => Option::None,
        })),
{
    let items: Vec<JsonValue> = match args {
        Option::Some(JsonValue::Arr(items)) => items,
        _ => Vec::new(),
    };
    let ghost itemsm = jvals_of(items@);
    proof {
        lemma_jvals_of(items@);
        assert(jvals_of(Seq::<JsonValue>::empty()) =~= Seq::<JVal>::empty());
    }
    let n = items.len();
    let mut out: Vec<IncomingArg> = Vec::new();
    let mut i: usize = 0;
    while i < n
        invariant
            n == items@.len(),
            0 <= i <= n,
            itemsm == jvals_of(items@),
            itemsm.len() == n,
            forall|j: int| 0 <= j < n ==> itemsm[j] == items@[j]@,
            out@.len() == i,
            forall|j: int| 0 <= j < i ==> out@[j]@ == unmarshal_one(itemsm[j]),
        decreases n - i,
    {
        match &items[i] {
            JsonValue::Str(s) => {
                let len = s.as_str().unicode_len();
                if len >= 12 {
                    let head = s.as_str().substring_char(0, 12);
                    if str_eq(head, "__callback__") {
                        let token = s.as_str().substring_char(12, len);
                        out.push(IncomingArg::Callback(String::from_str(token)));
                    } else {
                        proof {
                            assert(!is_cb_str(s@));
                        }
                        out.push(IncomingArg::Value(items[i].deep_clone()));
                    }
                } else {
                    proof {
                        assert(!is_cb_str(s@));
                    }
                    out.push(IncomingArg::Value(items[i].deep_clone()));
                }
            },
            _ => {
                out.push(IncomingArg::Value(items[i].deep_clone()));
            },
        }
        i = i + 1;
    }
    proof {
        assert(in_args_view(out@) =~= unmarshal_spec(itemsm));
    }
    out
}

/// Mathematical model of a `PeerCore`.
pub struct PeerModel {
    pub pending: Seq<Seq<char>>,
    pub callbacks: Seq<Seq<char>>,
    pub methods: Seq<Seq<char>>,
    pub constructors: Seq<Seq<char>>,
    pub data: Seq<(Seq<char>, JVal)>,
    pub closed: bool,
}

/// What the dispatcher does with one received line: the peer's next
/// state and the action the transport loop must carry out.
pub open spec fn dispatch_spec(s: PeerModel, line: Seq<char>) -> (PeerModel, ActModel) {
    match spec_decode_line(line) {
        Option::None => (s, ActModel::Ignore),
        Option::Some(m) => match m.msg_type {
            MessageType::Response => {
                let i = find_first(s.pending, m.id);
                if i >= 0 {
                    (
                        PeerModel { pending: s.pending.remove(i), ..s },
                        ActModel::Deliver { id: m.id, outcome: outcome_of(m.args) },
                    )
                } else {
                    (s, ActModel::Ignore)
                }
            },
            MessageType::Callback => {
                if find_first(s.callbacks, m.method) >= 0 {
                    (s, ActModel::InvokeCallback { token: m.method, args: arr_items(m.args) })
                } else {
                    (s, ActModel::Ignore)
                }
            },
            MessageType::Request => {
                if find_first(s.methods, m.method) >= 0 {
                    (
                        s,
                        ActModel::RunHandler {
                            constructor: false,
                            id: m.id,
                            method: m.method,
                            args: unmarshal_spec(arr_items(m.args)),
                        },
                    )
                } else {
                    (
                        s,
                        ActModel::Reply {
                            line: ser_msg(response_model(m.id, JVal::Null)).push('\n'),
                        },
                    )
                }
            },
            MessageType::Construct => {
                if find_first(s.constructors, m.method) >= 0 {
                    (
                        s,
                        ActModel::RunHandler {
                            constructor: true,
                            id: m.id,
                            method: m.method,
                            args: unmarshal_spec(arr_items(m.args)),
                        },
                    )
                } else {
                    (
                        s,
                        ActModel::Reply {
                            line: ser_msg(response_model(m.id, JVal::Null)).push('\n'),
                        },
                    )
                }
            },
            MessageType::Get => {
                let key = join_dotted(match m.path {
                    Option::Some(p) => p,
                    Option::None => Seq::empty(),
                });
                let res = match obj_lookup(s.data, key) {
                    Option::Some(v) => v,
                    Option::None => JVal::Null,
                };
                (s, ActModel::Reply { line: ser_msg(response_model(m.id, res)).push('\n') })
            },
            MessageType::SetValue => {
                let key = join_dotted(match m.path {
                    Option::Some(p) => p,
                    Option::None => Seq::empty(),
                });
                let v = match m.value {
                    Option::Some(v) => v,
                    Option::None => JVal::Null,
                };
                (
                    PeerModel { data: data_set(s.data, key, v), ..s },
                    ActModel::Reply {
                        line: ser_msg(response_model(m.id, JVal::Bool(true))).push('\n'),
                    },
                )
            },
        },
    }
}

/// One call built and ready to send: the framed line, the fresh
/// request id, and the tokens assigned to callback arguments, in
/// argument order.
#[derive(Debug)]
pub struct BuiltCall {
    pub id: String,
    pub line: String,
    pub callback_tokens: Vec<String>,
}

/// How many arguments are callbacks.
pub open spec fn cb_count(args: Seq<ArgModel>) -> nat
    decreases args.len(),
{
    if args.len() == 0 {
        0
    } else {
        (match args[0] {
            ArgModel::Callback => 1nat,
            ArgModel::Value(_) => 0nat,
        }) + cb_count(args.skip(1))
    }
}

/// The wire form of the arguments: values pass through, each callback
/// becomes the marker string of its token.
pub open spec fn marshal_args(args: Seq<ArgModel>, tokens: Seq<Seq<char>>) -> Seq<JVal>
    decreases args.len(),
{
    if args.len() == 0 {
        Seq::empty()
    } else {
        match args[0] {
            ArgModel::Value(v) => seq![v] + marshal_args(args.skip(1), tokens),
            ArgModel::Callback => seq![JVal::Str(cb_prefix() + tokens[0])] + marshal_args(
                args.skip(1),
                tokens.skip(1),
            ),
        }
    }
}

/// Appending one value argument appends its wire form.
proof fn lemma_marshal_snoc_value(args: Seq<ArgModel>, tokens: Seq<Seq<char>>, v: JVal)
    requires
        cb_count(args) == tokens.len(),
    ensures
        marshal_args(args.push(ArgModel::Value(v)), tokens) == marshal_args(args, tokens).push(v),
        cb_count(args.push(ArgModel::Value(v))) == cb_count(args),
    decreases args.len(),
{
    reveal_with_fuel(marshal_args, 3);
    reveal_with_fuel(cb_count, 3);
    let w = args.push(ArgModel::Value(v));
    if args.len() == 0 {
        assert(w[0] == ArgModel::Value(v));
        assert(w.skip(1) =~= Seq::<ArgModel>::empty());
        assert(seq![v] + Seq::<JVal>::empty() =~= Seq::<JVal>::empty().push(v));
    } else {
        assert(w[0] == args[0]);
        assert(w.skip(1) =~= args.skip(1).push(ArgModel::Value(v)));
        match args[0] {
            ArgModel::Value(v0) => {
                lemma_marshal_snoc_value(args.skip(1), tokens, v);
                assert(seq![v0] + marshal_args(args.skip(1), tokens).push(v)
                    =~= (seq![v0] + marshal_args(args.skip(1), tokens)).push(v));
            },
            ArgModel::Callback => {
                lemma_marshal_snoc_value(args.skip(1), tokens.skip(1), v);
                assert(seq![JVal::Str(cb_prefix() + tokens[0])] + marshal_args(
                    args.skip(1),
                    tokens.skip(1),
                ).push(v) =~= (seq![JVal::Str(cb_prefix() + tokens[0])] + marshal_args(
                    args.skip(1),
                    tokens.skip(1),
                )).push(v));
            },
        }
    }
}

/// Appending one callback argument appends its marker and consumes
/// its token.
proof fn lemma_marshal_snoc_cb(args: Seq<ArgModel>, tokens: Seq<Seq<char>>, tok: Seq<char>)
    requires
        cb_count(args) == tokens.len(),
    ensures
        marshal_args(args.push(ArgModel::Callback), tokens.push(tok)) == marshal_args(
            args,
            tokens,
        ).push(JVal::Str(cb_prefix() + tok)),
        cb_count(args.push(ArgModel::Callback)) == cb_count(args) + 1,
    decreases args.len(),
{
    reveal_with_fuel(marshal_args, 3);
    reveal_with_fuel(cb_count, 3);
    let w = args.push(ArgModel::Callback);
    let tw = tokens.push(tok);
    if args.len() == 0 {
        assert(w[0] == ArgModel::Callback);
        assert(w.skip(1) =~= Seq::<ArgModel>::empty());
        assert(tw[0] == tok);
        assert(tw.skip(1) =~= Seq::<Seq<char>>::empty());
        assert(seq![JVal::Str(cb_prefix() + tok)] + Seq::<JVal>::empty()
            =~= Seq::<JVal>::empty().push(JVal::Str(cb_prefix() + tok)));
    } else {
        assert(w[0] == args[0]);
        assert(w.skip(1) =~= args.skip(1).push(ArgModel::Callback));
        match args[0] {
            ArgModel::Value(v0) => {
                lemma_marshal_snoc_cb(args.skip(1), tokens, tok);
                assert(seq![v0] + marshal_args(args.skip(1), tokens).push(
                    JVal::Str(cb_prefix() + tok),
                ) =~= (seq![v0] + marshal_args(args.skip(1), tokens)).push(
                    JVal::Str(cb_prefix() + tok),
                ));
            },
            ArgModel::Callback => {
                assert(cb_count(args.skip(1)) == tokens.len() - 1);
                assert(tw[0] == tokens[0]);
                assert(tw.skip(1) =~= tokens.skip(1).push(tok));
                lemma_marshal_snoc_cb(args.skip(1), tokens.skip(1), tok);
                assert(seq![JVal::Str(cb_prefix() + tokens[0])] + marshal_args(
                    args.skip(1),
                    tokens.skip(1),
                ).push(JVal::Str(cb_prefix() + tok)) =~= (seq![JVal::Str(cb_prefix() + tokens[0])]
                    + marshal_args(args.skip(1), tokens.skip(1))).push(
                    JVal::Str(cb_prefix() + tok),
                ));
            },
        }
    }
}

/// One endpoint's engine: both the client and the server side of a
/// single full-duplex line-framed connection.
///
/// Callback tokens are never retired: the wire carries no lifetime
/// signal for them, so the registry grows with each callback-bearing
/// call. This is a known property of the protocol, not an oversight.
pub struct PeerCore {
    ids: IdSource,
    pending: Vec<String>,
    callbacks: Vec<String>,
    api: RpcApi,
    closed: bool,
}

impl View for PeerCore {
    type V = PeerModel;

    closed spec fn view(&self) -> PeerModel {
        PeerModel {
            pending: strings_view(self.pending@),
            callbacks: strings_view(self.callbacks@),
            methods: self.api@.methods,
            constructors: self.api@.constructors,
            data: self.api@.data,
            closed: self.closed,
        }
    }
}

impl PeerCore {
    /// A fresh peer around its local API.
    pub fn new(api: RpcApi) -> (r: PeerCore)
        ensures
            r@.pending == Seq::<Seq<char>>::empty(),
            r@.callbacks == Seq::<Seq<char>>::empty(),
            r@.methods == api@.methods,
            r@.constructors == api@.constructors,
            r@.data == api@.data,
            !r@.closed,
    {
        let r = PeerCore {
            ids: IdSource::new(),
            pending: Vec::new(),
            callbacks: Vec::new(),
            api: api,
            closed: false,
        };
        proof {
            assert(strings_view(r.pending@) =~= Seq::<Seq<char>>::empty());
            assert(strings_view(r.callbacks@) =~= Seq::<Seq<char>>::empty());
        }
        r
    }

    /// The error every call gets once the transport is closed.
    fn closed_error() -> (r: RpcError)
        ensures
            r@.name is None,
            r@.message == "transport closed"@,
            r@.data is Null,
    {
        RpcError {
            name: Option::None,
            message: String::from_str("transport closed"),
            data: JsonValue::Null,
        }
    }

    /// Build one outbound request or construct envelope: marshal the
    /// arguments, register the callback tokens, record the fresh id as
    /// pending. Fails only when the peer is closed.
    fn build_outbound(&mut self, constructor: bool, method: &str, args: Vec<Arg>) -> (r: Result<
        BuiltCall,
        RpcError,
    >)
        ensures
            old(self)@.closed ==> r is Err && final(self)@ == old(self)@,
            !old(self)@.closed ==> match r {
                Result::Ok(b) => {
                    &&& b.line@ == ser_msg(
                        request_model(
                            if constructor {
                                MessageType::Construct
                            } else {
                                MessageType::Request
                            },
                            b.id@,
                            method@,
                            marshal_args(args_view(args@), strings_view(b.callback_tokens@)),
                            strings_view(b.callback_tokens@),
                        ),
                    ).push('\n')
                    &&& b.callback_tokens@.len() == cb_count(args_view(args@))
                    &&& final(self)@ == (PeerModel {
                        pending: old(self)@.pending.push(b.id@),
                        callbacks: old(self)@.callbacks + strings_view(b.callback_tokens@),
                        ..old(self)@
                    })
                },
                Result::Err(_) => false,
            },
            r matches Result::Err(e) ==> e@.message == "transport closed"@,
    {
        if self.closed {
            return Result::Err(Self::closed_error());
        }
        let id = self.ids.fresh();
        let ghost am = args_view(args@);
        let n = args.len();
        let mut wire_args: Vec<JsonValue> = Vec::new();
        let mut tokens: Vec<String> = Vec::new();
        let mut msg_tokens: Vec<String> = Vec::new();
        let mut i: usize = 0;
        proof {
            lemma_jvals_of(wire_args@);
            assert(jvals_of(wire_args@) =~= marshal_args(am.take(0), strings_view(tokens@)));
            assert(cb_count(am.take(0)) == 0);
            assert(strings_view(tokens@) =~= Seq::<Seq<char>>::empty());
            assert(strings_view(self.callbacks@)
                =~= old(self)@.callbacks + strings_view(tokens@));
        }
        while i < n
            invariant
                n == args@.len(),
                0 <= i <= n,
                am == args_view(args@),
                am.len() == n,
                forall|j: int| 0 <= j < n ==> am[j] == args@[j]@,
                cb_count(am.take(i as int)) == tokens@.len(),
                strings_view(msg_tokens@) == strings_view(tokens@),
                jvals_of(wire_args@) == marshal_args(am.take(i as int), strings_view(tokens@)),
                strings_view(self.callbacks@) == old(self)@.callbacks + strings_view(tokens@),
                self.pending == old(self).pending,
                self.api == old(self).api,
                self.closed == old(self).closed,
                !self.closed,
            decreases n - i,
        {
            let ghost prev_wire = wire_args@;
            let ghost prev_tokens = strings_view(tokens@);
            match &args[i] {
                Arg::Value(v) => {
                    wire_args.push(v.deep_clone());
                    proof {
                        lemma_marshal_snoc_value(am.take(i as int), prev_tokens, am[i as int]->Value_0);
                        assert(am.take(i + 1) =~= am.take(i as int).push(am[i as int]));
                        lemma_jvals_of(wire_args@);
                        lemma_jvals_of(prev_wire);
                        assert(jvals_of(wire_args@)
                            =~= marshal_args(am.take(i as int), prev_tokens).push(am[i as int]->Value_0));
                    }
                },
                Arg::Callback => {
                    let tok = self.ids.fresh();
                    self.callbacks.push(tok.clone());
                    let mut marker = String::from_str("__callback__");
                    marker.append(tok.as_str());
                    wire_args.push(JsonValue::Str(marker));
                    msg_tokens.push(tok.clone());
                    let ghost prev_cbs = old(self)@.callbacks + prev_tokens;
                    tokens.push(tok);
                    proof {
                        let tokv = strings_view(tokens@)[tokens@.len() - 1];
                        assert(strings_view(tokens@) =~= prev_tokens.push(tokv));
                        assert(strings_view(msg_tokens@) =~= strings_view(tokens@));
                        lemma_marshal_snoc_cb(am.take(i as int), prev_tokens, tokv);
                        assert(am.take(i + 1) =~= am.take(i as int).push(am[i as int]));
                        lemma_jvals_of(wire_args@);
                        lemma_jvals_of(prev_wire);
                        assert(jvals_of(wire_args@)
                            =~= marshal_args(am.take(i as int), prev_tokens).push(
                            JVal::Str(cb_prefix() + tokv),
                        ));
                        assert(strings_view(self.callbacks@) =~= prev_cbs.push(tokv));
                        assert(strings_view(self.callbacks@)
                            =~= old(self)@.callbacks + strings_view(tokens@));
                    }
                },
            }
            i = i + 1;
        }
        proof {
            assert(am.take(n as int) =~= am);
        }
        let args_opt: Option<JsonValue> = if wire_args.len() == 0 {
            Option::None
        } else {
            Option::Some(JsonValue::Arr(wire_args))
        };
        let cb_opt: Option<Vec<String>> = if msg_tokens.len() == 0 {
            Option::None
        } else {
            Option::Some(msg_tokens)
        };
        let msg = Message {
            id: id.clone(),
            method: String::from_str(method),
            args: args_opt,
            msg_type: if constructor {
                MessageType::Construct
            } else {
                MessageType::Request
            },
            callback_ids: cb_opt,
            version: Option::Some(String::from_str("json")),
            path: Option::None,
            value: Option::None,
        };
        let line = serialize_message(&msg);
        proof {
            lemma_jvals_of(wire_args@);
            assert(msg@ == request_model(
                if constructor {
                    MessageType::Construct
                } else {
                    MessageType::Request
                },
                id@,
                method@,
                marshal_args(am, strings_view(tokens@)),
                strings_view(tokens@),
            ));
        }
        let ghost prev_pending = strings_view(self.pending@);
        self.pending.push(id.clone());
        proof {
            assert(strings_view(self.pending@) =~= prev_pending.push(id@));
        }
        Result::Ok(BuiltCall { id: id, line: line, callback_tokens: tokens })
    }

    /// Build the envelope of a remote method call.
    pub fn build_call(&mut self, method: &str, args: Vec<Arg>) -> (r: Result<BuiltCall, RpcError>)
        ensures
            old(self)@.closed ==> r is Err && final(self)@ == old(self)@,
            !old(self)@.closed ==> match r {
                Result::Ok(b) => {
                    &&& b.line@ == ser_msg(
                        request_model(
                            MessageType::Request,
                            b.id@,
                            method@,
                            marshal_args(args_view(args@), strings_view(b.callback_tokens@)),
                            strings_view(b.callback_tokens@),
                        ),
                    ).push('\n')
                    &&& b.callback_tokens@.len() == cb_count(args_view(args@))
                    &&& final(self)@ == (PeerModel {
                        pending: old(self)@.pending.push(b.id@),
                        callbacks: old(self)@.callbacks + strings_view(b.callback_tokens@),
                        ..old(self)@
                    })
                },
                Result::Err(_) => false,
            },
            r matches Result::Err(e) ==> e@.message == "transport closed"@,
    {
        self.build_outbound(false, method, args)
    }

    /// Build the envelope of a remote constructor call.
    pub fn build_construct(&mut self, method: &str, args: Vec<Arg>) -> (r: Result<
        BuiltCall,
        RpcError,
    >)
        ensures
            old(self)@.closed ==> r is Err && final(self)@ == old(self)@,
            !old(self)@.closed ==> match r {
                Result::Ok(b) => {
                    &&& b.line@ == ser_msg(
                        request_model(
                            MessageType::Construct,
                            b.id@,
                            method@,
                            marshal_args(args_view(args@), strings_view(b.callback_tokens@)),
                            strings_view(b.callback_tokens@),
                        ),
                    ).push('\n')
                    &&& final(self)@ == (PeerModel {
                        pending: old(self)@.pending.push(b.id@),
                        callbacks: old(self)@.callbacks + strings_view(b.callback_tokens@),
                        ..old(self)@
                    })
                },
                Result::Err(_) => false,
            },
            r matches Result::Err(e) ==> e@.message == "transport closed"@,
    {
        self.build_outbound(true, method, args)
    }

    /// Build the envelope of a property read.
    pub fn build_get(&mut self, path: &Vec<String>) -> (r: Result<BuiltCall, RpcError>)
        ensures
            old(self)@.closed ==> r is Err && final(self)@ == old(self)@,
            !old(self)@.closed ==> match r {
                Result::Ok(b) => {
                    &&& b.line@ == ser_msg(get_model(b.id@, strings_view(path@))).push('\n')
                    &&& final(self)@ == (PeerModel {
                        pending: old(self)@.pending.push(b.id@),
                        ..old(self)@
                    })
                },
                Result::Err(_) => false,
            },
            r matches Result::Err(e) ==> e@.message == "transport closed"@,
    {
        if self.closed {
            return Result::Err(Self::closed_error());
        }
        let id = self.ids.fresh();
        let msg = Message {
            id: id.clone(),
            method: String::new(),
            args: Option::None,
            msg_type: MessageType::Get,
            callback_ids: Option::None,
            version: Option::Some(String::from_str("json")),
            path: Option::Some(clone_strings(path)),
            value: Option::None,
        };
        let line = serialize_message(&msg);
        proof {
            assert(msg@ == get_model(id@, strings_view(path@)));
        }
        let ghost prev_pending = strings_view(self.pending@);
        self.pending.push(id.clone());
        proof {
            assert(strings_view(self.pending@) =~= prev_pending.push(id@));
        }
        Result::Ok(BuiltCall { id: id, line: line, callback_tokens: Vec::new() })
    }

    /// Build the envelope of a property write.
    pub fn build_set(&mut self, path: &Vec<String>, value: JsonValue) -> (r: Result<
        BuiltCall,
        RpcError,
    >)
        ensures
            old(self)@.closed ==> r is Err && final(self)@ == old(self)@,
            !old(self)@.closed ==> match r {
                Result::Ok(b) => {
                    &&& b.line@ == ser_msg(
                        set_model(b.id@, strings_view(path@), value@),
                    ).push('\n')
                    &&& final(self)@ == (PeerModel {
                        pending: old(self)@.pending.push(b.id@),
                        ..old(self)@
                    })
                },
                Result::Err(_) => false,
            },
            r matches Result::Err(e) ==> e@.message == "transport closed"@,
    {
        if self.closed {
            return Result::Err(Self::closed_error());
        }
        let id = self.ids.fresh();
        let msg = Message {
            id: id.clone(),
            method: String::new(),
            args: Option::None,
            msg_type: MessageType::SetValue,
            callback_ids: Option::None,
            version: Option::Some(String::from_str("json")),
            path: Option::Some(clone_strings(path)),
            value: Option::Some(value),
        };
        let line = serialize_message(&msg);
        proof {
            assert(msg@ == set_model(id@, strings_view(path@), value@));
        }
        let ghost prev_pending = strings_view(self.pending@);
        self.pending.push(id.clone());
        proof {
            assert(strings_view(self.pending@) =~= prev_pending.push(id@));
        }
        Result::Ok(BuiltCall { id: id, line: line, callback_tokens: Vec::new() })
    }

    /// Dispatch one received line, as `dispatch_spec` says.
    pub fn handle_line(&mut self, line: &str) -> (act: Action)
        ensures
            final(self)@ == dispatch_spec(old(self)@, line@).0,
            act@ == dispatch_spec(old(self)@, line@).1,
    {
        let msg = match deserialize_message(line) {
            Result::Ok(m) => m,
            Result::Err(_) => {
                return Action::Ignore;
            },
        };
        match msg.msg_type {
            MessageType::Response => {
                match index_of_str(&self.pending, msg.id.as_str()) {
                    Option::Some(i) => {
                        let ghost prev_pending = strings_view(self.pending@);
                        self.pending.remove(i);
                        proof {
                            assert(strings_view(self.pending@)
                                =~= prev_pending.remove(i as int));
                        }
                        let outcome = response_outcome(&msg.args);
                        Action::Deliver { id: msg.id, outcome: outcome }
                    },
                    Option::None => Action::Ignore,
                }
            },
            MessageType::Callback => {
                match index_of_str(&self.callbacks, msg.method.as_str()) {
                    Option::Some(_) => {
                        let items: Vec<JsonValue> = match msg.args {
                            Option::Some(JsonValue::Arr(items)) => items,
                            _ => Vec::new(),
                        };
                        proof {
                            lemma_jvals_of(items@);
                            assert(values_view(items@) =~= jvals_of(items@));
                            assert(jvals_of(Seq::<JsonValue>::empty()) =~= Seq::<JVal>::empty());
                        }
                        Action::InvokeCallback { token: msg.method, args: items }
                    },
                    Option::None => Action::Ignore,
                }
            },
            MessageType::Request => {
                let args_in = unmarshal_args(msg.args);
                match index_of_str(&self.api.methods, msg.method.as_str()) {
                    Option::Some(_) => Action::RunHandler {
                        constructor: false,
                        id: msg.id,
                        method: msg.method,
                        args: args_in,
                    },
                    Option::None => Action::Reply {
                        line: response_line(msg.id.as_str(), JsonValue::Null),
                    },
                }
            },
            MessageType::Construct => {
                let args_in = unmarshal_args(msg.args);
                match index_of_str(&self.api.constructors, msg.method.as_str()) {
                    Option::Some(_) => Action::RunHandler {
                        constructor: true,
                        id: msg.id,
                        method: msg.method,
                        args: args_in,
                    },
                    Option::None => Action::Reply {
                        line: response_line(msg.id.as_str(), JsonValue::Null),
                    },
                }
            },
            MessageType::Get => {
                let key = match &msg.path {
                    Option::Some(p) => join_path(p),
                    Option::None => String::new(),
                };
                let res = match self.api.get_value(key.as_str()) {
                    Option::Some(v) => v,
                    Option::None => JsonValue::Null,
                };
                Action::Reply { line: response_line(msg.id.as_str(), res) }
            },
            MessageType::SetValue => {
                let key = match &msg.path {
                    Option::Some(p) => join_path(p),
                    Option::None => String::new(),
                };
                let v = match msg.value {
                    Option::Some(v) => v,
                    Option::None => JsonValue::Null,
                };
                self.api.set_value(key.as_str(), v);
                Action::Reply { line: response_line(msg.id.as_str(), JsonValue::Bool(true)) }
            },
        }
    }

    /// Note that the transport has closed, and hand back every
    /// outstanding request id so its caller can be failed.
    pub fn mark_closed(&mut self) -> (abandoned: Vec<String>)
        ensures
            final(self)@ == (PeerModel {
                pending: Seq::<Seq<char>>::empty(),
                closed: true,
                ..old(self)@
            }),
            strings_view(abandoned@) == old(self)@.pending,
    {
        self.closed = true;
        let mut out: Vec<String> = Vec::new();
        core::mem::swap(&mut out, &mut self.pending);
        proof {
            assert(strings_view(self.pending@) =~= Seq::<Seq<char>>::empty());
        }
        out
    }

    /// Whether the peer has been closed.
    pub fn is_closed(&self) -> (r: bool)
        ensures
            r == self@.closed,
    {
        self.closed
    }

    /// Register a method on the local API.
    pub fn register_method(&mut self, name: &str)
        ensures
            final(self)@ == (PeerModel { methods: old(self)@.methods.push(name@), ..old(self)@ }),
    {
        self.api.register_method(name);
    }

    /// Register a constructor on the local API.
    pub fn register_constructor(&mut self, name: &str)
        ensures
            final(self)@ == (PeerModel {
                constructors: old(self)@.constructors.push(name@),
                ..old(self)@
            }),
    {
        self.api.register_constructor(name);
    }

    /// Seed or overwrite a local property.
    pub fn set_value(&mut self, path: &str, value: JsonValue)
        ensures
            final(self)@ == (PeerModel {
                data: data_set(old(self)@.data, path@, value@),
                ..old(self)@
            }),
    {
        self.api.set_value(path, value);
    }

    /// Read a local property.
    pub fn get_value(&self, path: &str) -> (r: Option<JsonValue>)
        ensures
            match r {
                Option::Some(v) => obj_lookup(self@.data, path@) == Option::Some(v@),
                Option::None => obj_lookup(self@.data, path@) is None,
            },
    {
        self.api.get_value(path)
    }
}

/// A copy of each string.
fn clone_strings(v: &Vec<String>) -> (r: Vec<String>)
    ensures
        strings_view(r@) == strings_view(v@),
{
    let n = v.len();
    let mut out: Vec<String> = Vec::new();
    let mut i: usize = 0;
    while i < n
        invariant
            n == v@.len(),
            0 <= i <= n,
            out@.len() == i,
            forall|j: int| 0 <= j < i ==> out@[j]@ == v@[j]@,
        decreases n - i,
    {
        out.push(v[i].clone());
        i = i + 1;
    }
    proof {
        assert(strings_view(out@) =~= strings_view(v@));
    }
    out
}

} // verus!
