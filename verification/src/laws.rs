//! The protocol's laws, proved over the dispatch model.
//!
//! Each lemma states one quantified guarantee of the engine: echoed
//! values come back equal, responses reach exactly their own caller,
//! callback markers round-trip to the registered token, written
//! properties read back, and unknown methods get a well-formed null
//! response. `lemma_sp_text_ser` in `roundtrip` and
//! `lemma_ser_val_newline_free` in `ser` carry the wire-level laws.

use vstd::prelude::*;

use crate::json::{JVal, obj_lookup, lemma_obj_lookup_single_all};
use crate::message::{MessageType, MsgModel, is_prop_type, lemma_msg_roundtrip, lemma_msg_roundtrip_framed, ser_msg};
use crate::peer::{
    ActModel, InArgModel, OutcomeModel, PeerModel, arr_items, callback_model, cb_prefix, data_set,
    dispatch_spec, find_first, find_first_key, get_model, is_cb_str, outcome_of, request_model,
    response_model, set_model, unmarshal_one, unmarshal_spec,
};

verus! {

/// `find_first` hits exactly the held values.
pub proof fn lemma_find_first_contains(ss: Seq<Seq<char>>, x: Seq<char>)
    ensures
        (find_first(ss, x) >= 0) == ss.contains(x),
        find_first(ss, x) >= 0 ==> find_first(ss, x) < ss.len() && ss[find_first(ss, x)] == x,
    decreases ss.len(),
{
    if ss.len() > 0 {
        lemma_find_first_contains(ss.skip(1), x);
        assert(forall|j: int| 0 <= j < ss.skip(1).len() ==> ss.skip(1)[j] == ss[j + 1]);
        if ss[0] == x {
            assert(ss.contains(x));
        } else {
            if ss.contains(x) {
                let i = choose|i: int| 0 <= i < ss.len() && ss[i] == x;
                assert(ss.skip(1)[i - 1] == x);
                assert(ss.skip(1).contains(x));
            }
            if ss.skip(1).contains(x) {
                let i = choose|i: int| 0 <= i < ss.skip(1).len() && ss.skip(1)[i] == x;
                assert(ss[i + 1] == x);
                assert(ss.contains(x));
            }
        }
    }
}

/// Removing one position keeps every value held elsewhere.
pub proof fn lemma_remove_keeps(ss: Seq<Seq<char>>, i: int, x: Seq<char>)
    requires
        0 <= i < ss.len(),
        ss[i] != x,
        ss.contains(x),
    ensures
        ss.remove(i).contains(x),
{
    let j = choose|j: int| 0 <= j < ss.len() && ss[j] == x;
    if j < i {
        assert(ss.remove(i)[j] == x);
    } else {
        assert(ss.remove(i)[j - 1] == x);
    }
}

/// Where `find_first_key` points, the key stands first.
proof fn lemma_find_first_key_props(entries: Seq<(Seq<char>, JVal)>, k: Seq<char>)
    ensures
        find_first_key(entries, k) >= 0 ==> {
            &&& find_first_key(entries, k) < entries.len()
            &&& entries[find_first_key(entries, k)].0 == k
            &&& forall|j: int| 0 <= j < find_first_key(entries, k) ==> entries[j].0 != k
        },
        find_first_key(entries, k) < 0 ==> forall|j: int|
            0 <= j < entries.len() ==> entries[j].0 != k,
    decreases entries.len(),
{
    if entries.len() > 0 {
        lemma_find_first_key_props(entries.skip(1), k);
        assert(forall|j: int|
            0 <= j < entries.skip(1).len() ==> entries.skip(1)[j] == entries[j + 1]);
        if entries[0].0 != k {
            let r = find_first_key(entries.skip(1), k);
            if r >= 0 {
                assert(entries[r + 1] == entries.skip(1)[r]);
                assert forall|j: int| 0 <= j < r + 1 implies entries[j].0 != k by {
                    if j > 0 {
                        assert(entries.skip(1)[j - 1] == entries[j]);
                    }
                }
            } else {
                assert forall|j: int| 0 <= j < entries.len() implies entries[j].0 != k by {
                    if j > 0 {
                        assert(entries.skip(1)[j - 1] == entries[j]);
                    }
                }
            }
        }
    }
}

/// Replacing the first entry of a key changes that key's value alone.
proof fn lemma_obj_lookup_update(entries: Seq<(Seq<char>, JVal)>, i: int, k: Seq<char>, v: JVal)
    requires
        0 <= i < entries.len(),
        entries[i].0 == k,
        forall|j: int| 0 <= j < i ==> entries[j].0 != k,
    ensures
        obj_lookup(entries.update(i, (k, v)), k) == Option::Some(v),
        forall|k2: Seq<char>| k2 != k ==> obj_lookup(entries.update(i, (k, v)), k2) == obj_lookup(
            entries,
            k2,
        ),
    decreases i,
{
    let w = entries.update(i, (k, v));
    if i == 0 {
        assert(w[0] == (k, v));
        assert(w.skip(1) =~= entries.skip(1));
        assert forall|k2: Seq<char>| k2 != k implies obj_lookup(w, k2) == obj_lookup(
            entries,
            k2,
        ) by {
            assert(entries[0].0 == k);
            assert(obj_lookup(w, k2) == obj_lookup(w.skip(1), k2));
            assert(obj_lookup(entries, k2) == obj_lookup(entries.skip(1), k2));
        }
    } else {
        assert(w[0] == entries[0]);
        assert(entries[0].0 != k);
        assert(w.skip(1) =~= entries.skip(1).update(i - 1, (k, v)));
        assert(forall|j: int|
            0 <= j < entries.skip(1).len() ==> entries.skip(1)[j] == entries[j + 1]);
        lemma_obj_lookup_update(entries.skip(1), i - 1, k, v);
        assert forall|k2: Seq<char>| k2 != k implies obj_lookup(w, k2) == obj_lookup(
            entries,
            k2,
        ) by {
            if entries[0].0 != k2 {
                assert(obj_lookup(w, k2) == obj_lookup(w.skip(1), k2));
                assert(obj_lookup(entries, k2) == obj_lookup(entries.skip(1), k2));
            }
        }
    }
}

/// Appending an entry under a fresh key changes that key alone.
proof fn lemma_obj_lookup_push(entries: Seq<(Seq<char>, JVal)>, k: Seq<char>, v: JVal)
    requires
        forall|j: int| 0 <= j < entries.len() ==> entries[j].0 != k,
    ensures
        obj_lookup(entries.push((k, v)), k) == Option::Some(v),
        forall|k2: Seq<char>| k2 != k ==> obj_lookup(entries.push((k, v)), k2) == obj_lookup(
            entries,
            k2,
        ),
    decreases entries.len(),
{
    let w = entries.push((k, v));
    if entries.len() == 0 {
        assert(w[0] == (k, v));
        assert(w.skip(1) =~= Seq::<(Seq<char>, JVal)>::empty());
        assert forall|k2: Seq<char>| k2 != k implies obj_lookup(w, k2) == obj_lookup(
            entries,
            k2,
        ) by {
            assert(obj_lookup(w, k2) == obj_lookup(w.skip(1), k2));
            assert(obj_lookup(w.skip(1), k2) is None);
        }
    } else {
        assert(w[0] == entries[0]);
        assert(w.skip(1) =~= entries.skip(1).push((k, v)));
        assert(forall|j: int|
            0 <= j < entries.skip(1).len() ==> entries.skip(1)[j] == entries[j + 1]);
        lemma_obj_lookup_push(entries.skip(1), k, v);
        assert forall|k2: Seq<char>| k2 != k implies obj_lookup(w, k2) == obj_lookup(
            entries,
            k2,
        ) by {
            if entries[0].0 != k2 {
                assert(obj_lookup(w, k2) == obj_lookup(w.skip(1), k2));
                assert(obj_lookup(entries, k2) == obj_lookup(entries.skip(1), k2));
            }
        }
    }
}

/// Writing a property stores exactly that value under exactly that
/// key: a following read returns it, and no other key moves. Two
/// successive writes leave the last value.
pub proof fn lemma_property_store(data: Seq<(Seq<char>, JVal)>, k: Seq<char>, v: JVal)
    ensures
        obj_lookup(data_set(data, k, v), k) == Option::Some(v),
        forall|k2: Seq<char>| k2 != k ==> obj_lookup(data_set(data, k, v), k2) == obj_lookup(
            data,
            k2,
        ),
{
    lemma_find_first_key_props(data, k);
    let i = find_first_key(data, k);
    if i >= 0 {
        lemma_obj_lookup_update(data, i, k, v);
    } else {
        lemma_obj_lookup_push(data, k, v);
    }
}

/// The dotted-path store is idempotent under read-after-write: a `set`
/// answered `true` followed by a `get` of the same path answers the
/// value just written, whatever ids the two envelopes carry and
/// whatever the store held before.
pub proof fn lemma_set_then_get(
    s: PeerModel,
    id1: Seq<char>,
    id2: Seq<char>,
    path: Seq<Seq<char>>,
    v: JVal,
)
    ensures
        ({
            let (s2, a1) = dispatch_spec(s, ser_msg(set_model(id1, path, v)));
            let (s3, a2) = dispatch_spec(s2, ser_msg(get_model(id2, path)));
            &&& a1 == ActModel::Reply {
                line: ser_msg(response_model(id1, JVal::Bool(true))).push('\n'),
            }
            &&& a2 == ActModel::Reply { line: ser_msg(response_model(id2, v)).push('\n') }
            &&& s3 == s2
        }),
{
    lemma_msg_roundtrip(set_model(id1, path, v));
    lemma_msg_roundtrip(get_model(id2, path));
    let key = crate::peer::join_dotted(path);
    lemma_property_store(s.data, key, v);
}

/// Echo round trip. A request for a registered method carrying one
/// plain value runs the handler with exactly that value; when the
/// handler echoes it into a response, the caller that issued the id
/// observes success with a value equal to the one it sent. A string
/// that itself starts with the callback marker is the one value this
/// does not hold for: the wire reserves that shape for callbacks.
pub proof fn lemma_echo_round_trip(
    server: PeerModel,
    client: PeerModel,
    id: Seq<char>,
    mname: Seq<char>,
    v: JVal,
)
    requires
        server.methods.contains(mname),
        !(v matches JVal::Str(s) && is_cb_str(s)),
        client.pending.contains(id),
    ensures
        dispatch_spec(server, ser_msg(request_model(MessageType::Request, id, mname, seq![v], Seq::empty())))
            == (
            server,
            ActModel::RunHandler {
                constructor: false,
                id: id,
                method: mname,
                args: seq![InArgModel::Value(v)],
            },
        ),
        dispatch_spec(client, ser_msg(response_model(id, v))) == (
            (PeerModel {
                pending: client.pending.remove(find_first(client.pending, id)),
                ..client
            }),
            ActModel::Deliver { id: id, outcome: OutcomeModel::Success(v) },
        ),
{
    let req = request_model(MessageType::Request, id, mname, seq![v], Seq::empty());
    lemma_msg_roundtrip(req);
    lemma_find_first_contains(server.methods, mname);
    assert(arr_items(req.args) == seq![v]);
    assert(unmarshal_spec(seq![v]) =~= seq![unmarshal_one(v)]);
    assert(unmarshal_one(v) == InArgModel::Value(v));

    let resp = response_model(id, v);
    lemma_msg_roundtrip(resp);
    lemma_find_first_contains(client.pending, id);
    lemma_obj_lookup_single_all();
    reveal_strlit("error");
    reveal_strlit("result");
    assert("error"@.len() == 5);
    assert("result"@.len() == 6);
    assert(outcome_of(resp.args) == OutcomeModel::Success(v));
}

/// Correlation. A response names exactly one outstanding request:
/// dispatching it completes the caller that owns its id, and every
/// other outstanding id stays pending. Swapped results cannot be
/// observed.
pub proof fn lemma_correlation(s: PeerModel, id1: Seq<char>, id2: Seq<char>, v: JVal)
    requires
        s.pending.contains(id1),
        s.pending.contains(id2),
        id1 != id2,
    ensures
        ({
            let (s2, act) = dispatch_spec(s, ser_msg(response_model(id1, v)));
            &&& act == ActModel::Deliver { id: id1, outcome: OutcomeModel::Success(v) }
            &&& s2.pending.contains(id2)
        }),
{
    let resp = response_model(id1, v);
    lemma_msg_roundtrip(resp);
    lemma_find_first_contains(s.pending, id1);
    lemma_obj_lookup_single_all();
    reveal_strlit("error");
    reveal_strlit("result");
    assert("error"@.len() == 5);
    assert("result"@.len() == 6);
    assert(outcome_of(resp.args) == OutcomeModel::Success(v));
    lemma_remove_keeps(s.pending, find_first(s.pending, id1), id2);
}

/// A response whose id matches nothing outstanding is dropped: no
/// state changes and nothing is delivered.
pub proof fn lemma_unmatched_response_dropped(s: PeerModel, id: Seq<char>, v: JVal)
    requires
        !s.pending.contains(id),
    ensures
        dispatch_spec(s, ser_msg(response_model(id, v))) == (s, ActModel::Ignore),
{
    lemma_msg_roundtrip(response_model(id, v));
    lemma_find_first_contains(s.pending, id);
}

/// Callback reentry. A request argument of the form
/// `__callback__<token>` reaches the handler as a callback token, not
/// a value; and a callback envelope naming a token registered at the
/// caller invokes exactly that callback with exactly the sent payload.
pub proof fn lemma_callback_reentry(
    server: PeerModel,
    client: PeerModel,
    id: Seq<char>,
    mname: Seq<char>,
    token: Seq<char>,
    v: JVal,
    p: JVal,
)
    requires
        server.methods.contains(mname),
        !(v matches JVal::Str(s) && is_cb_str(s)),
        client.callbacks.contains(token),
    ensures
        dispatch_spec(
            server,
            ser_msg(
                request_model(
                    MessageType::Request,
                    id,
                    mname,
                    seq![v, JVal::Str(cb_prefix() + token)],
                    seq![token],
                ),
            ),
        ) == (
            server,
            ActModel::RunHandler {
                constructor: false,
                id: id,
                method: mname,
                args: seq![InArgModel::Value(v), InArgModel::Callback(token)],
            },
        ),
        dispatch_spec(client, ser_msg(callback_model(id, token, seq![p]))) == (
            client,
            ActModel::InvokeCallback { token: token, args: seq![p] },
        ),
{
    let marker = cb_prefix() + token;
    reveal_strlit("__callback__");
    assert(cb_prefix().len() == 12);
    assert(marker.len() >= 12);
    assert(marker.subrange(0, 12) =~= cb_prefix());
    assert(marker.skip(12) =~= token);
    let req = request_model(
        MessageType::Request,
        id,
        mname,
        seq![v, JVal::Str(marker)],
        seq![token],
    );
    lemma_msg_roundtrip(req);
    lemma_find_first_contains(server.methods, mname);
    assert(unmarshal_spec(seq![v, JVal::Str(marker)]) =~= seq![
        InArgModel::Value(v),
        InArgModel::Callback(token),
    ]);

    let cbm = callback_model(id, token, seq![p]);
    lemma_msg_roundtrip(cbm);
    lemma_find_first_contains(client.callbacks, token);
    assert(arr_items(cbm.args) == seq![p]);
}

/// A callback naming an unregistered token is dropped silently.
pub proof fn lemma_unknown_callback_dropped(
    s: PeerModel,
    id: Seq<char>,
    token: Seq<char>,
    p: JVal,
)
    requires
        !s.callbacks.contains(token),
    ensures
        dispatch_spec(s, ser_msg(callback_model(id, token, seq![p]))) == (s, ActModel::Ignore),
{
    lemma_msg_roundtrip(callback_model(id, token, seq![p]));
    lemma_find_first_contains(s.callbacks, token);
}

/// Unknown method tolerance. A request for a method nobody registered
/// neither stalls nor faults: the state stands and the reply is the
/// well-formed null response for that id.
pub proof fn lemma_unknown_method(
    s: PeerModel,
    id: Seq<char>,
    mname: Seq<char>,
    wire_args: Seq<JVal>,
)
    requires
        !s.methods.contains(mname),
    ensures
        dispatch_spec(s, ser_msg(request_model(MessageType::Request, id, mname, wire_args, Seq::empty())))
            == (s, ActModel::Reply { line: ser_msg(response_model(id, JVal::Null)).push('\n') }),
{
    lemma_msg_roundtrip(request_model(MessageType::Request, id, mname, wire_args, Seq::empty()));
    lemma_find_first_contains(s.methods, mname);
}

/// The newline a frame carries changes nothing: dispatching a framed
/// line equals dispatching the bare line.
pub proof fn lemma_dispatch_framed(s: PeerModel, m: MsgModel)
    requires
        is_prop_type(m.msg_type) ==> m.method == Seq::<char>::empty(),
    ensures
        dispatch_spec(s, ser_msg(m).push('\n')) == dispatch_spec(s, ser_msg(m)),
{
    lemma_msg_roundtrip(m);
    lemma_msg_roundtrip_framed(m);
}

} // verus!
