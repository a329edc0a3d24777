//! JSON values as carried by the protocol.
//!
//! The executable type `JsonValue` holds schemaless JSON data; its
//! mathematical model is `JVal`, built from integers and sequences.
//! Numbers are 64-bit signed integers: every identifier, counter and
//! arithmetic argument the protocol carries is integral.

use vstd::prelude::*;

verus! {

broadcast use vstd::std_specs::vec::group_vec_axioms;

/// Mathematical model of a JSON value.
#[verifier::ext_equal]
pub enum JVal {
    Null,
    Bool(bool),
    Int(i64),
    Str(Seq<char>),
    Arr(Seq<JVal>),
    Obj(Seq<(Seq<char>, JVal)>),
}

/// A JSON value: null, boolean, 64-bit integer, string, array or object.
/// Object members keep their insertion order.
#[derive(Debug)]
pub enum JsonValue {
    Null,
    Bool(bool),
    Int(i64),
    Str(String),
    Arr(Vec<JsonValue>),
    Obj(Vec<(String, JsonValue)>),
}

/// The model of a `JsonValue`.
pub open spec fn jval_of(v: JsonValue) -> JVal
    decreases v,
{
    match v {
        JsonValue::Null => JVal::Null,
        JsonValue::Bool(b) => JVal::Bool(b),
        JsonValue::Int(i) => JVal::Int(i),
        JsonValue::Str(s) => JVal::Str(s@),
        JsonValue::Arr(vs) => {
            proof {
                assert(decreases_to!(v => vs));
                assert(decreases_to!(vs => vs@));
            }
            JVal::Arr(jvals_of(vs@))
        },
        JsonValue::Obj(ps) => {
            proof {
                assert(decreases_to!(v => ps));
                assert(decreases_to!(ps => ps@));
            }
            JVal::Obj(jmembers_of(ps@))
        },
    }
}

/// The models of a sequence of element values.
pub open spec fn jvals_of(vs: Seq<JsonValue>) -> Seq<JVal>
    decreases vs,
{
    if vs.len() == 0 {
        Seq::empty()
    } else {
        proof {
            assert(decreases_to!(vs => vs.subrange(1, vs.len() as int)));
            assert(vs.skip(1) == vs.subrange(1, vs.len() as int));
        }
        seq![jval_of(vs[0])] + jvals_of(vs.skip(1))
    }
}

/// The models of a sequence of object members.
pub open spec fn jmembers_of(ps: Seq<(String, JsonValue)>) -> Seq<(Seq<char>, JVal)>
    decreases ps,
{
    if ps.len() == 0 {
        Seq::empty()
    } else {
        proof {
            assert(decreases_to!(ps => ps.subrange(1, ps.len() as int)));
            assert(ps.skip(1) == ps.subrange(1, ps.len() as int));
        }
        seq![(ps[0].0@, jval_of(ps[0].1))] + jmembers_of(ps.skip(1))
    }
}

/// `jvals_of` maps the model over the elements, one for one.
pub proof fn lemma_jvals_of(vs: Seq<JsonValue>)
    ensures
        jvals_of(vs).len() == vs.len(),
        forall|i: int| 0 <= i < vs.len() ==> jvals_of(vs)[i] == jval_of(vs[i]),
    decreases vs.len(),
{
    if vs.len() > 0 {
        lemma_jvals_of(vs.skip(1));
    }
}

/// `jmembers_of` maps the model over the members, one for one.
pub proof fn lemma_jmembers_of(ps: Seq<(String, JsonValue)>)
    ensures
        jmembers_of(ps).len() == ps.len(),
        forall|i: int| 0 <= i < ps.len()
            ==> jmembers_of(ps)[i] == (ps[i].0@, jval_of(ps[i].1)),
    decreases ps.len(),
{
    if ps.len() > 0 {
        lemma_jmembers_of(ps.skip(1));
    }
}

impl View for JsonValue {
    type V = JVal;

    open spec fn view(&self) -> JVal {
        jval_of(*self)
    }
}

/// The value of an object's first member named `key`, if any.
pub open spec fn obj_lookup(members: Seq<(Seq<char>, JVal)>, key: Seq<char>) -> Option<JVal>
    decreases members.len(),
{
    if members.len() == 0 {
        Option::None
    } else if members[0].0 == key {
        Option::Some(members[0].1)
    } else {
        obj_lookup(members.skip(1), key)
    }
}

/// Whether two strings hold the same characters.
pub fn str_eq(a: &str, b: &str) -> (r: bool)
    ensures
        r == (a@ == b@),
{
    let a_len = a.unicode_len();
    let b_len = b.unicode_len();
    if a_len != b_len {
        assert(a@ != b@) by {
            assert(a@.len() != b@.len());
        }
        return false;
    }
    let mut i: usize = 0;
    while i < a_len
        invariant
            a_len == a@.len(),
            b_len == b@.len(),
            a@.len() == b@.len(),
            0 <= i <= a_len,
            forall|j: int| 0 <= j < i ==> a@[j] == b@[j],
        decreases a_len - i,
    {
        if a.get_char(i) != b.get_char(i) {
            return false;
        }
        i = i + 1;
    }
    proof {
        assert(a@ =~= b@);
    }
    true
}

impl JsonValue {
    /// A reference to the first member named `key` of this object.
    pub fn get_member<'a>(&'a self, key: &str) -> (r: Option<&'a JsonValue>)
        ensures
            match r {
                Option::Some(v) => self@ is Obj && obj_lookup(self@->Obj_0, key@) == Option::Some(v@),
                Option::None => !(self@ is Obj && obj_lookup(self@->Obj_0, key@) is Some),
            },
    {
        match self {
            JsonValue::Obj(members) => {
                let ghost mv = jmembers_of(members@);
                proof {
                    lemma_jmembers_of(members@);
                    assert(mv.skip(0) =~= mv);
                }
                let n = members.len();
                let mut i: usize = 0;
                while i < n
                    invariant
                        n == members@.len(),
                        0 <= i <= n,
                        mv == jmembers_of(members@),
                        mv.len() == n,
                        forall|j: int| 0 <= j < mv.len()
                            ==> mv[j] == (members@[j].0@, jval_of(members@[j].1)),
                        obj_lookup(mv.skip(i as int), key@) == obj_lookup(mv, key@),
                        self@ == JVal::Obj(mv),
                    decreases n - i,
                {
                    if str_eq(members[i].0.as_str(), key) {
                        proof {
                            assert(mv.skip(i as int)[0] == mv[i as int]);
                        }
                        return Option::Some(&members[i].1);
                    }
                    proof {
                        assert(mv.skip(i as int)[0] == mv[i as int]);
                        assert(mv.skip(i as int).skip(1) =~= mv.skip(i + 1));
                    }
                    i = i + 1;
                }
                proof {
                    assert(mv.skip(i as int) =~= Seq::<(Seq<char>, JVal)>::empty());
                }
                Option::None
            },
            _ => Option::None,
        }
    }

    /// Whether this value is an object.
    pub fn is_object(&self) -> (r: bool)
        ensures
            r == (self@ is Obj),
    {
        match self {
            JsonValue::Obj(_) => true,
            _ => false,
        }
    }

    /// The string content, when this value is a string.
    pub fn as_str<'a>(&'a self) -> (r: Option<&'a String>)
        ensures
            match r {
                Option::Some(s) => self@ == JVal::Str(s@),
                Option::None => !(self@ is Str),
            },
    {
        match self {
            JsonValue::Str(s) => Option::Some(s),
            _ => Option::None,
        }
    }

    /// The integer content, when this value is an integer.
    pub fn as_int(&self) -> (r: Option<i64>)
        ensures
            match r {
                Option::Some(i) => self@ == JVal::Int(i),
                Option::None => !(self@ is Int),
            },
    {
        match self {
            JsonValue::Int(i) => Option::Some(*i),
            _ => Option::None,
        }
    }

    /// A structurally equal copy of this value.
    pub fn deep_clone(&self) -> (r: JsonValue)
        ensures
            r@ == self@,
        decreases self,
    {
        match self {
            JsonValue::Null => JsonValue::Null,
            JsonValue::Bool(b) => JsonValue::Bool(*b),
            JsonValue::Int(i) => JsonValue::Int(*i),
            JsonValue::Str(s) => JsonValue::Str(s.clone()),
            JsonValue::Arr(vs) => {
                proof {
                    lemma_jvals_of(vs@);
                }
                let n = vs.len();
                let mut out: Vec<JsonValue> = Vec::new();
                let mut i: usize = 0;
                while i < n
                    invariant
                        n == vs@.len(),
                        0 <= i <= n,
                        out@.len() == i,
                        forall|j: int| 0 <= j < i ==> jval_of(out@[j]) == jval_of(vs@[j]),
                        decreases_to!(*self => vs@),
                    decreases n - i,
                {
                    proof {
                        assert(decreases_to!(vs@ => vs@[i as int]));
                    }
                    let c = vs[i].deep_clone();
                    out.push(c);
                    i = i + 1;
                }
                proof {
                    lemma_jvals_of(out@);
                    assert(jvals_of(out@) =~= jvals_of(vs@));
                }
                JsonValue::Arr(out)
            },
            JsonValue::Obj(ps) => {
                proof {
                    lemma_jmembers_of(ps@);
                }
                let n = ps.len();
                let mut out: Vec<(String, JsonValue)> = Vec::new();
                let mut i: usize = 0;
                while i < n
                    invariant
                        n == ps@.len(),
                        0 <= i <= n,
                        out@.len() == i,
                        forall|j: int| 0 <= j < i
                            ==> out@[j].0@ == ps@[j].0@ && jval_of(out@[j].1) == jval_of(ps@[j].1),
                        decreases_to!(*self => ps@),
                    decreases n - i,
                {
                    proof {
                        assert(decreases_to!(ps@ => ps@[i as int]));
                        assert(decreases_to!(ps@[i as int] => ps@[i as int].1));
                    }
                    let k = ps[i].0.clone();
                    let v = ps[i].1.deep_clone();
                    out.push((k, v));
                    i = i + 1;
                }
                proof {
                    lemma_jmembers_of(out@);
                    assert(jmembers_of(out@) =~= jmembers_of(ps@));
                }
                JsonValue::Obj(out)
            },
        }
    }
}


/// Looking a key up in a concatenation searches the front part first.
pub proof fn lemma_obj_lookup_concat(
    a: Seq<(Seq<char>, JVal)>,
    b: Seq<(Seq<char>, JVal)>,
    k: Seq<char>,
)
    ensures
        obj_lookup(a + b, k) == (match obj_lookup(a, k) {
            Option::Some(v) => Option::Some(v),
            Option::None => obj_lookup(b, k),
        }),
    decreases a.len(),
{
    if a.len() == 0 {
        assert(a + b =~= b);
    } else {
        assert((a + b)[0] == a[0]);
        assert((a + b).skip(1) =~= a.skip(1) + b);
        lemma_obj_lookup_concat(a.skip(1), b, k);
    }
}

/// What looking a key up in a one-member or empty object gives.
pub proof fn lemma_obj_lookup_single_all()
    ensures
        forall|kk: Seq<char>, v: JVal, k: Seq<char>| #[trigger] obj_lookup(seq![(kk, v)], k)
            == (if kk == k {
                Option::Some(v)
            } else {
                Option::<JVal>::None
            }),
        forall|k: Seq<char>|
            #[trigger] obj_lookup(Seq::<(Seq<char>, JVal)>::empty(), k) is None,
{
    assert forall|k: Seq<char>|
        #[trigger] obj_lookup(Seq::<(Seq<char>, JVal)>::empty(), k) is None by {
        assert(Seq::<(Seq<char>, JVal)>::empty().len() == 0);
    }
    assert forall|kk: Seq<char>, v: JVal, k: Seq<char>| #[trigger] obj_lookup(seq![(kk, v)], k)
        == (if kk == k {
            Option::Some(v)
        } else {
            Option::<JVal>::None
        }) by {
        let s = seq![(kk, v)];
        assert(s.skip(1).len() == 0);
        assert(obj_lookup(s.skip(1), k) == Option::<JVal>::None);
    }
}

} // verus!
