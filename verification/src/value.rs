//! The typed value model: a recursive tagged union of every storable datum,
//! its mathematical model, structural equality, and display rendering.

use crate::text::int_text;
use crate::text::nat_text;
use crate::text::str_eq;
use crate::text::i64_text;
use crate::text::u64_text;
use vstd::prelude::*;
use vstd::string::StringExecFns;

verus! {

broadcast use vstd::std_specs::vec::group_vec_axioms;

/// A storable datum: a scalar, an ordered array of values, or an object
/// mapping field names to values.
///
/// The float variant carries the raw 64-bit payload of the number; callers
/// that work with native floats convert through the bit pattern at the
/// library boundary.
pub enum Value {
    String(String),
    Integer(i64),
    Float(u64),
    Boolean(bool),
    Array(Vec<Value>),
    Object(Vec<(String, Value)>),
    Null,
}

/// The mathematical model of a `Value`: text becomes a sequence of
/// characters, a 64-bit integer becomes an unbounded integer, and the
/// recursive variants become sequences of models.
pub enum Val {
    VString(Seq<char>),
    VInteger(int),
    VFloat(u64),
    VBoolean(bool),
    VArray(Seq<Val>),
    VObject(Seq<(Seq<char>, Val)>),
    VNull,
}

/// The model of an array payload, element by element.
pub open spec fn arr_view(s: Seq<Value>) -> Seq<Val>
    decreases s,
{
    if s.len() == 0 {
        Seq::empty()
    } else {
        seq![val_of(s[0])] + arr_view(s.drop_first())
    }
}

/// The model of an object payload, pair by pair.
pub open spec fn obj_view(s: Seq<(String, Value)>) -> Seq<(Seq<char>, Val)>
    decreases s,
{
    if s.len() == 0 {
        Seq::empty()
    } else {
        seq![(s[0].0@, val_of(s[0].1))] + obj_view(s.drop_first())
    }
}

/// The model of a single `Value`.
pub open spec fn val_of(v: Value) -> Val
    decreases v,
{
    match v {
        Value::String(s) => Val::VString(s@),
        Value::Integer(i) => Val::VInteger(i as int),
        Value::Float(bits) => Val::VFloat(bits),
        Value::Boolean(b) => Val::VBoolean(b),
        Value::Array(items) => Val::VArray(arr_view(items@)),
        Value::Object(pairs) => Val::VObject(obj_view(pairs@)),
        Value::Null => Val::VNull,
    }
}

impl View for Value {
    type V = Val;

    open spec fn view(&self) -> Val {
        val_of(*self)
    }
}

pub broadcast proof fn lemma_arr_view_len(s: Seq<Value>)
    ensures
        (#[trigger] arr_view(s)).len() == s.len(),
    decreases s,
{
    if s.len() > 0 {
        lemma_arr_view_len(s.drop_first());
    }
}

pub broadcast proof fn lemma_arr_view_index(s: Seq<Value>, i: int)
    requires
        0 <= i < s.len(),
    ensures
        #[trigger] arr_view(s)[i] == val_of(s[i]),
    decreases s,
{
    broadcast use lemma_arr_view_len;

    if i > 0 {
        lemma_arr_view_index(s.drop_first(), i - 1);
    }
}

pub broadcast proof fn lemma_obj_view_len(s: Seq<(String, Value)>)
    ensures
        (#[trigger] obj_view(s)).len() == s.len(),
    decreases s,
{
    if s.len() > 0 {
        lemma_obj_view_len(s.drop_first());
    }
}

pub broadcast proof fn lemma_obj_view_index(s: Seq<(String, Value)>, i: int)
    requires
        0 <= i < s.len(),
    ensures
        #[trigger] obj_view(s)[i] == (s[i].0@, val_of(s[i].1)),
    decreases s,
{
    broadcast use lemma_obj_view_len;

    if i > 0 {
        lemma_obj_view_index(s.drop_first(), i - 1);
    }
}

/// How the models of array and object payloads relate to their elements.
pub broadcast group group_value_views {
    lemma_arr_view_len,
    lemma_arr_view_index,
    lemma_obj_view_len,
    lemma_obj_view_index,
}

/// The value under the first pair carrying `name`, if any.
pub open spec fn obj_lookup(pairs: Seq<(Seq<char>, Val)>, name: Seq<char>) -> Option<Val>
    decreases pairs,
{
    if pairs.len() == 0 {
        None
    } else if pairs[0].0 == name {
        Some(pairs[0].1)
    } else {
        obj_lookup(pairs.drop_first(), name)
    }
}

/// Field resolution: defined only on objects, absent everywhere else.
pub open spec fn get_field_spec(v: Val, name: Seq<char>) -> Option<Val> {
    match v {
        Val::VObject(pairs) => obj_lookup(pairs, name),
        _ => None,
    }
}

/// Structural equality of two models: tags and payloads must agree; arrays
/// agree position by position; objects agree as field mappings, so pair
/// order inside an object never matters.
pub open spec fn veq(a: Val, b: Val) -> bool
    decreases a,
{
    match (a, b) {
        (Val::VString(x), Val::VString(y)) => x == y,
        (Val::VInteger(x), Val::VInteger(y)) => x == y,
        (Val::VFloat(x), Val::VFloat(y)) => x == y,
        (Val::VBoolean(x), Val::VBoolean(y)) => x == y,
        (Val::VArray(x), Val::VArray(y)) => x.len() == y.len() && (forall|i: int|
            0 <= i < x.len() ==> veq(x[i], #[trigger] y[i])),
        (Val::VObject(x), Val::VObject(y)) => x.len() == y.len() && (forall|i: int|
            0 <= i < x.len() ==> match obj_lookup(y, (#[trigger] x[i]).0) {
                Some(w) => veq(x[i].1, w),
                None => false,
            }),
        (Val::VNull, Val::VNull) => true,
        _ => false,
    }
}

/// Well-formed models: every object carries each field name at most once,
/// at any depth. Values built bottom-up from field mappings always are.
pub open spec fn wf_val(v: Val) -> bool
    decreases v,
{
    match v {
        Val::VArray(elems) => forall|i: int|
            0 <= i < elems.len() ==> wf_val(#[trigger] elems[i]),
        Val::VObject(pairs) => (forall|i: int, j: int|
            0 <= i < j < pairs.len() ==> (#[trigger] pairs[i]).0 != (#[trigger] pairs[j]).0)
            && (forall|i: int| 0 <= i < pairs.len() ==> wf_val((#[trigger] pairs[i]).1)),
        _ => true,
    }
}

/// Under unique field names, looking a pair's own key up finds that pair.
proof fn lemma_obj_lookup_at(pairs: Seq<(Seq<char>, Val)>, i: int)
    requires
        0 <= i < pairs.len(),
        forall|a: int, b: int|
            0 <= a < b < pairs.len() ==> (#[trigger] pairs[a]).0 != (#[trigger] pairs[b]).0,
    ensures
        obj_lookup(pairs, pairs[i].0) == Some(pairs[i].1),
    decreases pairs,
{
    if i > 0 {
        assert(forall|a: int, b: int|
            0 <= a < b < pairs.drop_first().len() ==> (#[trigger] pairs.drop_first()[a]).0 != (
            #[trigger] pairs.drop_first()[b]).0);
        lemma_obj_lookup_at(pairs.drop_first(), i - 1);
    }
}

/// Structural equality is reflexive: every well-formed value equals
/// itself.
pub proof fn lemma_veq_reflexive(v: Val)
    requires
        wf_val(v),
    ensures
        veq(v, v),
    decreases v,
{
    match v {
        Val::VArray(elems) => {
            assert forall|i: int| 0 <= i < elems.len() implies veq(
                elems[i],
                #[trigger] elems[i],
            ) by {
                lemma_veq_reflexive(elems[i]);
            }
        },
        Val::VObject(pairs) => {
            assert forall|i: int| 0 <= i < pairs.len() implies match obj_lookup(
                pairs,
                (#[trigger] pairs[i]).0,
            ) {
                Some(w) => veq(pairs[i].1, w),
                None => false,
            } by {
                lemma_obj_lookup_at(pairs, i);
                lemma_veq_reflexive(pairs[i].1);
            }
        },
        _ => {},
    }
}

/// The diagnostic name of a model's variant.
pub open spec fn variant_name_of(v: Val) -> Seq<char> {
    match v {
        Val::VString(_) => "String"@,
        Val::VInteger(_) => "Integer"@,
        Val::VFloat(_) => "Float"@,
        Val::VBoolean(_) => "Boolean"@,
        Val::VArray(_) => "Array"@,
        Val::VObject(_) => "Object"@,
        Val::VNull => "Null"@,
    }
}

/// The diagnostic name is a function of the variant alone: two values of
/// the same variant share it, whatever their payloads.
pub proof fn lemma_variant_name_of_variant(a: Val, b: Val)
    requires
        a is VString <==> b is VString,
        a is VInteger <==> b is VInteger,
        a is VFloat <==> b is VFloat,
        a is VBoolean <==> b is VBoolean,
        a is VArray <==> b is VArray,
        a is VObject <==> b is VObject,
        a is VNull <==> b is VNull,
    ensures
        variant_name_of(a) == variant_name_of(b),
{
}

/// The human-readable rendering of a model.
///
/// A float renders as its decimal bit payload behind a `float:` marker:
/// the one rendering of the raw 64 bits that the verified core can compute.
pub open spec fn disp(v: Val) -> Seq<char>
    decreases v,
{
    match v {
        Val::VString(s) => s,
        Val::VInteger(i) => int_text(i),
        Val::VFloat(bits) => "float:"@ + nat_text(bits as nat),
        Val::VBoolean(b) => if b {
            "true"@
        } else {
            "false"@
        },
        Val::VArray(elems) => "["@ + disp_arr(elems) + "]"@,
        Val::VObject(pairs) => "{"@ + disp_obj(pairs) + "}"@,
        Val::VNull => "null"@,
    }
}

/// Comma-joined rendering of array elements.
pub open spec fn disp_arr(elems: Seq<Val>) -> Seq<char>
    decreases elems,
{
    if elems.len() == 0 {
        Seq::empty()
    } else if elems.len() == 1 {
        disp(elems[0])
    } else {
        disp(elems[0]) + ", "@ + disp_arr(elems.drop_first())
    }
}

/// Comma-joined rendering of `key: value` pairs.
pub open spec fn disp_obj(pairs: Seq<(Seq<char>, Val)>) -> Seq<char>
    decreases pairs,
{
    if pairs.len() == 0 {
        Seq::empty()
    } else if pairs.len() == 1 {
        pairs[0].0 + ": "@ + disp(pairs[0].1)
    } else {
        pairs[0].0 + ": "@ + disp(pairs[0].1) + ", "@ + disp_obj(pairs.drop_first())
    }
}


/// Structural size of a value, used as the measure for recursion over
/// nested arrays and objects.
pub open spec fn vsize(v: Value) -> nat
    decreases v,
{
    match v {
        Value::Array(items) => 1 + asize(items@),
        Value::Object(pairs) => 1 + osize(pairs@),
        _ => 1,
    }
}

/// Combined size of the elements of an array payload.
pub open spec fn asize(s: Seq<Value>) -> nat
    decreases s,
{
    if s.len() == 0 {
        0
    } else {
        vsize(s[0]) + asize(s.drop_first())
    }
}

/// Combined size of the values of an object payload.
pub open spec fn osize(s: Seq<(String, Value)>) -> nat
    decreases s,
{
    if s.len() == 0 {
        0
    } else {
        vsize(s[0].1) + osize(s.drop_first())
    }
}

pub broadcast proof fn lemma_asize_el(s: Seq<Value>, i: int)
    requires
        0 <= i < s.len(),
    ensures
        #[trigger] vsize(s[i]) <= asize(s),
    decreases s,
{
    if i > 0 {
        lemma_asize_el(s.drop_first(), i - 1);
    }
}

pub broadcast proof fn lemma_osize_el(s: Seq<(String, Value)>, i: int)
    requires
        0 <= i < s.len(),
    ensures
        #[trigger] vsize(s[i].1) <= osize(s),
    decreases s,
{
    if i > 0 {
        lemma_osize_el(s.drop_first(), i - 1);
    }
}

/// Size bounds for elements of arrays and objects.
pub broadcast group group_value_sizes {
    lemma_asize_el,
    lemma_osize_el,
}

/// The value under the first pair of `pairs` carrying `name`, if any.
#[verifier::loop_isolation(false)]
pub(crate) fn obj_get<'a>(pairs: &'a Vec<(String, Value)>, name: &str) -> (r: Option<&'a Value>)
    ensures
        r matches Some(w) ==> obj_lookup(obj_view(pairs@), name@) == Some(w@),
        r is None ==> obj_lookup(obj_view(pairs@), name@) is None,
{
    broadcast use group_value_views;

    let ghost all = obj_view(pairs@);
    proof {
        assert(all.skip(0) =~= all);
    }
    let mut i: usize = 0;
    while i < pairs.len()
        invariant
            i <= pairs@.len(),
            obj_lookup(all, name@) == obj_lookup(all.skip(i as int), name@),
        decreases pairs@.len() - i,
    {
        if str_eq(name, pairs[i].0.as_str()) {
            proof {
                assert(all.skip(i as int)[0] == all[i as int]);
                assert(obj_lookup(all.skip(i as int), name@) == Some(all[i as int].1));
            }
            return Some(&pairs[i].1);
        }
        proof {
            assert(all.skip(i as int)[0] == all[i as int]);
            assert(all.skip(i as int).drop_first() =~= all.skip(i as int + 1));
        }
        i += 1;
    }
    proof {
        assert(all.skip(i as int) =~= Seq::empty());
    }
    None
}

impl Value {
    /// The payload of the integer variant; every other variant yields none,
    /// with no coercion from floats or numeric strings.
    pub fn as_integer(&self) -> (r: Option<i64>)
        ensures
            r matches Some(i) ==> self@ == Val::VInteger(i as int),
            r is None ==> !(self@ is VInteger),
    {
        match self {
            Value::Integer(i) => Some(*i),
            _ => None,
        }
    }

    /// The payload of the string variant; every other variant yields none.
    pub fn as_string(&self) -> (r: Option<String>)
        ensures
            r matches Some(s) ==> self@ == Val::VString(s@),
            r is None ==> !(self@ is VString),
    {
        match self {
            Value::String(s) => Some(s.clone()),
            _ => None,
        }
    }

    /// The child value under `field`: defined only for objects, absent for
    /// every other variant and for names the object does not carry.
    pub fn get_field(&self, field: &str) -> (r: Option<&Value>)
        ensures
            r matches Some(w) ==> get_field_spec(self@, field@) == Some(w@),
            r is None ==> get_field_spec(self@, field@) is None,
    {
        match self {
            Value::Object(pairs) => obj_get(pairs, field),
            _ => None,
        }
    }

    /// The diagnostic name of this value's variant.
    pub fn variant_name(&self) -> (r: &'static str)
        ensures
            r@ == variant_name_of(self@),
    {
        match self {
            Value::String(_) => "String",
            Value::Integer(_) => "Integer",
            Value::Float(_) => "Float",
            Value::Boolean(_) => "Boolean",
            Value::Array(_) => "Array",
            Value::Object(_) => "Object",
            Value::Null => "Null",
        }
    }

    /// A copy whose model is exactly this value's model.
    #[verifier::loop_isolation(false)]
    pub fn deep_clone(&self) -> (r: Value)
        ensures
            r@ == self@,
        decreases vsize(*self), 0int,
    {
        broadcast use group_value_views, group_value_sizes;

        match self {
            Value::String(s) => Value::String(s.clone()),
            Value::Integer(i) => Value::Integer(*i),
            Value::Float(bits) => Value::Float(*bits),
            Value::Boolean(b) => Value::Boolean(*b),
            Value::Null => Value::Null,
            Value::Array(items) => {
                let mut out: Vec<Value> = Vec::new();
                let mut i: usize = 0;
                while i < items.len()
                    invariant
                        i <= items@.len(),
                        out@.len() == i,
                        forall|k: int|
                            0 <= k < i ==> val_of(#[trigger] out@[k]) == val_of(items@[k]),
                    decreases items@.len() - i,
                {
                    let c = items[i].deep_clone();
                    out.push(c);
                    i += 1;
                }
                proof {
                    assert(arr_view(out@) =~= arr_view(items@));
                }
                Value::Array(out)
            },
            Value::Object(pairs) => {
                let mut out: Vec<(String, Value)> = Vec::new();
                let mut i: usize = 0;
                while i < pairs.len()
                    invariant
                        i <= pairs@.len(),
                        out@.len() == i,
                        forall|k: int|
                            0 <= k < i ==> (#[trigger] out@[k]).0@ == pairs@[k].0@ && val_of(
                                out@[k].1,
                            ) == val_of(pairs@[k].1),
                    decreases pairs@.len() - i,
                {
                    let k = pairs[i].0.clone();
                    let v = pairs[i].1.deep_clone();
                    out.push((k, v));
                    i += 1;
                }
                proof {
                    assert(obj_view(out@) =~= obj_view(pairs@));
                }
                Value::Object(out)
            },
        }
    }

    /// Deep structural equality: tags and payloads must agree; arrays agree
    /// position by position; objects agree as field mappings, so pair order
    /// inside an object never matters.
    #[verifier::loop_isolation(false)]
    pub fn structural_eq(&self, other: &Value) -> (r: bool)
        ensures
            r == veq(self@, other@),
        decreases vsize(*self), 0int,
    {
        broadcast use group_value_views, group_value_sizes;

        match (self, other) {
            (Value::String(a), Value::String(b)) => str_eq(a.as_str(), b.as_str()),
            (Value::Integer(a), Value::Integer(b)) => *a == *b,
            (Value::Float(a), Value::Float(b)) => *a == *b,
            (Value::Boolean(a), Value::Boolean(b)) => *a == *b,
            (Value::Null, Value::Null) => true,
            (Value::Array(x), Value::Array(y)) => {
                proof {
                    assert(self@ == Val::VArray(arr_view(x@)));
                    assert(other@ == Val::VArray(arr_view(y@)));
                }
                if x.len() != y.len() {
                    return false;
                }
                let mut i: usize = 0;
                while i < x.len()
                    invariant
                        i <= x@.len(),
                        forall|k: int|
                            0 <= k < i ==> veq(val_of(x@[k]), val_of(#[trigger] y@[k])),
                    decreases x@.len() - i,
                {
                    if !x[i].structural_eq(&y[i]) {
                        proof {
                            assert(!veq(self@, other@)) by {
                                assert(arr_view(x@)[i as int] == val_of(x@[i as int]));
                                assert(arr_view(y@)[i as int] == val_of(y@[i as int]));
                            }
                        }
                        return false;
                    }
                    i += 1;
                }
                proof {
                    assert(forall|k: int|
                        0 <= k < x@.len() ==> veq(
                            #[trigger] arr_view(x@)[k],
                            arr_view(y@)[k],
                        ));
                }
                true
            },
            (Value::Object(x), Value::Object(y)) => {
                let ghost xs = obj_view(x@);
                let ghost ys = obj_view(y@);
                proof {
                    assert(self@ == Val::VObject(xs));
                    assert(other@ == Val::VObject(ys));
                }
                if x.len() != y.len() {
                    return false;
                }
                let mut i: usize = 0;
                while i < x.len()
                    invariant
                        i <= x@.len(),
                        forall|k: int|
                            0 <= k < i ==> match obj_lookup(ys, (#[trigger] xs[k]).0) {
                                Some(w) => veq(xs[k].1, w),
                                None => false,
                            },
                    decreases x@.len() - i,
                {
                    proof {
                        assert(xs[i as int] == (x@[i as int].0@, val_of(x@[i as int].1)));
                    }
                    match obj_get(y, x[i].0.as_str()) {
                        None => {
                            return false;
                        },
                        Some(w) => {
                            if !x[i].1.structural_eq(w) {
                                return false;
                            }
                        },
                    }
                    i += 1;
                }
                true
            },
            _ => false,
        }
    }

    /// The human-readable rendering of this value; for display only, not
    /// the persisted encoding.
    #[verifier::loop_isolation(false)]
    #[verifier::rlimit(60)]
    pub fn to_string(&self) -> (r: String)
        ensures
            r@ == disp(self@),
        decreases vsize(*self), 0int,
    {
        broadcast use group_value_views, group_value_sizes;

        match self {
            Value::String(s) => s.clone(),
            Value::Integer(i) => i64_text(*i),
            Value::Float(bits) => {
                let mut out = String::from_str("float:");
                let digits = u64_text(*bits);
                out.append(digits.as_str());
                out
            },
            Value::Boolean(b) => {
                if *b {
                    String::from_str("true")
                } else {
                    String::from_str("false")
                }
            },
            Value::Null => String::from_str("null"),
            Value::Array(items) => {
                let ghost elems = arr_view(items@);
                proof {
                    assert(self@ == Val::VArray(elems));
                    assert(elems.skip(0) =~= elems);
                }
                let mut out = String::from_str("[");
                let mut i: usize = 0;
                while i < items.len()
                    invariant
                        i <= items@.len(),
                        out@ + disp_arr(elems.skip(i as int)) == "["@ + disp_arr(elems),
                    decreases items@.len() - i,
                {
                    let ghost pre = out@;
                    proof {
                        assert(elems.skip(i as int)[0] == elems[i as int]);
                        assert(elems.skip(i as int).drop_first() =~= elems.skip(i as int + 1));
                    }
                    let piece = items[i].to_string();
                    out.append(piece.as_str());
                    if i + 1 < items.len() {
                        out.append(", ");
                        proof {
                            assert(out@ + disp_arr(elems.skip(i as int + 1)) =~= pre + disp_arr(
                                elems.skip(i as int),
                            ));
                        }
                    } else {
                        proof {
                            assert(elems.skip(i as int).len() == 1);
                            assert(out@ + disp_arr(elems.skip(i as int + 1)) =~= pre + disp_arr(
                                elems.skip(i as int),
                            ));
                        }
                    }
                    i += 1;
                }
                proof {
                    assert(elems.skip(i as int) =~= Seq::empty());
                    assert(out@ =~= "["@ + disp_arr(elems));
                }
                out.append("]");
                proof {
                    assert(out@ =~= disp(self@));
                }
                out
            },
            Value::Object(pairs) => {
                let ghost flds = obj_view(pairs@);
                proof {
                    assert(self@ == Val::VObject(flds));
                    assert(flds.skip(0) =~= flds);
                }
                let mut out = String::from_str("{");
                let mut i: usize = 0;
                while i < pairs.len()
                    invariant
                        i <= pairs@.len(),
                        out@ + disp_obj(flds.skip(i as int)) == "{"@ + disp_obj(flds),
                    decreases pairs@.len() - i,
                {
                    let ghost pre = out@;
                    proof {
                        assert(flds.skip(i as int)[0] == flds[i as int]);
                        assert(flds.skip(i as int).drop_first() =~= flds.skip(i as int + 1));
                    }
                    out.append(pairs[i].0.as_str());
                    out.append(": ");
                    let piece = pairs[i].1.to_string();
                    out.append(piece.as_str());
                    if i + 1 < pairs.len() {
                        out.append(", ");
                        proof {
                            assert(out@ + disp_obj(flds.skip(i as int + 1)) =~= pre + disp_obj(
                                flds.skip(i as int),
                            ));
                        }
                    } else {
                        proof {
                            assert(flds.skip(i as int).len() == 1);
                            assert(out@ + disp_obj(flds.skip(i as int + 1)) =~= pre + disp_obj(
                                flds.skip(i as int),
                            ));
                        }
                    }
                    i += 1;
                }
                proof {
                    assert(flds.skip(i as int) =~= Seq::empty());
                    assert(out@ =~= "{"@ + disp_obj(flds));
                }
                out.append("}");
                proof {
                    assert(out@ =~= disp(self@));
                }
                out
            },
        }
    }
}

} // verus!
