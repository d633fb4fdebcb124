use vstd::prelude::*;

use crate::json::{
    ascii_bytes, dec_bytes, dec_bytes_signed, json_string, push_ascii, push_i64, push_json_string,
    push_u64,
};

verus! {

broadcast use {
    vstd::seq::axiom_seq_index_decreases,
    vstd::std_specs::vec::axiom_vec_decreases_to_view,
    vstd::std_specs::vec::axiom_vec_index_decreases,
};

/// A structured field value: the JSON data model without numbers that
/// need a fractional part.
pub enum JsonValue {
    Null,
    Bool(bool),
    Int(i64),
    UInt(u64),
    Str(String),
    Arr(Vec<JsonValue>),
    Obj(Vec<(String, JsonValue)>),
}

/// Structural equality of two values, comparing strings and sequences
/// by their contents.
pub open spec fn jv_eq(a: JsonValue, b: JsonValue) -> bool
    decreases a,
{
    match (a, b) {
        (JsonValue::Null, JsonValue::Null) => true,
        (JsonValue::Bool(x), JsonValue::Bool(y)) => x == y,
        (JsonValue::Int(x), JsonValue::Int(y)) => x == y,
        (JsonValue::UInt(x), JsonValue::UInt(y)) => x == y,
        (JsonValue::Str(x), JsonValue::Str(y)) => x@ == y@,
        (JsonValue::Arr(x), JsonValue::Arr(y)) => {
            &&& x@.len() == y@.len()
            &&& forall|i: int| 0 <= i < x@.len() ==> jv_eq(#[trigger] x@[i], y@[i])
        },
        (JsonValue::Obj(x), JsonValue::Obj(y)) => {
            &&& x@.len() == y@.len()
            &&& forall|i: int|
                0 <= i < x@.len() ==> (#[trigger] x@[i]).0@ == y@[i].0@ && jv_eq(x@[i].1, y@[i].1)
        },
        _ => false,
    }
}

/// The bytes `null`.
pub open spec fn null_bytes() -> Seq<u8> {
    seq!['n' as u8, 'u' as u8, 'l' as u8, 'l' as u8]
}

/// The bytes `true`.
pub open spec fn true_bytes() -> Seq<u8> {
    seq!['t' as u8, 'r' as u8, 'u' as u8, 'e' as u8]
}

/// The bytes `false`.
pub open spec fn false_bytes() -> Seq<u8> {
    seq!['f' as u8, 'a' as u8, 'l' as u8, 's' as u8, 'e' as u8]
}

/// The JSON rendering of one value.
pub open spec fn jval_bytes(v: JsonValue) -> Seq<u8>
    decreases v,
{
    match v {
        JsonValue::Null => null_bytes(),
        JsonValue::Bool(b) => if b {
            true_bytes()
        } else {
            false_bytes()
        },
        JsonValue::Int(i) => dec_bytes_signed(i as int),
        JsonValue::UInt(u) => dec_bytes(u as int),
        JsonValue::Str(s) => json_string(s@),
        JsonValue::Arr(items) => seq!['[' as u8] + jarr_bytes(items@) + seq![']' as u8],
        JsonValue::Obj(entries) => seq!['{' as u8] + jobj_bytes(entries@) + seq!['}' as u8],
    }
}

/// The comma-separated renderings of the elements of an array.
pub open spec fn jarr_bytes(items: Seq<JsonValue>) -> Seq<u8>
    decreases items,
{
    if items.len() == 0 {
        seq![]
    } else if items.len() == 1 {
        jval_bytes(items[0])
    } else {
        jarr_bytes(items.drop_last()) + seq![',' as u8] + jval_bytes(items.last())
    }
}

/// The rendering of one object member: quoted key, colon, value.
pub open spec fn jmember_bytes(e: (String, JsonValue)) -> Seq<u8>
    decreases e,
{
    json_string(e.0@) + seq![':' as u8] + jval_bytes(e.1)
}

/// The comma-separated renderings of the members of an object.
pub open spec fn jobj_bytes(entries: Seq<(String, JsonValue)>) -> Seq<u8>
    decreases entries,
{
    if entries.len() == 0 {
        seq![]
    } else if entries.len() == 1 {
        jmember_bytes(entries[0])
    } else {
        jobj_bytes(entries.drop_last()) + seq![',' as u8] + jmember_bytes(entries.last())
    }
}

/// Appends the JSON rendering of `v` to `out`.
pub fn push_jval(out: &mut Vec<u8>, v: &JsonValue)
    ensures
        final(out)@ == old(out)@ + jval_bytes(*v),
    decreases *v,
{
    match v {
        JsonValue::Null => {
            proof {
                reveal_strlit("null");
                assert(vstd::utf8::is_ascii_chars("null"@));
            }
            push_ascii(out, "null");
            proof {
                assert(ascii_bytes("null"@) =~= null_bytes());
            }
        },
        JsonValue::Bool(b) => {
            if *b {
                proof {
                    reveal_strlit("true");
                    assert(vstd::utf8::is_ascii_chars("true"@));
                }
                push_ascii(out, "true");
                proof {
                    assert(ascii_bytes("true"@) =~= true_bytes());
                }
            } else {
                proof {
                    reveal_strlit("false");
                    assert(vstd::utf8::is_ascii_chars("false"@));
                }
                push_ascii(out, "false");
                proof {
                    assert(ascii_bytes("false"@) =~= false_bytes());
                }
            }
        },
        JsonValue::Int(i) => {
            push_i64(out, *i);
        },
        JsonValue::UInt(u) => {
            push_u64(out, *u);
        },
        JsonValue::Str(s) => {
            push_json_string(out, s.as_str());
        },
        JsonValue::Arr(items) => {
            out.push('[' as u8);
            let n = items.len();
            let mut i: usize = 0;
            while i < n
                invariant
                    *v == JsonValue::Arr(*items),
                    n == items@.len(),
                    i <= n,
                    out@ == old(out)@ + seq!['[' as u8] + jarr_bytes(items@.subrange(0, i as int)),
                decreases n - i,
            {
                if i > 0 {
                    out.push(',' as u8);
                }
                proof {
                    assert(decreases_to!(*v => v->Arr_0));
                    assert(decreases_to!(v->Arr_0 => v->Arr_0@));
                    assert(decreases_to!(v->Arr_0@ => v->Arr_0@[i as int]));
                    assert(v->Arr_0@[i as int] == items@[i as int]);
                    assert(decreases_to!(*v => items@[i as int]));
                }
                push_jval(out, &items[i]);
                i = i + 1;
                proof {
                    lemma_jarr_snoc(items@, i as int);
                    assert(out@ =~= old(out)@ + seq!['[' as u8] + jarr_bytes(
                        items@.subrange(0, i as int),
                    ));
                }
            }
            out.push(']' as u8);
            proof {
                assert(items@.subrange(0, items@.len() as int) =~= items@);
                assert(out@ =~= old(out)@ + jval_bytes(*v));
            }
        },
        JsonValue::Obj(entries) => {
            out.push('{' as u8);
            let n = entries.len();
            let mut i: usize = 0;
            while i < n
                invariant
                    *v == JsonValue::Obj(*entries),
                    n == entries@.len(),
                    i <= n,
                    out@ == old(out)@ + seq!['{' as u8] + jobj_bytes(
                        entries@.subrange(0, i as int),
                    ),
                decreases n - i,
            {
                if i > 0 {
                    out.push(',' as u8);
                }
                push_json_string(out, entries[i].0.as_str());
                out.push(':' as u8);
                proof {
                    assert(decreases_to!(*v => v->Obj_0));
                    assert(decreases_to!(v->Obj_0 => v->Obj_0@));
                    assert(decreases_to!(v->Obj_0@ => v->Obj_0@[i as int]));
                    assert(decreases_to!(v->Obj_0@[i as int] => v->Obj_0@[i as int].1));
                    assert(v->Obj_0@[i as int].1 == entries@[i as int].1);
                    assert(decreases_to!(*v => entries@[i as int].1));
                }
                push_jval(out, &entries[i].1);
                i = i + 1;
                proof {
                    lemma_jobj_snoc(entries@, i as int);
                    assert(out@ =~= old(out)@ + seq!['{' as u8] + jobj_bytes(
                        entries@.subrange(0, i as int),
                    ));
                }
            }
            out.push('}' as u8);
            proof {
                assert(entries@.subrange(0, entries@.len() as int) =~= entries@);
                assert(out@ =~= old(out)@ + jval_bytes(*v));
            }
        },
    }
}

impl Clone for JsonValue {
    /// Clones the value; the copy is structurally equal to the original.
    fn clone(&self) -> (r: Self)
        ensures
            jv_eq(r, *self),
        decreases *self,
    {
        match self {
            JsonValue::Null => JsonValue::Null,
            JsonValue::Bool(b) => JsonValue::Bool(*b),
            JsonValue::Int(i) => JsonValue::Int(*i),
            JsonValue::UInt(u) => JsonValue::UInt(*u),
            JsonValue::Str(s) => JsonValue::Str(s.clone()),
            JsonValue::Arr(items) => {
                let n = items.len();
                let mut out: Vec<JsonValue> = Vec::new();
                let mut i: usize = 0;
                while i < n
                    invariant
                        *self == JsonValue::Arr(*items),
                        n == items@.len(),
                        i <= n,
                        out@.len() == i,
                        forall|j: int| 0 <= j < i ==> jv_eq(#[trigger] out@[j], items@[j]),
                    decreases n - i,
                {
                    proof {
                        assert(decreases_to!(*self => self->Arr_0));
                        assert(decreases_to!(self->Arr_0 => self->Arr_0@));
                        assert(decreases_to!(self->Arr_0@ => self->Arr_0@[i as int]));
                        assert(self->Arr_0@[i as int] == items@[i as int]);
                        assert(decreases_to!(*self => items@[i as int]));
                    }
                    out.push(items[i].clone());
                    i = i + 1;
                }
                JsonValue::Arr(out)
            },
            JsonValue::Obj(entries) => {
                let n = entries.len();
                let mut out: Vec<(String, JsonValue)> = Vec::new();
                let mut i: usize = 0;
                while i < n
                    invariant
                        *self == JsonValue::Obj(*entries),
                        n == entries@.len(),
                        i <= n,
                        out@.len() == i,
                        forall|j: int|
                            0 <= j < i ==> (#[trigger] out@[j]).0@ == entries@[j].0@ && jv_eq(
                                out@[j].1,
                                entries@[j].1,
                            ),
                    decreases n - i,
                {
                    proof {
                        assert(decreases_to!(*self => self->Obj_0));
                        assert(decreases_to!(self->Obj_0 => self->Obj_0@));
                        assert(decreases_to!(self->Obj_0@ => self->Obj_0@[i as int]));
                        assert(decreases_to!(self->Obj_0@[i as int] => self->Obj_0@[i as int].1));
                        assert(self->Obj_0@[i as int].1 == entries@[i as int].1);
                        assert(decreases_to!(*self => entries@[i as int].1));
                    }
                    let k = entries[i].0.clone();
                    let v = entries[i].1.clone();
                    out.push((k, v));
                    i = i + 1;
                }
                JsonValue::Obj(out)
            },
        }
    }
}

/// Extending an array rendering by one element appends a comma (after
/// the first element) and the element's rendering.
proof fn lemma_jarr_snoc(items: Seq<JsonValue>, i: int)
    requires
        0 < i <= items.len(),
    ensures
        jarr_bytes(items.subrange(0, i)) == if i == 1 {
            jval_bytes(items[0])
        } else {
            jarr_bytes(items.subrange(0, i - 1)) + seq![',' as u8] + jval_bytes(items[i - 1])
        },
{
    let s = items.subrange(0, i);
    if i == 1 {
        assert(s.len() == 1);
        assert(s[0] == items[0]);
    } else {
        assert(s.drop_last() =~= items.subrange(0, i - 1));
        assert(s.last() == items[i - 1]);
    }
}

/// Extending an object rendering by one member appends a comma (after
/// the first member) and the member's rendering.
proof fn lemma_jobj_snoc(entries: Seq<(String, JsonValue)>, i: int)
    requires
        0 < i <= entries.len(),
    ensures
        jobj_bytes(entries.subrange(0, i)) == if i == 1 {
            jmember_bytes(entries[0])
        } else {
            jobj_bytes(entries.subrange(0, i - 1)) + seq![',' as u8] + jmember_bytes(
                entries[i - 1],
            )
        },
{
    let s = entries.subrange(0, i);
    if i == 1 {
        assert(s.len() == 1);
        assert(s[0] == entries[0]);
    } else {
        assert(s.drop_last() =~= entries.subrange(0, i - 1));
        assert(s.last() == entries[i - 1]);
    }
}

} // verus!
