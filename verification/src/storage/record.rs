//! Record format: tagged values with varint-encoded lengths.
//!
//! Records use a compact binary format: a type tag per value, zigzag
//! varints for integers, big-endian bit patterns for reals and
//! length-prefixed bytes for text and blobs.
use vstd::prelude::*;
use vstd::utf8::{decode_utf8, encode_utf8, valid_utf8};
use crate::error::{Error, Result};
use crate::storage::codec::{be64_at, be64_bytes, lemma_be64_roundtrip, push_all, push_be64, read_be64};
use crate::storage::varint::{Varint, decode_agrees, lemma_varint_roundtrip, lemma_varint_signed_roundtrip,
    spec_varint_decode, spec_varint_decode_signed, varint_bytes, zigzag};
use crate::text::{decimal, push_str, string_of, u64_to_decimal};



verus! {

broadcast use vstd::utf8::encode_utf8_valid_utf8, vstd::utf8::encode_utf8_decode_utf8;

/// Value types supported by DeepSQL
#[derive(Debug, Clone, PartialEq)]
pub enum Value {
    /// NULL value
    Null,
    /// Integer value
    Integer(i64),
    /// Floating point value, held as the bit pattern of an IEEE 754 double
    Real(u64),
    /// Text string (UTF-8)
    Text(String),
    /// Binary data
    Blob(Vec<u8>),
}

/// The mathematical content of a value.
pub enum ValueView {
    Null,
    Integer(i64),
    Real(u64),
    Text(Seq<char>),
    Blob(Seq<u8>),
}

impl View for Value {
    type V = ValueView;

    open spec fn view(&self) -> ValueView {
        match self {
            Value::Null => ValueView::Null,
            Value::Integer(i) => ValueView::Integer(*i),
            Value::Real(r) => ValueView::Real(*r),
            Value::Text(s) => ValueView::Text(s@),
            Value::Blob(b) => ValueView::Blob(b@),
        }
    }
}

/// The type tag of a value.
pub open spec fn value_tag(v: ValueView) -> u8 {
    match v {
        ValueView::Null => 0,
        ValueView::Integer(_) => 1,
        ValueView::Real(_) => 2,
        ValueView::Text(_) => 3,
        ValueView::Blob(_) => 4,
    }
}

/// The bytes that serialize a value.
pub open spec fn value_bytes(v: ValueView) -> Seq<u8> {
    seq![value_tag(v)] + match v {
        ValueView::Null => Seq::<u8>::empty(),
        ValueView::Integer(i) => varint_bytes(zigzag(i as int)),
        ValueView::Real(r) => be64_bytes(r),
        ValueView::Text(s) => varint_bytes(encode_utf8(s).len()) + encode_utf8(s),
        ValueView::Blob(b) => varint_bytes(b.len()) + b,
    }
}

/// The text that the UTF-8 error of some bytes displays.
pub uninterp spec fn utf8_error_text(bytes: Seq<u8>) -> Seq<char>;

/// Turns bytes into a `String` (`String::from_utf8`): succeeds exactly on
/// valid UTF-8, decoding it; otherwise gives the error's display text,
/// which depends on the bytes alone and is left unstated.
#[verifier::external_body]
fn string_from_utf8(bytes: Vec<u8>) -> (r: core::result::Result<String, String>)
    ensures
        match r {
            Ok(s) => valid_utf8(bytes@) && s@ == decode_utf8(bytes@),
            Err(m) => !valid_utf8(bytes@) && m@ == utf8_error_text(bytes@),
        },
{
    match String::from_utf8(bytes) {
        Ok(s) => Ok(s),
        Err(e) => Err(e.to_string()),
    }
}

/// A length-prefixed byte field at the start of `rest`: its varint length,
/// then that many bytes.
pub open spec fn spec_len_field(rest: Seq<u8>) -> core::result::Result<(Seq<u8>, nat), Option<Seq<char>>> {
    match spec_varint_decode(rest) {
        Err(m) => Err(Some(m)),
        Ok((l, c)) => if rest.len() < c + l {
            Err(None)
        } else {
            Ok((rest.subrange(c as int, (c + l) as int), (c + l) as nat))
        },
    }
}

/// What deserializing a value at the start of `b` gives: the value and the
/// number of bytes read, or the error message.
pub open spec fn spec_value_parse(b: Seq<u8>) -> core::result::Result<(ValueView, nat), Seq<char>> {
    if b.len() == 0 {
        Err("Empty value bytes"@)
    } else {
        let tag = b[0];
        let rest = b.subrange(1, b.len() as int);
        if tag == 0 {
            Ok((ValueView::Null, 1))
        } else if tag == 1 {
            match spec_varint_decode_signed(rest) {
                Ok((v, c)) => Ok((ValueView::Integer(v), 1 + c)),
                Err(m) => Err(m),
            }
        } else if tag == 2 {
            if b.len() < 9 {
                Err("Incomplete real value"@)
            } else {
                Ok((ValueView::Real(be64_at(b, 1)), 9))
            }
        } else if tag == 3 {
            match spec_len_field(rest) {
                Err(Some(m)) => Err(m),
                Err(None) => Err("Incomplete text value"@),
                Ok((tb, n)) => if valid_utf8(tb) {
                    Ok((ValueView::Text(decode_utf8(tb)), 1 + n))
                } else {
                    Err("Invalid UTF-8: "@ + utf8_error_text(tb))
                },
            }
        } else if tag == 4 {
            match spec_len_field(rest) {
                Err(Some(m)) => Err(m),
                Err(None) => Err("Incomplete blob value"@),
                Ok((bb, n)) => Ok((ValueView::Blob(bb), 1 + n)),
            }
        } else {
            Err("Invalid type tag: "@ + decimal(tag as nat))
        }
    }
}

/// Reads a length-prefixed byte field; the error is `None` when the
/// declared length runs past the end.
fn read_len_field(rest: &[u8]) -> (r: core::result::Result<(Vec<u8>, usize), Option<Error>>)
    ensures
        match (r, spec_len_field(rest@)) {
            (Ok((v, n)), Ok((w, k))) => v@ == w && n == k,
            (Err(None), Err(None)) => true,
            (Err(Some(Error::RecordError(m))), Err(Some(sm))) => m@ == sm,
            _ => false,
        },
{
    let (len, consumed) = match Varint::decode(rest) {
        Ok(p) => p,
        Err(e) => return Err(Some(e)),
    };
    let avail = rest.len() - consumed;
    if len > avail as u64 {
        return Err(None);
    }
    let end = consumed + len as usize;
    let field = vstd::slice::slice_to_vec(vstd::slice::slice_subrange(rest, consumed, end));
    Ok((field, end))
}

impl Value {
    /// Get type tag for serialization
    fn type_tag(&self) -> (t: u8)
        ensures
            t == value_tag(self@),
    {
        match self {
            Value::Null => 0,
            Value::Integer(_) => 1,
            Value::Real(_) => 2,
            Value::Text(_) => 3,
            Value::Blob(_) => 4,
        }
    }

    /// Serialize value to bytes
    pub fn serialize(&self) -> (r: Vec<u8>)
        ensures
            r@ == value_bytes(self@),
    {
        let mut bytes: Vec<u8> = Vec::new();
        bytes.push(self.type_tag());
        match self {
            Value::Null => {},
            Value::Integer(v) => {
                let e = Varint::encode_signed(*v);
                push_all(&mut bytes, e.as_slice());
            },
            Value::Real(v) => {
                push_be64(&mut bytes, *v);
            },
            Value::Text(s) => {
                let text_bytes = s.as_str().as_bytes();
                let e = Varint::encode(text_bytes.len() as u64);
                push_all(&mut bytes, e.as_slice());
                push_all(&mut bytes, text_bytes);
            },
            Value::Blob(b) => {
                let e = Varint::encode(b.len() as u64);
                push_all(&mut bytes, e.as_slice());
                push_all(&mut bytes, b.as_slice());
            },
        }
        assert(bytes@ =~= value_bytes(self@));
        bytes
    }

    /// Deserialize value from bytes; returns (value, bytes_consumed)
    pub fn deserialize(bytes: &[u8]) -> (r: Result<(Value, usize)>)
        ensures
            match (r, spec_value_parse(bytes@)) {
                (Ok((v, n)), Ok((w, k))) => v@ == w && n == k,
                (Err(Error::RecordError(m)), Err(sm)) => m@ == sm,
                _ => false,
            },
    {
        if bytes.len() == 0 {
            return Err(Error::RecordError(string_of("Empty value bytes")));
        }
        let type_tag = bytes[0];
        let rest = vstd::slice::slice_subrange(bytes, 1, bytes.len());
        if type_tag == 0 {
            Ok((Value::Null, 1))
        } else if type_tag == 1 {
            match Varint::decode_signed(rest) {
                Ok((v, consumed)) => Ok((Value::Integer(v), 1 + consumed)),
                Err(e) => Err(e),
            }
        } else if type_tag == 2 {
            if bytes.len() < 9 {
                return Err(Error::RecordError(string_of("Incomplete real value")));
            }
            Ok((Value::Real(read_be64(bytes, 1)), 9))
        } else if type_tag == 3 {
            match read_len_field(rest) {
                Err(Some(e)) => Err(e),
                Err(None) => Err(Error::RecordError(string_of("Incomplete text value"))),
                Ok((tb, n)) => {
                    match string_from_utf8(tb) {
                        Ok(s) => Ok((Value::Text(s), 1 + n)),
                        Err(m) => {
                            let mut msg = string_of("Invalid UTF-8: ");
                            push_str(&mut msg, m.as_str());
                            Err(Error::RecordError(msg))
                        },
                    }
                },
            }
        } else if type_tag == 4 {
            match read_len_field(rest) {
                Err(Some(e)) => Err(e),
                Err(None) => Err(Error::RecordError(string_of("Incomplete blob value"))),
                Ok((bb, n)) => Ok((Value::Blob(bb), 1 + n)),
            }
        } else {
            let mut msg = string_of("Invalid type tag: ");
            let d = u64_to_decimal(type_tag as u64);
            push_str(&mut msg, d.as_str());
            Err(Error::RecordError(msg))
        }
    }
}

/// Deserializing what `serialize` wrote, whatever follows it, gives the
/// value back and consumes exactly its bytes.
pub proof fn lemma_value_roundtrip(v: ValueView, rest: Seq<u8>)
    requires
        v is Text ==> encode_utf8(v->Text_0).len() <= u64::MAX,
        v is Blob ==> v->Blob_0.len() <= u64::MAX,
    ensures
        spec_value_parse(value_bytes(v) + rest) == Ok::<(ValueView, nat), Seq<char>>((v, value_bytes(v).len())),
{
    let b = value_bytes(v) + rest;
    let r = b.subrange(1, b.len() as int);
    assert(b[0] == value_tag(v));
    match v {
        ValueView::Null => {
        },
        ValueView::Integer(i) => {
            let e = varint_bytes(zigzag(i as int));
            assert(r =~= e + rest);
            lemma_varint_signed_roundtrip(i, rest);
        },
        ValueView::Real(x) => {
            let e = be64_bytes(x);
            assert forall|k: int| 0 <= k < 8 implies b[1 + k] == #[trigger] be64_bytes(x)[k] by {
                assert(b[1 + k] == value_bytes(v)[1 + k]);
            }
            lemma_be64_roundtrip(x, b, 1);
        },
        ValueView::Text(s) => {
            let tb = encode_utf8(s);
            let l = tb.len() as u64;
            let e = varint_bytes(l as nat);
            assert(r =~= e + (tb + rest));
            lemma_varint_roundtrip(l, tb + rest);
            assert(r.subrange(e.len() as int, (e.len() + l) as int) =~= tb);
        },
        ValueView::Blob(bb) => {
            let l = bb.len() as u64;
            let e = varint_bytes(l as nat);
            assert(r =~= e + (bb + rest));
            lemma_varint_roundtrip(l, bb + rest);
            assert(r.subrange(e.len() as int, (e.len() + l) as int) =~= bb);
        },
    }
}

/// A record consists of a key and a list of values
#[derive(Debug, Clone)]
pub struct Record {
    /// Record key (used for B+Tree ordering)
    pub key: Vec<u8>,
    /// Record values
    pub values: Vec<Value>,
}

/// The mathematical content of a record.
pub struct RecordView {
    pub key: Seq<u8>,
    pub values: Seq<ValueView>,
}

impl View for Record {
    type V = RecordView;

    open spec fn view(&self) -> RecordView {
        RecordView { key: self.key@, values: self.values@.map_values(|v: Value| v@) }
    }
}

/// The concatenated bytes of a sequence of values.
pub open spec fn values_bytes(vs: Seq<ValueView>) -> Seq<u8>
    decreases vs.len(),
{
    if vs.len() == 0 {
        Seq::empty()
    } else {
        values_bytes(vs.drop_last()) + value_bytes(vs.last())
    }
}

/// The bytes of a record: key length, key, value count, values.
pub open spec fn record_bytes(r: RecordView) -> Seq<u8> {
    varint_bytes(r.key.len()) + r.key + varint_bytes(r.values.len()) + values_bytes(r.values)
}

/// Parses `n` values starting at offset `off` of `b`; gives the values and
/// the offset after them.
pub open spec fn spec_values_parse(b: Seq<u8>, off: nat, n: nat) -> core::result::Result<(Seq<ValueView>, nat), Seq<char>>
    decreases n,
{
    if n == 0 {
        Ok((Seq::empty(), off))
    } else {
        match spec_value_parse(b.subrange(off as int, b.len() as int)) {
            Err(m) => Err(m),
            Ok((v, c)) => match spec_values_parse(b, off + c, (n - 1) as nat) {
                Err(m) => Err(m),
                Ok((vs, e)) => Ok((seq![v] + vs, e)),
            },
        }
    }
}

/// What deserializing a record at the start of `b` gives: the record and
/// the number of bytes it takes, or the error message.
pub open spec fn spec_record_parse(b: Seq<u8>) -> core::result::Result<(RecordView, nat), Seq<char>> {
    match spec_varint_decode(b) {
        Err(m) => Err(m),
        Ok((kl, c)) => if b.len() < c + kl {
            Err("Incomplete record key"@)
        } else {
            let key = b.subrange(c as int, (c + kl) as int);
            let off = (c + kl) as nat;
            match spec_varint_decode(b.subrange(off as int, b.len() as int)) {
                Err(m) => Err(m),
                Ok((n, c2)) => match spec_values_parse(b, off + c2, n as nat) {
                    Err(m) => Err(m),
                    Ok((vs, e)) => Ok((RecordView { key, values: vs }, e)),
                },
            }
        },
    }
}

/// Prepends a value to the result of parsing the rest.
pub open spec fn prepend_values(acc: Seq<ValueView>, r: core::result::Result<(Seq<ValueView>, nat), Seq<char>>)
    -> core::result::Result<(Seq<ValueView>, nat), Seq<char>> {
    match r {
        Ok((vs, e)) => Ok((acc + vs, e)),
        Err(m) => Err(m),
    }
}

impl Record {
    /// Create a new record
    pub fn new(key: Vec<u8>, values: Vec<Value>) -> (r: Self)
        ensures
            r.key == key,
            r.values == values,
    {
        Record { key, values }
    }

    /// Serialize record to bytes.
    /// Format: key_len (varint) | key | value_count (varint) | values...
    pub fn serialize(&self) -> (r: Vec<u8>)
        ensures
            r@ == record_bytes(self@),
    {
        let mut bytes: Vec<u8> = Vec::new();
        let e = Varint::encode(self.key.len() as u64);
        push_all(&mut bytes, e.as_slice());
        push_all(&mut bytes, self.key.as_slice());
        let c = Varint::encode(self.values.len() as u64);
        push_all(&mut bytes, c.as_slice());
        let ghost prefix = bytes@;
        let mut i: usize = 0;
        while i < self.values.len()
            invariant
                i <= self.values@.len(),
                bytes@ == prefix + values_bytes(self@.values.subrange(0, i as int)),
            decreases self.values@.len() - i,
        {
            let vb = self.values[i].serialize();
            push_all(&mut bytes, vb.as_slice());
            proof {
                let vs = self@.values.subrange(0, i + 1);
                assert(vs.drop_last() =~= self@.values.subrange(0, i as int));
                assert(vs.last() == self.values@[i as int]@);
            }
            i = i + 1;
            assert(bytes@ =~= prefix + values_bytes(self@.values.subrange(0, i as int)));
        }
        assert(self@.values.subrange(0, i as int) =~= self@.values);
        assert(bytes@ =~= record_bytes(self@));
        bytes
    }

    /// Deserialize record from bytes
    pub fn deserialize(bytes: &[u8]) -> (r: Result<Self>)
        ensures
            match (r, spec_record_parse(bytes@)) {
                (Ok(rec), Ok((w, _))) => rec@ == w,
                (Err(Error::RecordError(m)), Err(sm)) => m@ == sm,
                _ => false,
            },
    {
        match Self::deserialize_with_len(bytes) {
            Ok((rec, _)) => Ok(rec),
            Err(e) => Err(e),
        }
    }

    /// Deserialize a record and report how many bytes it took.
    pub fn deserialize_with_len(bytes: &[u8]) -> (r: Result<(Self, usize)>)
        ensures
            match (r, spec_record_parse(bytes@)) {
                (Ok((rec, n)), Ok((w, k))) => rec@ == w && n == k,
                (Err(Error::RecordError(m)), Err(sm)) => m@ == sm,
                _ => false,
            },
    {
        let ghost b = bytes@;
        let (key_len, consumed) = match Varint::decode(bytes) {
            Ok(p) => p,
            Err(e) => return Err(e),
        };
        let avail = bytes.len() - consumed;
        if key_len > avail as u64 {
            return Err(Error::RecordError(string_of("Incomplete record key")));
        }
        let mut offset = consumed + key_len as usize;
        let key = vstd::slice::slice_to_vec(vstd::slice::slice_subrange(bytes, consumed, offset));
        let rest = vstd::slice::slice_subrange(bytes, offset, bytes.len());
        let (value_count, consumed2) = match Varint::decode(rest) {
            Ok(p) => p,
            Err(e) => return Err(e),
        };
        offset = offset + consumed2;
        let mut values: Vec<Value> = Vec::new();
        let mut k: u64 = 0;
        while k < value_count
            invariant
                b == bytes@,
                k <= value_count,
                spec_varint_decode(b) == Ok::<(u64, nat), Seq<char>>((key_len, consumed as nat)),
                b.len() >= consumed + key_len,
                spec_varint_decode(b.subrange((consumed + key_len) as int, b.len() as int))
                    == Ok::<(u64, nat), Seq<char>>((value_count, consumed2 as nat)),
                offset <= b.len(),
                spec_values_parse(b, (consumed + key_len + consumed2) as nat, value_count as nat)
                    == prepend_values(values@.map_values(|v: Value| v@),
                        spec_values_parse(b, offset as nat, (value_count - k) as nat)),
            decreases value_count - k,
        {
            let tail = vstd::slice::slice_subrange(bytes, offset, bytes.len());
            let ghost before = values@.map_values(|v: Value| v@);
            match Value::deserialize(tail) {
                Ok((v, c)) => {
                    proof {
                        assert(tail@ == b.subrange(offset as int, b.len() as int));
                        let rest_n = (value_count - k) as nat;
                        let inner = spec_values_parse(b, (offset + c) as nat, (rest_n - 1) as nat);
                        assert(spec_values_parse(b, offset as nat, rest_n) == match inner {
                            Err(m) => Err(m),
                            Ok((vs, e)) => Ok((seq![v@] + vs, e)),
                        });
                        assert(values@.push(v).map_values(|v: Value| v@) =~= before.push(v@));
                        match inner {
                            Ok((vs, e)) => {
                                assert(before + (seq![v@] + vs) =~= before.push(v@) + vs);
                            },
                            Err(_) => {},
                        }
                    }
                    values.push(v);
                    offset = offset + c;
                },
                Err(e) => {
                    proof {
                        assert(tail@ == b.subrange(offset as int, b.len() as int));
                        let rest_n = (value_count - k) as nat;
                        let sm = match spec_value_parse(tail@) { Err(m) => m, _ => arbitrary() };
                        assert(spec_value_parse(tail@) is Err);
                        assert(spec_values_parse(b, offset as nat, rest_n)
                            == Err::<(Seq<ValueView>, nat), Seq<char>>(sm));
                        assert(spec_values_parse(b, (consumed + key_len + consumed2) as nat, value_count as nat)
                            == Err::<(Seq<ValueView>, nat), Seq<char>>(sm));
                        assert(spec_record_parse(b) == Err::<(RecordView, nat), Seq<char>>(sm));
                    }
                    return Err(e);
                },
            }
            k = k + 1;
        }
        proof {
            assert(values@.map_values(|v: Value| v@) + Seq::<ValueView>::empty() =~= values@.map_values(|v: Value| v@));
        }
        let rec = Record { key, values };
        Ok((rec, offset))
    }

    /// Get the total serialized size of this record
    pub fn serialized_size(&self) -> (n: usize)
        ensures
            n == record_bytes(self@).len(),
    {
        self.serialize().len()
    }
}

/// A value whose serialization can be read back: lengths fit in 64 bits.
pub open spec fn value_encodable(v: ValueView) -> bool {
    &&& v is Text ==> encode_utf8(v->Text_0).len() <= u64::MAX
    &&& v is Blob ==> v->Blob_0.len() <= u64::MAX
}

/// A record whose serialization can be read back.
pub open spec fn record_encodable(r: RecordView) -> bool {
    &&& r.key.len() <= u64::MAX
    &&& r.values.len() <= u64::MAX
    &&& forall|i: int| 0 <= i < r.values.len() ==> value_encodable(#[trigger] r.values[i])
}

proof fn lemma_values_bytes_cons(v: ValueView, vs: Seq<ValueView>)
    ensures
        values_bytes(seq![v] + vs) == value_bytes(v) + values_bytes(vs),
    decreases vs.len(),
{
    let all = seq![v] + vs;
    if vs.len() == 0 {
        assert(all.drop_last() =~= Seq::<ValueView>::empty());
        assert(values_bytes(Seq::<ValueView>::empty()) =~= Seq::<u8>::empty());
        assert(values_bytes(all) =~= value_bytes(v) + values_bytes(vs));
    } else {
        assert(all.drop_last() =~= seq![v] + vs.drop_last());
        lemma_values_bytes_cons(v, vs.drop_last());
        assert(all.last() == vs.last());
        assert(values_bytes(all) =~= value_bytes(v) + values_bytes(vs));
    }
}

#[verifier::rlimit(40)]
#[verifier::spinoff_prover]
#[verifier::rlimit(40)]
proof fn lemma_values_roundtrip(b: Seq<u8>, off: nat, vs: Seq<ValueView>)
    requires
        off + values_bytes(vs).len() <= b.len(),
        b.subrange(off as int, (off + values_bytes(vs).len()) as int) == values_bytes(vs),
        forall|i: int| 0 <= i < vs.len() ==> value_encodable(#[trigger] vs[i]),
    ensures
        spec_values_parse(b, off, vs.len()) == Ok::<(Seq<ValueView>, nat), Seq<char>>((vs, off + values_bytes(vs).len())),
    decreases vs.len(),
{
    if vs.len() == 0 {
        assert(vs =~= Seq::<ValueView>::empty());
    } else {
        let v = vs[0];
        let t = vs.drop_first();
        assert(vs =~= seq![v] + t);
        lemma_values_bytes_cons(v, t);
        let vb = value_bytes(v);
        let tb = values_bytes(t);
        let tail = b.subrange(off as int, b.len() as int);
        let after = b.subrange((off + vb.len()) as int, b.len() as int);
        assert(tail =~= vb + after) by {
            assert forall|i: int| 0 <= i < vb.len() implies tail[i] == vb[i] by {
                assert(b.subrange(off as int, (off + values_bytes(vs).len()) as int)[i] == b[off + i]);
            }
        }
        assert(value_encodable(vs[0]));
        lemma_value_roundtrip(v, after);
        assert forall|i: int| 0 <= i < t.len() implies value_encodable(#[trigger] t[i]) by {
            assert(t[i] == vs[i + 1]);
        }
        assert(b.subrange((off + vb.len()) as int, (off + vb.len() + tb.len()) as int) =~= tb) by {
            assert forall|i: int| 0 <= i < tb.len() implies b.subrange((off + vb.len()) as int, (off + vb.len() + tb.len()) as int)[i] == tb[i] by {
                assert(b.subrange(off as int, (off + values_bytes(vs).len()) as int)[vb.len() + i] == b[off + vb.len() + i]);
            }
        }
        lemma_values_roundtrip(b, (off + vb.len()) as nat, t);
    }
}

/// Deserializing what `Record::serialize` wrote, whatever follows it, gives
/// the record back and consumes exactly its bytes.
pub proof fn lemma_record_roundtrip(r: RecordView, rest: Seq<u8>)
    requires
        record_encodable(r),
    ensures
        spec_record_parse(record_bytes(r) + rest) == Ok::<(RecordView, nat), Seq<char>>((r, record_bytes(r).len())),
{
    let kl = r.key.len() as u64;
    let ke = varint_bytes(kl as nat);
    let n = r.values.len() as u64;
    let ne = varint_bytes(n as nat);
    let vb = values_bytes(r.values);
    let b = ke + r.key + ne + vb + rest;
    assert(record_bytes(r) + rest =~= b);
    lemma_record_steps(r, rest, ke, ne, vb, b);
}

#[verifier::rlimit(30)]
proof fn lemma_record_steps(r: RecordView, rest: Seq<u8>, ke: Seq<u8>, ne: Seq<u8>, vb: Seq<u8>, b: Seq<u8>)
    requires
        record_encodable(r),
        ke == varint_bytes(r.key.len()),
        ne == varint_bytes(r.values.len()),
        vb == values_bytes(r.values),
        b == ke + r.key + ne + vb + rest,
    ensures
        spec_record_parse(b) == Ok::<(RecordView, nat), Seq<char>>((r, (ke.len() + r.key.len() + ne.len() + vb.len()) as nat)),
{
    let kl = r.key.len() as u64;
    let n = r.values.len() as u64;
    let off = ke.len() + kl;
    let start = off + ne.len();
    assert(b =~= ke + (r.key + ne + vb + rest));
    lemma_varint_roundtrip(kl, r.key + ne + vb + rest);
    assert(b.subrange(ke.len() as int, (ke.len() + kl) as int) =~= r.key);
    assert(b.subrange(off as int, b.len() as int) =~= ne + (vb + rest));
    lemma_varint_roundtrip(n, vb + rest);
    assert(b.subrange(start as int, (start + vb.len()) as int) =~= vb);
    lemma_values_roundtrip(b, start as nat, r.values);
    lemma_record_parse_from_parts(b, r, kl, ke.len(), n, ne.len(), (start + vb.len()) as nat);
}

proof fn lemma_record_parse_from_parts(b: Seq<u8>, r: RecordView, kl: u64, c: nat, n: u64, c2: nat, end: nat)
    requires
        spec_varint_decode(b) == Ok::<(u64, nat), Seq<char>>((kl, c)),
        b.len() >= c + kl,
        b.subrange(c as int, (c + kl) as int) == r.key,
        spec_varint_decode(b.subrange((c + kl) as int, b.len() as int)) == Ok::<(u64, nat), Seq<char>>((n, c2)),
        spec_values_parse(b, (c + kl + c2) as nat, n as nat) == Ok::<(Seq<ValueView>, nat), Seq<char>>((r.values, end)),
    ensures
        spec_record_parse(b) == Ok::<(RecordView, nat), Seq<char>>((r, end)),
{
}

} // verus!
