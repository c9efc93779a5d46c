//! Values and their views: the untyped byte payload shared by the
//! instruction stream and runtime storage, and its interpretations.
use vstd::prelude::*;
use vstd::string::*;
use vstd::utf8::*;
use crate::errors::CannotConstruct;

verus! {

/// The big-endian 16-bit number held in two bytes.
pub open spec fn be16(hi: u8, lo: u8) -> nat {
    hi as nat * 256 + lo as nat
}

/// The two big-endian bytes of a number below 65536.
pub open spec fn u16_bytes(n: nat) -> Seq<u8> {
    seq![(n / 256) as u8, (n % 256) as u8]
}

/// A payload preceded by its 16-bit length: the wire form of a value.
pub open spec fn framed(payload: Seq<u8>) -> Seq<u8> {
    u16_bytes(payload.len()) + payload
}

/// The payload of the value that stands at the start of `b`, if `b` holds
/// the whole of it; bytes after it are ignored.
pub open spec fn unframe(b: Seq<u8>) -> Option<Seq<u8>> {
    if b.len() >= 2 && b.len() >= 2 + be16(b[0], b[1]) {
        Some(b.subrange(2, 2 + be16(b[0], b[1]) as int))
    } else {
        None
    }
}

pub proof fn lemma_u16_bytes(n: nat)
    requires
        n < 65536,
    ensures
        u16_bytes(n).len() == 2,
        be16(u16_bytes(n)[0], u16_bytes(n)[1]) == n,
{
    let hi = n / 256;
    let lo = n % 256;
    assert(hi < 256 && lo < 256 && hi * 256 + lo == n) by (nonlinear_arith)
        requires
            n < 65536,
            hi == n / 256,
            lo == n % 256,
    ;
}

/// A value framed and followed by any bytes reads back as that value.
pub proof fn lemma_unframe_framed(payload: Seq<u8>, rest: Seq<u8>)
    requires
        payload.len() < 65536,
    ensures
        unframe(framed(payload) + rest) == Some(payload),
{
    lemma_u16_bytes(payload.len());
    let b = framed(payload) + rest;
    assert(b.subrange(2, 2 + payload.len() as int) =~= payload);
}

/// The universal runtime value: a 16-bit length and a payload of exactly that
/// many bytes, whose meaning is chosen by the instruction that consumes it.
#[derive(Debug, Clone)]
pub struct Value {
    pub data_len: u16,
    pub data: Vec<u8>,
}

impl View for Value {
    type V = Seq<u8>;

    open spec fn view(&self) -> Seq<u8> {
        self.data@
    }
}

impl Value {
    /// The declared length agrees with the payload.
    pub open spec fn wf(&self) -> bool {
        self.data_len as nat == self.data@.len()
    }

    pub fn new(data: Vec<u8>) -> (r: Value)
        requires
            data@.len() < 65536,
        ensures
            r.wf(),
            r@ == data@,
    {
        Value { data_len: data.len() as u16, data }
    }

    pub fn new_again(data: [u8; 8]) -> (r: Value)
        ensures
            r.wf(),
            r@ == data@,
    {
        let mut v: Vec<u8> = Vec::new();
        let mut i: usize = 0;
        while i < 8
            invariant
                i <= 8,
                data@.len() == 8,
                v@ == data@.subrange(0, i as int),
            decreases 8 - i,
        {
            v.push(data[i]);
            i = i + 1;
        }
        assert(v@ =~= data@);
        Value::new(v)
    }

    /// An independent copy with the same length and payload.
    pub fn copy(&self) -> (r: Value)
        ensures
            r.data_len == self.data_len,
            r@ == self@,
    {
        Value { data_len: self.data_len, data: self.data.clone() }
    }

    /// The wire form: the 16-bit big-endian length, then the payload.
    pub fn to_bytes(&self) -> (r: Vec<u8>)
        requires
            self.wf(),
        ensures
            r@ == framed(self@),
    {
        let mut bytes: Vec<u8> = Vec::new();
        bytes.push((self.data_len / 256) as u8);
        bytes.push((self.data_len % 256) as u8);
        let mut i: usize = 0;
        while i < self.data.len()
            invariant
                i <= self.data@.len(),
                bytes@ == u16_bytes(self.data@.len()) + self.data@.subrange(0, i as int),
            decreases self.data@.len() - i,
        {
            bytes.push(self.data[i]);
            i = i + 1;
        }
        assert(self.data@.subrange(0, i as int) =~= self.data@);
        bytes
    }

    /// Reads the value whose wire form starts `bytes`; `None` where the
    /// bytes end before the declared payload does.
    pub fn from_bytes(bytes: &[u8]) -> (r: Option<Value>)
        ensures
            r is Some <==> unframe(bytes@) is Some,
            r matches Some(v) ==> v.wf() && unframe(bytes@) == Some(v@),
    {
        assert(bytes@.subrange(0, bytes@.len() as int) =~= bytes@);
        Value::read_at(bytes, 0)
    }

    /// Reads the value whose wire form starts at offset `at` of `bytes`.
    pub fn read_at(bytes: &[u8], at: usize) -> (r: Option<Value>)
        requires
            at <= bytes@.len(),
        ensures
            r is Some <==> unframe(bytes@.subrange(at as int, bytes@.len() as int)) is Some,
            r matches Some(v) ==> v.wf() && unframe(bytes@.subrange(at as int, bytes@.len() as int))
                == Some(v@),
    {
        let ghost b = bytes@.subrange(at as int, bytes@.len() as int);
        if bytes.len() - at < 2 {
            return None;
        }
        let len: usize = bytes[at] as usize * 256 + bytes[at + 1] as usize;
        if bytes.len() - at - 2 < len {
            return None;
        }
        assert(b[0] == bytes@[at as int] && b[1] == bytes@[at + 1]);
        let total = bytes.len();
        let mut data: Vec<u8> = Vec::new();
        let mut i: usize = 0;
        while i < len
            invariant
                i <= len,
                total == bytes@.len(),
                at + 2 + len <= bytes@.len(),
                len == be16(b[0], b[1]),
                b == bytes@.subrange(at as int, bytes@.len() as int),
                len < 65536,
                data@ == b.subrange(2, 2 + i),
            decreases len - i,
        {
            data.push(bytes[at + 2 + i]);
            i = i + 1;
            assert(data@ =~= b.subrange(2, 2 + i));
        }
        Some(Value::new(data))
    }
}

/// The payload of a Boolean; `false` is also the payload of null.
pub open spec fn bool_payload(b: bool) -> Seq<u8> {
    if b { seq![1u8] } else { seq![0u8] }
}

/// The payload of null, byte for byte that of `false`.
pub open spec fn null_payload() -> Seq<u8> {
    seq![0u8]
}

/// A payload read as a Number: its eight bytes of a big-endian double.
pub open spec fn number_view(p: Seq<u8>) -> Option<Seq<u8>> {
    if p.len() == 8 { Some(p) } else { None }
}

/// A payload read as a String: the characters of valid UTF-8.
pub open spec fn string_view(p: Seq<u8>) -> Option<Seq<char>> {
    if valid_utf8(p) { Some(decode_utf8(p)) } else { None }
}

/// A payload read as a Boolean: one byte, true when it is 1.
pub open spec fn bool_view(p: Seq<u8>) -> Option<bool> {
    if p.len() == 1 { Some(p[0] == 1) } else { None }
}

/// A payload read as a Function: the code length is read at offset 1 and
/// the code from offset 3, while encoding writes the length at offset 0.
pub open spec fn function_view(p: Seq<u8>) -> Option<Seq<u8>> {
    if p.len() >= 3 && p.len() >= 3 + be16(p[1], p[2]) {
        Some(p.subrange(3, 3 + be16(p[1], p[2]) as int))
    } else {
        None
    }
}

/// Relies on String::from_utf8: it accepts exactly the valid UTF-8 byte
/// sequences, and the string it returns holds the characters they encode.
#[verifier::external_body]
fn string_from_utf8(bytes: Vec<u8>) -> (r: Option<String>)
    ensures
        r is Some <==> valid_utf8(bytes@),
        r matches Some(s) ==> s@ == decode_utf8(bytes@),
{
    String::from_utf8(bytes).ok()
}

/// A typed view of a value's payload.
pub trait SpecificValue: Sized {
    type Value;

    /// The payload this view encodes to.
    spec fn payload(&self) -> Seq<u8>;

    /// The payload fits the 16-bit length of a value.
    spec fn encodable(&self) -> bool;

    fn value(self) -> Self::Value;

    fn to_value(&self) -> (r: Value)
        requires
            self.encodable(),
        ensures
            r.wf(),
            r@ == self.payload(),
    ;
}

#[derive(Debug, Clone)]
pub struct TeaStr(pub String);

#[derive(Debug, Clone, Copy)]
pub struct TeaBool(pub bool);

/// A Number, held as the eight big-endian bytes of its IEEE-754 double.
#[derive(Debug, Clone, Copy)]
pub struct TeaNumber(pub [u8; 8]);

#[derive(Debug, Clone, Copy)]
pub struct TeaNull;

impl SpecificValue for TeaStr {
    type Value = String;

    open spec fn payload(&self) -> Seq<u8> {
        encode_utf8(self.0@)
    }

    open spec fn encodable(&self) -> bool {
        encode_utf8(self.0@).len() < 65536
    }

    fn value(self) -> String {
        self.0
    }

    fn to_value(&self) -> (r: Value) {
        Value::new(self.0.as_str().as_bytes_vec())
    }
}

impl SpecificValue for TeaBool {
    type Value = bool;

    open spec fn payload(&self) -> Seq<u8> {
        bool_payload(self.0)
    }

    open spec fn encodable(&self) -> bool {
        true
    }

    fn value(self) -> bool {
        self.0
    }

    fn to_value(&self) -> (r: Value) {
        let mut v: Vec<u8> = Vec::new();
        if self.0 {
            v.push(1u8);
        } else {
            v.push(0u8);
        }
        assert(v@ =~= bool_payload(self.0));
        Value::new(v)
    }
}

impl SpecificValue for TeaNumber {
    type Value = [u8; 8];

    open spec fn payload(&self) -> Seq<u8> {
        self.0@
    }

    open spec fn encodable(&self) -> bool {
        true
    }

    fn value(self) -> [u8; 8] {
        self.0
    }

    fn to_value(&self) -> (r: Value) {
        Value::new_again(self.0)
    }
}

impl SpecificValue for TeaNull {
    type Value = ();

    open spec fn payload(&self) -> Seq<u8> {
        null_payload()
    }

    open spec fn encodable(&self) -> bool {
        true
    }

    fn value(self) -> () {
    }

    fn to_value(&self) -> (r: Value) {
        let mut v: Vec<u8> = Vec::new();
        v.push(0u8);
        assert(v@ =~= null_payload());
        Value::new(v)
    }
}

/// A function: the raw instruction bytes of its body.
#[derive(Debug, Clone)]
pub struct TeaFunction {
    pub code_len: u16,
    pub code: Vec<u8>,
}

impl TeaFunction {
    /// The declared code length agrees with the code.
    pub open spec fn wf(&self) -> bool {
        self.code_len as nat == self.code@.len()
    }

    pub fn new(code_len: u16, code: &[u8]) -> (r: TeaFunction)
        requires
            code@.len() == code_len,
        ensures
            r.wf(),
            r.code_len == code_len,
            r.code@ == code@,
    {
        TeaFunction { code_len, code: vstd::slice::slice_to_vec(code) }
    }
}

impl SpecificValue for TeaFunction {
    type Value = Vec<u8>;

    open spec fn payload(&self) -> Seq<u8> {
        u16_bytes(self.code_len as nat) + self.code@
    }

    open spec fn encodable(&self) -> bool {
        self.wf() && self.code@.len() + 2 < 65536
    }

    fn value(self) -> Vec<u8> {
        self.code
    }

    fn to_value(&self) -> (r: Value) {
        let mut bytes: Vec<u8> = Vec::new();
        bytes.push((self.code_len / 256) as u8);
        bytes.push((self.code_len % 256) as u8);
        let mut i: usize = 0;
        while i < self.code.len()
            invariant
                i <= self.code@.len(),
                bytes@ == u16_bytes(self.code_len as nat) + self.code@.subrange(0, i as int),
            decreases self.code@.len() - i,
        {
            bytes.push(self.code[i]);
            i = i + 1;
        }
        assert(self.code@.subrange(0, i as int) =~= self.code@);
        Value::new(bytes)
    }
}

impl Value {
    pub fn from_specific<T: SpecificValue>(specific: &T) -> (r: Value)
        requires
            specific.encodable(),
        ensures
            r.wf(),
            r@ == specific.payload(),
    {
        specific.to_value()
    }

    pub fn as_tea_number(&self) -> (r: Result<TeaNumber, CannotConstruct>)
        ensures
            r is Ok <==> number_view(self@) is Some,
            r matches Ok(n) ==> number_view(self@) == Some(n.0@),
            r matches Err(e) ==> e.value@ == self@ && e.value.data_len == self.data_len,
            r matches Err(e) ==> e.target@ == "values::TeaNumber::value"@,
    {
        if self.data.len() == 8 {
            let d = &self.data;
            let bytes: [u8; 8] = [d[0], d[1], d[2], d[3], d[4], d[5], d[6], d[7]];
            assert(bytes@ =~= self@);
            Ok(TeaNumber(bytes))
        } else {
            Err(CannotConstruct { target: String::from_str("values::TeaNumber::value"), value: self.copy() })
        }
    }

    pub fn as_tea_string(&self) -> (r: Result<TeaStr, CannotConstruct>)
        ensures
            r is Ok <==> string_view(self@) is Some,
            r matches Ok(s) ==> string_view(self@) == Some(s.0@),
            r matches Err(e) ==> e.value@ == self@ && e.value.data_len == self.data_len,
            r matches Err(e) ==> e.target@ == "values::TeaStr::value"@,
    {
        match string_from_utf8(self.data.clone()) {
            Some(s) => Ok(TeaStr(s)),
            None => Err(CannotConstruct { target: String::from_str("values::TeaStr::value"), value: self.copy() }),
        }
    }

    pub fn as_tea_bool(&self) -> (r: Result<TeaBool, CannotConstruct>)
        ensures
            r is Ok <==> bool_view(self@) is Some,
            r matches Ok(b) ==> bool_view(self@) == Some(b.0),
            r matches Err(e) ==> e.value@ == self@ && e.value.data_len == self.data_len,
            r matches Err(e) ==> e.target@ == "values::TeaBool::value"@,
    {
        if self.data.len() == 1 {
            Ok(TeaBool(self.data[0] == 1u8))
        } else {
            Err(CannotConstruct { target: String::from_str("values::TeaBool::value"), value: self.copy() })
        }
    }

    /// Null has no encoding of its own: every payload reads as null.
    pub fn as_tea_null(&self) -> (r: TeaNull) {
        TeaNull
    }

    pub fn as_tea_function(&self) -> (r: Result<TeaFunction, CannotConstruct>)
        ensures
            r is Ok <==> function_view(self@) is Some,
            r matches Ok(f) ==> f.wf() && function_view(self@) == Some(f.code@),
            r matches Err(e) ==> e.value@ == self@ && e.value.data_len == self.data_len,
            r matches Err(e) ==> e.target@ == "values::TeaFunction::code_len"@,
    {
        let d = &self.data;
        if d.len() >= 3 {
            let code_len: u16 = d[1] as u16 * 256 + d[2] as u16;
            if d.len() - 3 >= code_len as usize {
                let mut code: Vec<u8> = Vec::new();
                let mut i: usize = 0;
                while i < code_len as usize
                    invariant
                        i <= code_len,
                        d@ == self@,
                        3 + code_len <= d@.len(),
                        code_len == be16(d@[1], d@[2]),
                        code@ == d@.subrange(3, 3 + i),
                    decreases code_len - i,
                {
                    code.push(d[3 + i]);
                    i = i + 1;
                }
                return Ok(TeaFunction::new(code_len, code.as_slice()));
            }
        }
        Err(CannotConstruct { target: String::from_str("values::TeaFunction::code_len"), value: self.copy() })
    }
}

/// An object entry as plain values: UTF-8 key bytes, value payload, flags.
pub type EntryView = (Seq<u8>, Seq<u8>, u8);

/// The wire form of one entry: key length, key, framed value, flags.
pub open spec fn entry_bytes(e: EntryView) -> Seq<u8> {
    u16_bytes(e.0.len()) + e.0 + framed(e.1) + seq![e.2]
}

/// The wire forms of the entries, one after another.
pub open spec fn entries_bytes(es: Seq<EntryView>) -> Seq<u8>
    decreases es.len(),
{
    if es.len() == 0 {
        seq![]
    } else {
        entry_bytes(es[0]) + entries_bytes(es.drop_first())
    }
}

/// The payload of an object: the entry count, then the entries.
pub open spec fn object_payload(es: Seq<EntryView>) -> Seq<u8> {
    u16_bytes(es.len()) + entries_bytes(es)
}

/// An entry whose key is UTF-8 and whose parts fit their 16-bit lengths.
pub open spec fn entry_fits(e: EntryView) -> bool {
    e.0.len() < 65536 && e.1.len() < 65536 && valid_utf8(e.0)
}

/// Reads one entry from the start of `b`, with the number of bytes it took.
pub open spec fn parse_entry(b: Seq<u8>) -> Option<(EntryView, int)> {
    if b.len() < 2 || b.len() < 2 + be16(b[0], b[1]) {
        None
    } else {
        let klen = be16(b[0], b[1]) as int;
        let key = b.subrange(2, 2 + klen);
        if !valid_utf8(key) {
            None
        } else {
            match unframe(b.subrange(2 + klen, b.len() as int)) {
                None => None,
                Some(v) => {
                    let end = 2 + klen + 2 + v.len();
                    if b.len() <= end {
                        None
                    } else {
                        Some(((key, v, b[end]), end + 1))
                    }
                },
            }
        }
    }
}

/// Reads `n` entries, one after another, from the start of `b`.
pub open spec fn parse_entries(b: Seq<u8>, n: nat) -> Option<Seq<EntryView>>
    decreases n,
{
    if n == 0 {
        Some(seq![])
    } else {
        match parse_entry(b) {
            None => None,
            Some((e, used)) => {
                if 0 < used <= b.len() {
                    match parse_entries(b.subrange(used, b.len() as int), (n - 1) as nat) {
                        None => None,
                        Some(rest) => Some(seq![e] + rest),
                    }
                } else {
                    None
                }
            },
        }
    }
}

/// A payload read as an Object: the entry count, then that many entries;
/// bytes after the last entry are ignored.
pub open spec fn object_view(p: Seq<u8>) -> Option<Seq<EntryView>> {
    if p.len() < 2 {
        None
    } else {
        parse_entries(p.subrange(2, p.len() as int), be16(p[0], p[1]))
    }
}

pub proof fn lemma_entries_bytes_append(a: Seq<EntryView>, b: Seq<EntryView>)
    ensures
        entries_bytes(a + b) == entries_bytes(a) + entries_bytes(b),
    decreases a.len(),
{
    if a.len() == 0 {
        assert(a + b =~= b);
    } else {
        assert((a + b).drop_first() =~= a.drop_first() + b);
        lemma_entries_bytes_append(a.drop_first(), b);
    }
}

pub proof fn lemma_parse_entry(e: EntryView, rest: Seq<u8>)
    requires
        entry_fits(e),
    ensures
        parse_entry(entry_bytes(e) + rest) == Some((e, entry_bytes(e).len() as int)),
{
    let b = entry_bytes(e) + rest;
    let klen = e.0.len() as int;
    lemma_u16_bytes(e.0.len());
    assert(b.subrange(2, 2 + klen) =~= e.0);
    assert(b.subrange(2 + klen, b.len() as int) =~= framed(e.1) + (seq![e.2] + rest));
    lemma_unframe_framed(e.1, seq![e.2] + rest);
    let end = 2 + klen + 2 + e.1.len();
    assert(b[end] == e.2);
}

pub proof fn lemma_parse_entries(es: Seq<EntryView>, rest: Seq<u8>)
    requires
        forall|k: int| 0 <= k < es.len() ==> entry_fits(#[trigger] es[k]),
    ensures
        parse_entries(entries_bytes(es) + rest, es.len()) == Some(es),
    decreases es.len(),
{
    if es.len() > 0 {
        let b = entries_bytes(es) + rest;
        let tail = entries_bytes(es.drop_first()) + rest;
        assert(b =~= entry_bytes(es[0]) + tail);
        lemma_parse_entry(es[0], tail);
        let used = entry_bytes(es[0]).len() as int;
        assert(b.subrange(used, b.len() as int) =~= tail);
        assert(forall|k: int| 0 <= k < es.drop_first().len() ==> #[trigger] es.drop_first()[k] == es[k + 1]);
        lemma_parse_entries(es.drop_first(), rest);
        assert(seq![es[0]] + es.drop_first() =~= es);
    }
}

/// Encoding an object and decoding it again gives back the same entries,
/// in the same order, so also the same set of (key, value, flags) triples.
pub proof fn law_object_round_trip(es: Seq<EntryView>)
    requires
        es.len() < 65536,
        forall|k: int| 0 <= k < es.len() ==> entry_fits(#[trigger] es[k]),
    ensures
        object_view(object_payload(es)) == Some(es),
        object_view(object_payload(es)).unwrap().to_set() == es.to_set(),
{
    let p = object_payload(es);
    lemma_u16_bytes(es.len());
    assert(p.subrange(2, p.len() as int) =~= entries_bytes(es) + seq![]);
    lemma_parse_entries(es, seq![]);
}

/// One entry of an object.
#[derive(Debug, Clone)]
pub struct Entry {
    pub key: String,
    pub value: Value,
    pub flags: u8,
}

impl View for Entry {
    type V = EntryView;

    open spec fn view(&self) -> EntryView {
        (encode_utf8(self.key@), self.value@, self.flags)
    }
}

/// An object: an association of string keys to values and flags bytes.
/// Duplicate keys are not ruled out; a lookup finds the first.
#[derive(Debug, Clone)]
pub struct TeaObject {
    pub entries: Vec<Entry>,
}

impl View for TeaObject {
    type V = Seq<EntryView>;

    open spec fn view(&self) -> Seq<EntryView> {
        self.entries@.map_values(|e: Entry| e@)
    }
}

impl TeaObject {
    /// Every value of the object agrees with its declared length.
    pub open spec fn wf(&self) -> bool {
        forall|k: int| 0 <= k < self.entries@.len() ==> (#[trigger] self.entries@[k]).value.wf()
    }

    pub fn new(entries: Vec<Entry>) -> (r: TeaObject)
        ensures
            r.entries@ == entries@,
    {
        TeaObject { entries }
    }
}

impl SpecificValue for TeaObject {
    type Value = Vec<Entry>;

    open spec fn payload(&self) -> Seq<u8> {
        object_payload(self@)
    }

    open spec fn encodable(&self) -> bool {
        &&& self.wf()
        &&& self@.len() < 65536
        &&& forall|k: int| 0 <= k < self@.len() ==> entry_fits(#[trigger] self@[k])
        &&& object_payload(self@).len() < 65536
    }

    fn value(self) -> Vec<Entry> {
        self.entries
    }

    fn to_value(&self) -> (r: Value) {
        let ghost es = self@;
        let n = self.entries.len();
        let mut bytes: Vec<u8> = Vec::new();
        bytes.push((n / 256) as u8);
        bytes.push((n % 256) as u8);
        let mut i: usize = 0;
        while i < n
            invariant
                n == self.entries@.len(),
                es == self@,
                self.encodable(),
                i <= n,
                bytes@ == u16_bytes(n as nat) + entries_bytes(es.take(i as int)),
            decreases n - i,
        {
            let e = &self.entries[i];
            assert(es[i as int] == e@);
            assert(e.value.wf());
            let key = e.key.as_str().as_bytes_vec();
            let klen = key.len();
            assert(entry_fits(es[i as int]));
            bytes.push((klen / 256) as u8);
            bytes.push((klen % 256) as u8);
            let mut j: usize = 0;
            while j < klen
                invariant
                    j <= klen,
                    klen == key@.len(),
                    bytes@ == u16_bytes(n as nat) + entries_bytes(es.take(i as int)) + u16_bytes(
                        klen as nat,
                    ) + key@.subrange(0, j as int),
                decreases klen - j,
            {
                bytes.push(key[j]);
                j = j + 1;
            }
            let framed_value = e.value.to_bytes();
            let mut j: usize = 0;
            while j < framed_value.len()
                invariant
                    j <= framed_value@.len(),
                    bytes@ == u16_bytes(n as nat) + entries_bytes(es.take(i as int)) + u16_bytes(
                        klen as nat,
                    ) + key@ + framed_value@.subrange(0, j as int),
                decreases framed_value@.len() - j,
            {
                bytes.push(framed_value[j]);
                j = j + 1;
            }
            bytes.push(e.flags);
            proof {
                assert(key@.subrange(0, klen as int) =~= key@);
                assert(framed_value@.subrange(0, framed_value@.len() as int) =~= framed_value@);
                lemma_entries_bytes_append(es.take(i as int), seq![es[i as int]]);
                assert(es.take(i + 1) =~= es.take(i as int) + seq![es[i as int]]);
                let one = seq![es[i as int]];
                assert(one.drop_first() =~= Seq::<EntryView>::empty());
                assert(entries_bytes(one) == entry_bytes(one[0]) + entries_bytes(one.drop_first()));
                assert(entries_bytes(one) =~= entry_bytes(es[i as int]));
                assert(bytes@ =~= u16_bytes(n as nat) + entries_bytes(es.take(i + 1)));
            }
            i = i + 1;
        }
        assert(es.take(n as int) =~= es);
        Value::new(bytes)
    }
}

/// The value and flags of the first entry whose key bytes are `key`.
pub open spec fn lookup_entry(es: Seq<EntryView>, key: Seq<u8>) -> Option<(Seq<u8>, u8)>
    decreases es.len(),
{
    if es.len() == 0 {
        None
    } else if es[0].0 == key {
        Some((es[0].1, es[0].2))
    } else {
        lookup_entry(es.drop_first(), key)
    }
}

/// Byte-for-byte equality of two sequences, the only equality of values.
pub fn same_bytes(a: &[u8], b: &[u8]) -> (r: bool)
    ensures
        r == (a@ == b@),
{
    if a.len() != b.len() {
        return false;
    }
    let mut i: usize = 0;
    while i < a.len()
        invariant
            a@.len() == b@.len(),
            i <= a@.len(),
            a@.subrange(0, i as int) == b@.subrange(0, i as int),
        decreases a@.len() - i,
    {
        if a[i] != b[i] {
            assert(a@.subrange(0, i + 1)[i as int] != b@.subrange(0, i + 1)[i as int]);
            return false;
        }
        assert(a@.subrange(0, i + 1) =~= a@.subrange(0, i as int).push(a@[i as int]));
        assert(b@.subrange(0, i + 1) =~= b@.subrange(0, i as int).push(b@[i as int]));
        i = i + 1;
    }
    assert(a@ =~= a@.subrange(0, i as int));
    assert(b@ =~= b@.subrange(0, i as int));
    true
}

impl TeaObject {
    /// The value of the first entry whose key has the UTF-8 bytes `key`.
    pub fn get(&self, key: &[u8]) -> (r: Option<&Value>)
        ensures
            r is Some <==> lookup_entry(self@, key@) is Some,
            r matches Some(v) ==> lookup_entry(self@, key@).unwrap().0 == v@,
            self.wf() ==> (r matches Some(v) ==> v.wf()),
    {
        let mut i: usize = 0;
        assert(self@.skip(0) =~= self@);
        while i < self.entries.len()
            invariant
                i <= self.entries@.len(),
                lookup_entry(self@, key@) == lookup_entry(self@.skip(i as int), key@),
            decreases self.entries@.len() - i,
        {
            let e = &self.entries[i];
            let kb = e.key.as_str().as_bytes();
            assert(self@.skip(i as int)[0] == e@);
            if same_bytes(kb, key) {
                return Some(&e.value);
            }
            assert(self@.skip(i as int).drop_first() =~= self@.skip(i + 1));
            i = i + 1;
        }
        None
    }
}

/// The entries decoded so far, followed by what the rest of the bytes give.
pub open spec fn then_entries(done: Seq<EntryView>, rest: Option<Seq<EntryView>>) -> Option<
    Seq<EntryView>,
> {
    match rest {
        Some(r) => Some(done + r),
        None => None,
    }
}

proof fn lemma_parse_step(b: Seq<u8>, n: nat, done: Seq<EntryView>)
    requires
        n > 0,
    ensures
        parse_entry(b) is None ==> then_entries(done, parse_entries(b, n)) is None,
        parse_entry(b) matches Some((e, used)) ==> (0 < used <= b.len() ==> then_entries(
            done,
            parse_entries(b, n),
        ) == then_entries(done + seq![e], parse_entries(b.subrange(used, b.len() as int), (n - 1) as nat))),
{
    if let Some((e, used)) = parse_entry(b) {
        if 0 < used <= b.len() {
            if let Some(rest) = parse_entries(b.subrange(used, b.len() as int), (n - 1) as nat) {
                assert(done + (seq![e] + rest) =~= done + seq![e] + rest);
            }
        }
    }
}

impl Value {
    #[verifier::rlimit(40)]
    pub fn as_tea_object(&self) -> (r: Result<TeaObject, CannotConstruct>)
        ensures
            r is Ok <==> object_view(self@) is Some,
            r matches Ok(o) ==> o.wf() && object_view(self@) == Some(o@),
            r matches Err(e) ==> e.value@ == self@ && e.value.data_len == self.data_len,
            self@.len() < 2 ==> (r matches Err(e) && e.target@ == "values::TeaObject::num_entries"@),
    {
        let d = &self.data;
        let total = d.len();
        if total < 2 {
            return Err(CannotConstruct { target: String::from_str("values::TeaObject::num_entries"), value: self.copy() });
        }
        let n: usize = d[0] as usize * 256 + d[1] as usize;
        let mut entries: Vec<Entry> = Vec::new();
        let mut offset: usize = 2;
        let mut i: usize = 0;
        let ghost p = self@;
        while i < n
            invariant
                p == self@,
                d@ == p,
                total == p.len(),
                2 <= offset <= total,
                i <= n,
                n == be16(p[0], p[1]),
                entries@.len() == i,
                forall|k: int| 0 <= k < i ==> (#[trigger] entries@[k]).value.wf(),
                object_view(p) == then_entries(
                    entries@.map_values(|e: Entry| e@),
                    parse_entries(p.subrange(offset as int, total as int), (n - i) as nat),
                ),
            decreases n - i,
        {
            let ghost b = p.subrange(offset as int, total as int);
            let ghost done = entries@.map_values(|e: Entry| e@);
            proof {
                lemma_parse_step(b, (n - i) as nat, done);
            }
            if total - offset < 2 {
                return Err(CannotConstruct { target: String::from_str("values::TeaObject::entry::key_len"), value: self.copy() });
            }
            let klen: usize = d[offset] as usize * 256 + d[offset + 1] as usize;
            assert(klen == be16(b[0], b[1]));
            if total - offset - 2 < klen {
                return Err(CannotConstruct { target: String::from_str("values::TeaObject::entry::key"), value: self.copy() });
            }
            let mut kb: Vec<u8> = Vec::new();
            let mut j: usize = 0;
            while j < klen
                invariant
                    j <= klen,
                    d@ == p,
                    total == p.len(),
                    offset + 2 + klen <= total,
                    kb@ == p.subrange(offset + 2, offset + 2 + j),
                decreases klen - j,
            {
                kb.push(d[offset + 2 + j]);
                j = j + 1;
                assert(kb@ =~= p.subrange(offset + 2, offset + 2 + j));
            }
            assert(kb@ =~= b.subrange(2, 2 + klen));
            let ghost key_bytes = kb@;
            let key = match string_from_utf8(kb) {
                Some(k) => k,
                None => {
                    return Err(CannotConstruct { target: String::from_str("values::TeaObject::entry::key"), value: self.copy() });
                },
            };
            proof {
                broadcast use vstd::utf8::decode_utf8_encode_utf8;
                assert(encode_utf8(key@) == key_bytes);
            }
            let vstart = offset + 2 + klen;
            assert(b.subrange(2 + klen, b.len() as int) =~= p.subrange(vstart as int, total as int));
            let value = match Value::read_at(d.as_slice(), vstart) {
                Some(v) => v,
                None => {
                    return Err(CannotConstruct { target: String::from_str("values::TeaObject::entry::value"), value: self.copy() });
                },
            };
            let vend = vstart + 2 + value.data.len();
            if total <= vend {
                return Err(CannotConstruct { target: String::from_str("values::TeaObject::entry::flags"), value: self.copy() });
            }
            let flags = d[vend];
            let entry = Entry { key, value, flags };
            entries.push(entry);
            proof {
                let used = vend + 1 - offset;
                assert(b.subrange(used, b.len() as int) =~= p.subrange(vend + 1, total as int));
                assert(parse_entry(b) == Some((entry@, used)));
                assert(entries@.map_values(|e: Entry| e@) =~= done + seq![entry@]);
            }
            offset = vend + 1;
            i = i + 1;
        }
        assert(entries@.map_values(|e: Entry| e@) + Seq::<EntryView>::empty() =~= entries@.map_values(|e: Entry| e@));
        Ok(TeaObject { entries })
    }
}

/// Encoding a Number, a String or a Boolean and reading the payload back as
/// the same view gives the same value; for a Number the very same eight
/// bytes of its double.
pub proof fn law_scalar_round_trip(n: TeaNumber, s: TeaStr, b: TeaBool)
    ensures
        number_view(n.payload()) == Some(n.0@),
        string_view(s.payload()) == Some(s.0@),
        bool_view(b.payload()) == Some(b.0),
{
    broadcast use vstd::utf8::encode_utf8_valid_utf8, vstd::utf8::encode_utf8_decode_utf8;

    assert(n.0@.len() == 8);
}

/// Equality of values compares payload bytes whatever view made them: a
/// Number never equals a Boolean (eight bytes against one), while null
/// equals false (the same single byte).
pub proof fn law_untyped_equality(n: TeaNumber, b: TeaBool)
    ensures
        n.payload() != b.payload(),
        TeaNull.payload() == TeaBool(false).payload(),
{
    assert(n.0@.len() == 8);
}

} // verus!
