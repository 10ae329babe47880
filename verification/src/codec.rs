//! Wire envelope codec.
//!
//! An envelope travels as a JSON object with the fields `messageType`
//! (one of `users`, `register`, `message`), `dataArray` (list of strings)
//! and `data` (single string).  `encode` produces the canonical layout;
//! `decode` accepts any field order, ignores unknown fields, and treats a
//! missing or `null` optional field as absent.  String literals use the two
//! escapes the encoder emits, for the quote and the backslash.

use vstd::prelude::*;
use vstd::string::StrSliceExecFns;

verus! {

broadcast use vstd::string::group_string_axioms;

/// The closed set of envelope kinds on the wire.
#[derive(Clone, Copy, PartialEq, Eq, Structural, Debug)]
pub enum MsgTypes {
    Users,
    Register,
    Message,
}

/// Why an inbound frame was rejected.
#[derive(Clone, Copy, PartialEq, Eq, Structural, Debug)]
pub enum DecodeError {
    /// The text is not a well-formed frame of the expected shape.
    Malformed,
    /// The frame is well-formed but its `messageType` is not a known kind.
    UnknownKind,
}

/// The wire unit: a kind plus at most one populated payload field.
#[derive(Debug)]
pub struct Envelope {
    pub kind: MsgTypes,
    pub data: Option<String>,
    pub data_list: Option<Vec<String>>,
}

/// Mathematical model of an [`Envelope`].
pub struct EnvelopeView {
    pub kind: MsgTypes,
    pub data: Option<Seq<char>>,
    pub data_list: Option<Seq<Seq<char>>>,
}

impl View for Envelope {
    type V = EnvelopeView;

    open spec fn view(&self) -> EnvelopeView {
        EnvelopeView {
            kind: self.kind,
            data: match self.data {
                Some(s) => Some(s@),
                None => None,
            },
            data_list: match self.data_list {
                Some(l) => Some(l@.map_values(|s: String| s@)),
                None => None,
            },
        }
    }
}

/// An envelope whose populated payload field matches its kind.
pub open spec fn valid_envelope(e: EnvelopeView) -> bool {
    match e.kind {
        MsgTypes::Users => e.data is None && e.data_list is Some,
        MsgTypes::Register => e.data is Some && e.data_list is None,
        MsgTypes::Message => e.data is Some && e.data_list is None,
    }
}

/// The lowercase wire name of a kind.
pub open spec fn kind_str(k: MsgTypes) -> Seq<char> {
    match k {
        MsgTypes::Users => "users"@,
        MsgTypes::Register => "register"@,
        MsgTypes::Message => "message"@,
    }
}

/// How one character appears inside a JSON string literal.
pub open spec fn esc_char(c: char) -> Seq<char> {
    if c == '"' || c == '\\' {
        seq!['\\', c]
    } else {
        seq![c]
    }
}

/// A string's characters as they appear inside a JSON string literal.
pub open spec fn escape(s: Seq<char>) -> Seq<char>
    decreases s.len(),
{
    if s.len() == 0 {
        Seq::empty()
    } else {
        esc_char(s[0]) + escape(s.skip(1))
    }
}

/// A JSON string literal: quotes around the escaped characters.
pub open spec fn quote(s: Seq<char>) -> Seq<char> {
    seq!['"'] + escape(s) + seq!['"']
}

/// The comma-separated string literals inside an encoded array.
pub open spec fn enc_items(l: Seq<Seq<char>>) -> Seq<char>
    decreases l.len(),
{
    if l.len() == 0 {
        Seq::empty()
    } else if l.len() == 1 {
        quote(l[0])
    } else {
        quote(l[0]) + seq![','] + enc_items(l.skip(1))
    }
}

/// An encoded JSON array of string literals.
pub open spec fn enc_array(l: Seq<Seq<char>>) -> Seq<char> {
    seq!['['] + enc_items(l) + seq![']']
}

/// The canonical encoding of an envelope: `messageType` first, then
/// `dataArray` if present, then `data` if present, no whitespace.
pub open spec fn spec_encode(e: EnvelopeView) -> Seq<char> {
    seq!['{'] + quote("messageType"@) + seq![':'] + quote(kind_str(e.kind)) + (match e.data_list {
        Some(l) => seq![','] + quote("dataArray"@) + seq![':'] + enc_array(l),
        None => Seq::empty(),
    }) + (match e.data {
        Some(d) => seq![','] + quote("data"@) + seq![':'] + quote(d),
        None => Seq::empty(),
    }) + seq!['}']
}

/// Relies on `String::push` from std: appends exactly the given character.
pub assume_specification[ String::push ](s: &mut String, ch: char)
    ensures
        final(s)@ == old(s)@.push(ch),
;

/// Appending one character extends the escaped image by that character's
/// escape.
proof fn lemma_escape_push(s: Seq<char>, c: char)
    ensures
        escape(s.push(c)) == escape(s) + esc_char(c),
    decreases s.len(),
{
    if s.len() == 0 {
        assert(s.push(c).skip(1) =~= Seq::<char>::empty());
        assert(s.push(c)[0] == c);
        assert(escape(Seq::<char>::empty()) == Seq::<char>::empty());
        assert(escape(s.push(c)) == esc_char(c) + escape(s.push(c).skip(1)));
        assert(escape(s.push(c)) =~= esc_char(c));
        assert(escape(s) + esc_char(c) =~= esc_char(c));
    } else {
        lemma_escape_push(s.skip(1), c);
        assert(s.push(c).skip(1) =~= s.skip(1).push(c));
        assert(escape(s.push(c)) =~= esc_char(s[0]) + (escape(s.skip(1)) + esc_char(c)));
        assert(esc_char(s[0]) + (escape(s.skip(1)) + esc_char(c)) =~= escape(s) + esc_char(c));
    }
}

/// Writes the JSON string literal for `s` onto `out`.
fn append_quoted(out: &mut String, s: &str)
    ensures
        final(out)@ == old(out)@ + quote(s@),
{
    out.push('"');
    let n = s.unicode_len();
    let mut i: usize = 0;
    while i < n
        invariant
            n == s@.len(),
            i <= n,
            out@ == old(out)@ + seq!['"'] + escape(s@.take(i as int)),
        decreases n - i,
    {
        let c = s.get_char(i);
        proof {
            lemma_escape_push(s@.take(i as int), c);
            assert(s@.take(i as int).push(c) =~= s@.take(i + 1));
        }
        if c == '"' || c == '\\' {
            out.push('\\');
            out.push(c);
            assert(out@ =~= old(out)@ + seq!['"'] + escape(s@.take(i + 1)));
        } else {
            out.push(c);
            assert(out@ =~= old(out)@ + seq!['"'] + escape(s@.take(i + 1)));
        }
        i = i + 1;
    }
    assert(s@.take(n as int) =~= s@);
    out.push('"');
    assert(out@ =~= old(out)@ + quote(s@));
}

/// The wire name of a kind, as a string slice.
fn kind_as_str(k: MsgTypes) -> (r: &'static str)
    ensures
        r@ == kind_str(k),
{
    match k {
        MsgTypes::Users => "users",
        MsgTypes::Register => "register",
        MsgTypes::Message => "message",
    }
}

/// Appending one element extends the encoded item list by a comma (when
/// non-empty) and the new literal.
proof fn lemma_enc_items_push(l: Seq<Seq<char>>, v: Seq<char>)
    requires
        l.len() >= 1,
    ensures
        enc_items(l.push(v)) == enc_items(l) + seq![','] + quote(v),
    decreases l.len(),
{
    if l.len() == 1 {
        assert(l.push(v)[0] == l[0]);
        assert(l.push(v).skip(1) =~= seq![v]);
        assert(enc_items(seq![v]) == quote(v)) by {
            assert(seq![v].len() == 1);
        }
        assert(enc_items(l.push(v)) =~= enc_items(l) + seq![','] + quote(v));
    } else {
        lemma_enc_items_push(l.skip(1), v);
        assert(l.push(v).skip(1) =~= l.skip(1).push(v));
        assert(l.push(v)[0] == l[0]);
        assert(enc_items(l.push(v)) == quote(l[0]) + seq![','] + enc_items(l.skip(1).push(v)));
        assert(quote(l[0]) + seq![','] + (enc_items(l.skip(1)) + seq![','] + quote(v)) =~= enc_items(
            l,
        ) + seq![','] + quote(v));
    }
}

/// Writes the encoded JSON array for `l` onto `out`.
fn append_array(out: &mut String, l: &Vec<String>)
    ensures
        final(out)@ == old(out)@ + enc_array(l@.map_values(|s: String| s@)),
{
    let ghost view_l = l@.map_values(|s: String| s@);
    out.push('[');
    let mut i: usize = 0;
    while i < l.len()
        invariant
            view_l == l@.map_values(|s: String| s@),
            i <= l.len(),
            out@ == old(out)@ + seq!['['] + enc_items(view_l.take(i as int)),
        decreases l.len() - i,
    {
        if i > 0 {
            out.push(',');
            append_quoted(out, l[i].as_str());
            proof {
                lemma_enc_items_push(view_l.take(i as int), view_l[i as int]);
                assert(view_l.take(i as int).push(view_l[i as int]) =~= view_l.take(i + 1));
                assert(out@ =~= old(out)@ + seq!['['] + enc_items(view_l.take(i + 1)));
            }
        } else {
            append_quoted(out, l[i].as_str());
            proof {
                assert(view_l.take(1int) =~= seq![view_l[0]]);
                assert(enc_items(seq![view_l[0]]) == quote(view_l[0]));
                assert(out@ =~= old(out)@ + seq!['['] + enc_items(view_l.take(i + 1)));
            }
        }
        i = i + 1;
    }
    proof {
        assert(view_l.take(l@.len() as int) =~= view_l);
    }
    out.push(']');
    assert(out@ =~= old(out)@ + enc_array(view_l));
}

/// Serializes an envelope to its canonical wire text.  Total: succeeds for
/// every in-memory envelope.
pub fn encode(e: &Envelope) -> (r: String)
    ensures
        r@ == spec_encode(e@),
{
    let mut out = String::new();
    out.push('{');
    append_quoted(&mut out, "messageType");
    out.push(':');
    append_quoted(&mut out, kind_as_str(e.kind));
    match &e.data_list {
        Some(l) => {
            out.push(',');
            append_quoted(&mut out, "dataArray");
            out.push(':');
            append_array(&mut out, l);
        },
        None => {},
    }
    match &e.data {
        Some(d) => {
            out.push(',');
            append_quoted(&mut out, "data");
            out.push(':');
            append_quoted(&mut out, d.as_str());
        },
        None => {},
    }
    out.push('}');
    assert(out@ =~= spec_encode(e@));
    out
}

/// A JSON value of the shapes the wire format uses.
pub enum JVal {
    JStr(Seq<char>),
    JArr(Seq<Seq<char>>),
    JNull,
}

/// Parses a string body up to and including the closing quote; yields the
/// unescaped content and the remaining input.
pub open spec fn parse_str_body(s: Seq<char>) -> Option<(Seq<char>, Seq<char>)>
    decreases s.len(),
{
    if s.len() == 0 {
        None
    } else if s[0] == '"' {
        Some((Seq::empty(), s.skip(1)))
    } else if s[0] == '\\' {
        if s.len() >= 2 && (s[1] == '"' || s[1] == '\\') {
            match parse_str_body(s.skip(2)) {
                Some((b, r)) => Some((seq![s[1]] + b, r)),
                None => None,
            }
        } else {
            None
        }
    } else {
        match parse_str_body(s.skip(1)) {
            Some((b, r)) => Some((seq![s[0]] + b, r)),
            None => None,
        }
    }
}

/// Parses a quoted string literal from the head of the input.
pub open spec fn parse_qstring(s: Seq<char>) -> Option<(Seq<char>, Seq<char>)> {
    if s.len() >= 1 && s[0] == '"' {
        parse_str_body(s.skip(1))
    } else {
        None
    }
}

/// A successful string-body parse consumes at least the closing quote.
proof fn lemma_str_body_len(s: Seq<char>)
    ensures
        match parse_str_body(s) {
            Some((b, r)) => r.len() < s.len(),
            None => true,
        },
    decreases s.len(),
{
    if s.len() == 0 {
    } else if s[0] == '"' {
    } else if s[0] == '\\' {
        if s.len() >= 2 && (s[1] == '"' || s[1] == '\\') {
            lemma_str_body_len(s.skip(2));
        }
    } else {
        lemma_str_body_len(s.skip(1));
    }
}

/// A successful quoted-string parse consumes at least the two quotes.
proof fn lemma_qstring_len(s: Seq<char>)
    ensures
        match parse_qstring(s) {
            Some((v, r)) => r.len() < s.len(),
            None => true,
        },
{
    if s.len() >= 1 && s[0] == '"' {
        lemma_str_body_len(s.skip(1));
    }
}

/// Parses one or more comma-separated string literals.
pub open spec fn parse_arr_items(s: Seq<char>) -> Option<(Seq<Seq<char>>, Seq<char>)>
    decreases s.len(),
    via parse_arr_items_dec
{
    match parse_qstring(s) {
        None => None,
        Some((v, r)) => {
            if r.len() >= 1 && r[0] == ',' {
                match parse_arr_items(r.skip(1)) {
                    Some((vs, r2)) => Some((seq![v] + vs, r2)),
                    None => None,
                }
            } else {
                Some((seq![v], r))
            }
        },
    }
}

#[via_fn]
proof fn parse_arr_items_dec(s: Seq<char>) {
    lemma_qstring_len(s);
}

/// A successful item-list parse consumes at least one character.
proof fn lemma_arr_items_len(s: Seq<char>)
    ensures
        match parse_arr_items(s) {
            Some((vs, r)) => r.len() < s.len(),
            None => true,
        },
    decreases s.len(),
{
    lemma_qstring_len(s);
    match parse_qstring(s) {
        None => {},
        Some((v, r)) => {
            if r.len() >= 1 && r[0] == ',' {
                lemma_arr_items_len(r.skip(1));
            }
        },
    }
}

/// Parses a JSON array of string literals.
pub open spec fn parse_array(s: Seq<char>) -> Option<(Seq<Seq<char>>, Seq<char>)> {
    if s.len() >= 1 && s[0] == '[' {
        let t = s.skip(1);
        if t.len() >= 1 && t[0] == ']' {
            Some((Seq::empty(), t.skip(1)))
        } else {
            match parse_arr_items(t) {
                Some((vs, r)) => if r.len() >= 1 && r[0] == ']' {
                    Some((vs, r.skip(1)))
                } else {
                    None
                },
                None => None,
            }
        }
    } else {
        None
    }
}

/// Parses one field value: a string literal, an array of strings, or `null`.
pub open spec fn parse_value(s: Seq<char>) -> Option<(JVal, Seq<char>)> {
    if s.len() >= 1 && s[0] == '"' {
        match parse_qstring(s) {
            Some((v, r)) => Some((JVal::JStr(v), r)),
            None => None,
        }
    } else if s.len() >= 1 && s[0] == '[' {
        match parse_array(s) {
            Some((vs, r)) => Some((JVal::JArr(vs), r)),
            None => None,
        }
    } else if s.len() >= 4 && s[0] == 'n' && s[1] == 'u' && s[2] == 'l' && s[3] == 'l' {
        Some((JVal::JNull, s.skip(4)))
    } else {
        None
    }
}

/// A successful value parse consumes at least one character.
proof fn lemma_value_len(s: Seq<char>)
    ensures
        match parse_value(s) {
            Some((v, r)) => r.len() < s.len(),
            None => true,
        },
{
    lemma_qstring_len(s);
    if s.len() >= 1 && s[0] == '[' {
        lemma_arr_items_len(s.skip(1));
    }
}

/// Parses one `"key":value` pair.
pub open spec fn parse_pair(s: Seq<char>) -> Option<((Seq<char>, JVal), Seq<char>)> {
    match parse_qstring(s) {
        Some((k, r)) => if r.len() >= 1 && r[0] == ':' {
            match parse_value(r.skip(1)) {
                Some((v, r2)) => Some(((k, v), r2)),
                None => None,
            }
        } else {
            None
        },
        None => None,
    }
}

/// A successful pair parse consumes at least one character.
proof fn lemma_pair_len(s: Seq<char>)
    ensures
        match parse_pair(s) {
            Some((p, r)) => r.len() < s.len(),
            None => true,
        },
{
    lemma_qstring_len(s);
    match parse_qstring(s) {
        Some((k, r)) => {
            if r.len() >= 1 && r[0] == ':' {
                lemma_value_len(r.skip(1));
            }
        },
        None => {},
    }
}

/// Parses one or more comma-separated `"key":value` pairs.
pub open spec fn parse_pairs(s: Seq<char>) -> Option<(Seq<(Seq<char>, JVal)>, Seq<char>)>
    decreases s.len(),
    via parse_pairs_dec
{
    match parse_pair(s) {
        None => None,
        Some((p, r)) => {
            if r.len() >= 1 && r[0] == ',' {
                match parse_pairs(r.skip(1)) {
                    Some((ps, r2)) => Some((seq![p] + ps, r2)),
                    None => None,
                }
            } else {
                Some((seq![p], r))
            }
        },
    }
}

#[via_fn]
proof fn parse_pairs_dec(s: Seq<char>) {
    lemma_pair_len(s);
}

/// Parses a whole frame: one JSON object covering the entire input.
pub open spec fn parse_frame(s: Seq<char>) -> Option<Seq<(Seq<char>, JVal)>> {
    if s.len() >= 2 && s[0] == '{' {
        if s.len() == 2 && s[1] == '}' {
            Some(Seq::empty())
        } else {
            match parse_pairs(s.skip(1)) {
                Some((ps, r)) => if r.len() == 1 && r[0] == '}' {
                    Some(ps)
                } else {
                    None
                },
                None => None,
            }
        }
    } else {
        None
    }
}

/// The value of the first pair with the given key, if any.
pub open spec fn lookup(ps: Seq<(Seq<char>, JVal)>, k: Seq<char>) -> Option<JVal>
    decreases ps.len(),
{
    if ps.len() == 0 {
        None
    } else if ps[0].0 == k {
        Some(ps[0].1)
    } else {
        lookup(ps.skip(1), k)
    }
}

/// The kind named by a `messageType` value, if it is a known one.
pub open spec fn kind_of(k: Seq<char>) -> Option<MsgTypes> {
    if k == "users"@ {
        Some(MsgTypes::Users)
    } else if k == "register"@ {
        Some(MsgTypes::Register)
    } else if k == "message"@ {
        Some(MsgTypes::Message)
    } else {
        None
    }
}

/// Reads the `dataArray` field: absent or `null` is no list, an array is a
/// list, anything else is malformed.
pub open spec fn list_field(v: Option<JVal>) -> Option<Option<Seq<Seq<char>>>> {
    match v {
        None => Some(None),
        Some(JVal::JNull) => Some(None),
        Some(JVal::JArr(l)) => Some(Some(l)),
        Some(JVal::JStr(x)) => None,
    }
}

/// Reads the `data` field: absent or `null` is no payload, a string is a
/// payload, anything else is malformed.
pub open spec fn str_field(v: Option<JVal>) -> Option<Option<Seq<char>>> {
    match v {
        None => Some(None),
        Some(JVal::JNull) => Some(None),
        Some(JVal::JStr(x)) => Some(Some(x)),
        Some(JVal::JArr(l)) => None,
    }
}

/// Interprets the three relevant fields of a parsed frame as an envelope.
pub open spec fn interp(mt: Option<JVal>, da: Option<JVal>, d: Option<JVal>) -> Result<
    EnvelopeView,
    DecodeError,
> {
    match mt {
        Some(JVal::JStr(ks)) => match kind_of(ks) {
            Some(kind) => match list_field(da) {
                Some(dl) => match str_field(d) {
                    Some(dd) => Ok(EnvelopeView { kind, data: dd, data_list: dl }),
                    None => Err(DecodeError::Malformed),
                },
                None => Err(DecodeError::Malformed),
            },
            None => Err(DecodeError::UnknownKind),
        },
        _ => Err(DecodeError::Malformed),
    }
}

/// What `decode` returns on any input, stated over the character sequence.
pub open spec fn spec_decode(s: Seq<char>) -> Result<EnvelopeView, DecodeError> {
    match parse_frame(s) {
        None => Err(DecodeError::Malformed),
        Some(ps) => interp(
            lookup(ps, "messageType"@),
            lookup(ps, "dataArray"@),
            lookup(ps, "data"@),
        ),
    }
}

/// Parsing a string body that was produced by `escape` recovers the original
/// characters and leaves the input after the closing quote untouched.
proof fn lemma_parse_escaped(x: Seq<char>, rest: Seq<char>)
    ensures
        parse_str_body(escape(x) + seq!['"'] + rest) == Some((x, rest)),
    decreases x.len(),
{
    let s = escape(x) + seq!['"'] + rest;
    if x.len() == 0 {
        assert(escape(x) == Seq::<char>::empty());
        assert(s[0] == '"');
        assert(s.skip(1) =~= rest);
        assert(x =~= Seq::<char>::empty());
    } else {
        let c = x[0];
        assert(escape(x) == esc_char(c) + escape(x.skip(1)));
        if c == '"' || c == '\\' {
            assert(esc_char(c) == seq!['\\', c]);
            assert(s[0] == '\\');
            assert(s[1] == c);
            assert(s.skip(2) =~= escape(x.skip(1)) + seq!['"'] + rest);
            lemma_parse_escaped(x.skip(1), rest);
            assert(seq![s[1]] + x.skip(1) =~= x);
        } else {
            assert(esc_char(c) == seq![c]);
            assert(s[0] == c);
            assert(s.skip(1) =~= escape(x.skip(1)) + seq!['"'] + rest);
            lemma_parse_escaped(x.skip(1), rest);
            assert(seq![s[0]] + x.skip(1) =~= x);
        }
    }
}

/// Parsing a quoted string produced by `quote` recovers the original.
proof fn lemma_parse_quoted(x: Seq<char>, rest: Seq<char>)
    ensures
        parse_qstring(quote(x) + rest) == Some((x, rest)),
{
    let s = quote(x) + rest;
    assert(s[0] == '"');
    assert(s.skip(1) =~= escape(x) + seq!['"'] + rest);
    lemma_parse_escaped(x, rest);
}

/// Parsing an encoded non-empty item list recovers the original strings.
proof fn lemma_parse_enc_items(l: Seq<Seq<char>>, rest: Seq<char>)
    requires
        l.len() >= 1,
        rest.len() >= 1,
        rest[0] != ',',
    ensures
        parse_arr_items(enc_items(l) + rest) == Some((l, rest)),
    decreases l.len(),
{
    let s = enc_items(l) + rest;
    if l.len() == 1 {
        assert(enc_items(l) == quote(l[0]));
        lemma_parse_quoted(l[0], rest);
        assert(seq![l[0]] =~= l);
    } else {
        assert(enc_items(l) == quote(l[0]) + seq![','] + enc_items(l.skip(1)));
        let r1 = seq![','] + enc_items(l.skip(1)) + rest;
        assert(s =~= quote(l[0]) + r1);
        lemma_parse_quoted(l[0], r1);
        assert(r1[0] == ',');
        assert(r1.skip(1) =~= enc_items(l.skip(1)) + rest);
        lemma_parse_enc_items(l.skip(1), rest);
        assert(seq![l[0]] + l.skip(1) =~= l);
    }
}

/// Parsing an encoded array recovers the original list of strings.
proof fn lemma_parse_enc_array(l: Seq<Seq<char>>, rest: Seq<char>)
    ensures
        parse_array(enc_array(l) + rest) == Some((l, rest)),
{
    let s = enc_array(l) + rest;
    assert(s[0] == '[');
    let t = s.skip(1);
    if l.len() == 0 {
        assert(enc_items(l) == Seq::<char>::empty());
        assert(t =~= seq![']'] + rest);
        assert(t[0] == ']');
        assert(t.skip(1) =~= rest);
        assert(l =~= Seq::<Seq<char>>::empty());
    } else {
        let r1 = seq![']'] + rest;
        assert(t =~= enc_items(l) + r1);
        if l.len() == 1 {
            assert(enc_items(l) == quote(l[0]));
            assert(quote(l[0])[0] == '"');
        } else {
            assert(enc_items(l) == quote(l[0]) + seq![','] + enc_items(l.skip(1)));
            assert(quote(l[0])[0] == '"');
            assert(enc_items(l)[0] == '"');
        }
        assert(t[0] == '"');
        assert(r1[0] == ']');
        lemma_parse_enc_items(l, r1);
        assert(r1.skip(1) =~= rest);
    }
}

/// Parsing a pair whose value is an encoded string literal.
proof fn lemma_parse_pair_str(k: Seq<char>, x: Seq<char>, rest: Seq<char>)
    ensures
        parse_pair(quote(k) + seq![':'] + quote(x) + rest) == Some(((k, JVal::JStr(x)), rest)),
{
    let s = quote(k) + seq![':'] + quote(x) + rest;
    let r1 = seq![':'] + quote(x) + rest;
    assert(s =~= quote(k) + r1);
    lemma_parse_quoted(k, r1);
    assert(r1[0] == ':');
    assert(r1.skip(1) =~= quote(x) + rest);
    assert((quote(x) + rest)[0] == '"');
    lemma_parse_quoted(x, rest);
}

/// Parsing a pair whose value is an encoded array.
proof fn lemma_parse_pair_arr(k: Seq<char>, l: Seq<Seq<char>>, rest: Seq<char>)
    ensures
        parse_pair(quote(k) + seq![':'] + enc_array(l) + rest) == Some(((k, JVal::JArr(l)), rest)),
{
    let s = quote(k) + seq![':'] + enc_array(l) + rest;
    let r1 = seq![':'] + enc_array(l) + rest;
    assert(s =~= quote(k) + r1);
    lemma_parse_quoted(k, r1);
    assert(r1[0] == ':');
    assert(r1.skip(1) =~= enc_array(l) + rest);
    assert((enc_array(l) + rest)[0] == '[');
    lemma_parse_enc_array(l, rest);
}

/// Key lookup over a two-pair object: first match wins.
proof fn lemma_lookup2(p1: (Seq<char>, JVal), p2: (Seq<char>, JVal), k: Seq<char>)
    ensures
        lookup(seq![p1] + seq![p2], k) == (if p1.0 == k {
            Some(p1.1)
        } else if p2.0 == k {
            Some(p2.1)
        } else {
            None
        }),
{
    let ps = seq![p1] + seq![p2];
    assert(ps.len() == 2);
    assert(ps[0] == p1);
    assert(ps.skip(1) =~= seq![p2]);
    assert(seq![p2][0] == p2);
    assert(seq![p2].skip(1) =~= Seq::<(Seq<char>, JVal)>::empty());
    assert(lookup(Seq::<(Seq<char>, JVal)>::empty(), k) is None);
    assert(lookup(seq![p2], k) == (if p2.0 == k {
        Some(p2.1)
    } else {
        None
    }));
}

/// Round trip: decoding a canonically encoded envelope whose populated
/// payload field matches its kind yields that envelope back, exactly.
pub proof fn lemma_round_trip(e: EnvelopeView)
    requires
        valid_envelope(e),
    ensures
        spec_decode(spec_encode(e)) == Ok::<EnvelopeView, DecodeError>(e),
{
    reveal_strlit("messageType");
    reveal_strlit("dataArray");
    reveal_strlit("data");
    reveal_strlit("users");
    reveal_strlit("register");
    reveal_strlit("message");
    let mtk = "messageType"@;
    let dak = "dataArray"@;
    let dk = "data"@;
    assert(mtk.len() == 11);
    assert(dak.len() == 9);
    assert(dk.len() == 4);
    assert(mtk != dak);
    assert(mtk != dk);
    assert(dak != dk);
    let k = kind_str(e.kind);
    assert(kind_of(k) == Some(e.kind)) by {
        assert("users"@.len() == 5);
        assert("register"@.len() == 8);
        assert("message"@.len() == 7);
    }
    let s = spec_encode(e);
    match e.data_list {
        Some(l) => {
            // `Users`: the second pair is the roster snapshot array.
            let p1 = (mtk, JVal::JStr(k));
            let p2 = (dak, JVal::JArr(l));
            let tail1 = seq![','] + quote(dak) + seq![':'] + enc_array(l) + seq!['}'];
            assert(s[0] == '{');
            assert(s.len() > 2);
            assert(s.skip(1) =~= quote(mtk) + seq![':'] + quote(k) + tail1);
            lemma_parse_pair_str(mtk, k, tail1);
            assert(tail1[0] == ',');
            assert(tail1.skip(1) =~= quote(dak) + seq![':'] + enc_array(l) + seq!['}']);
            lemma_parse_pair_arr(dak, l, seq!['}']);
            assert(parse_pairs(tail1.skip(1)) == Some((seq![p2], seq!['}'])));
            assert(parse_pairs(s.skip(1)) == Some((seq![p1] + seq![p2], seq!['}'])));
            let ps = seq![p1] + seq![p2];
            assert(parse_frame(s) == Some(ps));
            lemma_lookup2(p1, p2, mtk);
            lemma_lookup2(p1, p2, dak);
            lemma_lookup2(p1, p2, dk);
            assert(lookup(ps, mtk) == Some(JVal::JStr(k)));
            assert(lookup(ps, dak) == Some(JVal::JArr(l)));
            assert(lookup(ps, dk) is None);
            assert(interp(Some(JVal::JStr(k)), Some(JVal::JArr(l)), None) == Ok::<
                EnvelopeView,
                DecodeError,
            >(e));
        },
        None => {
            // `Register` or `Message`: the second pair is the string payload.
            let d = e.data->Some_0;
            let p1 = (mtk, JVal::JStr(k));
            let p2 = (dk, JVal::JStr(d));
            let tail1 = seq![','] + quote(dk) + seq![':'] + quote(d) + seq!['}'];
            assert(s[0] == '{');
            assert(s.len() > 2);
            assert(s.skip(1) =~= quote(mtk) + seq![':'] + quote(k) + tail1);
            lemma_parse_pair_str(mtk, k, tail1);
            assert(tail1[0] == ',');
            assert(tail1.skip(1) =~= quote(dk) + seq![':'] + quote(d) + seq!['}']);
            lemma_parse_pair_str(dk, d, seq!['}']);
            assert(parse_pairs(tail1.skip(1)) == Some((seq![p2], seq!['}'])));
            assert(parse_pairs(s.skip(1)) == Some((seq![p1] + seq![p2], seq!['}'])));
            let ps = seq![p1] + seq![p2];
            assert(parse_frame(s) == Some(ps));
            lemma_lookup2(p1, p2, mtk);
            lemma_lookup2(p1, p2, dak);
            lemma_lookup2(p1, p2, dk);
            assert(lookup(ps, mtk) == Some(JVal::JStr(k)));
            assert(lookup(ps, dak) is None);
            assert(lookup(ps, dk) == Some(JVal::JStr(d)));
            assert(interp(Some(JVal::JStr(k)), None, Some(JVal::JStr(d))) == Ok::<
                EnvelopeView,
                DecodeError,
            >(e));
        },
    }
}

/// A chat message carried inside a `Message` envelope's payload.
#[derive(Debug)]
pub struct ChatMessage {
    pub sender: String,
    pub text: String,
}

/// Mathematical model of a [`ChatMessage`].
pub struct ChatView {
    pub sender: Seq<char>,
    pub text: Seq<char>,
}

impl View for ChatMessage {
    type V = ChatView;

    open spec fn view(&self) -> ChatView {
        ChatView { sender: self.sender@, text: self.text@ }
    }
}

/// The canonical encoding of a chat payload: `from` first, then `message`.
pub open spec fn spec_encode_chat(sender: Seq<char>, text: Seq<char>) -> Seq<char> {
    seq!['{'] + quote("from"@) + seq![':'] + quote(sender) + seq![','] + quote("message"@)
        + seq![':'] + quote(text) + seq!['}']
}

/// Reads a payload field leniently: a missing field is the empty string, a
/// string is itself, any other shape is malformed.
pub open spec fn chat_str(v: Option<JVal>) -> Option<Seq<char>> {
    match v {
        None => Some(Seq::empty()),
        Some(JVal::JStr(x)) => Some(x),
        Some(JVal::JNull) => None,
        Some(JVal::JArr(l)) => None,
    }
}

/// Interprets the two relevant fields of a parsed payload frame.
pub open spec fn chat_interp(f: Option<JVal>, m: Option<JVal>) -> Result<ChatView, DecodeError> {
    match (chat_str(f), chat_str(m)) {
        (Some(a), Some(b)) => Ok(ChatView { sender: a, text: b }),
        _ => Err(DecodeError::Malformed),
    }
}

/// What `decode_chat` returns on any payload text.
pub open spec fn spec_decode_chat(s: Seq<char>) -> Result<ChatView, DecodeError> {
    match parse_frame(s) {
        None => Err(DecodeError::Malformed),
        Some(ps) => chat_interp(lookup(ps, "from"@), lookup(ps, "message"@)),
    }
}

/// Serializes a chat payload to its canonical wire text.
pub fn encode_chat(sender: &str, text: &str) -> (r: String)
    ensures
        r@ == spec_encode_chat(sender@, text@),
{
    let mut out = String::new();
    out.push('{');
    append_quoted(&mut out, "from");
    out.push(':');
    append_quoted(&mut out, sender);
    out.push(',');
    append_quoted(&mut out, "message");
    out.push(':');
    append_quoted(&mut out, text);
    out.push('}');
    assert(out@ =~= spec_encode_chat(sender@, text@));
    out
}

/// Round trip for the nested payload: decoding an encoded chat payload
/// yields the original sender and text.
pub proof fn lemma_chat_round_trip(sender: Seq<char>, text: Seq<char>)
    ensures
        spec_decode_chat(spec_encode_chat(sender, text)) == Ok::<ChatView, DecodeError>(
            ChatView { sender, text },
        ),
{
    reveal_strlit("from");
    reveal_strlit("message");
    let fk = "from"@;
    let mk = "message"@;
    assert(fk.len() == 4);
    assert(mk.len() == 7);
    assert(fk != mk);
    let s = spec_encode_chat(sender, text);
    let p1 = (fk, JVal::JStr(sender));
    let p2 = (mk, JVal::JStr(text));
    let tail1 = seq![','] + quote(mk) + seq![':'] + quote(text) + seq!['}'];
    assert(s[0] == '{');
    assert(s.len() > 2);
    assert(s.skip(1) =~= quote(fk) + seq![':'] + quote(sender) + tail1);
    lemma_parse_pair_str(fk, sender, tail1);
    assert(tail1[0] == ',');
    assert(tail1.skip(1) =~= quote(mk) + seq![':'] + quote(text) + seq!['}']);
    lemma_parse_pair_str(mk, text, seq!['}']);
    assert(parse_pairs(tail1.skip(1)) == Some((seq![p2], seq!['}'])));
    assert(parse_pairs(s.skip(1)) == Some((seq![p1] + seq![p2], seq!['}'])));
    let ps = seq![p1] + seq![p2];
    assert(parse_frame(s) == Some(ps));
    lemma_lookup2(p1, p2, fk);
    lemma_lookup2(p1, p2, mk);
    assert(lookup(ps, fk) == Some(JVal::JStr(sender)));
    assert(lookup(ps, mk) == Some(JVal::JStr(text)));
}

/// A parsed field value, as executable data.
enum JsonField {
    FStr(String),
    FArr(Vec<String>),
    FNull,
}

impl View for JsonField {
    type V = JVal;

    closed spec fn view(&self) -> JVal {
        match self {
            JsonField::FStr(x) => JVal::JStr(x@),
            JsonField::FArr(l) => JVal::JArr(l@.map_values(|x: String| x@)),
            JsonField::FNull => JVal::JNull,
        }
    }
}

/// The parsed value held in a field slot, if the slot is filled.
spec fn slot_view(o: Option<JsonField>) -> Option<JVal> {
    match o {
        Some(f) => Some(f@),
        None => None,
    }
}

/// Character-by-character string equality.
pub(crate) fn str_eq(a: &str, b: &str) -> (r: bool)
    ensures
        r == (a@ == b@),
{
    let na = a.unicode_len();
    let nb = b.unicode_len();
    if na != nb {
        proof {
            if a@ == b@ {
                assert(a@.len() == b@.len());
            }
        }
        return false;
    }
    let mut i: usize = 0;
    while i < na
        invariant
            na == a@.len(),
            nb == b@.len(),
            na == nb,
            i <= na,
            forall|k: int| 0 <= k < i ==> a@[k] == b@[k],
        decreases na - i,
    {
        if a.get_char(i) != b.get_char(i) {
            return false;
        }
        i = i + 1;
    }
    proof {
        assert(a@ =~= b@);
    }
    true
}

/// Scans a string body from position `i`, unescaping, up to and including
/// the closing quote.
fn scan_str_body(s: &str, n: usize, i: usize) -> (r: Option<(String, usize)>)
    requires
        n == s@.len(),
        i <= n,
    ensures
        match r {
            Some((b, j)) => i < j <= n && parse_str_body(s@.skip(i as int)) == Some(
                (b@, s@.skip(j as int)),
            ),
            None => parse_str_body(s@.skip(i as int)) is None,
        },
{
    let mut out = String::new();
    let mut cur: usize = i;
    loop
        invariant
            n == s@.len(),
            i <= cur <= n,
            parse_str_body(s@.skip(i as int)) == (match parse_str_body(s@.skip(cur as int)) {
                Some((b2, r2)) => Some((out@ + b2, r2)),
                None => None::<(Seq<char>, Seq<char>)>,
            }),
        decreases n - cur,
    {
        if cur == n {
            assert(s@.skip(cur as int).len() == 0);
            return None;
        }
        let c = s.get_char(cur);
        assert(s@.skip(cur as int)[0] == s@[cur as int]);
        if c == '"' {
            proof {
                assert(s@.skip(cur as int).skip(1) =~= s@.skip(cur as int + 1));
                assert(parse_str_body(s@.skip(cur as int)) == Some(
                    (Seq::<char>::empty(), s@.skip(cur as int + 1)),
                ));
                assert(out@ + Seq::<char>::empty() =~= out@);
            }
            return Some((out, cur + 1));
        } else if c == '\\' {
            if cur + 1 < n {
                let c2 = s.get_char(cur + 1);
                assert(s@.skip(cur as int)[1] == s@[cur as int + 1]);
                if c2 == '"' || c2 == '\\' {
                    proof {
                        assert(s@.skip(cur as int).skip(2) =~= s@.skip(cur as int + 2));
                        match parse_str_body(s@.skip(cur as int + 2)) {
                            Some((b2, r2)) => {
                                assert(out@ + (seq![c2] + b2) =~= out@.push(c2) + b2);
                            },
                            None => {},
                        }
                    }
                    out.push(c2);
                    cur = cur + 2;
                } else {
                    return None;
                }
            } else {
                assert(s@.skip(cur as int).len() < 2);
                return None;
            }
        } else {
            proof {
                assert(s@.skip(cur as int).skip(1) =~= s@.skip(cur as int + 1));
                match parse_str_body(s@.skip(cur as int + 1)) {
                    Some((b2, r2)) => {
                        assert(out@ + (seq![c] + b2) =~= out@.push(c) + b2);
                    },
                    None => {},
                }
            }
            out.push(c);
            cur = cur + 1;
        }
    }
}

/// Scans a quoted string literal starting at position `i`.
fn scan_qstring(s: &str, n: usize, i: usize) -> (r: Option<(String, usize)>)
    requires
        n == s@.len(),
        i <= n,
    ensures
        match r {
            Some((v, j)) => i < j <= n && parse_qstring(s@.skip(i as int)) == Some(
                (v@, s@.skip(j as int)),
            ),
            None => parse_qstring(s@.skip(i as int)) is None,
        },
{
    if i < n && s.get_char(i) == '"' {
        proof {
            assert(s@.skip(i as int)[0] == s@[i as int]);
            assert(s@.skip(i as int).skip(1) =~= s@.skip(i as int + 1));
        }
        scan_str_body(s, n, i + 1)
    } else {
        proof {
            if i < n {
                assert(s@.skip(i as int)[0] == s@[i as int]);
            }
        }
        None
    }
}

/// Scans one field value starting at position `i`.
fn scan_value(s: &str, n: usize, i: usize) -> (r: Option<(JsonField, usize)>)
    requires
        n == s@.len(),
        i <= n,
    ensures
        match r {
            Some((f, j)) => i < j <= n && parse_value(s@.skip(i as int)) == Some(
                (f@, s@.skip(j as int)),
            ),
            None => parse_value(s@.skip(i as int)) is None,
        },
{
    if i >= n {
        return None;
    }
    let c = s.get_char(i);
    assert(s@.skip(i as int)[0] == s@[i as int]);
    if c == '"' {
        match scan_qstring(s, n, i) {
            Some((v, j)) => Some((JsonField::FStr(v), j)),
            None => None,
        }
    } else if c == '[' {
        if i + 1 < n && s.get_char(i + 1) == ']' {
            proof {
                let t = s@.skip(i as int).skip(1);
                assert(t =~= s@.skip(i as int + 1));
                assert(t[0] == s@[i as int + 1]);
                assert(t.skip(1) =~= s@.skip(i as int + 2));
                assert(Seq::<String>::empty().map_values(|x: String| x@) =~= Seq::<
                    Seq<char>,
                >::empty());
            }
            let items: Vec<String> = Vec::new();
            assert(items@ =~= Seq::<String>::empty());
            return Some((JsonField::FArr(items), i + 2));
        }
        let ghost t0 = s@.skip(i as int + 1);
        proof {
            assert(s@.skip(i as int).skip(1) =~= t0);
            if i + 1 < n {
                assert(t0[0] == s@[i as int + 1]);
            }
            assert(!(t0.len() >= 1 && t0[0] == ']'));
        }
        let mut items: Vec<String> = Vec::new();
        let mut cur: usize = i + 1;
        loop
            invariant
                n == s@.len(),
                i < n,
                i + 1 <= cur <= n,
                s@[i as int] == '[',
                t0 == s@.skip(i as int + 1),
                !(t0.len() >= 1 && t0[0] == ']'),
                parse_arr_items(t0) == (match parse_arr_items(s@.skip(cur as int)) {
                    Some((vs, r)) => Some((items@.map_values(|x: String| x@) + vs, r)),
                    None => None::<(Seq<Seq<char>>, Seq<char>)>,
                }),
            decreases n - cur,
        {
            match scan_qstring(s, n, cur) {
                None => {
                    proof {
                        assert(s@.skip(i as int)[0] == s@[i as int]);
                        assert(s@.skip(i as int).skip(1) =~= t0);
                    }
                    return None;
                },
                Some((v, j)) => {
                    if j < n && s.get_char(j) == ',' {
                        proof {
                            assert(s@.skip(j as int)[0] == s@[j as int]);
                            assert(s@.skip(j as int).skip(1) =~= s@.skip(j as int + 1));
                            match parse_arr_items(s@.skip(j as int + 1)) {
                                Some((vs2, r2)) => {
                                    assert(items@.map_values(|x: String| x@) + (seq![v@] + vs2)
                                        =~= items@.push(v).map_values(|x: String| x@) + vs2);
                                },
                                None => {},
                            }
                        }
                        items.push(v);
                        cur = j + 1;
                    } else {
                        proof {
                            if j < n {
                                assert(s@.skip(j as int)[0] == s@[j as int]);
                            }
                            assert(parse_arr_items(s@.skip(cur as int)) == Some(
                                (seq![v@], s@.skip(j as int)),
                            ));
                            assert(items@.map_values(|x: String| x@) + seq![v@] =~= items@.push(
                                v,
                            ).map_values(|x: String| x@));
                        }
                        items.push(v);
                        if j < n && s.get_char(j) == ']' {
                            proof {
                                assert(s@.skip(j as int)[0] == s@[j as int]);
                                assert(s@.skip(j as int).skip(1) =~= s@.skip(j as int + 1));
                                assert(s@.skip(i as int)[0] == s@[i as int]);
                                assert(s@.skip(i as int).skip(1) =~= t0);
                                assert(parse_arr_items(t0) == Some(
                                    (items@.map_values(|x: String| x@), s@.skip(j as int)),
                                ));
                                assert(parse_array(s@.skip(i as int)) == Some(
                                    (items@.map_values(|x: String| x@), s@.skip(j as int + 1)),
                                ));
                            }
                            return Some((JsonField::FArr(items), j + 1));
                        } else {
                            proof {
                                assert(s@.skip(i as int)[0] == s@[i as int]);
                                assert(s@.skip(i as int).skip(1) =~= t0);
                                if j < n {
                                    assert(s@.skip(j as int)[0] == s@[j as int]);
                                }
                                assert(parse_array(s@.skip(i as int)) is None);
                            }
                            return None;
                        }
                    }
                },
            }
        }
    } else if c == 'n' {
        if n - i >= 4 && s.get_char(i + 1) == 'u' && s.get_char(i + 2) == 'l' && s.get_char(i + 3)
            == 'l' {
            proof {
                assert(s@.skip(i as int).len() >= 4);
                assert(s@.skip(i as int)[1] == s@[i as int + 1]);
                assert(s@.skip(i as int)[2] == s@[i as int + 2]);
                assert(s@.skip(i as int)[3] == s@[i as int + 3]);
                assert(s@.skip(i as int).skip(4) =~= s@.skip(i as int + 4));
            }
            Some((JsonField::FNull, i + 4))
        } else {
            proof {
                if n - i >= 4 {
                    assert(s@.skip(i as int)[1] == s@[i as int + 1]);
                    assert(s@.skip(i as int)[2] == s@[i as int + 2]);
                    assert(s@.skip(i as int)[3] == s@[i as int + 3]);
                } else {
                    assert(s@.skip(i as int).len() < 4);
                }
            }
            None
        }
    } else {
        None
    }
}

/// Scans one `"key":value` pair starting at position `i`.
fn scan_pair(s: &str, n: usize, i: usize) -> (r: Option<((String, JsonField), usize)>)
    requires
        n == s@.len(),
        i <= n,
    ensures
        match r {
            Some((p, j)) => i < j <= n && parse_pair(s@.skip(i as int)) == Some(
                ((p.0@, p.1@), s@.skip(j as int)),
            ),
            None => parse_pair(s@.skip(i as int)) is None,
        },
{
    match scan_qstring(s, n, i) {
        None => None,
        Some((k, j)) => {
            if j < n && s.get_char(j) == ':' {
                proof {
                    assert(s@.skip(j as int)[0] == s@[j as int]);
                    assert(s@.skip(j as int).skip(1) =~= s@.skip(j as int + 1));
                }
                match scan_value(s, n, j + 1) {
                    Some((f, j2)) => Some(((k, f), j2)),
                    None => None,
                }
            } else {
                proof {
                    if j < n {
                        assert(s@.skip(j as int)[0] == s@[j as int]);
                    }
                }
                None
            }
        },
    }
}

/// A later pair never shadows an earlier one with the same key.
proof fn lemma_lookup_push(ps: Seq<(Seq<char>, JVal)>, p: (Seq<char>, JVal), k: Seq<char>)
    ensures
        lookup(ps.push(p), k) == (match lookup(ps, k) {
            Some(v) => Some(v),
            None => if p.0 == k {
                Some(p.1)
            } else {
                None
            },
        }),
    decreases ps.len(),
{
    if ps.len() == 0 {
        assert(ps.push(p)[0] == p);
        assert(ps.push(p).skip(1) =~= Seq::<(Seq<char>, JVal)>::empty());
        assert(lookup(Seq::<(Seq<char>, JVal)>::empty(), k) is None);
    } else {
        assert(ps.push(p)[0] == ps[0]);
        assert(ps.push(p).skip(1) =~= ps.skip(1).push(p));
        lemma_lookup_push(ps.skip(1), p, k);
    }
}

/// Deserializes a frame.  Fails with `Malformed` when the text is not a
/// well-formed frame, with `UnknownKind` when its `messageType` is not a
/// known kind; accepts any field order, ignores unknown fields, and treats
/// missing or `null` payload fields as absent.
pub fn decode(s: &str) -> (r: Result<Envelope, DecodeError>)
    ensures
        match r {
            Ok(e) => spec_decode(s@) == Ok::<EnvelopeView, DecodeError>(e@),
            Err(er) => spec_decode(s@) == Err::<EnvelopeView, DecodeError>(er),
        },
{
    proof {
        reveal_strlit("messageType");
        reveal_strlit("dataArray");
        reveal_strlit("data");
        assert("messageType"@.len() == 11);
        assert("dataArray"@.len() == 9);
        assert("data"@.len() == 4);
    }
    let n = s.unicode_len();
    if n < 2 || s.get_char(0) != '{' {
        return Err(DecodeError::Malformed);
    }
    if n == 2 && s.get_char(1) == '}' {
        proof {
            let e = Seq::<(Seq<char>, JVal)>::empty();
            assert(parse_frame(s@) == Some(e));
            assert(lookup(e, "messageType"@) is None);
        }
        return Err(DecodeError::Malformed);
    }
    let mut mt: Option<JsonField> = None;
    let mut da: Option<JsonField> = None;
    let mut d: Option<JsonField> = None;
    let ghost mut gps = Seq::<(Seq<char>, JVal)>::empty();
    let mut cur: usize = 1;
    loop
        invariant_except_break
            parse_pairs(s@.skip(1)) == (match parse_pairs(s@.skip(cur as int)) {
                Some((ps2, r)) => Some((gps + ps2, r)),
                None => None::<(Seq<(Seq<char>, JVal)>, Seq<char>)>,
            }),
        invariant
            n == s@.len(),
            n >= 2,
            s@[0] == '{',
            !(n == 2 && s@[1] == '}'),
            1 <= cur <= n,
            slot_view(mt) == lookup(gps, "messageType"@),
            slot_view(da) == lookup(gps, "dataArray"@),
            slot_view(d) == lookup(gps, "data"@),
            "messageType"@ != "dataArray"@,
            "messageType"@ != "data"@,
            "dataArray"@ != "data"@,
        ensures
            parse_frame(s@) == Some(gps),
        decreases n - cur,
    {
        match scan_pair(s, n, cur) {
            None => {
                return Err(DecodeError::Malformed);
            },
            Some((p, j)) => {
                let (key, val) = p;
                let ghost gp = (key@, val@);
                let is_mt = str_eq(key.as_str(), "messageType");
                let is_da = str_eq(key.as_str(), "dataArray");
                let is_d = str_eq(key.as_str(), "data");
                proof {
                    lemma_lookup_push(gps, gp, "messageType"@);
                    lemma_lookup_push(gps, gp, "dataArray"@);
                    lemma_lookup_push(gps, gp, "data"@);
                }
                if is_mt {
                    if mt.is_none() {
                        mt = Some(val);
                    }
                } else if is_da {
                    if da.is_none() {
                        da = Some(val);
                    }
                } else if is_d {
                    if d.is_none() {
                        d = Some(val);
                    }
                }
                let ghost old_gps = gps;
                proof {
                    gps = gps.push(gp);
                }
                if j < n && s.get_char(j) == ',' {
                    proof {
                        assert(s@.skip(j as int)[0] == s@[j as int]);
                        assert(s@.skip(j as int).skip(1) =~= s@.skip(j as int + 1));
                        match parse_pairs(s@.skip(j as int + 1)) {
                            Some((ps2, r2)) => {
                                assert(old_gps + (seq![gp] + ps2) =~= old_gps.push(gp) + ps2);
                            },
                            None => {},
                        }
                    }
                    cur = j + 1;
                } else {
                    proof {
                        if j < n {
                            assert(s@.skip(j as int)[0] == s@[j as int]);
                        }
                        assert(parse_pairs(s@.skip(cur as int)) == Some(
                            (seq![gp], s@.skip(j as int)),
                        ));
                        assert(old_gps + seq![gp] =~= gps);
                        assert(parse_pairs(s@.skip(1)) == Some((gps, s@.skip(j as int))));
                    }
                    if j == n - 1 && s.get_char(j) == '}' {
                        proof {
                            assert(s@.skip(j as int).len() == 1);
                            assert(s@.skip(j as int)[0] == '}');
                            assert(parse_frame(s@) == Some(gps));
                        }
                        break ;
                    } else {
                        proof {
                            assert(!(s@.skip(j as int).len() == 1 && s@.skip(j as int)[0] == '}'));
                        }
                        return Err(DecodeError::Malformed);
                    }
                }
            },
        }
    }
    assert(spec_decode(s@) == interp(slot_view(mt), slot_view(da), slot_view(d)));
    match mt {
        Some(JsonField::FStr(ks)) => {
            let kind_opt = if str_eq(ks.as_str(), "users") {
                Some(MsgTypes::Users)
            } else if str_eq(ks.as_str(), "register") {
                Some(MsgTypes::Register)
            } else if str_eq(ks.as_str(), "message") {
                Some(MsgTypes::Message)
            } else {
                None
            };
            assert(kind_opt == kind_of(ks@));
            match kind_opt {
                None => Err(DecodeError::UnknownKind),
                Some(kd) => {
                    let dl: Option<Vec<String>> = match da {
                        None => None,
                        Some(JsonField::FNull) => None,
                        Some(JsonField::FArr(v)) => Some(v),
                        Some(JsonField::FStr(_)) => {
                            return Err(DecodeError::Malformed);
                        },
                    };
                    let dd: Option<String> = match d {
                        None => None,
                        Some(JsonField::FNull) => None,
                        Some(JsonField::FStr(x)) => Some(x),
                        Some(JsonField::FArr(_)) => {
                            return Err(DecodeError::Malformed);
                        },
                    };
                    let e = Envelope { kind: kd, data: dd, data_list: dl };
                    Ok(e)
                },
            }
        },
        _ => Err(DecodeError::Malformed),
    }
}

/// Deserializes a nested chat payload.  Lenient: a missing `from` or
/// `message` field is the empty string; a field of the wrong shape, or text
/// that is not a well-formed frame, is `Malformed`.
pub fn decode_chat(s: &str) -> (r: Result<ChatMessage, DecodeError>)
    ensures
        match r {
            Ok(m) => spec_decode_chat(s@) == Ok::<ChatView, DecodeError>(m@),
            Err(er) => spec_decode_chat(s@) == Err::<ChatView, DecodeError>(er),
        },
{
    proof {
        reveal_strlit("from");
        reveal_strlit("message");
        assert("from"@.len() == 4);
        assert("message"@.len() == 7);
    }
    let n = s.unicode_len();
    if n < 2 || s.get_char(0) != '{' {
        return Err(DecodeError::Malformed);
    }
    if n == 2 && s.get_char(1) == '}' {
        proof {
            let e = Seq::<(Seq<char>, JVal)>::empty();
            assert(parse_frame(s@) == Some(e));
            assert(lookup(e, "from"@) is None);
            assert(lookup(e, "message"@) is None);
        }
        return Ok(ChatMessage { sender: String::new(), text: String::new() });
    }
    let mut fr: Option<JsonField> = None;
    let mut ms: Option<JsonField> = None;
    let ghost mut gps = Seq::<(Seq<char>, JVal)>::empty();
    let mut cur: usize = 1;
    loop
        invariant_except_break
            parse_pairs(s@.skip(1)) == (match parse_pairs(s@.skip(cur as int)) {
                Some((ps2, r)) => Some((gps + ps2, r)),
                None => None::<(Seq<(Seq<char>, JVal)>, Seq<char>)>,
            }),
        invariant
            n == s@.len(),
            n >= 2,
            s@[0] == '{',
            !(n == 2 && s@[1] == '}'),
            1 <= cur <= n,
            slot_view(fr) == lookup(gps, "from"@),
            slot_view(ms) == lookup(gps, "message"@),
            "from"@ != "message"@,
        ensures
            parse_frame(s@) == Some(gps),
        decreases n - cur,
    {
        match scan_pair(s, n, cur) {
            None => {
                return Err(DecodeError::Malformed);
            },
            Some((p, j)) => {
                let (key, val) = p;
                let ghost gp = (key@, val@);
                let is_fr = str_eq(key.as_str(), "from");
                let is_ms = str_eq(key.as_str(), "message");
                proof {
                    lemma_lookup_push(gps, gp, "from"@);
                    lemma_lookup_push(gps, gp, "message"@);
                }
                if is_fr {
                    if fr.is_none() {
                        fr = Some(val);
                    }
                } else if is_ms {
                    if ms.is_none() {
                        ms = Some(val);
                    }
                }
                let ghost old_gps = gps;
                proof {
                    gps = gps.push(gp);
                }
                if j < n && s.get_char(j) == ',' {
                    proof {
                        assert(s@.skip(j as int)[0] == s@[j as int]);
                        assert(s@.skip(j as int).skip(1) =~= s@.skip(j as int + 1));
                        match parse_pairs(s@.skip(j as int + 1)) {
                            Some((ps2, r2)) => {
                                assert(old_gps + (seq![gp] + ps2) =~= old_gps.push(gp) + ps2);
                            },
                            None => {},
                        }
                    }
                    cur = j + 1;
                } else {
                    proof {
                        if j < n {
                            assert(s@.skip(j as int)[0] == s@[j as int]);
                        }
                        assert(parse_pairs(s@.skip(cur as int)) == Some(
                            (seq![gp], s@.skip(j as int)),
                        ));
                        assert(old_gps + seq![gp] =~= gps);
                        assert(parse_pairs(s@.skip(1)) == Some((gps, s@.skip(j as int))));
                    }
                    if j == n - 1 && s.get_char(j) == '}' {
                        proof {
                            assert(s@.skip(j as int).len() == 1);
                            assert(s@.skip(j as int)[0] == '}');
                            assert(parse_frame(s@) == Some(gps));
                        }
                        break ;
                    } else {
                        proof {
                            assert(!(s@.skip(j as int).len() == 1 && s@.skip(j as int)[0] == '}'));
                        }
                        return Err(DecodeError::Malformed);
                    }
                }
            },
        }
    }
    assert(spec_decode_chat(s@) == chat_interp(slot_view(fr), slot_view(ms)));
    let sender: String = match fr {
        None => String::new(),
        Some(JsonField::FStr(x)) => x,
        Some(JsonField::FNull) => {
            return Err(DecodeError::Malformed);
        },
        Some(JsonField::FArr(_)) => {
            return Err(DecodeError::Malformed);
        },
    };
    let text: String = match ms {
        None => String::new(),
        Some(JsonField::FStr(x)) => x,
        Some(JsonField::FNull) => {
            return Err(DecodeError::Malformed);
        },
        Some(JsonField::FArr(_)) => {
            return Err(DecodeError::Malformed);
        },
    };
    Ok(ChatMessage { sender, text })
}

} // verus!
