//! Who is speaking: conversation principals and the injective text encoding
//! their storage names and memory namespaces are built from.

use crate::lists::{pieces, pieces_from, split};
use crate::text::{
    ascii_alnum_char, begins, chars_of, is_ascii_alnum, opt_view, same, string_of, strip_prefix,
    texts,
};
use vstd::prelude::*;
use vstd::utf8::{decode_utf8, encode_utf8, valid_utf8};

verus! {

broadcast use vstd::utf8::encode_utf8_valid_utf8, vstd::utf8::encode_utf8_decode_utf8;

/// Characters a component may hold and still stand for itself.
pub open spec fn is_safe(c: char) -> bool {
    is_ascii_alnum(c) || c == '-' || c == '_'
}

fn safe_char(c: char) -> (safe: bool)
    ensures
        safe == is_safe(c),
{
    ascii_alnum_char(c) || c == '-' || c == '_'
}

/// Whether a value is unambiguous as it stands.
pub open spec fn is_plain(s: Seq<char>) -> bool {
    s.len() > 0 && forall|i: int| 0 <= i < s.len() ==> is_safe(#[trigger] s[i])
}

fn plain(chars: &Vec<char>) -> (yes: bool)
    ensures
        yes == is_plain(chars@),
{
    let mut i: usize = 0;
    while i < chars.len()
        invariant
            i <= chars@.len(),
            forall|k: int| 0 <= k < i ==> is_safe(#[trigger] chars@[k]),
        decreases chars@.len() - i,
    {
        if !safe_char(chars[i]) {
            return false;
        }
        i = i + 1;
    }
    chars.len() > 0
}

/// The base64url digit of a six-bit value.
pub open spec fn sextet_char(n: int) -> char {
    if n < 26 {
        (65 + n) as char
    } else if n < 52 {
        (71 + n) as char
    } else if n < 62 {
        (n - 4) as char
    } else if n == 62 {
        '-'
    } else {
        '_'
    }
}

/// The six-bit value of a base64url digit; zero for any other character.
pub open spec fn sextet_value(c: char) -> int {
    let n = c as int;
    if 65 <= n <= 90 {
        n - 65
    } else if 97 <= n <= 122 {
        n - 71
    } else if 48 <= n <= 57 {
        n + 4
    } else if n == 45 {
        62
    } else if n == 95 {
        63
    } else {
        0
    }
}

proof fn lemma_sextet(n: int)
    requires
        0 <= n < 64,
    ensures
        sextet_value(sextet_char(n)) == n,
        is_safe(sextet_char(n)),
{
}

fn sextet_digit(n: u8) -> (c: char)
    requires
        n < 64,
    ensures
        c == sextet_char(n as int),
{
    if n < 26 {
        (65 + n) as char
    } else if n < 52 {
        (71 + n) as char
    } else if n < 62 {
        (n - 4) as char
    } else if n == 62 {
        '-'
    } else {
        '_'
    }
}

fn sextet_number(c: char) -> (n: u8)
    ensures
        n == sextet_value(c),
        n < 64,
{
    let code: u32 = c as u32;
    if 65 <= code && code <= 90 {
        (code - 65) as u8
    } else if 97 <= code && code <= 122 {
        (code - 71) as u8
    } else if 48 <= code && code <= 57 {
        (code + 4) as u8
    } else if code == 45 {
        62
    } else if code == 95 {
        63
    } else {
        0
    }
}

/// Unpadded base64url of a byte sequence.
pub open spec fn base64url(bytes: Seq<u8>) -> Seq<char>
    decreases bytes.len(),
{
    if bytes.len() == 0 {
        Seq::empty()
    } else if bytes.len() == 1 {
        let (a,) = (bytes[0] as int,);
        seq![sextet_char(a / 4), sextet_char((a % 4) * 16)]
    } else if bytes.len() == 2 {
        let (a, b) = (bytes[0] as int, bytes[1] as int);
        seq![
            sextet_char(a / 4),
            sextet_char((a % 4) * 16 + b / 16),
            sextet_char((b % 16) * 4),
        ]
    } else {
        group(bytes[0], bytes[1], bytes[2]) + base64url(bytes.skip(3))
    }
}

/// The four digits of three bytes.
pub open spec fn group(x: u8, y: u8, z: u8) -> Seq<char> {
    let (a, b, c) = (x as int, y as int, z as int);
    seq![
        sextet_char(a / 4),
        sextet_char((a % 4) * 16 + b / 16),
        sextet_char((b % 16) * 4 + c / 64),
        sextet_char(c % 64),
    ]
}

/// The bytes a run of base64url digits stands for.
pub open spec fn from_base64url(digits: Seq<char>) -> Seq<u8>
    decreases digits.len(),
{
    if digits.len() < 2 {
        Seq::empty()
    } else if digits.len() == 2 {
        seq![byte_one(digits[0], digits[1])]
    } else if digits.len() == 3 {
        seq![byte_one(digits[0], digits[1]), byte_two(digits[1], digits[2])]
    } else {
        seq![
            byte_one(digits[0], digits[1]),
            byte_two(digits[1], digits[2]),
            byte_three(digits[2], digits[3]),
        ] + from_base64url(digits.skip(4))
    }
}

/// The first byte of a group, from its first two digits.
pub open spec fn byte_one(p: char, q: char) -> u8 {
    (sextet_value(p) * 4 + sextet_value(q) / 16) as u8
}

/// The second byte of a group, from its second and third digits.
pub open spec fn byte_two(q: char, r: char) -> u8 {
    ((sextet_value(q) % 16) * 16 + sextet_value(r) / 4) as u8
}

/// The third byte of a group, from its last two digits.
pub open spec fn byte_three(r: char, s: char) -> u8 {
    ((sextet_value(r) % 4) * 64 + sextet_value(s)) as u8
}

proof fn lemma_group(x: u8, y: u8, z: u8)
    ensures
        byte_one(group(x, y, z)[0], group(x, y, z)[1]) == x,
        byte_two(group(x, y, z)[1], group(x, y, z)[2]) == y,
        byte_three(group(x, y, z)[2], group(x, y, z)[3]) == z,
        forall|i: int| 0 <= i < 4 ==> is_safe(#[trigger] group(x, y, z)[i]),
{
    let (a, b, c) = (x as int, y as int, z as int);
    lemma_sextet(a / 4);
    lemma_sextet((a % 4) * 16 + b / 16);
    lemma_sextet((b % 16) * 4 + c / 64);
    lemma_sextet(c % 64);
}

/// Decoding what was encoded gives the bytes back, and every digit is safe.
pub proof fn lemma_base64url_round_trip(bytes: Seq<u8>)
    ensures
        from_base64url(base64url(bytes)) == bytes,
        forall|i: int| 0 <= i < base64url(bytes).len() ==> is_safe(#[trigger] base64url(bytes)[i]),
    decreases bytes.len(),
{
    let digits = base64url(bytes);
    if bytes.len() == 0 {
        assert(from_base64url(digits) =~= bytes);
    } else if bytes.len() == 1 {
        let a = bytes[0] as int;
        lemma_sextet(a / 4);
        lemma_sextet((a % 4) * 16);
        assert(from_base64url(digits) =~= bytes);
    } else if bytes.len() == 2 {
        let (a, b) = (bytes[0] as int, bytes[1] as int);
        lemma_sextet(a / 4);
        lemma_sextet((a % 4) * 16 + b / 16);
        lemma_sextet((b % 16) * 4);
        assert(from_base64url(digits) =~= bytes);
    } else {
        let rest = bytes.skip(3);
        lemma_group(bytes[0], bytes[1], bytes[2]);
        lemma_base64url_round_trip(rest);
        let head = group(bytes[0], bytes[1], bytes[2]);
        assert(digits =~= head + base64url(rest));
        assert(digits.skip(4) =~= base64url(rest));
        assert forall|i: int| 0 <= i < digits.len() implies is_safe(#[trigger] digits[i]) by {
            if i < 4 {
                assert(digits[i] == head[i]);
            } else {
                assert(digits[i] == base64url(rest)[i - 4]);
            }
        }
        assert(digits[0] == head[0] && digits[1] == head[1] && digits[2] == head[2] && digits[3]
            == head[3]);
        assert(from_base64url(digits) =~= seq![bytes[0], bytes[1], bytes[2]] + rest);
        assert(bytes =~= seq![bytes[0], bytes[1], bytes[2]] + rest);
    }
}

fn push_base64url(out: &mut String, bytes: &[u8])
    ensures
        final(out)@ == old(out)@ + base64url(bytes@),
{
    let len: usize = bytes.len();
    let mut i: usize = 0;
    assert(bytes@.skip(0) =~= bytes@);
    while len - i >= 3
        invariant
            i <= len,
            len == bytes@.len(),
            out@ + base64url(bytes@.skip(i as int)) == old(out)@ + base64url(bytes@),
        decreases len - i,
    {
        let ghost before = out@;
        let ghost rest = bytes@.skip(i as int);
        let a: u8 = bytes[i];
        let b: u8 = bytes[i + 1];
        let c: u8 = bytes[i + 2];
        out.push(sextet_digit(a / 4));
        out.push(sextet_digit((a % 4) * 16 + b / 16));
        out.push(sextet_digit((b % 16) * 4 + c / 64));
        out.push(sextet_digit(c % 64));
        proof {
            assert(rest.skip(3) =~= bytes@.skip(i + 3));
            assert(out@ =~= before + group(a, b, c));
            assert(out@ + base64url(bytes@.skip(i + 3)) =~= before + base64url(rest));
        }
        i = i + 3;
    }
    let ghost before = out@;
    let ghost rest = bytes@.skip(i as int);
    if len - i == 1 {
        let a: u8 = bytes[i];
        out.push(sextet_digit(a / 4));
        out.push(sextet_digit((a % 4) * 16));
    } else if len - i == 2 {
        let a: u8 = bytes[i];
        let b: u8 = bytes[i + 1];
        out.push(sextet_digit(a / 4));
        out.push(sextet_digit((a % 4) * 16 + b / 16));
        out.push(sextet_digit((b % 16) * 4));
    }
    assert(out@ =~= before + base64url(rest));
}

fn decode_base64url(digits: &Vec<char>, from: usize) -> (bytes: Vec<u8>)
    requires
        from <= digits@.len(),
    ensures
        bytes@ == from_base64url(digits@.skip(from as int)),
{
    let ghost whole = from_base64url(digits@.skip(from as int));
    let mut bytes: Vec<u8> = Vec::new();
    let len: usize = digits.len();
    let mut i: usize = from;
    assert(bytes@ + whole =~= whole);
    while len - i >= 4
        invariant
            i <= len,
            len == digits@.len(),
            bytes@ + from_base64url(digits@.skip(i as int)) == whole,
        decreases len - i,
    {
        let ghost before = bytes@;
        let ghost rest = digits@.skip(i as int);
        let p: u8 = sextet_number(digits[i]);
        let q: u8 = sextet_number(digits[i + 1]);
        let r: u8 = sextet_number(digits[i + 2]);
        let s: u8 = sextet_number(digits[i + 3]);
        bytes.push(p * 4 + q / 16);
        bytes.push((q % 16) * 16 + r / 4);
        bytes.push((r % 4) * 64 + s);
        proof {
            assert(rest.skip(4) =~= digits@.skip(i + 4));
            assert(bytes@ + from_base64url(digits@.skip(i + 4)) =~= before + from_base64url(rest));
        }
        i = i + 4;
    }
    let ghost before = bytes@;
    let ghost rest = digits@.skip(i as int);
    if len - i >= 2 {
        let p: u8 = sextet_number(digits[i]);
        let q: u8 = sextet_number(digits[i + 1]);
        bytes.push(p * 4 + q / 16);
        if len - i == 3 {
            let r: u8 = sextet_number(digits[i + 2]);
            bytes.push((q % 16) * 16 + r / 4);
        }
    }
    assert(bytes@ =~= before + from_base64url(rest));
    bytes
}

/// Whether a text is the base64url of some bytes.
pub open spec fn is_base64url(text: Seq<char>) -> bool {
    exists|bytes: Seq<u8>| #[trigger] base64url(bytes) == text
}

/// Decides [`is_base64url`].
pub fn decodes_base64url(text: &str) -> (yes: bool)
    ensures
        yes == is_base64url(text@),
{
    let chars = chars_of(text);
    let bytes = decode_base64url(&chars, 0);
    assert(text@.skip(0) =~= text@);
    let mut again = String::new();
    push_base64url(&mut again, bytes.as_slice());
    assert(again@ =~= base64url(bytes@));
    proof {
        assert forall|b: Seq<u8>| #[trigger] base64url(b) == text@ implies b == bytes@ by {
            lemma_base64url_round_trip(b);
        }
    }
    same(again.as_str(), text)
}

/// `String::from_utf8`: succeeds exactly on valid UTF-8, with the text those
/// bytes encode.
#[verifier::external_body]
fn utf8_text(bytes: Vec<u8>) -> (text: Option<String>)
    ensures
        text is Some <==> valid_utf8(bytes@),
        text matches Some(value) ==> encode_utf8(value@) == bytes@,
{
    String::from_utf8(bytes).ok()
}

/// One component of a name: a plain value as it stands, anything else as `~`
/// and the base64url of its UTF-8 bytes.
pub open spec fn component(value: Seq<char>) -> Seq<char> {
    if is_plain(value) {
        value
    } else {
        seq!['~'] + base64url(encode_utf8(value))
    }
}

/// Distinct values have distinct components, and a component holds only safe
/// characters after an optional leading `~`.
pub proof fn component_is_injective(a: Seq<char>, b: Seq<char>)
    ensures
        component(a) == component(b) ==> a == b,
{
    lemma_base64url_round_trip(encode_utf8(a));
    lemma_base64url_round_trip(encode_utf8(b));
    if component(a) == component(b) {
        if is_plain(a) {
            if !is_plain(b) {
                assert(component(b)[0] == '~');
                assert(is_safe(a[0]));
            }
        } else {
            assert(component(a)[0] == '~');
            if is_plain(b) {
                assert(is_safe(b[0]));
            } else {
                assert(component(a).skip(1) =~= base64url(encode_utf8(a)));
                assert(component(b).skip(1) =~= base64url(encode_utf8(b)));
                assert(decode_utf8(encode_utf8(a)) == a);
                assert(decode_utf8(encode_utf8(b)) == b);
            }
        }
    }
}

/// A component never holds a character outside the safe set but `~`, so it
/// holds none of the separators names are built with.
pub proof fn lemma_component_chars(value: Seq<char>)
    ensures
        component(value).len() > 0,
        forall|i: int|
            0 <= i < component(value).len() ==> is_safe(#[trigger] component(value)[i])
                || component(value)[i] == '~',
{
    lemma_base64url_round_trip(encode_utf8(value));
    if !is_plain(value) {
        let digits = base64url(encode_utf8(value));
        assert forall|i: int| 0 <= i < component(value).len() implies is_safe(
            #[trigger] component(value)[i],
        ) || component(value)[i] == '~' by {
            if i > 0 {
                assert(component(value)[i] == digits[i - 1]);
            }
        }
    }
}

/// Encodes one name component.
pub fn encode_component(value: &str) -> (out: String)
    ensures
        out@ == component(value@),
{
    let chars = chars_of(value);
    if plain(&chars) {
        value.to_owned()
    } else {
        let mut out = String::new();
        out.push('~');
        push_base64url(&mut out, value.as_bytes());
        assert(out@ =~= component(value@));
        out
    }
}

/// The value a component encodes; `None` exactly when no value encodes to it.
pub fn decode_component(encoded: &str) -> (value: Option<String>)
    ensures
        value matches Some(text) ==> component(text@) == encoded@,
        value is Some <==> exists|v: Seq<char>| #[trigger] component(v) == encoded@,
{
    let chars = chars_of(encoded);
    if chars.len() == 0 || chars[0] != '~' {
        proof {
            assert forall|v: Seq<char>| #[trigger] component(v) == encoded@ implies is_plain(
                encoded@,
            ) by {
                if !is_plain(v) {
                    assert(component(v)[0] == '~');
                }
            }
        }
        if plain(&chars) {
            assert(component(encoded@) == encoded@);
            return Some(encoded.to_owned());
        }
        return None;
    }
    let bytes = decode_base64url(&chars, 1);
    proof {
        assert forall|v: Seq<char>| #[trigger] component(v) == encoded@ implies bytes@
            == encode_utf8(v) by {
            if is_plain(v) {
                assert(is_safe(v[0]));
            }
            lemma_base64url_round_trip(encode_utf8(v));
            assert(component(v).skip(1) =~= base64url(encode_utf8(v)));
        }
    }
    match utf8_text(bytes) {
        None => None,
        Some(text) => {
            let again = encode_component(text.as_str());
            proof {
                assert forall|v: Seq<char>| #[trigger] component(v) == encoded@ implies v
                    == text@ by {
                    assert(decode_utf8(encode_utf8(v)) == v);
                    assert(decode_utf8(encode_utf8(text@)) == text@);
                }
            }
            if same(again.as_str(), encoded) {
                Some(text)
            } else {
                None
            }
        },
    }
}

proof fn lemma_pieces_shift(s: Seq<char>, sep: char, start: int, at: int)
    requires
        0 <= start <= at <= s.len(),
    ensures
        pieces_from(s, sep, start, at) == pieces_from(s.skip(start), sep, 0, at - start),
    decreases s.len() - at,
{
    let t = s.skip(start);
    if at >= s.len() {
        assert(s.subrange(start, s.len() as int) =~= t.subrange(0, t.len() as int));
    } else if s[at] == sep {
        assert(s.subrange(start, at) =~= t.subrange(0, at - start));
        lemma_pieces_shift(s, sep, at + 1, at + 1);
        lemma_pieces_shift(t, sep, at - start + 1, at - start + 1);
        assert(s.skip(at + 1) =~= t.skip(at - start + 1));
    } else {
        lemma_pieces_shift(s, sep, start, at + 1);
    }
}

proof fn lemma_pieces_walk(s: Seq<char>, sep: char, at: int, end: int)
    requires
        0 <= at <= end <= s.len(),
        forall|i: int| at <= i < end ==> s[i] != sep,
    ensures
        pieces_from(s, sep, 0, at) == pieces_from(s, sep, 0, end),
    decreases end - at,
{
    if at < end {
        lemma_pieces_walk(s, sep, at + 1, end);
    }
}

/// Cutting `head`, a separator and `rest` gives `head` and the pieces of
/// `rest`, when `head` holds no separator.
pub proof fn lemma_pieces_cons(head: Seq<char>, sep: char, rest: Seq<char>)
    requires
        forall|i: int| 0 <= i < head.len() ==> head[i] != sep,
    ensures
        pieces(head + seq![sep] + rest, sep) == seq![head] + pieces(rest, sep),
{
    let s = head + seq![sep] + rest;
    let n = head.len() as int;
    assert forall|i: int| 0 <= i < n implies s[i] != sep by {
        assert(s[i] == head[i]);
    }
    lemma_pieces_walk(s, sep, 0, n);
    assert(s[n] == sep);
    assert(s.subrange(0, n) =~= head);
    lemma_pieces_shift(s, sep, n + 1, n + 1);
    assert(s.skip(n + 1) =~= rest);
}

/// A text without a separator is its own only piece.
pub proof fn lemma_pieces_one(s: Seq<char>, sep: char)
    requires
        forall|i: int| 0 <= i < s.len() ==> s[i] != sep,
    ensures
        pieces(s, sep) == seq![s],
{
    lemma_pieces_walk(s, sep, 0, s.len() as int);
    assert(s.subrange(0, s.len() as int) =~= s);
}

/// One participant of one conversation: the agent, the channel, the
/// channel-local conversation, and who is speaking when that is known.
pub struct Principal {
    pub agent: String,
    pub channel: String,
    pub conversation: String,
    pub sender: Option<String>,
}

/// What a [`Principal`] stands for.
#[verifier::ext_equal]
pub struct Identity {
    pub agent: Seq<char>,
    pub channel: Seq<char>,
    pub conversation: Seq<char>,
    pub sender: Option<Seq<char>>,
}

impl View for Principal {
    type V = Identity;

    open spec fn view(&self) -> Identity {
        Identity {
            agent: self.agent@,
            channel: self.channel@,
            conversation: self.conversation@,
            sender: opt_view(self.sender),
        }
    }
}

/// The last field of a storage name: `n` for nobody in particular, else `s`
/// and the encoded sender.
pub open spec fn sender_field(sender: Option<Seq<char>>) -> Seq<char> {
    match sender {
        None => seq!['n'],
        Some(name) => seq!['s'] + component(name),
    }
}

impl Identity {
    /// The same conversation with nobody named.
    pub open spec fn conversation_only(self) -> Identity {
        Identity { sender: None, ..self }
    }

    /// The dotted storage name.
    pub open spec fn name(self) -> Seq<char> {
        seq!['v', '1', '.'] + component(self.agent) + seq!['.'] + component(self.channel) + seq!['.']
            + component(self.conversation) + seq!['.'] + sender_field(self.sender)
    }

    /// The opaque key of this participant: `pk1_` and the base64url of the
    /// storage name.
    pub open spec fn key(self) -> Seq<char> {
        "pk1_"@ + base64url(encode_utf8(self.name()))
    }

    /// The five fields of the storage name.
    pub open spec fn fields(self) -> Seq<Seq<char>> {
        seq![
            seq!['v', '1'],
            component(self.agent),
            component(self.channel),
            component(self.conversation),
            sender_field(self.sender),
        ]
    }
}

proof fn lemma_no_dot(value: Seq<char>)
    ensures
        forall|i: int| 0 <= i < component(value).len() ==> component(value)[i] != '.',
{
    lemma_component_chars(value);
}

proof fn lemma_sender_no_dot(sender: Option<Seq<char>>)
    ensures
        forall|i: int| 0 <= i < sender_field(sender).len() ==> sender_field(sender)[i] != '.',
{
    if let Some(name) = sender {
        lemma_no_dot(name);
        let field = sender_field(sender);
        assert forall|i: int| 0 <= i < field.len() implies field[i] != '.' by {
            if i > 0 {
                assert(field[i] == component(name)[i - 1]);
            }
        }
    }
}

/// A storage name cut at its dots gives its five fields.
pub proof fn lemma_name_fields(id: Identity)
    ensures
        pieces(id.name(), '.') == id.fields(),
{
    let version = seq!['v', '1'];
    let (a, c, t) = (component(id.agent), component(id.channel), component(id.conversation));
    let s = sender_field(id.sender);
    lemma_no_dot(id.agent);
    lemma_no_dot(id.channel);
    lemma_no_dot(id.conversation);
    lemma_sender_no_dot(id.sender);
    let r3 = t + seq!['.'] + s;
    let r2 = c + seq!['.'] + r3;
    let r1 = a + seq!['.'] + r2;
    assert(id.name() =~= version + seq!['.'] + r1);
    lemma_pieces_cons(version, '.', r1);
    lemma_pieces_cons(a, '.', r2);
    lemma_pieces_cons(c, '.', r3);
    lemma_pieces_cons(t, '.', s);
    lemma_pieces_one(s, '.');
    assert(pieces(id.name(), '.') =~= id.fields());
}

/// Distinct principals have distinct storage names.
pub proof fn storage_name_is_injective(p: Identity, q: Identity)
    ensures
        p.name() == q.name() ==> p == q,
{
    if p.name() == q.name() {
        lemma_name_fields(p);
        lemma_name_fields(q);
        assert(p.fields()[1] == q.fields()[1]);
        assert(p.fields()[2] == q.fields()[2]);
        assert(p.fields()[3] == q.fields()[3]);
        assert(p.fields()[4] == q.fields()[4]);
        component_is_injective(p.agent, q.agent);
        component_is_injective(p.channel, q.channel);
        component_is_injective(p.conversation, q.conversation);
        assert(sender_field(p.sender)[0] == sender_field(q.sender)[0]);
        if let (Some(a), Some(b)) = (p.sender, q.sender) {
            assert(sender_field(p.sender).skip(1) =~= component(a));
            assert(sender_field(q.sender).skip(1) =~= component(b));
            component_is_injective(a, b);
        }
        assert(p =~= q);
    }
}

/// Distinct principals have distinct keys.
pub proof fn storage_key_is_injective(p: Identity, q: Identity)
    ensures
        p.key() == q.key() ==> p == q,
{
    if p.key() == q.key() {
        let n = "pk1_"@.len() as int;
        assert(p.key().skip(n) =~= base64url(encode_utf8(p.name())));
        assert(q.key().skip(n) =~= base64url(encode_utf8(q.name())));
        lemma_base64url_round_trip(encode_utf8(p.name()));
        lemma_base64url_round_trip(encode_utf8(q.name()));
        assert(decode_utf8(encode_utf8(p.name())) == p.name());
        assert(decode_utf8(encode_utf8(q.name())) == q.name());
        storage_name_is_injective(p, q);
    }
}

/// One value in the marked form: `id_` and the base64url of its UTF-8 bytes.
pub open spec fn marked(value: Seq<char>) -> Seq<char> {
    "id_"@ + base64url(encode_utf8(value))
}

/// Distinct values have distinct marked forms.
pub proof fn marked_is_injective(a: Seq<char>, b: Seq<char>)
    ensures
        marked(a) == marked(b) ==> a == b,
{
    if marked(a) == marked(b) {
        let n = "id_"@.len() as int;
        assert(marked(a).skip(n) =~= base64url(encode_utf8(a)));
        assert(marked(b).skip(n) =~= base64url(encode_utf8(b)));
        lemma_base64url_round_trip(encode_utf8(a));
        lemma_base64url_round_trip(encode_utf8(b));
        assert(decode_utf8(encode_utf8(a)) == a);
        assert(decode_utf8(encode_utf8(b)) == b);
    }
}

/// Puts a value in the marked form.
pub fn mark(value: &str) -> (out: String)
    ensures
        out@ == marked(value@),
{
    let mut out = "id_".to_owned();
    push_base64url(&mut out, value.as_bytes());
    out
}

impl Principal {
    /// The conversation itself, with nobody named.
    pub fn conversation(agent: &str, channel: &str, conversation: &str) -> (out: Principal)
        ensures
            out@ == (Identity {
                agent: agent@,
                channel: channel@,
                conversation: conversation@,
                sender: None,
            }),
    {
        Principal {
            agent: agent.to_owned(),
            channel: channel.to_owned(),
            conversation: conversation.to_owned(),
            sender: None,
        }
    }

    /// Copies a principal.
    pub fn copy(&self) -> (out: Principal)
        ensures
            out@ == self@,
    {
        let sender = match &self.sender {
            Some(name) => Some(name.clone()),
            None => None,
        };
        Principal {
            agent: self.agent.clone(),
            channel: self.channel.clone(),
            conversation: self.conversation.clone(),
            sender,
        }
    }

    /// Whether two principals are the same.
    pub fn same_as(&self, other: &Principal) -> (equal: bool)
        ensures
            equal == (self@ == other@),
    {
        same(self.agent.as_str(), other.agent.as_str()) && same(
            self.channel.as_str(),
            other.channel.as_str(),
        ) && same(self.conversation.as_str(), other.conversation.as_str())
            && crate::text::same_option(&self.sender, &other.sender)
    }

    /// The name rows of this participant are stored under.
    pub fn storage_name(&self) -> (out: String)
        ensures
            out@ == self@.name(),
    {
        let mut out = String::new();
        out.push('v');
        out.push('1');
        out.push('.');
        out.push_str(encode_component(self.agent.as_str()).as_str());
        out.push('.');
        out.push_str(encode_component(self.channel.as_str()).as_str());
        out.push('.');
        out.push_str(encode_component(self.conversation.as_str()).as_str());
        out.push('.');
        match &self.sender {
            None => {
                out.push('n');
            },
            Some(name) => {
                out.push('s');
                out.push_str(encode_component(name.as_str()).as_str());
            },
        }
        assert(out@ =~= self@.name());
        out
    }

    /// The name the whole conversation is stored under, whoever speaks.
    pub fn conversation_name(&self) -> (out: String)
        ensures
            out@ == self@.conversation_only().name(),
    {
        let whole = Principal::conversation(
            self.agent.as_str(),
            self.channel.as_str(),
            self.conversation.as_str(),
        );
        whole.storage_name()
    }

    /// The opaque key of this participant.
    pub fn storage_key(&self) -> (out: String)
        ensures
            out@ == self@.key(),
    {
        let name = self.storage_name();
        let mut out = "pk1_".to_owned();
        push_base64url(&mut out, name.as_str().as_bytes());
        out
    }

    /// Reads a key back; `None` exactly when no principal has it.
    pub fn from_storage_key(key: &str) -> (out: Option<Principal>)
        ensures
            out matches Some(principal) ==> principal@.key() == key@,
            out is Some <==> exists|id: Identity| #[trigger] id.key() == key@,
    {
        proof {
            assert forall|id: Identity| #[trigger] id.key() == key@ implies begins(
                key@,
                "pk1_"@,
            ) && key@.skip("pk1_"@.len() as int) == base64url(encode_utf8(id.name())) by {
                assert(id.key().take("pk1_"@.len() as int) =~= "pk1_"@);
                assert(id.key().skip("pk1_"@.len() as int) =~= base64url(encode_utf8(id.name())));
            }
        }
        let digits = match strip_prefix(key, "pk1_") {
            Some(rest) => chars_of(rest.as_str()),
            None => {
                return None;
            },
        };
        let bytes = decode_base64url(&digits, 0);
        proof {
            assert(digits@.skip(0) =~= digits@);
            assert forall|id: Identity| #[trigger] id.key() == key@ implies bytes@ == encode_utf8(
                id.name(),
            ) by {
                lemma_base64url_round_trip(encode_utf8(id.name()));
            }
        }
        let name = match utf8_text(bytes) {
            Some(text) => text,
            None => {
                return None;
            },
        };
        proof {
            assert forall|id: Identity| #[trigger] id.key() == key@ implies id.name() == name@ by {
                assert(decode_utf8(encode_utf8(id.name())) == id.name());
                assert(decode_utf8(encode_utf8(name@)) == name@);
            }
        }
        let candidate = match Principal::from_storage_name(name.as_str()) {
            Some(principal) => principal,
            None => {
                return None;
            },
        };
        proof {
            assert forall|id: Identity| #[trigger] id.key() == key@ implies id == candidate@ by {
                storage_name_is_injective(id, candidate@);
            }
        }
        let again = candidate.storage_key();
        if same(again.as_str(), key) {
            Some(candidate)
        } else {
            None
        }
    }

    /// Reads a storage name back; `None` exactly when no principal has it.
    pub fn from_storage_name(name: &str) -> (out: Option<Principal>)
        ensures
            out matches Some(principal) ==> principal@.name() == name@,
            out is Some <==> exists|id: Identity| #[trigger] id.name() == name@,
    {
        let parts = split(name, '.');
        proof {
            assert forall|id: Identity| #[trigger] id.name() == name@ implies texts(parts@)
                == id.fields() && parts@.len() == 5 by {
                lemma_name_fields(id);
                assert(texts(parts@).len() == parts@.len());
            }
        }
        if parts.len() != 5 {
            return None;
        }
        proof {
            assert forall|id: Identity| #[trigger] id.name() == name@ implies {
                &&& component(id.agent) == parts@[1]@
                &&& component(id.channel) == parts@[2]@
                &&& component(id.conversation) == parts@[3]@
                &&& sender_field(id.sender) == parts@[4]@
            } by {
                assert(texts(parts@)[1] == id.fields()[1]);
                assert(texts(parts@)[2] == id.fields()[2]);
                assert(texts(parts@)[3] == id.fields()[3]);
                assert(texts(parts@)[4] == id.fields()[4]);
            }
        }
        let agent = match decode_component(parts[1].as_str()) {
            Some(value) => value,
            None => {
                return None;
            },
        };
        let channel = match decode_component(parts[2].as_str()) {
            Some(value) => value,
            None => {
                return None;
            },
        };
        let conversation = match decode_component(parts[3].as_str()) {
            Some(value) => value,
            None => {
                return None;
            },
        };
        let tail = chars_of(parts[4].as_str());
        if tail.len() == 0 {
            return None;
        }
        let sender = if tail[0] == 's' {
            let encoded = string_of(&tail, 1, tail.len());
            proof {
                assert forall|id: Identity| #[trigger] id.name() == name@ implies id.sender is Some
                    && component(id.sender->0) == encoded@ by {
                    assert(sender_field(id.sender)[0] == 's');
                    assert(sender_field(id.sender).skip(1) =~= component(id.sender->0));
                    assert(encoded@ =~= parts@[4]@.skip(1));
                }
            }
            match decode_component(encoded.as_str()) {
                Some(value) => Some(value),
                None => {
                    return None;
                },
            }
        } else {
            proof {
                assert forall|id: Identity| #[trigger] id.name() == name@ implies id.sender
                    is None by {
                    if id.sender is Some {
                        assert(sender_field(id.sender)[0] == 's');
                    }
                }
            }
            None
        };
        let candidate = Principal { agent, channel, conversation, sender };
        proof {
            assert forall|id: Identity| #[trigger] id.name() == name@ implies candidate@ == id by {
                component_is_injective(id.agent, agent@);
                component_is_injective(id.channel, channel@);
                component_is_injective(id.conversation, conversation@);
                if id.sender is Some {
                    component_is_injective(id.sender->0, sender->0@);
                }
                assert(candidate@ =~= id);
            }
        }
        let again = candidate.storage_name();
        if same(again.as_str(), name) {
            Some(candidate)
        } else {
            None
        }
    }
}

/// The digits are the capital letters, the small ones, the figures, the dash and
/// the underscore, in this order.
pub proof fn digits_are_in_their_order(n: int)
    requires
        0 <= n < 64,
    ensures
        n < 26 ==> 'A' <= sextet_char(n) && sextet_char(n) <= 'Z' && sextet_char(n) as int
            - 'A' as int == n,
        26 <= n < 52 ==> 'a' <= sextet_char(n) && sextet_char(n) <= 'z' && sextet_char(n) as int
            - 'a' as int == n - 26,
        52 <= n < 62 ==> '0' <= sextet_char(n) && sextet_char(n) <= '9' && sextet_char(n) as int
            - '0' as int == n - 52,
        n == 62 ==> sextet_char(n) == '-',
        n == 63 ==> sextet_char(n) == '_',
        sextet_value(sextet_char(n)) == n,
{
}

/// Three bytes are four digits of the same number, and groups of three stand
/// alone; of what is left over, a byte is two digits and two bytes are three,
/// with nothing in the bits to spare.
pub proof fn three_bytes_are_four_digits(x: u8, y: u8, z: u8, bytes: Seq<u8>)
    ensures
        base64url(seq![x, y, z] + bytes) == base64url(seq![x, y, z]) + base64url(bytes),
        base64url(seq![x, y, z]).len() == 4,
        ((sextet_value(base64url(seq![x, y, z])[0]) * 64 + sextet_value(
            base64url(seq![x, y, z])[1],
        )) * 64 + sextet_value(base64url(seq![x, y, z])[2])) * 64 + sextet_value(
            base64url(seq![x, y, z])[3],
        ) == x * 65536 + y * 256 + z,
        base64url(seq![x]).len() == 2,
        sextet_value(base64url(seq![x])[0]) * 64 + sextet_value(base64url(seq![x])[1]) == x * 16,
        base64url(seq![x, y]).len() == 3,
        (sextet_value(base64url(seq![x, y])[0]) * 64 + sextet_value(base64url(seq![x, y])[1])) * 64
            + sextet_value(base64url(seq![x, y])[2]) == (x * 256 + y) * 4,
        base64url(Seq::empty()).len() == 0,
{
    let three = seq![x, y, z];
    let all = three + bytes;
    assert(all.skip(3) =~= bytes);
    assert(three.skip(3) =~= Seq::empty());
    assert(base64url(three.skip(3)) =~= Seq::empty());
    assert(base64url(three) =~= group(x, y, z));
    let (a, b, c) = (x as int, y as int, z as int);
    lemma_sextet(a / 4);
    lemma_sextet((a % 4) * 16 + b / 16);
    lemma_sextet((b % 16) * 4 + c / 64);
    lemma_sextet(c % 64);
    lemma_sextet((a % 4) * 16);
    lemma_sextet((b % 16) * 4);
}

/// A value of letters, figures, dashes and underscores stands for itself; any
/// other, and none at all, is written in digits behind a tilde.
pub proof fn a_plain_value_stands_for_itself(value: Seq<char>)
    ensures
        value.len() > 0 && (forall|i: int|
            0 <= i < value.len() ==> ('a' <= #[trigger] value[i] && value[i] <= 'z') || ('A'
                <= value[i] && value[i] <= 'Z') || ('0' <= value[i] && value[i] <= '9') || value[i]
                == '-' || value[i] == '_') ==> component(value) == value,
        value.len() == 0 || (exists|i: int|
            0 <= i < value.len() && !(('a' <= #[trigger] value[i] && value[i] <= 'z') || ('A'
                <= value[i] && value[i] <= 'Z') || ('0' <= value[i] && value[i] <= '9') || value[i]
                == '-' || value[i] == '_')) ==> component(value) == seq!['~'] + base64url(
            encode_utf8(value),
        ),
{
    if value.len() > 0 && exists|i: int|
        0 <= i < value.len() && !(('a' <= #[trigger] value[i] && value[i] <= 'z') || ('A'
            <= value[i] && value[i] <= 'Z') || ('0' <= value[i] && value[i] <= '9') || value[i]
            == '-' || value[i] == '_') {
        let i = choose|i: int|
            0 <= i < value.len() && !(('a' <= #[trigger] value[i] && value[i] <= 'z') || ('A'
                <= value[i] && value[i] <= 'Z') || ('0' <= value[i] && value[i] <= '9') || value[i]
                == '-' || value[i] == '_');
        assert(!is_safe(value[i]));
    }
}

/// A name says its version, then the agent, the channel, the conversation and
/// the sender, with dots between; a key is a name in digits.
pub proof fn a_name_says_who_it_is(id: Identity, sender: Seq<char>)
    ensures
        ({
            let who = component(id.agent) + "."@ + component(id.channel) + "."@ + component(
                id.conversation,
            );
            &&& id.sender is None ==> id.name() == "v1."@ + who + ".n"@
            &&& id.sender == Some(sender) ==> id.name() == "v1."@ + who + ".s"@ + component(sender)
        }),
        id.key() == "pk1_"@ + base64url(encode_utf8(id.name())),
        id.conversation_only().sender is None,
        id.conversation_only().agent == id.agent,
        id.conversation_only().channel == id.channel,
        id.conversation_only().conversation == id.conversation,
{
    reveal_strlit("v1.");
    reveal_strlit(".");
    reveal_strlit(".n");
    reveal_strlit(".s");
    assert("v1."@ =~= seq!['v', '1', '.']);
    assert("."@ =~= seq!['.']);
    assert(".n"@ =~= seq!['.'] + seq!['n']);
    assert(".s"@ =~= seq!['.'] + seq!['s']);
    let who = component(id.agent) + "."@ + component(id.channel) + "."@ + component(
        id.conversation,
    );
    if id.sender is None {
        assert(id.name() =~= "v1."@ + who + ".n"@);
    } else {
        assert(id.name() =~= "v1."@ + who + ".s"@ + component(id.sender->0));
    }
}

} // verus!
