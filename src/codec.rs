use vstd::prelude::*;
use vstd::utf8::{decode_utf8, encode_utf8, valid_utf8};

verus! {

/// One record of a log segment.
#[derive(Debug)]
pub enum Command {
    /// Sets a key to a value
    Put { key: String, value: String },
    /// Remove a key
    Remove { key: String },
}

/// What a record says, over the characters of its strings.
pub ghost enum CommandModel {
    Put { key: Seq<char>, value: Seq<char> },
    Remove { key: Seq<char> },
}

impl View for Command {
    type V = CommandModel;

    open spec fn view(&self) -> CommandModel {
        match self {
            Command::Put { key, value } => CommandModel::Put { key: key@, value: value@ },
            Command::Remove { key } => CommandModel::Remove { key: key@ },
        }
    }
}

/// A request of the network protocol.
#[derive(Debug)]
pub enum Message {
    Put { key: String, value: String },
    Get { key: String },
    Remove { key: String },
}

/// A response of the network protocol, tagged by the request it answers.
#[derive(Debug)]
pub enum Response {
    Get(Result<Option<String>, String>),
    Put(Result<(), String>),
    Remove(Result<(), String>),
}

pub open spec fn quote() -> u8 {
    34u8
}

/// `{"Set":{"key":`
pub open spec fn set_head() -> Seq<u8> {
    seq![123u8, 34u8, 83u8, 101u8, 116u8, 34u8, 58u8, 123u8, 34u8, 107u8, 101u8, 121u8, 34u8, 58u8]
}

/// `,"value":`
pub open spec fn set_mid() -> Seq<u8> {
    seq![44u8, 34u8, 118u8, 97u8, 108u8, 117u8, 101u8, 34u8, 58u8]
}

/// `{"Remove":{"key":`
pub open spec fn remove_head() -> Seq<u8> {
    seq![123u8, 34u8, 82u8, 101u8, 109u8, 111u8, 118u8, 101u8, 34u8, 58u8, 123u8, 34u8, 107u8, 101u8, 121u8, 34u8, 58u8]
}

/// `}}`
pub open spec fn tail() -> Seq<u8> {
    seq![125u8, 125u8]
}

/// Lower-case hexadecimal digit of a number below sixteen.
pub open spec fn hex_digit(n: u8) -> u8 {
    if n < 10 {
        (48 + n) as u8
    } else {
        (87 + n) as u8
    }
}

/// The JSON escape of one byte of a string: quote, backslash and control bytes
/// are escaped, every other byte stands for itself.
pub open spec fn escape_byte(b: u8) -> Seq<u8> {
    if b == 34 {
        seq![92u8, 34u8]
    } else if b == 92 {
        seq![92u8, 92u8]
    } else if b == 8 {
        seq![92u8, 98u8]
    } else if b == 12 {
        seq![92u8, 102u8]
    } else if b == 10 {
        seq![92u8, 110u8]
    } else if b == 13 {
        seq![92u8, 114u8]
    } else if b == 9 {
        seq![92u8, 116u8]
    } else if b < 32 {
        seq![92u8, 117u8, 48u8, 48u8, hex_digit(b / 16), hex_digit(b % 16)]
    } else {
        seq![b]
    }
}

pub open spec fn escape(s: Seq<u8>) -> Seq<u8>
    decreases s.len(),
{
    if s.len() == 0 {
        seq![]
    } else {
        escape_byte(s[0]) + escape(s.drop_first())
    }
}

/// A JSON string literal holding the given UTF-8 bytes.
pub open spec fn json_string(s: Seq<u8>) -> Seq<u8> {
    seq![quote()] + escape(s) + seq![quote()]
}

/// The bytes of a record in a log segment.
#[verifier::opaque]
pub open spec fn record_bytes(c: CommandModel) -> Seq<u8> {
    match c {
        CommandModel::Put { key, value } => set_head() + json_string(encode_utf8(key)) + set_mid()
            + json_string(encode_utf8(value)) + tail(),
        CommandModel::Remove { key } => remove_head() + json_string(encode_utf8(key)) + tail(),
    }
}

pub open spec fn is_hex(b: u8) -> bool {
    (48 <= b && b <= 57) || (97 <= b && b <= 102)
}

pub open spec fn hex_value(b: u8) -> u8 {
    if b <= 57 {
        (b - 48) as u8
    } else {
        (b - 87) as u8
    }
}

/// Reads one (possibly escaped) byte of a string body: the byte and how many
/// input bytes it took. Only the escape that `escape_byte` writes is accepted.
pub open spec fn unescape_one(b: Seq<u8>) -> Option<(u8, int)> {
    if b.len() == 0 {
        None
    } else if b[0] == 92 {
        if b.len() < 2 {
            None
        } else if b[1] == 34 {
            Some((34u8, 2))
        } else if b[1] == 92 {
            Some((92u8, 2))
        } else if b[1] == 98 {
            Some((8u8, 2))
        } else if b[1] == 102 {
            Some((12u8, 2))
        } else if b[1] == 110 {
            Some((10u8, 2))
        } else if b[1] == 114 {
            Some((13u8, 2))
        } else if b[1] == 116 {
            Some((9u8, 2))
        } else if b[1] == 117 && b.len() >= 6 && b[2] == 48 && b[3] == 48 && (b[4] == 48 || b[4]
            == 49) && is_hex(b[5]) {
            let v: u8 = if b[4] == 48 {
                hex_value(b[5])
            } else {
                (16 + hex_value(b[5])) as u8
            };
            if v == 8 || v == 9 || v == 10 || v == 12 || v == 13 {
                None
            } else {
                Some((v, 6))
            }
        } else {
            None
        }
    } else if b[0] < 32 || b[0] == 34 {
        None
    } else {
        Some((b[0], 1))
    }
}

/// Parses a string body up to and including its closing quote: the bytes it
/// holds and the number of input bytes taken.
pub open spec fn parse_body(b: Seq<u8>) -> Option<(Seq<u8>, int)>
    decreases b.len(),
{
    if b.len() == 0 {
        None
    } else if b[0] == 34 {
        Some((seq![], 1))
    } else {
        match unescape_one(b) {
            None => None,
            Some((x, n)) => {
                if 0 < n <= b.len() {
                    match parse_body(b.subrange(n, b.len() as int)) {
                        None => None,
                        Some((s, m)) => Some((seq![x] + s, n + m)),
                    }
                } else {
                    None
                }
            },
        }
    }
}

/// Parses a JSON string literal whose bytes are well-formed UTF-8: its
/// characters and the number of input bytes taken.
pub open spec fn parse_string(b: Seq<u8>) -> Option<(Seq<char>, int)> {
    if b.len() > 0 && b[0] == 34 {
        match parse_body(b.drop_first()) {
            Some((s, n)) => if valid_utf8(s) {
                Some((decode_utf8(s), n + 1))
            } else {
                None
            },
            None => None,
        }
    } else {
        None
    }
}

pub open spec fn has_prefix(b: Seq<u8>, p: Seq<u8>) -> bool {
    p.len() <= b.len() && b.subrange(0, p.len() as int) == p
}

pub open spec fn skip(b: Seq<u8>, n: int) -> Seq<u8> {
    b.subrange(n, b.len() as int)
}

/// Parses what follows the key of a `Set` record: the value and the bytes taken.
pub open spec fn parse_set_rest(b: Seq<u8>) -> Option<(Seq<char>, int)> {
    let m = set_mid().len() as int;
    if has_prefix(b, set_mid()) {
        match parse_string(skip(b, m)) {
            Some((v, n)) => if has_prefix(skip(b, m + n), tail()) {
                Some((v, m + n + 2))
            } else {
                None
            },
            None => None,
        }
    } else {
        None
    }
}

/// Parses the `Set` record that `b` starts with, if it starts with one.
pub open spec fn parse_set(b: Seq<u8>) -> Option<(CommandModel, int)> {
    let h = set_head().len() as int;
    if has_prefix(b, set_head()) {
        match parse_string(skip(b, h)) {
            Some((k, n)) => match parse_set_rest(skip(b, h + n)) {
                Some((v, m)) => Some((CommandModel::Put { key: k, value: v }, h + n + m)),
                None => None,
            },
            None => None,
        }
    } else {
        None
    }
}

/// Parses the `Remove` record that `b` starts with, if it starts with one.
pub open spec fn parse_remove(b: Seq<u8>) -> Option<(CommandModel, int)> {
    let h = remove_head().len() as int;
    if has_prefix(b, remove_head()) {
        match parse_string(skip(b, h)) {
            Some((k, n)) => if has_prefix(skip(b, h + n), tail()) {
                Some((CommandModel::Remove { key: k }, h + n + 2))
            } else {
                None
            },
            None => None,
        }
    } else {
        None
    }
}

/// The record that `b` starts with, and its length in bytes.
#[verifier::opaque]
pub open spec fn parse_record(b: Seq<u8>) -> Option<(CommandModel, int)> {
    match parse_set(b) {
        Some(r) => Some(r),
        None => parse_remove(b),
    }
}


proof fn lemma_escape_concat(a: Seq<u8>, b: Seq<u8>)
    ensures
        escape(a + b) == escape(a) + escape(b),
    decreases a.len(),
{
    if a.len() == 0 {
        assert(a + b =~= b);
        assert(escape(a) + escape(b) =~= escape(b));
    } else {
        assert((a + b).drop_first() =~= a.drop_first() + b);
        lemma_escape_concat(a.drop_first(), b);
        assert(escape(a + b) =~= escape(a) + escape(b));
    }
}

proof fn lemma_escape_push(a: Seq<u8>, x: u8)
    ensures
        escape(a.push(x)) == escape(a) + escape_byte(x),
{
    assert(a.push(x) =~= a + seq![x]);
    lemma_escape_concat(a, seq![x]);
    assert(seq![x].drop_first() =~= Seq::<u8>::empty());
    assert(escape(Seq::<u8>::empty()) == Seq::<u8>::empty());
    assert(escape(seq![x]) == escape_byte(x) + escape(seq![x].drop_first()));
    assert(escape(seq![x]) =~= escape_byte(x));
}

proof fn lemma_unescape_escape(x: u8, rest: Seq<u8>)
    ensures
        unescape_one(escape_byte(x) + rest) == Some((x, escape_byte(x).len() as int)),
        escape_byte(x).len() > 0,
        escape_byte(x)[0] != 34,
{
    let b = escape_byte(x) + rest;
    if x < 32 && x != 8 && x != 9 && x != 10 && x != 12 && x != 13 {
        assert(x / 16 == 0 || x / 16 == 1);
        assert(x / 16 == 0 ==> x % 16 == x);
        assert(x / 16 == 1 ==> x % 16 == x - 16);
        assert(b[4] == hex_digit(x / 16));
        assert(b[5] == hex_digit(x % 16));
    }
}

proof fn lemma_unescape_sound(b: Seq<u8>)
    requires
        unescape_one(b) is Some,
    ensures
        ({
            let (x, n) = unescape_one(b)->0;
            0 < n <= b.len() && b.subrange(0, n) == escape_byte(x)
        }),
{
    let (x, n) = unescape_one(b)->0;
    if b[0] == 92 && b[1] == 117 {
        let v = x;
        assert(v < 32);
        assert(v / 16 == 0 || v / 16 == 1);
        assert(v / 16 == 0 ==> v % 16 == v);
        assert(v / 16 == 1 ==> v % 16 == v - 16);
        assert(hex_digit(v / 16) == b[4]);
        assert(hex_digit(v % 16) == b[5]);
    }
    assert(b.subrange(0, n) =~= escape_byte(x));
}

proof fn lemma_parse_body_escape(s: Seq<u8>, rest: Seq<u8>)
    ensures
        parse_body(escape(s) + seq![quote()] + rest) == Some((s, escape(s).len() + 1int)),
    decreases s.len(),
{
    let b = escape(s) + seq![quote()] + rest;
    if s.len() == 0 {
        assert(b[0] == 34);
        assert(Seq::<u8>::empty() =~= s);
    } else {
        let x = s[0];
        let t = escape(s.drop_first()) + seq![quote()] + rest;
        assert(b =~= escape_byte(x) + t);
        lemma_unescape_escape(x, t);
        let n = escape_byte(x).len() as int;
        assert(b.subrange(n, b.len() as int) =~= t);
        lemma_parse_body_escape(s.drop_first(), rest);
        assert(seq![x] + s.drop_first() =~= s);
    }
}

proof fn lemma_parse_body_sound(b: Seq<u8>)
    requires
        parse_body(b) is Some,
    ensures
        ({
            let (s, n) = parse_body(b)->0;
            0 < n <= b.len() && b.subrange(0, n) == escape(s) + seq![quote()]
        }),
    decreases b.len(),
{
    let (s, n) = parse_body(b)->0;
    if b[0] == 34 {
        assert(b.subrange(0, n) =~= escape(s) + seq![quote()]);
    } else {
        let (x, k) = unescape_one(b)->0;
        lemma_unescape_sound(b);
        let t = b.subrange(k, b.len() as int);
        lemma_parse_body_sound(t);
        let (s2, m) = parse_body(t)->0;
        assert(s == seq![x] + s2);
        assert((seq![x] + s2).drop_first() =~= s2);
        assert(escape(s) == escape_byte(x) + escape(s2));
        assert(b.subrange(0, n) =~= b.subrange(0, k) + t.subrange(0, m));
        assert(b.subrange(0, n) =~= escape(s) + seq![quote()]);
    }
}

/// Reading a string literal back gives the characters that were written.
proof fn lemma_parse_string(chars: Seq<char>, rest: Seq<u8>)
    ensures
        parse_string(json_string(encode_utf8(chars)) + rest) == Some(
            (chars, json_string(encode_utf8(chars)).len() as int),
        ),
{
    let s = encode_utf8(chars);
    let b = json_string(s) + rest;
    assert(b.drop_first() =~= escape(s) + seq![quote()] + rest);
    lemma_parse_body_escape(s, rest);
    vstd::utf8::encode_utf8_valid_utf8(chars);
    vstd::utf8::encode_utf8_decode_utf8(chars);
}

proof fn lemma_parse_string_sound(b: Seq<u8>)
    requires
        parse_string(b) is Some,
    ensures
        ({
            let (chars, n) = parse_string(b)->0;
            n == json_string(encode_utf8(chars)).len() && has_prefix(b, json_string(encode_utf8(chars)))
        }),
{
    let (s, n) = parse_body(b.drop_first())->0;
    lemma_parse_body_sound(b.drop_first());
    vstd::utf8::decode_utf8_encode_utf8(s);
    let chars = decode_utf8(s);
    assert(encode_utf8(chars) == s);
    assert(b.subrange(0, n + 1) =~= seq![quote()] + b.drop_first().subrange(0, n));
    assert(b.subrange(0, n + 1) =~= json_string(s));
}

proof fn lemma_parse_set_rest(value: Seq<char>, rest: Seq<u8>)
    ensures
        parse_set_rest(set_mid() + json_string(encode_utf8(value)) + tail() + rest) == Some(
            (value, set_mid().len() + json_string(encode_utf8(value)).len() + 2int),
        ),
{
    let jv = json_string(encode_utf8(value));
    let b2 = set_mid() + jv + tail() + rest;
    assert(b2.subrange(0, 9) =~= set_mid());
    let r2 = tail() + rest;
    assert(skip(b2, 9) =~= jv + r2);
    lemma_parse_string(value, r2);
    assert(skip(b2, 9 + jv.len() as int) =~= r2);
    assert(r2.subrange(0, 2) =~= tail());
}

proof fn lemma_parse_put(key: Seq<char>, value: Seq<char>, rest: Seq<u8>)
    ensures
        parse_set(record_bytes(CommandModel::Put { key, value }) + rest) == Some(
            (
                CommandModel::Put { key, value },
                record_bytes(CommandModel::Put { key, value }).len() as int,
            ),
        ),
{
    reveal(record_bytes);
    let c = CommandModel::Put { key, value };
    let b = record_bytes(c) + rest;
    let h = set_head().len() as int;
    let jk = json_string(encode_utf8(key));
    let jv = json_string(encode_utf8(value));
    let r1 = set_mid() + jv + tail() + rest;
    assert(b =~= set_head() + (jk + r1));
    assert(b.subrange(0, h) =~= set_head());
    assert(skip(b, h) =~= jk + r1);
    lemma_parse_string(key, r1);
    assert(skip(b, h + jk.len() as int) =~= r1);
    lemma_parse_set_rest(value, rest);
}

proof fn lemma_parse_remove(key: Seq<char>, rest: Seq<u8>)
    ensures
        parse_record(record_bytes(CommandModel::Remove { key }) + rest) == Some(
            (CommandModel::Remove { key }, record_bytes(CommandModel::Remove { key }).len() as int),
        ),
{
    reveal(record_bytes);
    reveal(parse_record);
    let c = CommandModel::Remove { key };
    let b = record_bytes(c) + rest;
    let jk = json_string(encode_utf8(key));
    let r1 = tail() + rest;
    assert(b =~= remove_head() + (jk + r1));
    assert(b[2] == 82u8);
    assert(set_head()[2] == 83u8);
    assert(!has_prefix(b, set_head())) by {
        if has_prefix(b, set_head()) {
            assert(b.subrange(0, 14)[2] == b[2]);
        }
    }
    let h = remove_head().len() as int;
    assert(b.subrange(0, h) =~= remove_head());
    assert(skip(b, h) =~= jk + r1);
    lemma_parse_string(key, r1);
    assert(parse_string(skip(b, h)) == Some((key, jk.len() as int)));
    assert(skip(b, h + jk.len() as int) =~= r1);
    assert(r1.subrange(0, 2) =~= tail());
    assert(has_prefix(skip(b, h + jk.len() as int), tail()));
}

/// A record followed by anything parses back as that record, with its length.
pub proof fn lemma_parse_record(c: CommandModel, rest: Seq<u8>)
    ensures
        parse_record(record_bytes(c) + rest) == Some((c, record_bytes(c).len() as int)),
{
    reveal(parse_record);
    match c {
        CommandModel::Put { key, value } => lemma_parse_put(key, value, rest),
        CommandModel::Remove { key } => lemma_parse_remove(key, rest),
    }
}

/// What parses as a record starts with the bytes of that record.
pub proof fn lemma_parse_record_sound(b: Seq<u8>)
    requires
        parse_record(b) is Some,
    ensures
        ({
            let (c, n) = parse_record(b)->0;
            n == record_bytes(c).len() && has_prefix(b, record_bytes(c))
        }),
{
    reveal(record_bytes);
    reveal(parse_record);
    let (c, n) = parse_record(b)->0;
    if parse_set(b) is Some {
        let h = set_head().len() as int;
        lemma_parse_string_sound(skip(b, h));
        let (k, nk) = parse_string(skip(b, h))->0;
        let b2 = skip(b, h + nk);
        lemma_parse_string_sound(skip(b2, 9));
        let (v, nv) = parse_string(skip(b2, 9))->0;
        assert(b.subrange(0, n) =~= b.subrange(0, h) + skip(b, h).subrange(0, nk) + b2.subrange(0, 9)
            + skip(b2, 9).subrange(0, nv) + skip(b2, 9 + nv).subrange(0, 2));
        assert(b.subrange(0, n) =~= record_bytes(c));
    } else {
        let h = remove_head().len() as int;
        lemma_parse_string_sound(skip(b, h));
        let (k, nk) = parse_string(skip(b, h))->0;
        assert(b.subrange(0, n) =~= b.subrange(0, h) + skip(b, h).subrange(0, nk) + skip(b, h + nk).subrange(0, 2));
        assert(b.subrange(0, n) =~= record_bytes(c));
    }
}

pub(crate) proof fn lemma_skip_skip(b: Seq<u8>, a: int, c: int)
    requires
        0 <= a,
        0 <= c,
        a + c <= b.len(),
    ensures
        skip(skip(b, a), c) == skip(b, a + c),
{
    assert(skip(skip(b, a), c) =~= skip(b, a + c));
}

/// Relies on `String::from_utf8`: it fails exactly when the bytes are not
/// well-formed UTF-8, and otherwise returns the string of those bytes.
#[verifier::external_body]
fn string_from_utf8(bytes: Vec<u8>) -> (r: Option<String>)
    ensures
        r is Some <==> valid_utf8(bytes@),
        r matches Some(s) ==> encode_utf8(s@) == bytes@,
{
    String::from_utf8(bytes).ok()
}

pub(crate) fn push_all(out: &mut Vec<u8>, b: &[u8])
    ensures
        final(out)@ == old(out)@ + b@,
{
    let mut i: usize = 0;
    while i < b.len()
        invariant
            i <= b.len(),
            out@ == old(out)@ + b@.subrange(0, i as int),
        decreases b.len() - i,
    {
        out.push(b[i]);
        i += 1;
        assert(b@.subrange(0, i as int) =~= b@.subrange(0, i - 1).push(b@[i - 1]));
    }
    assert(b@.subrange(0, b.len() as int) =~= b@);
}

fn set_head_bytes() -> (r: Vec<u8>)
    ensures
        r@ == set_head(),
{
    let r: Vec<u8> = vec![123u8, 34u8, 83u8, 101u8, 116u8, 34u8, 58u8, 123u8, 34u8, 107u8, 101u8, 121u8, 34u8, 58u8];
    assert(r@ =~= set_head());
    r
}

fn set_mid_bytes() -> (r: Vec<u8>)
    ensures
        r@ == set_mid(),
{
    let r: Vec<u8> = vec![44u8, 34u8, 118u8, 97u8, 108u8, 117u8, 101u8, 34u8, 58u8];
    assert(r@ =~= set_mid());
    r
}

fn remove_head_bytes() -> (r: Vec<u8>)
    ensures
        r@ == remove_head(),
{
    let r: Vec<u8> = vec![123u8, 34u8, 82u8, 101u8, 109u8, 111u8, 118u8, 101u8, 34u8, 58u8, 123u8, 34u8, 107u8, 101u8, 121u8, 34u8, 58u8];
    assert(r@ =~= remove_head());
    r
}

fn tail_bytes() -> (r: Vec<u8>)
    ensures
        r@ == tail(),
{
    let r: Vec<u8> = vec![125u8, 125u8];
    assert(r@ =~= tail());
    r
}

fn hex_digit_of(n: u8) -> (r: u8)
    requires
        n < 16,
    ensures
        r == hex_digit(n),
{
    if n < 10 {
        48 + n
    } else {
        87 + n
    }
}

fn push_escaped(out: &mut Vec<u8>, s: &[u8])
    ensures
        final(out)@ == old(out)@ + escape(s@),
{
    let mut i: usize = 0;
    while i < s.len()
        invariant
            i <= s.len(),
            out@ == old(out)@ + escape(s@.subrange(0, i as int)),
        decreases s.len() - i,
    {
        let b = s[i];
        let ghost before = out@;
        if b == 34 || b == 92 {
            out.push(92);
            out.push(b);
        } else if b == 8 {
            out.push(92);
            out.push(98);
        } else if b == 12 {
            out.push(92);
            out.push(102);
        } else if b == 10 {
            out.push(92);
            out.push(110);
        } else if b == 13 {
            out.push(92);
            out.push(114);
        } else if b == 9 {
            out.push(92);
            out.push(116);
        } else if b < 32 {
            out.push(92);
            out.push(117);
            out.push(48);
            out.push(48);
            out.push(hex_digit_of(b / 16));
            out.push(hex_digit_of(b % 16));
        } else {
            out.push(b);
        }
        assert(out@ =~= before + escape_byte(b));
        proof {
            lemma_escape_push(s@.subrange(0, i as int), b);
            assert(s@.subrange(0, i + 1) =~= s@.subrange(0, i as int).push(b));
        }
        i += 1;
    }
    assert(s@.subrange(0, s.len() as int) =~= s@);
}

fn push_json_string(out: &mut Vec<u8>, s: &String)
    ensures
        final(out)@ == old(out)@ + json_string(encode_utf8(s@)),
{
    let bytes = s.as_str().as_bytes();
    out.push(34);
    push_escaped(out, bytes);
    out.push(34);
    assert(final(out)@ =~= old(out)@ + json_string(encode_utf8(s@)));
}

/// Encodes a record as the bytes that a log segment holds for it.
pub fn encode_command(c: &Command) -> (r: Vec<u8>)
    ensures
        r@ == record_bytes(c@),
{
    let mut out: Vec<u8> = Vec::new();
    match c {
        Command::Put { key, value } => {
            let h = set_head_bytes();
            push_all(&mut out, h.as_slice());
            push_json_string(&mut out, key);
            let m = set_mid_bytes();
            push_all(&mut out, m.as_slice());
            push_json_string(&mut out, value);
        },
        Command::Remove { key } => {
            let h = remove_head_bytes();
            push_all(&mut out, h.as_slice());
            push_json_string(&mut out, key);
        },
    }
    let t = tail_bytes();
    push_all(&mut out, t.as_slice());
    reveal(record_bytes);
    assert(out@ =~= record_bytes(c@));
    out
}

fn prefix_at(buf: &[u8], p: usize, pat: &[u8]) -> (r: bool)
    requires
        p <= buf.len(),
    ensures
        r == has_prefix(skip(buf@, p as int), pat@),
{
    if pat.len() > buf.len() - p {
        return false;
    }
    let mut i: usize = 0;
    while i < pat.len()
        invariant
            i <= pat.len(),
            p + pat.len() <= buf.len(),
            forall|j: int| 0 <= j < i ==> buf@[p + j] == pat@[j],
        decreases pat.len() - i,
    {
        if buf[p + i] != pat[i] {
            assert(skip(buf@, p as int).subrange(0, pat.len() as int)[i as int] != pat@[i as int]);
            return false;
        }
        i += 1;
    }
    assert(skip(buf@, p as int).subrange(0, pat.len() as int) =~= pat@);
    true
}

fn unescape_at(buf: &[u8], p: usize) -> (r: Option<(u8, usize)>)
    requires
        p < buf.len(),
    ensures
        match unescape_one(skip(buf@, p as int)) {
            Some((x, n)) => r == Some((x, n as usize)),
            None => r is None,
        },
{
    let ghost b = skip(buf@, p as int);
    assert(b.len() == buf.len() - p);
    assert(forall|j: int| 0 <= j < b.len() ==> b[j] == buf@[p + j]);
    let b0 = buf[p];
    if b0 == 92 {
        if buf.len() - p < 2 {
            return None;
        }
        let b1 = buf[p + 1];
        if b1 == 34 {
            Some((34, 2))
        } else if b1 == 92 {
            Some((92, 2))
        } else if b1 == 98 {
            Some((8, 2))
        } else if b1 == 102 {
            Some((12, 2))
        } else if b1 == 110 {
            Some((10, 2))
        } else if b1 == 114 {
            Some((13, 2))
        } else if b1 == 116 {
            Some((9, 2))
        } else if b1 == 117 && buf.len() - p >= 6 && buf[p + 2] == 48 && buf[p + 3] == 48 && (buf[p
            + 4] == 48 || buf[p + 4] == 49) && ((48 <= buf[p + 5] && buf[p + 5] <= 57) || (97
            <= buf[p + 5] && buf[p + 5] <= 102)) {
            let d = buf[p + 5];
            let low: u8 = if d <= 57 {
                d - 48
            } else {
                d - 87
            };
            let v: u8 = if buf[p + 4] == 48 {
                low
            } else {
                16 + low
            };
            if v == 8 || v == 9 || v == 10 || v == 12 || v == 13 {
                None
            } else {
                Some((v, 6))
            }
        } else {
            None
        }
    } else if b0 < 32 || b0 == 34 {
        None
    } else {
        Some((b0, 1))
    }
}

pub open spec fn extend_body(d: Seq<u8>, k: int, r: Option<(Seq<u8>, int)>) -> Option<(Seq<u8>, int)> {
    match r {
        Some((s, m)) => Some((d + s, k + m)),
        None => None,
    }
}

fn parse_body_at(buf: &[u8], p: usize) -> (r: Option<(Vec<u8>, usize)>)
    requires
        p <= buf.len(),
    ensures
        match parse_body(skip(buf@, p as int)) {
            Some((s, m)) => r matches Some((v, n)) && v@ == s && n == m,
            None => r is None,
        },
        r matches Some((v, n)) ==> 0 < n <= buf.len() - p,
{
    let mut out: Vec<u8> = Vec::new();
    let mut q: usize = p;
    assert(extend_body(out@, 0, parse_body(skip(buf@, p as int))) =~= parse_body(skip(buf@, p as int))) by {
        match parse_body(skip(buf@, p as int)) {
            Some((s, m)) => assert(out@ + s =~= s),
            None => {},
        }
    }
    while q < buf.len()
        invariant
            p <= q <= buf.len(),
            parse_body(skip(buf@, p as int)) == extend_body(out@, q - p, parse_body(skip(buf@, q as int))),
        decreases buf.len() - q,
    {
        let ghost b = skip(buf@, q as int);
        assert(b[0] == buf@[q as int]);
        if buf[q] == 34 {
            assert(out@ + Seq::<u8>::empty() =~= out@);
            return Some((out, q + 1 - p));
        }
        match unescape_at(buf, q) {
            None => {
                return None;
            },
            Some((x, n)) => {
                proof {
                    lemma_skip_skip(buf@, q as int, n as int);
                    let t = parse_body(skip(buf@, (q + n) as int));
                    match t {
                        Some((s, m)) => {
                            assert(out@.push(x) + s =~= out@ + (seq![x] + s));
                        },
                        None => {},
                    }
                }
                out.push(x);
                q = q + n;
            },
        }
    }
    assert(skip(buf@, q as int).len() == 0);
    None
}

fn parse_string_at(buf: &[u8], p: usize) -> (r: Option<(String, usize)>)
    requires
        p <= buf.len(),
    ensures
        match parse_string(skip(buf@, p as int)) {
            Some((s, m)) => r matches Some((v, n)) && v@ == s && n == m,
            None => r is None,
        },
        r matches Some((v, n)) ==> 0 < n <= buf.len() - p,
{
    if p >= buf.len() || buf[p] != 34 {
        return None;
    }
    assert(skip(buf@, p as int)[0] == buf@[p as int]);
    assert(skip(buf@, p as int).drop_first() =~= skip(buf@, p + 1));
    match parse_body_at(buf, p + 1) {
        None => None,
        Some((bytes, n)) => {
            let ghost bs = bytes@;
            match string_from_utf8(bytes) {
                None => None,
                Some(s) => {
                    proof {
                        vstd::utf8::encode_utf8_decode_utf8(s@);
                    }
                    Some((s, n + 1))
                },
            }
        },
    }
}

pub open spec fn decoded(r: Option<(Command, usize)>) -> Option<(CommandModel, int)> {
    match r {
        Some((c, n)) => Some((c@, n as int)),
        None => None,
    }
}

/// Decodes the record that starts at byte `start` of `buf`: the record and its
/// length in bytes, or `None` where no well-formed record starts there.
pub fn decode_command(buf: &[u8], start: usize) -> (r: Option<(Command, usize)>)
    requires
        start <= buf.len(),
    ensures
        decoded(r) == parse_record(skip(buf@, start as int)),
        r matches Some((c, n)) ==> n == record_bytes(c@).len() && has_prefix(
            skip(buf@, start as int),
            record_bytes(c@),
        ),
        forall|c: CommandModel|
            #[trigger] has_prefix(skip(buf@, start as int), record_bytes(c)) ==> (r matches Some((d, n))
                && d@ == c && n == record_bytes(c).len()),
{
    let r = decode_record_at(buf, start);
    proof {
        let b = skip(buf@, start as int);
        if parse_record(b) is Some {
            lemma_parse_record_sound(b);
        }
        assert forall|c: CommandModel| #[trigger] has_prefix(b, record_bytes(c)) implies (r matches Some((
            d,
            n,
        )) && d@ == c && n == record_bytes(c).len()) by {
            let rb = record_bytes(c);
            let rest = skip(b, rb.len() as int);
            assert(b =~= rb + rest);
            lemma_parse_record(c, rest);
        }
    }
    r
}

fn decode_record_at(buf: &[u8], start: usize) -> (r: Option<(Command, usize)>)
    requires
        start <= buf.len(),
    ensures
        decoded(r) == parse_record(skip(buf@, start as int)),
{
    reveal(parse_record);
    let ghost b = skip(buf@, start as int);
    let sh = set_head_bytes();
    if prefix_at(buf, start, sh.as_slice()) {
        let key_at = start + 14;
        proof {
            lemma_skip_skip(buf@, start as int, 14);
        }
        match parse_string_at(buf, key_at) {
            None => {
                return None;
            },
            Some((key, n)) => {
                let mid_at = key_at + n;
                proof {
                    lemma_skip_skip(buf@, start as int, 14 + n);
                }
                let sm = set_mid_bytes();
                if !prefix_at(buf, mid_at, sm.as_slice()) {
                    return None;
                }
                proof {
                    lemma_skip_skip(buf@, mid_at as int, 9);
                }
                match parse_string_at(buf, mid_at + 9) {
                    None => {
                        return None;
                    },
                    Some((value, n2)) => {
                        let tail_at = mid_at + 9 + n2;
                        proof {
                            lemma_skip_skip(buf@, mid_at as int, 9 + n2);
                        }
                        let t = tail_bytes();
                        if !prefix_at(buf, tail_at, t.as_slice()) {
                            return None;
                        }
                        return Some((Command::Put { key, value }, tail_at + 2 - start));
                    },
                }
            },
        }
    }
    let rh = remove_head_bytes();
    if !prefix_at(buf, start, rh.as_slice()) {
        return None;
    }
    proof {
        lemma_skip_skip(buf@, start as int, 17);
    }
    match parse_string_at(buf, start + 17) {
        None => None,
        Some((key, n)) => {
            let tail_at = start + 17 + n;
            proof {
                lemma_skip_skip(buf@, start as int, 17 + n);
            }
            let t = tail_bytes();
            if !prefix_at(buf, tail_at, t.as_slice()) {
                return None;
            }
            Some((Command::Remove { key }, tail_at + 2 - start))
        },
    }
}

} // verus!
