//! The wire format of a chat envelope: a JSON object with the two string
//! members `sender` and `msg`, in that order and without white space.

use vstd::prelude::*;
use crate::text::{chars_of, push_char};

verus! {

/// A relayed chat message: who sent it and what was said.
#[derive(Debug)]
pub struct ServerMessage {
    pub sender: String,
    pub msg: String,
}

impl Clone for ServerMessage {
    fn clone(&self) -> (copy: ServerMessage)
        ensures
            copy@ == self@,
    {
        ServerMessage { sender: self.sender.clone(), msg: self.msg.clone() }
    }
}

/// What a `ServerMessage` stands for: its two texts as character sequences.
pub struct Envelope {
    pub sender: Seq<char>,
    pub msg: Seq<char>,
}

impl View for ServerMessage {
    type V = Envelope;

    open spec fn view(&self) -> Envelope {
        Envelope { sender: self.sender@, msg: self.msg@ }
    }
}

/// The lower-case hexadecimal digit for a value below sixteen.
pub open spec fn hex_digit(n: int) -> char {
    if n < 10 {
        (0x30 + n) as char
    } else {
        (0x61 + n - 10) as char
    }
}

/// How one character is written inside a JSON string: the quote and the
/// backslash behind a backslash, the five control characters that have a
/// letter of their own by that letter, every other character below U+0020
/// as `\u00` and two hexadecimal digits, and every other character as
/// itself.
pub open spec fn escape(c: char) -> Seq<char> {
    if c == '"' {
        seq!['\\', '"']
    } else if c == '\\' {
        seq!['\\', '\\']
    } else if c == '\u{8}' {
        seq!['\\', 'b']
    } else if c == '\u{c}' {
        seq!['\\', 'f']
    } else if c == '\n' {
        seq!['\\', 'n']
    } else if c == '\r' {
        seq!['\\', 'r']
    } else if c == '\t' {
        seq!['\\', 't']
    } else if (c as int) < 0x20 {
        seq!['\\', 'u', '0', '0', hex_digit(c as int / 16), hex_digit(c as int % 16)]
    } else {
        seq![c]
    }
}

/// A text with each of its characters escaped.
pub open spec fn escaped(s: Seq<char>) -> Seq<char>
    decreases s.len(),
{
    if s.len() == 0 {
        Seq::empty()
    } else {
        escape(s.first()) + escaped(s.drop_first())
    }
}

/// A text as a JSON string: escaped, between two quotes.
pub open spec fn quoted(s: Seq<char>) -> Seq<char> {
    seq!['"'] + escaped(s) + seq!['"']
}

/// What stands before the sender's name in a frame.
pub open spec fn frame_head() -> Seq<char> {
    seq!['{', '"', 's', 'e', 'n', 'd', 'e', 'r', '"', ':']
}

/// What stands between the sender's name and the message in a frame.
pub open spec fn frame_middle() -> Seq<char> {
    seq![',', '"', 'm', 's', 'g', '"', ':']
}

/// What closes a frame.
pub open spec fn frame_tail() -> Seq<char> {
    seq!['}']
}

/// The frame that carries an envelope.
pub open spec fn frame_of(e: Envelope) -> Seq<char> {
    frame_head() + quoted(e.sender) + frame_middle() + quoted(e.msg) + frame_tail()
}

/// Writes a string slice as a JSON string, by `serde_json::to_string`.
///
/// Claimed of it and not proved: the call succeeds, since the serializer
/// writes into a vector in memory, and its output is the slice between two
/// quotes with each character written as `escape` says, which is the table
/// of escapes in serde_json's serializer.
#[verifier::external_body]
fn json_quote(s: &str) -> (r: Option<String>)
    ensures
        r is Some,
        r.unwrap()@ == quoted(s@),
{
    serde_json::to_string(s).ok()
}

/// Encodes an envelope as a frame. Whatever the two texts hold, quotes and
/// control characters too, the frame is one object with two members.
pub fn encode(message: &ServerMessage) -> (frame: String)
    ensures
        frame@ == frame_of(message@),
{
    let sender = json_quote(message.sender.as_str()).unwrap();
    let msg = json_quote(message.msg.as_str()).unwrap();
    let mut frame = String::from_str("{\"sender\":");
    proof {
        reveal_strlit("{\"sender\":");
        reveal_strlit(",\"msg\":");
        reveal_strlit("}");
        assert(frame@ =~= frame_head());
    }
    frame.append(sender.as_str());
    frame.append(",\"msg\":");
    frame.append(msg.as_str());
    frame.append("}");
    proof {
        assert(",\"msg\":"@ =~= frame_middle());
        assert("}"@ =~= frame_tail());
        assert(frame@ =~= frame_of(message@));
    }
    frame
}

/// The envelope that a frame carries, if it is the frame of one.
pub open spec fn decoded(frame: Seq<char>) -> Option<Envelope> {
    if exists|e: Envelope| frame_of(e) == frame {
        Some(choose|e: Envelope| frame_of(e) == frame)
    } else {
        None
    }
}

/// The value of a lower-case hexadecimal digit.
spec fn hex_value(c: char) -> Option<int> {
    if 0x30 <= c as int <= 0x39 {
        Some(c as int - 0x30)
    } else if 0x61 <= c as int <= 0x66 {
        Some(c as int - 0x61 + 10)
    } else {
        None
    }
}

/// Whether the pattern `p` stands in `s` at position `i`.
spec fn has_at(s: Seq<char>, i: int, p: Seq<char>) -> bool {
    0 <= i && i + p.len() <= s.len() && s.subrange(i, i + p.len()) == p
}

/// Reads one escaped character at position `i` of `s`: the character and
/// the position behind what stands for it.
spec fn unescape_at(s: Seq<char>, i: int) -> Option<(char, int)> {
    if !(0 <= i < s.len()) {
        None
    } else if s[i] == '\\' {
        if i + 1 >= s.len() {
            None
        } else if s[i + 1] == '"' {
            Some(('"', i + 2))
        } else if s[i + 1] == '\\' {
            Some(('\\', i + 2))
        } else if s[i + 1] == 'b' {
            Some(('\u{8}', i + 2))
        } else if s[i + 1] == 'f' {
            Some(('\u{c}', i + 2))
        } else if s[i + 1] == 'n' {
            Some(('\n', i + 2))
        } else if s[i + 1] == 'r' {
            Some(('\r', i + 2))
        } else if s[i + 1] == 't' {
            Some(('\t', i + 2))
        } else if s[i + 1] == 'u' {
            if i + 5 >= s.len() || s[i + 2] != '0' || s[i + 3] != '0' {
                None
            } else {
                match (hex_value(s[i + 4]), hex_value(s[i + 5])) {
                    (Some(high), Some(low)) => {
                        let v = 16 * high + low;
                        if v < 0x20 && v != 8 && v != 9 && v != 10 && v != 12 && v != 13 {
                            Some((v as char, i + 6))
                        } else {
                            None
                        }
                    },
                    _ => None,
                }
            }
        } else {
            None
        }
    } else if s[i] == '"' || (s[i] as int) < 0x20 {
        None
    } else {
        Some((s[i], i + 1))
    }
}

/// Reads escaped characters from position `i` of `s` up to the closing
/// quote: the text and the position behind the quote.
spec fn parse_body(s: Seq<char>, i: int) -> Option<(Seq<char>, int)>
    decreases s.len() - i,
{
    if !(0 <= i < s.len()) {
        None
    } else if s[i] == '"' {
        Some((Seq::empty(), i + 1))
    } else {
        match unescape_at(s, i) {
            None => None,
            Some((c, j)) => match parse_body(s, j) {
                None => None,
                Some((rest, k)) => Some((seq![c] + rest, k)),
            },
        }
    }
}

/// Reads a JSON string that opens at position `i` of `s`.
spec fn parse_quoted(s: Seq<char>, i: int) -> Option<(Seq<char>, int)> {
    if 0 <= i < s.len() && s[i] == '"' {
        parse_body(s, i + 1)
    } else {
        None
    }
}

/// Reads a whole frame.
spec fn parse_frame(s: Seq<char>) -> Option<Envelope> {
    if !has_at(s, 0, frame_head()) {
        None
    } else {
        match parse_quoted(s, frame_head().len() as int) {
            None => None,
            Some((sender, j)) => if !has_at(s, j, frame_middle()) {
                None
            } else {
                match parse_quoted(s, j + frame_middle().len()) {
                    None => None,
                    Some((msg, k)) => if has_at(s, k, frame_tail()) && k + 1 == s.len() {
                        Some(Envelope { sender, msg })
                    } else {
                        None
                    },
                }
            },
        }
    }
}

/// A text put after what was read so far.
spec fn with_prefix(read: Seq<char>, r: Option<(Seq<char>, int)>) -> Option<(Seq<char>, int)> {
    match r {
        None => None,
        Some((rest, k)) => Some((read + rest, k)),
    }
}

proof fn lemma_unescape_sound(s: Seq<char>, i: int)
    requires
        unescape_at(s, i) is Some,
    ensures
        i < unescape_at(s, i).unwrap().1 <= s.len(),
        s.subrange(i, unescape_at(s, i).unwrap().1) == escape(unescape_at(s, i).unwrap().0),
{
    let (c, j) = unescape_at(s, i).unwrap();
    assert(s.subrange(i, j) =~= escape(c));
}

proof fn lemma_unescape_complete(s: Seq<char>, i: int, c: char)
    requires
        has_at(s, i, escape(c)),
    ensures
        unescape_at(s, i) == Some((c, i + escape(c).len())),
        s[i] != '"',
{
    let n = escape(c).len() as int;
    assert forall|k: int| 0 <= k < n implies s[i + k] == escape(c)[k] by {
        assert(s.subrange(i, i + n)[k] == s[i + k]);
    }
    assert(s[i] == escape(c)[0]);
    if n == 2 {
        assert(s[i + 1] == escape(c)[1]);
    } else if n == 6 {
        assert(s[i + 1] == escape(c)[1]);
        assert(s[i + 2] == escape(c)[2]);
        assert(s[i + 3] == escape(c)[3]);
        assert(s[i + 4] == escape(c)[4]);
        assert(s[i + 5] == escape(c)[5]);
        let v = c as int;
        assert(hex_value(hex_digit(v / 16)) == Some(v / 16));
        assert(hex_value(hex_digit(v % 16)) == Some(v % 16));
        assert((16 * (v / 16) + v % 16) as char == c);
    }
}

proof fn lemma_body_sound(s: Seq<char>, i: int)
    requires
        parse_body(s, i) is Some,
    ensures
        i < parse_body(s, i).unwrap().1 <= s.len(),
        s.subrange(i, parse_body(s, i).unwrap().1) == escaped(parse_body(s, i).unwrap().0) + seq![
            '"',
        ],
    decreases s.len() - i,
{
    let (d, k) = parse_body(s, i).unwrap();
    if s[i] == '"' {
        assert(escaped(d) =~= Seq::<char>::empty());
        assert(s.subrange(i, k) =~= escaped(d) + seq!['"']);
    } else {
        let (c, j) = unescape_at(s, i).unwrap();
        lemma_unescape_sound(s, i);
        lemma_body_sound(s, j);
        let (rest, k2) = parse_body(s, j).unwrap();
        assert(d == seq![c] + rest);
        assert(d.first() == c);
        assert(d.drop_first() =~= rest);
        assert(s.subrange(i, k) =~= s.subrange(i, j) + s.subrange(j, k));
        assert(s.subrange(i, k) =~= escaped(d) + seq!['"']);
    }
}

proof fn lemma_body_complete(s: Seq<char>, i: int, d: Seq<char>)
    requires
        has_at(s, i, escaped(d) + seq!['"']),
    ensures
        parse_body(s, i) == Some((d, i + escaped(d).len() + 1)),
    decreases d.len(),
{
    let whole = escaped(d) + seq!['"'];
    assert forall|k: int| 0 <= k < whole.len() implies s[i + k] == whole[k] by {
        assert(s.subrange(i, i + whole.len())[k] == s[i + k]);
    }
    if d.len() == 0 {
        assert(s[i] == whole[0]);
        assert(d =~= Seq::<char>::empty());
    } else {
        let c = d.first();
        let rest = d.drop_first();
        let n = escape(c).len() as int;
        assert(s.subrange(i, i + n) =~= escape(c)) by {
            assert forall|k: int| 0 <= k < n implies s.subrange(i, i + n)[k] == escape(c)[k] by {
                assert(whole[k] == escape(c)[k]);
            }
        }
        lemma_unescape_complete(s, i, c);
        let tail = escaped(rest) + seq!['"'];
        assert(s.subrange(i + n, i + n + tail.len()) =~= tail) by {
            assert forall|k: int| 0 <= k < tail.len() implies s.subrange(
                i + n,
                i + n + tail.len(),
            )[k] == tail[k] by {
                assert(whole[n + k] == tail[k]);
                assert(s[i + (n + k)] == whole[n + k]);
            }
        }
        lemma_body_complete(s, i + n, rest);
        assert(seq![c] + rest =~= d);
    }
}

proof fn lemma_frame_sound(s: Seq<char>)
    requires
        parse_frame(s) is Some,
    ensures
        s == frame_of(parse_frame(s).unwrap()),
{
    let e = parse_frame(s).unwrap();
    let h = frame_head().len() as int;
    let (sender, j) = parse_quoted(s, h).unwrap();
    lemma_body_sound(s, h + 1);
    let (msg, k) = parse_quoted(s, j + frame_middle().len()).unwrap();
    lemma_body_sound(s, j + frame_middle().len() + 1);
    let m = j + frame_middle().len();
    assert(s.subrange(h, j) =~= quoted(sender)) by {
        assert(s.subrange(h, j) =~= seq![s[h]] + s.subrange(h + 1, j));
    }
    assert(s.subrange(m, k) =~= quoted(msg)) by {
        assert(s.subrange(m, k) =~= seq![s[m]] + s.subrange(m + 1, k));
    }
    assert(s =~= s.subrange(0, h) + s.subrange(h, j) + s.subrange(j, m) + s.subrange(m, k)
        + s.subrange(k, k + 1));
    assert(s =~= frame_of(e));
}

proof fn lemma_frame_complete(e: Envelope)
    ensures
        parse_frame(frame_of(e)) == Some(e),
{
    let s = frame_of(e);
    let h = frame_head().len() as int;
    let a = escaped(e.sender);
    let b = escaped(e.msg);
    let j = h + a.len() + 2;
    let m = j + frame_middle().len();
    let k = m + b.len() + 2;
    assert(s.len() == k + 1);
    assert(s.subrange(0, h) =~= frame_head());
    assert(s[h] == '"');
    assert(s.subrange(h + 1, h + 1 + a.len() + 1) =~= a + seq!['"']);
    lemma_body_complete(s, h + 1, e.sender);
    assert(s.subrange(j, m) =~= frame_middle());
    assert(s[m] == '"');
    assert(s.subrange(m + 1, m + 1 + b.len() + 1) =~= b + seq!['"']);
    lemma_body_complete(s, m + 1, e.msg);
    assert(s.subrange(k, k + 1) =~= frame_tail());
}

proof fn lemma_parse_is_decoded(s: Seq<char>)
    ensures
        parse_frame(s) == decoded(s),
{
    if parse_frame(s) is Some {
        lemma_frame_sound(s);
        let e = choose|e: Envelope| frame_of(e) == s;
        lemma_frame_complete(e);
    } else {
        assert forall|e: Envelope| frame_of(e) != s by {
            lemma_frame_complete(e);
        }
    }
}

/// Decoding inverts encoding: the frame of an envelope carries that
/// envelope, whatever characters the two texts hold.
pub proof fn lemma_decode_inverts_encode(e: Envelope)
    ensures
        decoded(frame_of(e)) == Some(e),
{
    lemma_frame_complete(e);
    lemma_parse_is_decoded(frame_of(e));
}

/// Two envelopes with the same frame are the same envelope.
pub proof fn lemma_frame_determines_envelope(a: Envelope, b: Envelope)
    requires
        frame_of(a) == frame_of(b),
    ensures
        a == b,
{
    lemma_decode_inverts_encode(a);
    lemma_decode_inverts_encode(b);
}

/// Encoding inverts decoding: a frame that carries an envelope is the frame
/// of that envelope, so nothing but the frames of envelopes is decoded.
pub proof fn lemma_encode_inverts_decode(frame: Seq<char>)
    requires
        decoded(frame) is Some,
    ensures
        frame_of(decoded(frame).unwrap()) == frame,
{
}

/// The number of a character.
fn code_of(c: char) -> (n: u32)
    ensures
        n as int == c as int,
{
    c as u32
}

fn hex_value_of(c: char) -> (r: Option<u8>)
    ensures
        match r {
            Some(v) => hex_value(c) == Some(v as int),
            None => hex_value(c) is None,
        },
{
    let n: u32 = code_of(c);
    if 0x30 <= n && n <= 0x39 {
        Some((n - 0x30) as u8)
    } else if 0x61 <= n && n <= 0x66 {
        Some((n - 0x61 + 10) as u8)
    } else {
        None
    }
}

fn starts_at(s: &Vec<char>, i: usize, p: &Vec<char>) -> (r: bool)
    requires
        i <= s.len(),
    ensures
        r == has_at(s@, i as int, p@),
{
    if p.len() > s.len() - i {
        return false;
    }
    let mut k: usize = 0;
    while k < p.len()
        invariant
            i + p.len() <= s.len(),
            k <= p.len(),
            forall|n: int| 0 <= n < k ==> s@[i + n] == p@[n],
        decreases p.len() - k,
    {
        if s[i + k] != p[k] {
            proof {
                assert(s@.subrange(i as int, i + p.len())[k as int] == s@[i + k]);
            }
            return false;
        }
        k += 1;
    }
    proof {
        assert(s@.subrange(i as int, i + p.len()) =~= p@);
    }
    true
}

fn read_escaped(s: &Vec<char>, i: usize) -> (r: Option<(char, usize)>)
    requires
        i < s.len(),
    ensures
        match r {
            Some((c, j)) => unescape_at(s@, i as int) == Some((c, j as int)),
            None => unescape_at(s@, i as int) is None,
        },
{
    let c = s[i];
    if c == '\\' {
        if s.len() - i < 2 {
            return None;
        }
        let d = s[i + 1];
        if d == '"' {
            Some(('"', i + 2))
        } else if d == '\\' {
            Some(('\\', i + 2))
        } else if d == 'b' {
            Some(('\u{8}', i + 2))
        } else if d == 'f' {
            Some(('\u{c}', i + 2))
        } else if d == 'n' {
            Some(('\n', i + 2))
        } else if d == 'r' {
            Some(('\r', i + 2))
        } else if d == 't' {
            Some(('\t', i + 2))
        } else if d == 'u' {
            if s.len() - i < 6 || s[i + 2] != '0' || s[i + 3] != '0' {
                return None;
            }
            match (hex_value_of(s[i + 4]), hex_value_of(s[i + 5])) {
                (Some(high), Some(low)) => {
                    let v: u8 = 16 * high + low;
                    if v < 0x20 && v != 8 && v != 9 && v != 10 && v != 12 && v != 13 {
                        Some((v as char, i + 6))
                    } else {
                        None
                    }
                },
                _ => None,
            }
        } else {
            None
        }
    } else if c == '"' || code_of(c) < 0x20 {
        None
    } else {
        Some((c, i + 1))
    }
}

fn read_quoted(s: &Vec<char>, start: usize) -> (r: Option<(String, usize)>)
    requires
        start <= s.len(),
    ensures
        match r {
            Some((t, j)) => parse_quoted(s@, start as int) == Some((t@, j as int)) && j
                <= s.len(),
            None => parse_quoted(s@, start as int) is None,
        },
{
    if start >= s.len() || s[start] != '"' {
        return None;
    }
    let mut out = String::new();
    let mut i: usize = start + 1;
    proof {
        let r = parse_body(s@, i as int);
        if r is Some {
            assert(out@ + r.unwrap().0 =~= r.unwrap().0);
        }
    }
    loop
        invariant
            start < i <= s.len(),
            s@[start as int] == '"',
            parse_body(s@, start + 1) == with_prefix(out@, parse_body(s@, i as int)),
        decreases s.len() - i,
    {
        if i >= s.len() {
            return None;
        }
        if s[i] == '"' {
            proof {
                assert(out@ + Seq::<char>::empty() =~= out@);
            }
            return Some((out, i + 1));
        }
        match read_escaped(s, i) {
            None => {
                return None;
            },
            Some((c, j)) => {
                proof {
                    lemma_unescape_sound(s@, i as int);
                    let r = parse_body(s@, j as int);
                    if r is Some {
                        let rest = r.unwrap().0;
                        assert(out@.push(c) + rest =~= out@ + (seq![c] + rest));
                    }
                }
                push_char(&mut out, c);
                i = j;
            },
        }
    }
}

/// Decodes a frame: the envelope it carries where it is the frame of one,
/// nothing where it is malformed. Only what `encode` writes is the frame of
/// an envelope: the same object spelt with white space, with its members
/// the other way round or with other escapes is malformed, and so is a
/// notice in plain text.
pub fn decode(frame: &str) -> (r: Option<ServerMessage>)
    ensures
        match r {
            Some(m) => decoded(frame@) == Some(m@),
            None => decoded(frame@) is None,
        },
{
    let s = chars_of(frame);
    let head = chars_of("{\"sender\":");
    let middle = chars_of(",\"msg\":");
    let tail = chars_of("}");
    proof {
        lemma_parse_is_decoded(s@);
        reveal_strlit("{\"sender\":");
        reveal_strlit(",\"msg\":");
        reveal_strlit("}");
        assert(head@ =~= frame_head());
        assert(middle@ =~= frame_middle());
        assert(tail@ =~= frame_tail());
    }
    if !starts_at(&s, 0, &head) {
        return None;
    }
    match read_quoted(&s, head.len()) {
        None => None,
        Some((sender, j)) => {
            if !starts_at(&s, j, &middle) {
                return None;
            }
            match read_quoted(&s, j + middle.len()) {
                None => None,
                Some((msg, k)) => {
                    if starts_at(&s, k, &tail) && s.len() - k == 1 {
                        Some(ServerMessage { sender, msg })
                    } else {
                        None
                    }
                },
            }
        },
    }
}

} // verus!
