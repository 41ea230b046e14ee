//! The JSON wire codec for the three message kinds.
//!
//! Each datagram is one UTF-8 JSON object in externally tagged form:
//!
//! - `{"RequestVote":{"term":<u64>,"candidate_id":"<addr>"}}`
//! - `{"AppendEntries":{"term":<u64>,"leader_id":"<addr>"}}`
//! - `{"VoteGranted":{"term":<u64>}}`
//!
//! [`encode`] produces exactly the compact form above, with the standard
//! JSON escapes inside strings. [`decode`] accepts the same objects with any
//! JSON whitespace between tokens and with the two fields in either order,
//! and rejects everything else: the parse, including every rejection, is
//! specified byte for byte by [`parse_msg`].

use vstd::prelude::*;
use vstd::utf8::{decode_utf8, encode_utf8, valid_utf8};

use crate::msg::{Message, MessageView};

verus! {

// ---------------------------------------------------------------------
// The tokens of the wire form, as byte sequences.
// ---------------------------------------------------------------------
/// The bytes of `RequestVote`.
pub open spec fn tag_request_vote() -> Seq<u8> {
    seq![0x52u8, 0x65, 0x71, 0x75, 0x65, 0x73, 0x74, 0x56, 0x6f, 0x74, 0x65]
}

/// The bytes of `AppendEntries`.
pub open spec fn tag_append_entries() -> Seq<u8> {
    seq![0x41u8, 0x70, 0x70, 0x65, 0x6e, 0x64, 0x45, 0x6e, 0x74, 0x72, 0x69, 0x65, 0x73]
}

/// The bytes of `VoteGranted`.
pub open spec fn tag_vote_granted() -> Seq<u8> {
    seq![0x56u8, 0x6f, 0x74, 0x65, 0x47, 0x72, 0x61, 0x6e, 0x74, 0x65, 0x64]
}

/// The bytes of `term`.
pub open spec fn name_term() -> Seq<u8> {
    seq![0x74u8, 0x65, 0x72, 0x6d]
}

/// The bytes of `candidate_id`.
pub open spec fn name_candidate_id() -> Seq<u8> {
    seq![0x63u8, 0x61, 0x6e, 0x64, 0x69, 0x64, 0x61, 0x74, 0x65, 0x5f, 0x69, 0x64]
}

/// The bytes of `leader_id`.
pub open spec fn name_leader_id() -> Seq<u8> {
    seq![0x6cu8, 0x65, 0x61, 0x64, 0x65, 0x72, 0x5f, 0x69, 0x64]
}

// ---------------------------------------------------------------------
// The encoding, byte for byte.
// ---------------------------------------------------------------------
/// The lower-case hexadecimal digit for `d < 16`.
pub open spec fn hex_digit(d: nat) -> u8 {
    if d < 10 {
        (0x30 + d) as u8
    } else {
        (0x57 + d) as u8
    }
}

/// How one content byte appears inside a JSON string: quote and backslash
/// get a backslash, the five control characters with short escapes get
/// those, every other control character becomes `\u00XX` with lower-case
/// hex, and everything else stands as itself.
pub open spec fn escape_byte(b: u8) -> Seq<u8> {
    if b == 0x22 {
        seq![0x5cu8, 0x22]
    } else if b == 0x5c {
        seq![0x5cu8, 0x5c]
    } else if b == 0x08 {
        seq![0x5cu8, 0x62]
    } else if b == 0x09 {
        seq![0x5cu8, 0x74]
    } else if b == 0x0a {
        seq![0x5cu8, 0x6e]
    } else if b == 0x0c {
        seq![0x5cu8, 0x66]
    } else if b == 0x0d {
        seq![0x5cu8, 0x72]
    } else if b < 0x20 {
        seq![0x5cu8, 0x75, 0x30, 0x30, hex_digit((b / 16) as nat), hex_digit((b % 16) as nat)]
    } else {
        seq![b]
    }
}

/// A whole byte sequence, escaped.
pub open spec fn escape_bytes(s: Seq<u8>) -> Seq<u8>
    decreases s.len(),
{
    if s.len() == 0 {
        Seq::empty()
    } else {
        escape_byte(s[0]) + escape_bytes(s.drop_first())
    }
}

/// The decimal digits of `n`, most significant first, no leading zeros.
pub open spec fn dec_digits(n: nat) -> Seq<u8>
    decreases n,
{
    if n < 10 {
        seq![(0x30 + n) as u8]
    } else {
        dec_digits(n / 10) + seq![(0x30 + n % 10) as u8]
    }
}

/// A JSON string literal holding the UTF-8 encoding of `chars`, escaped.
pub open spec fn quoted(chars: Seq<char>) -> Seq<u8> {
    seq![0x22u8] + escape_bytes(encode_utf8(chars)) + seq![0x22u8]
}

/// An object key: the (ASCII) name in quotes, followed by the colon.
pub open spec fn key(name: Seq<u8>) -> Seq<u8> {
    seq![0x22u8] + name + seq![0x22u8, 0x3a]
}

/// The wire encoding of a message: the compact externally tagged JSON
/// object, fields in declaration order, strings escaped per [`escape_byte`].
pub open spec fn encode_msg(m: MessageView) -> Seq<u8> {
    match m {
        MessageView::RequestVote { term, candidate_id } => seq![0x7bu8] + key(tag_request_vote())
            + seq![0x7bu8] + key(name_term()) + dec_digits(term as nat) + seq![0x2cu8] + key(
            name_candidate_id(),
        ) + quoted(candidate_id) + seq![0x7du8, 0x7d],
        MessageView::AppendEntries { term, leader_id } => seq![0x7bu8] + key(tag_append_entries())
            + seq![0x7bu8] + key(name_term()) + dec_digits(term as nat) + seq![0x2cu8] + key(
            name_leader_id(),
        ) + quoted(leader_id) + seq![0x7du8, 0x7d],
        MessageView::VoteGranted { term } => seq![0x7bu8] + key(tag_vote_granted()) + seq![0x7bu8]
            + key(name_term()) + dec_digits(term as nat) + seq![0x7du8, 0x7d],
    }
}

// ---------------------------------------------------------------------
// The parse, byte for byte.
// ---------------------------------------------------------------------
/// JSON whitespace.
pub open spec fn is_ws(b: u8) -> bool {
    b == 0x20 || b == 0x09 || b == 0x0a || b == 0x0d
}

/// An ASCII decimal digit.
pub open spec fn is_digit(b: u8) -> bool {
    0x30 <= b <= 0x39
}

/// The first position at or after `i` holding no whitespace.
pub open spec fn skip_ws(s: Seq<u8>, i: int) -> int
    decreases s.len() - i,
{
    if 0 <= i < s.len() && is_ws(s[i]) {
        skip_ws(s, i + 1)
    } else {
        i
    }
}

/// Whether byte `b` stands at position `i`.
pub open spec fn at(s: Seq<u8>, i: int, b: u8) -> bool {
    0 <= i < s.len() && s[i] == b
}

/// The first position at or after `i` holding no decimal digit.
pub open spec fn digit_run_end(s: Seq<u8>, i: int) -> int
    decreases s.len() - i,
{
    if 0 <= i < s.len() && is_digit(s[i]) {
        digit_run_end(s, i + 1)
    } else {
        i
    }
}

/// The value of the digits from `i` (inclusive) to `j` (exclusive).
pub open spec fn digits_value(s: Seq<u8>, i: int, j: int) -> nat
    decreases j - i,
{
    if i >= j {
        0
    } else {
        (digits_value(s, i, j - 1) * 10 + (s[j - 1] - 0x30)) as nat
    }
}

/// A JSON unsigned integer at position `i`: a nonempty digit run, no
/// leading zero, value within `u64`. Yields the value and the position
/// after the digits.
pub open spec fn parse_number(s: Seq<u8>, i: int) -> Option<(u64, int)> {
    let j: int = digit_run_end(s, i);
    if j == i {
        None
    } else if s[i] == 0x30 && j > i + 1 {
        None
    } else if digits_value(s, i, j) > u64::MAX {
        None
    } else {
        Some((digits_value(s, i, j) as u64, j))
    }
}

/// The content byte a short escape stands for, if `e` is one.
pub open spec fn short_escape(e: u8) -> Option<u8> {
    if e == 0x22 {
        Some(0x22u8)
    } else if e == 0x5c {
        Some(0x5cu8)
    } else if e == 0x2f {
        Some(0x2fu8)
    } else if e == 0x62 {
        Some(0x08u8)
    } else if e == 0x66 {
        Some(0x0cu8)
    } else if e == 0x6e {
        Some(0x0au8)
    } else if e == 0x72 {
        Some(0x0du8)
    } else if e == 0x74 {
        Some(0x09u8)
    } else {
        None
    }
}

/// The value of a hexadecimal digit, either case.
pub open spec fn hex_val(b: u8) -> Option<nat> {
    if 0x30 <= b <= 0x39 {
        Some((b - 0x30) as nat)
    } else if 0x61 <= b <= 0x66 {
        Some((b - 0x61 + 10) as nat)
    } else if 0x41 <= b <= 0x46 {
        Some((b - 0x41 + 10) as nat)
    } else {
        None
    }
}

/// JSON string content from position `i` up to the closing quote: raw bytes
/// stand for themselves, the short escapes and `\uXXXX` below 0x80 are
/// unescaped, unescaped control bytes and anything else after a backslash
/// are rejected, as is a missing closing quote. Yields the content bytes
/// and the position after the closing quote.
pub open spec fn parse_str_content(s: Seq<u8>, i: int) -> Option<(Seq<u8>, int)>
    decreases s.len() - i,
{
    if !(0 <= i < s.len()) {
        None
    } else if s[i] == 0x22 {
        Some((Seq::empty(), i + 1))
    } else if s[i] == 0x5c {
        if i + 1 >= s.len() {
            None
        } else if s[i + 1] == 0x75 {
            if i + 6 > s.len() {
                None
            } else {
                match (hex_val(s[i + 2]), hex_val(s[i + 3]), hex_val(s[i + 4]), hex_val(s[i + 5])) {
                    (Some(h1), Some(h2), Some(h3), Some(h4)) => {
                        let v: nat = h1 * 4096 + h2 * 256 + h3 * 16 + h4;
                        if v >= 0x80 {
                            None
                        } else {
                            match parse_str_content(s, i + 6) {
                                Some((rest, j)) => Some((seq![v as u8] + rest, j)),
                                None => None,
                            }
                        }
                    },
                    _ => None,
                }
            }
        } else {
            match short_escape(s[i + 1]) {
                Some(b) => match parse_str_content(s, i + 2) {
                    Some((rest, j)) => Some((seq![b] + rest, j)),
                    None => None,
                },
                None => None,
            }
        }
    } else if s[i] < 0x20 {
        None
    } else {
        match parse_str_content(s, i + 1) {
            Some((rest, j)) => Some((seq![s[i]] + rest, j)),
            None => None,
        }
    }
}

/// A JSON string at position `i`: an opening quote, then content per
/// [`parse_str_content`].
pub open spec fn parse_string(s: Seq<u8>, i: int) -> Option<(Seq<u8>, int)> {
    if at(s, i, 0x22) {
        parse_str_content(s, i + 1)
    } else {
        None
    }
}

/// The body of a `VoteGranted` object, from just after its opening brace:
/// exactly the field `"term"` and the closing brace. Yields the term and
/// the position after the brace.
pub open spec fn parse_term_object(s: Seq<u8>, i: int) -> Option<(u64, int)> {
    let i1: int = skip_ws(s, i);
    match parse_string(s, i1) {
        Some((nm, i2)) => {
            if nm == name_term() {
                let i3: int = skip_ws(s, i2);
                if at(s, i3, 0x3a) {
                    let i4: int = skip_ws(s, i3 + 1);
                    match parse_number(s, i4) {
                        Some((t, i5)) => {
                            let i6: int = skip_ws(s, i5);
                            if at(s, i6, 0x7d) {
                                Some((t, i6 + 1))
                            } else {
                                None
                            }
                        },
                        None => None,
                    }
                } else {
                    None
                }
            } else {
                None
            }
        },
        None => None,
    }
}

/// The body of a two-field object, from just after its opening brace:
/// exactly the fields `"term"` and the string field named `id_name`, in
/// either order, separated by one comma, then the closing brace. Yields the
/// term, the raw content bytes of the string field, and the position after
/// the brace.
pub open spec fn parse_term_id_object(s: Seq<u8>, i: int, id_name: Seq<u8>) -> Option<
    ((u64, Seq<u8>), int),
> {
    let i1: int = skip_ws(s, i);
    match parse_string(s, i1) {
        Some((nm, i2)) => {
            let i3: int = skip_ws(s, i2);
            if !at(s, i3, 0x3a) {
                None
            } else {
                let i4: int = skip_ws(s, i3 + 1);
                if nm == name_term() {
                    match parse_number(s, i4) {
                        Some((t, i5)) => {
                            let i6: int = skip_ws(s, i5);
                            if !at(s, i6, 0x2c) {
                                None
                            } else {
                                let i7: int = skip_ws(s, i6 + 1);
                                match parse_string(s, i7) {
                                    Some((nm2, i8)) => {
                                        if nm2 == id_name {
                                            let i9: int = skip_ws(s, i8);
                                            if !at(s, i9, 0x3a) {
                                                None
                                            } else {
                                                let i10: int = skip_ws(s, i9 + 1);
                                                match parse_string(s, i10) {
                                                    Some((idb, i11)) => {
                                                        let i12: int = skip_ws(s, i11);
                                                        if at(s, i12, 0x7d) {
                                                            Some(((t, idb), i12 + 1))
                                                        } else {
                                                            None
                                                        }
                                                    },
                                                    None => None,
                                                }
                                            }
                                        } else {
                                            None
                                        }
                                    },
                                    None => None,
                                }
                            }
                        },
                        None => None,
                    }
                } else if nm == id_name {
                    match parse_string(s, i4) {
                        Some((idb, i5)) => {
                            let i6: int = skip_ws(s, i5);
                            if !at(s, i6, 0x2c) {
                                None
                            } else {
                                let i7: int = skip_ws(s, i6 + 1);
                                match parse_string(s, i7) {
                                    Some((nm2, i8)) => {
                                        if nm2 == name_term() {
                                            let i9: int = skip_ws(s, i8);
                                            if !at(s, i9, 0x3a) {
                                                None
                                            } else {
                                                let i10: int = skip_ws(s, i9 + 1);
                                                match parse_number(s, i10) {
                                                    Some((t, i11)) => {
                                                        let i12: int = skip_ws(s, i11);
                                                        if at(s, i12, 0x7d) {
                                                            Some(((t, idb), i12 + 1))
                                                        } else {
                                                            None
                                                        }
                                                    },
                                                    None => None,
                                                }
                                            }
                                        } else {
                                            None
                                        }
                                    },
                                    None => None,
                                }
                            }
                        },
                        None => None,
                    }
                } else {
                    None
                }
            }
        },
        None => None,
    }
}

/// Whether, from position `i`, only the outer closing brace and trailing
/// whitespace remain.
pub open spec fn closed_at_end(s: Seq<u8>, i: int) -> bool {
    let j: int = skip_ws(s, i);
    at(s, j, 0x7d) && skip_ws(s, j + 1) == s.len()
}

/// The message a datagram holds, if any: one externally tagged object,
/// whitespace allowed between tokens, fields in either order, the string
/// field valid UTF-8 once unescaped. Everything else parses to `None`.
pub open spec fn parse_msg(s: Seq<u8>) -> Option<MessageView> {
    let i0: int = skip_ws(s, 0);
    if !at(s, i0, 0x7b) {
        None
    } else {
        let i1: int = skip_ws(s, i0 + 1);
        match parse_string(s, i1) {
            Some((tag, i2)) => {
                let i3: int = skip_ws(s, i2);
                if !at(s, i3, 0x3a) {
                    None
                } else {
                    let i4: int = skip_ws(s, i3 + 1);
                    if !at(s, i4, 0x7b) {
                        None
                    } else if tag == tag_request_vote() {
                        match parse_term_id_object(s, i4 + 1, name_candidate_id()) {
                            Some(((term, idb), i5)) => {
                                if closed_at_end(s, i5) && valid_utf8(idb) {
                                    Some(
                                        MessageView::RequestVote {
                                            term,
                                            candidate_id: decode_utf8(idb),
                                        },
                                    )
                                } else {
                                    None
                                }
                            },
                            None => None,
                        }
                    } else if tag == tag_append_entries() {
                        match parse_term_id_object(s, i4 + 1, name_leader_id()) {
                            Some(((term, idb), i5)) => {
                                if closed_at_end(s, i5) && valid_utf8(idb) {
                                    Some(
                                        MessageView::AppendEntries {
                                            term,
                                            leader_id: decode_utf8(idb),
                                        },
                                    )
                                } else {
                                    None
                                }
                            },
                            None => None,
                        }
                    } else if tag == tag_vote_granted() {
                        match parse_term_object(s, i4 + 1) {
                            Some((term, i5)) => {
                                if closed_at_end(s, i5) {
                                    Some(MessageView::VoteGranted { term })
                                } else {
                                    None
                                }
                            },
                            None => None,
                        }
                    } else {
                        None
                    }
                }
            },
            None => None,
        }
    }
}

// ---------------------------------------------------------------------
// The encoder.
// ---------------------------------------------------------------------
/// Escaping distributes over concatenation.
proof fn lemma_escape_bytes_append(a: Seq<u8>, b: Seq<u8>)
    ensures
        escape_bytes(a + b) == escape_bytes(a) + escape_bytes(b),
    decreases a.len(),
{
    if a.len() == 0 {
        assert(a + b =~= b);
        assert(escape_bytes(a) + escape_bytes(b) =~= escape_bytes(b));
    } else {
        assert((a + b).drop_first() =~= a.drop_first() + b);
        lemma_escape_bytes_append(a.drop_first(), b);
        assert(escape_bytes(a + b) =~= escape_bytes(a) + escape_bytes(b));
    }
}

fn hex_digit_exec(d: u8) -> (r: u8)
    requires
        d < 16,
    ensures
        r == hex_digit(d as nat),
{
    if d < 10 {
        0x30 + d
    } else {
        0x57 + d
    }
}

fn push_escaped_byte(out: &mut Vec<u8>, b: u8)
    ensures
        final(out)@ == old(out)@ + escape_byte(b),
{
    if b == 0x22 {
        out.push(0x5c);
        out.push(0x22);
    } else if b == 0x5c {
        out.push(0x5c);
        out.push(0x5c);
    } else if b == 0x08 {
        out.push(0x5c);
        out.push(0x62);
    } else if b == 0x09 {
        out.push(0x5c);
        out.push(0x74);
    } else if b == 0x0a {
        out.push(0x5c);
        out.push(0x6e);
    } else if b == 0x0c {
        out.push(0x5c);
        out.push(0x66);
    } else if b == 0x0d {
        out.push(0x5c);
        out.push(0x72);
    } else if b < 0x20 {
        out.push(0x5c);
        out.push(0x75);
        out.push(0x30);
        out.push(0x30);
        out.push(hex_digit_exec(b / 16));
        out.push(hex_digit_exec(b % 16));
    } else {
        out.push(b);
    }
    proof {
        assert(out@ =~= old(out)@ + escape_byte(b));
    }
}

fn push_escaped(out: &mut Vec<u8>, bytes: &Vec<u8>)
    ensures
        final(out)@ == old(out)@ + escape_bytes(bytes@),
{
    let mut k: usize = 0;
    while k < bytes.len()
        invariant
            k <= bytes@.len(),
            out@ == old(out)@ + escape_bytes(bytes@.take(k as int)),
        decreases bytes@.len() - k,
    {
        push_escaped_byte(out, bytes[k]);
        proof {
            lemma_escape_bytes_append(bytes@.take(k as int), seq![bytes@[k as int]]);
            assert(bytes@.take(k as int) + seq![bytes@[k as int]] =~= bytes@.take(k as int + 1));
            assert(seq![bytes@[k as int]].drop_first() =~= Seq::<u8>::empty());
            assert(escape_bytes(Seq::<u8>::empty()) =~= Seq::<u8>::empty());
            assert(escape_bytes(seq![bytes@[k as int]]) =~= escape_byte(bytes@[k as int]));
            assert(out@ =~= old(out)@ + escape_bytes(bytes@.take(k as int + 1)));
        }
        k = k + 1;
    }
    proof {
        assert(bytes@.take(bytes@.len() as int) =~= bytes@);
    }
}

fn push_u64(out: &mut Vec<u8>, n: u64)
    ensures
        final(out)@ == old(out)@ + dec_digits(n as nat),
    decreases n,
{
    if n < 10 {
        out.push(0x30 + (n as u8));
        proof {
            assert(out@ =~= old(out)@ + dec_digits(n as nat));
        }
    } else {
        push_u64(out, n / 10);
        out.push(0x30 + ((n % 10) as u8));
        proof {
            assert(out@ =~= old(out)@ + dec_digits(n as nat));
        }
    }
}

fn push_quoted(out: &mut Vec<u8>, s: &String)
    ensures
        final(out)@ == old(out)@ + quoted(s@),
{
    out.push(0x22);
    let bytes: Vec<u8> = s.as_str().as_bytes_vec();
    push_escaped(out, &bytes);
    out.push(0x22);
    proof {
        assert(out@ =~= old(out)@ + quoted(s@));
    }
}

fn push_key_request_vote(out: &mut Vec<u8>)
    ensures
        final(out)@ == old(out)@ + key(tag_request_vote()),
{
    out.push(0x22);
    out.push(0x52);
    out.push(0x65);
    out.push(0x71);
    out.push(0x75);
    out.push(0x65);
    out.push(0x73);
    out.push(0x74);
    out.push(0x56);
    out.push(0x6f);
    out.push(0x74);
    out.push(0x65);
    out.push(0x22);
    out.push(0x3a);
    proof {
        assert(out@ =~= old(out)@ + key(tag_request_vote()));
    }
}

fn push_key_append_entries(out: &mut Vec<u8>)
    ensures
        final(out)@ == old(out)@ + key(tag_append_entries()),
{
    out.push(0x22);
    out.push(0x41);
    out.push(0x70);
    out.push(0x70);
    out.push(0x65);
    out.push(0x6e);
    out.push(0x64);
    out.push(0x45);
    out.push(0x6e);
    out.push(0x74);
    out.push(0x72);
    out.push(0x69);
    out.push(0x65);
    out.push(0x73);
    out.push(0x22);
    out.push(0x3a);
    proof {
        assert(out@ =~= old(out)@ + key(tag_append_entries()));
    }
}

fn push_key_vote_granted(out: &mut Vec<u8>)
    ensures
        final(out)@ == old(out)@ + key(tag_vote_granted()),
{
    out.push(0x22);
    out.push(0x56);
    out.push(0x6f);
    out.push(0x74);
    out.push(0x65);
    out.push(0x47);
    out.push(0x72);
    out.push(0x61);
    out.push(0x6e);
    out.push(0x74);
    out.push(0x65);
    out.push(0x64);
    out.push(0x22);
    out.push(0x3a);
    proof {
        assert(out@ =~= old(out)@ + key(tag_vote_granted()));
    }
}

fn push_key_term(out: &mut Vec<u8>)
    ensures
        final(out)@ == old(out)@ + key(name_term()),
{
    out.push(0x22);
    out.push(0x74);
    out.push(0x65);
    out.push(0x72);
    out.push(0x6d);
    out.push(0x22);
    out.push(0x3a);
    proof {
        assert(out@ =~= old(out)@ + key(name_term()));
    }
}

fn push_key_candidate_id(out: &mut Vec<u8>)
    ensures
        final(out)@ == old(out)@ + key(name_candidate_id()),
{
    out.push(0x22);
    out.push(0x63);
    out.push(0x61);
    out.push(0x6e);
    out.push(0x64);
    out.push(0x69);
    out.push(0x64);
    out.push(0x61);
    out.push(0x74);
    out.push(0x65);
    out.push(0x5f);
    out.push(0x69);
    out.push(0x64);
    out.push(0x22);
    out.push(0x3a);
    proof {
        assert(out@ =~= old(out)@ + key(name_candidate_id()));
    }
}

fn push_key_leader_id(out: &mut Vec<u8>)
    ensures
        final(out)@ == old(out)@ + key(name_leader_id()),
{
    out.push(0x22);
    out.push(0x6c);
    out.push(0x65);
    out.push(0x61);
    out.push(0x64);
    out.push(0x65);
    out.push(0x72);
    out.push(0x5f);
    out.push(0x69);
    out.push(0x64);
    out.push(0x22);
    out.push(0x3a);
    proof {
        assert(out@ =~= old(out)@ + key(name_leader_id()));
    }
}

/// Encode a message for the wire: exactly the compact externally tagged
/// JSON object of [`encode_msg`].
pub fn encode(m: &Message) -> (out: Vec<u8>)
    ensures
        out@ == encode_msg(m@),
{
    let mut out: Vec<u8> = Vec::new();
    match m {
        Message::RequestVote { term, candidate_id } => {
            out.push(0x7b);
            push_key_request_vote(&mut out);
            out.push(0x7b);
            push_key_term(&mut out);
            push_u64(&mut out, *term);
            out.push(0x2c);
            push_key_candidate_id(&mut out);
            push_quoted(&mut out, candidate_id);
            out.push(0x7d);
            out.push(0x7d);
            proof {
                assert(out@ =~= encode_msg(m@));
            }
        },
        Message::AppendEntries { term, leader_id } => {
            out.push(0x7b);
            push_key_append_entries(&mut out);
            out.push(0x7b);
            push_key_term(&mut out);
            push_u64(&mut out, *term);
            out.push(0x2c);
            push_key_leader_id(&mut out);
            push_quoted(&mut out, leader_id);
            out.push(0x7d);
            out.push(0x7d);
            proof {
                assert(out@ =~= encode_msg(m@));
            }
        },
        Message::VoteGranted { term } => {
            out.push(0x7b);
            push_key_vote_granted(&mut out);
            out.push(0x7b);
            push_key_term(&mut out);
            push_u64(&mut out, *term);
            out.push(0x7d);
            out.push(0x7d);
            proof {
                assert(out@ =~= encode_msg(m@));
            }
        },
    }
    out
}

// ---------------------------------------------------------------------
// The decoder.
// ---------------------------------------------------------------------
/// Relies on `String::from_utf8`: it succeeds exactly on valid UTF-8 input
/// and yields the string of those bytes.
#[verifier::external_body]
fn string_from_utf8(bytes: Vec<u8>) -> (r: Option<String>)
    ensures
        r is Some <==> valid_utf8(bytes@),
        (match r {
            Some(s) => s@ == decode_utf8(bytes@),
            None => true,
        }),
{
    match String::from_utf8(bytes) {
        Ok(s) => Some(s),
        Err(_) => None,
    }
}

/// Prefixing the content of a partial string parse.
spec fn with_prefix(p: Seq<u8>, o: Option<(Seq<u8>, int)>) -> Option<(Seq<u8>, int)> {
    match o {
        Some((r, j)) => Some((p + r, j)),
        None => None,
    }
}

/// Every byte of a digit run is a digit, and the run stays inside `s`.
proof fn lemma_digit_run(s: Seq<u8>, i: int)
    requires
        0 <= i <= s.len(),
    ensures
        i <= digit_run_end(s, i) <= s.len(),
        forall|m: int| i <= m < digit_run_end(s, i) ==> is_digit(s[m]),
    decreases s.len() - i,
{
    if 0 <= i < s.len() && is_digit(s[i]) {
        lemma_digit_run(s, i + 1);
    }
}

fn ws_end(s: &[u8], start: usize) -> (r: usize)
    requires
        start <= s@.len(),
    ensures
        r as int == skip_ws(s@, start as int),
        start <= r <= s@.len(),
{
    let mut i: usize = start;
    while i < s.len() && (s[i] == 0x20 || s[i] == 0x09 || s[i] == 0x0a || s[i] == 0x0d)
        invariant
            start <= i <= s@.len(),
            skip_ws(s@, start as int) == skip_ws(s@, i as int),
        decreases s@.len() - i,
    {
        i = i + 1;
    }
    i
}

fn digits_end(s: &[u8], start: usize) -> (r: usize)
    requires
        start <= s@.len(),
    ensures
        r as int == digit_run_end(s@, start as int),
        start <= r <= s@.len(),
{
    let mut i: usize = start;
    while i < s.len() && 0x30 <= s[i] && s[i] <= 0x39
        invariant
            start <= i <= s@.len(),
            digit_run_end(s@, start as int) == digit_run_end(s@, i as int),
        decreases s@.len() - i,
    {
        i = i + 1;
    }
    i
}

fn parse_number_at(s: &[u8], start: usize) -> (r: Option<(u64, usize)>)
    requires
        start <= s@.len(),
    ensures
        (match r {
            Some((v, j)) => parse_number(s@, start as int) == Some((v, j as int)) && start < j
                <= s@.len(),
            None => parse_number(s@, start as int) is None,
        }),
{
    let j: usize = digits_end(s, start);
    proof {
        lemma_digit_run(s@, start as int);
    }
    if j == start {
        return None;
    }
    if s[start] == 0x30 && j > start + 1 {
        return None;
    }
    let mut value: u64 = 0;
    let mut over: bool = false;
    let mut k: usize = start;
    while k < j
        invariant
            start <= k <= j <= s@.len(),
            j as int == digit_run_end(s@, start as int),
            forall|m: int| start <= m < j ==> is_digit(s@[m]),
            !over ==> value == digits_value(s@, start as int, k as int),
            over ==> digits_value(s@, start as int, k as int) > u64::MAX,
        decreases j - k,
    {
        let d: u8 = s[k] - 0x30;
        proof {
            assert(digits_value(s@, start as int, k as int + 1) == digits_value(
                s@,
                start as int,
                k as int,
            ) * 10 + d);
        }
        if !over {
            if value <= (u64::MAX - (d as u64)) / 10 {
                proof {
                    let q: int = ((u64::MAX - d) as int) / 10;
                    vstd::arithmetic::div_mod::lemma_fundamental_div_mod(
                        (u64::MAX - d) as int,
                        10,
                    );
                    assert(value * 10 <= q * 10) by (nonlinear_arith)
                        requires
                            value <= q,
                            q >= 0,
                    ;
                }
                value = value * 10 + (d as u64);
            } else {
                proof {
                    let q: int = ((u64::MAX - d) as int) / 10;
                    vstd::arithmetic::div_mod::lemma_fundamental_div_mod(
                        (u64::MAX - d) as int,
                        10,
                    );
                    assert(value * 10 >= (q + 1) * 10) by (nonlinear_arith)
                        requires
                            value >= q + 1,
                            q + 1 >= 0,
                    ;
                }
                over = true;
            }
        } else {
            proof {
                let dv: int = digits_value(s@, start as int, k as int) as int;
                assert(dv * 10 > u64::MAX * 10) by (nonlinear_arith)
                    requires
                        dv > u64::MAX,
                ;
            }
        }
        k = k + 1;
    }
    if over {
        None
    } else {
        Some((value, j))
    }
}

fn hexv(b: u8) -> (r: Option<u8>)
    ensures
        (match r {
            Some(v) => hex_val(b) == Some(v as nat) && v < 16,
            None => hex_val(b) is None,
        }),
{
    if 0x30 <= b && b <= 0x39 {
        Some(b - 0x30)
    } else if 0x61 <= b && b <= 0x66 {
        Some(b - 0x61 + 10)
    } else if 0x41 <= b && b <= 0x46 {
        Some(b - 0x41 + 10)
    } else {
        None
    }
}

fn short_esc(e: u8) -> (r: Option<u8>)
    ensures
        r == short_escape(e),
{
    if e == 0x22 {
        Some(0x22)
    } else if e == 0x5c {
        Some(0x5c)
    } else if e == 0x2f {
        Some(0x2f)
    } else if e == 0x62 {
        Some(0x08)
    } else if e == 0x66 {
        Some(0x0c)
    } else if e == 0x6e {
        Some(0x0a)
    } else if e == 0x72 {
        Some(0x0d)
    } else if e == 0x74 {
        Some(0x09)
    } else {
        None
    }
}

fn parse_string_at(s: &[u8], start: usize) -> (r: Option<(Vec<u8>, usize)>)
    requires
        start <= s@.len(),
    ensures
        (match r {
            Some((content, j)) => parse_string(s@, start as int) == Some((content@, j as int))
                && start < j <= s@.len(),
            None => parse_string(s@, start as int) is None,
        }),
{
    if start >= s.len() || s[start] != 0x22 {
        return None;
    }
    let mut acc: Vec<u8> = Vec::new();
    let mut i: usize = start + 1;
    loop
        invariant
            start < s@.len(),
            s@[start as int] == 0x22,
            start + 1 <= i <= s@.len(),
            parse_str_content(s@, start as int + 1) == with_prefix(
                acc@,
                parse_str_content(s@, i as int),
            ),
        decreases s@.len() - i,
    {
        if i >= s.len() {
            return None;
        }
        let b: u8 = s[i];
        if b == 0x22 {
            proof {
                assert(acc@ + Seq::<u8>::empty() =~= acc@);
                assert(at(s@, start as int, 0x22));
            }
            return Some((acc, i + 1));
        } else if b == 0x5c {
            if s.len() - i < 2 {
                return None;
            }
            let e: u8 = s[i + 1];
            if e == 0x75 {
                if s.len() - i < 6 {
                    return None;
                }
                let h1: u8 = match hexv(s[i + 2]) {
                    Some(h) => h,
                    None => {
                        return None;
                    },
                };
                let h2: u8 = match hexv(s[i + 3]) {
                    Some(h) => h,
                    None => {
                        return None;
                    },
                };
                let h3: u8 = match hexv(s[i + 4]) {
                    Some(h) => h,
                    None => {
                        return None;
                    },
                };
                let h4: u8 = match hexv(s[i + 5]) {
                    Some(h) => h,
                    None => {
                        return None;
                    },
                };
                let v: u16 = (h1 as u16) * 4096 + (h2 as u16) * 256 + (h3 as u16) * 16 + (
                h4 as u16);
                if v >= 0x80 {
                    return None;
                }
                proof {
                    match parse_str_content(s@, i as int + 6) {
                        Some((rest, j)) => {
                            assert(acc@ + (seq![v as u8] + rest) =~= acc@.push(v as u8) + rest);
                        },
                        None => {},
                    }
                }
                acc.push(v as u8);
                i = i + 6;
            } else {
                let c: u8 = match short_esc(e) {
                    Some(c) => c,
                    None => {
                        return None;
                    },
                };
                proof {
                    match parse_str_content(s@, i as int + 2) {
                        Some((rest, j)) => {
                            assert(acc@ + (seq![c] + rest) =~= acc@.push(c) + rest);
                        },
                        None => {},
                    }
                }
                acc.push(c);
                i = i + 2;
            }
        } else if b < 0x20 {
            return None;
        } else {
            proof {
                match parse_str_content(s@, i as int + 1) {
                    Some((rest, j)) => {
                        assert(acc@ + (seq![b] + rest) =~= acc@.push(b) + rest);
                    },
                    None => {},
                }
            }
            acc.push(b);
            i = i + 1;
        }
    }
}

fn is_name_term(v: &Vec<u8>) -> (r: bool)
    ensures
        r == (v@ == name_term()),
{
    let r = v.len() == 4 && v[0] == 0x74 && v[1] == 0x65 && v[2] == 0x72 && v[3] == 0x6d;
    proof {
        if r {
            assert(v@ =~= name_term());
        }
    }
    r
}

fn is_name_candidate_id(v: &Vec<u8>) -> (r: bool)
    ensures
        r == (v@ == name_candidate_id()),
{
    let r = v.len() == 12 && v[0] == 0x63 && v[1] == 0x61 && v[2] == 0x6e && v[3] == 0x64 && v[4]
        == 0x69 && v[5] == 0x64 && v[6] == 0x61 && v[7] == 0x74 && v[8] == 0x65 && v[9] == 0x5f
        && v[10] == 0x69 && v[11] == 0x64;
    proof {
        if r {
            assert(v@ =~= name_candidate_id());
        }
    }
    r
}

fn is_name_leader_id(v: &Vec<u8>) -> (r: bool)
    ensures
        r == (v@ == name_leader_id()),
{
    let r = v.len() == 9 && v[0] == 0x6c && v[1] == 0x65 && v[2] == 0x61 && v[3] == 0x64 && v[4]
        == 0x65 && v[5] == 0x72 && v[6] == 0x5f && v[7] == 0x69 && v[8] == 0x64;
    proof {
        if r {
            assert(v@ =~= name_leader_id());
        }
    }
    r
}

fn is_tag_request_vote(v: &Vec<u8>) -> (r: bool)
    ensures
        r == (v@ == tag_request_vote()),
{
    let r = v.len() == 11 && v[0] == 0x52 && v[1] == 0x65 && v[2] == 0x71 && v[3] == 0x75 && v[4]
        == 0x65 && v[5] == 0x73 && v[6] == 0x74 && v[7] == 0x56 && v[8] == 0x6f && v[9] == 0x74
        && v[10] == 0x65;
    proof {
        if r {
            assert(v@ =~= tag_request_vote());
        }
    }
    r
}

fn is_tag_append_entries(v: &Vec<u8>) -> (r: bool)
    ensures
        r == (v@ == tag_append_entries()),
{
    let r = v.len() == 13 && v[0] == 0x41 && v[1] == 0x70 && v[2] == 0x70 && v[3] == 0x65 && v[4]
        == 0x6e && v[5] == 0x64 && v[6] == 0x45 && v[7] == 0x6e && v[8] == 0x74 && v[9] == 0x72
        && v[10] == 0x69 && v[11] == 0x65 && v[12] == 0x73;
    proof {
        if r {
            assert(v@ =~= tag_append_entries());
        }
    }
    r
}

fn is_tag_vote_granted(v: &Vec<u8>) -> (r: bool)
    ensures
        r == (v@ == tag_vote_granted()),
{
    let r = v.len() == 11 && v[0] == 0x56 && v[1] == 0x6f && v[2] == 0x74 && v[3] == 0x65 && v[4]
        == 0x47 && v[5] == 0x72 && v[6] == 0x61 && v[7] == 0x6e && v[8] == 0x74 && v[9] == 0x65
        && v[10] == 0x64;
    proof {
        if r {
            assert(v@ =~= tag_vote_granted());
        }
    }
    r
}

fn parse_term_object_at(s: &[u8], start: usize) -> (r: Option<(u64, usize)>)
    requires
        start <= s@.len(),
    ensures
        (match r {
            Some((t, j)) => parse_term_object(s@, start as int) == Some((t, j as int)) && start
                < j <= s@.len(),
            None => parse_term_object(s@, start as int) is None,
        }),
{
    let i1: usize = ws_end(s, start);
    let (nm, i2): (Vec<u8>, usize) = match parse_string_at(s, i1) {
        Some(p) => p,
        None => {
            return None;
        },
    };
    if !is_name_term(&nm) {
        return None;
    }
    let i3: usize = ws_end(s, i2);
    if i3 >= s.len() || s[i3] != 0x3a {
        return None;
    }
    let i4: usize = ws_end(s, i3 + 1);
    let (t, i5): (u64, usize) = match parse_number_at(s, i4) {
        Some(p) => p,
        None => {
            return None;
        },
    };
    let i6: usize = ws_end(s, i5);
    if i6 >= s.len() || s[i6] != 0x7d {
        return None;
    }
    Some((t, i6 + 1))
}

fn parse_term_id_object_at(s: &[u8], start: usize, want_candidate: bool) -> (r: Option<
    ((u64, Vec<u8>), usize),
>)
    requires
        start <= s@.len(),
    ensures
        (match r {
            Some(((t, idb), j)) => parse_term_id_object(
                s@,
                start as int,
                if want_candidate {
                    name_candidate_id()
                } else {
                    name_leader_id()
                },
            ) == Some(((t, idb@), j as int)) && start < j <= s@.len(),
            None => parse_term_id_object(
                s@,
                start as int,
                if want_candidate {
                    name_candidate_id()
                } else {
                    name_leader_id()
                },
            ) is None,
        }),
{
    let i1: usize = ws_end(s, start);
    let (nm, i2): (Vec<u8>, usize) = match parse_string_at(s, i1) {
        Some(p) => p,
        None => {
            return None;
        },
    };
    let i3: usize = ws_end(s, i2);
    if i3 >= s.len() || s[i3] != 0x3a {
        return None;
    }
    let i4: usize = ws_end(s, i3 + 1);
    let nm_is_id: bool = if want_candidate {
        is_name_candidate_id(&nm)
    } else {
        is_name_leader_id(&nm)
    };
    if is_name_term(&nm) {
        let (t, i5): (u64, usize) = match parse_number_at(s, i4) {
            Some(p) => p,
            None => {
                return None;
            },
        };
        let i6: usize = ws_end(s, i5);
        if i6 >= s.len() || s[i6] != 0x2c {
            return None;
        }
        let i7: usize = ws_end(s, i6 + 1);
        let (nm2, i8): (Vec<u8>, usize) = match parse_string_at(s, i7) {
            Some(p) => p,
            None => {
                return None;
            },
        };
        let nm2_is_id: bool = if want_candidate {
            is_name_candidate_id(&nm2)
        } else {
            is_name_leader_id(&nm2)
        };
        if !nm2_is_id {
            return None;
        }
        let i9: usize = ws_end(s, i8);
        if i9 >= s.len() || s[i9] != 0x3a {
            return None;
        }
        let i10: usize = ws_end(s, i9 + 1);
        let (idb, i11): (Vec<u8>, usize) = match parse_string_at(s, i10) {
            Some(p) => p,
            None => {
                return None;
            },
        };
        let i12: usize = ws_end(s, i11);
        if i12 >= s.len() || s[i12] != 0x7d {
            return None;
        }
        Some(((t, idb), i12 + 1))
    } else if nm_is_id {
        let (idb, i5): (Vec<u8>, usize) = match parse_string_at(s, i4) {
            Some(p) => p,
            None => {
                return None;
            },
        };
        let i6: usize = ws_end(s, i5);
        if i6 >= s.len() || s[i6] != 0x2c {
            return None;
        }
        let i7: usize = ws_end(s, i6 + 1);
        let (nm2, i8): (Vec<u8>, usize) = match parse_string_at(s, i7) {
            Some(p) => p,
            None => {
                return None;
            },
        };
        if !is_name_term(&nm2) {
            return None;
        }
        let i9: usize = ws_end(s, i8);
        if i9 >= s.len() || s[i9] != 0x3a {
            return None;
        }
        let i10: usize = ws_end(s, i9 + 1);
        let (t, i11): (u64, usize) = match parse_number_at(s, i10) {
            Some(p) => p,
            None => {
                return None;
            },
        };
        let i12: usize = ws_end(s, i11);
        if i12 >= s.len() || s[i12] != 0x7d {
            return None;
        }
        Some(((t, idb), i12 + 1))
    } else {
        None
    }
}

fn closed_tail(s: &[u8], start: usize) -> (r: bool)
    requires
        start <= s@.len(),
    ensures
        r == closed_at_end(s@, start as int),
{
    let j: usize = ws_end(s, start);
    if j >= s.len() || s[j] != 0x7d {
        return false;
    }
    let k: usize = ws_end(s, j + 1);
    k == s.len()
}

/// Decode one datagram, accepting exactly what [`parse_msg`] accepts and
/// returning exactly the message it denotes.
pub fn decode(s: &[u8]) -> (r: Option<Message>)
    ensures
        crate::msg::opt_msg_view(r) == parse_msg(s@),
{
    let i0: usize = ws_end(s, 0);
    if i0 >= s.len() || s[i0] != 0x7b {
        return None;
    }
    let i1: usize = ws_end(s, i0 + 1);
    let (tag, i2): (Vec<u8>, usize) = match parse_string_at(s, i1) {
        Some(p) => p,
        None => {
            return None;
        },
    };
    let i3: usize = ws_end(s, i2);
    if i3 >= s.len() || s[i3] != 0x3a {
        return None;
    }
    let i4: usize = ws_end(s, i3 + 1);
    if i4 >= s.len() || s[i4] != 0x7b {
        return None;
    }
    if is_tag_request_vote(&tag) {
        let ((term, idb), i5): ((u64, Vec<u8>), usize) = match parse_term_id_object_at(
            s,
            i4 + 1,
            true,
        ) {
            Some(p) => p,
            None => {
                return None;
            },
        };
        if !closed_tail(s, i5) {
            return None;
        }
        let id: String = match string_from_utf8(idb) {
            Some(x) => x,
            None => {
                return None;
            },
        };
        Some(Message::RequestVote { term, candidate_id: id })
    } else if is_tag_append_entries(&tag) {
        let ((term, idb), i5): ((u64, Vec<u8>), usize) = match parse_term_id_object_at(
            s,
            i4 + 1,
            false,
        ) {
            Some(p) => p,
            None => {
                return None;
            },
        };
        if !closed_tail(s, i5) {
            return None;
        }
        let id: String = match string_from_utf8(idb) {
            Some(x) => x,
            None => {
                return None;
            },
        };
        Some(Message::AppendEntries { term, leader_id: id })
    } else if is_tag_vote_granted(&tag) {
        let (term, i5): (u64, usize) = match parse_term_object_at(s, i4 + 1) {
            Some(p) => p,
            None => {
                return None;
            },
        };
        if !closed_tail(s, i5) {
            return None;
        }
        Some(Message::VoteGranted { term })
    } else {
        None
    }
}

// ---------------------------------------------------------------------
// The encoding parses back to the message it came from.
// ---------------------------------------------------------------------
/// The decimal digits of `n` are digits, there is at least one, and the
/// first is `0` only for `n == 0`.
proof fn lemma_dec_digits_shape(n: nat)
    ensures
        dec_digits(n).len() >= 1,
        forall|k: int| 0 <= k < dec_digits(n).len() ==> is_digit(dec_digits(n)[k]),
        n > 0 ==> dec_digits(n)[0] != 0x30,
        n == 0 ==> dec_digits(n) == seq![0x30u8],
    decreases n,
{
    if n >= 10 {
        lemma_dec_digits_shape(n / 10);
    }
}

/// A digit run bounded by a non-digit ends exactly at the bound.
proof fn lemma_digit_run_end_exact(s: Seq<u8>, i: int, j: int)
    requires
        0 <= i <= j <= s.len(),
        forall|k: int| i <= k < j ==> is_digit(s[k]),
        j == s.len() || !is_digit(s[j]),
    ensures
        digit_run_end(s, i) == j,
    decreases j - i,
{
    if i < j {
        lemma_digit_run_end_exact(s, i + 1, j);
    }
}

/// Digits written by [`dec_digits`] evaluate back to their number.
proof fn lemma_digits_value_of_dec_digits(s: Seq<u8>, i: int, n: nat)
    requires
        0 <= i,
        i + dec_digits(n).len() <= s.len(),
        s.subrange(i, i + dec_digits(n).len()) == dec_digits(n),
    ensures
        digits_value(s, i, i + dec_digits(n).len()) == n,
    decreases n,
{
    let ds = dec_digits(n);
    if n < 10 {
        assert(s[i] == ds[0]);
        assert(digits_value(s, i, i) == 0);
        assert(digits_value(s, i, i + 1) == (s[i] - 0x30) as nat);
    } else {
        let head = dec_digits(n / 10);
        assert(ds == head + seq![(0x30 + n % 10) as u8]);
        assert(s.subrange(i, i + head.len()) =~= head) by {
            assert forall|t: int| 0 <= t < head.len() implies s.subrange(
                i,
                i + head.len(),
            )[t] == head[t] by {
                assert(s.subrange(i, i + ds.len())[t] == ds[t]);
            }
        }
        lemma_digits_value_of_dec_digits(s, i, n / 10);
        assert(s[i + ds.len() - 1] == ds[ds.len() - 1]) by {
            assert(s.subrange(i, i + ds.len())[ds.len() - 1] == ds[ds.len() - 1]);
        }
        assert(digits_value(s, i, i + ds.len()) == digits_value(s, i, i + ds.len() - 1) * 10 + (
        s[i + ds.len() - 1] - 0x30));
        vstd::arithmetic::div_mod::lemma_fundamental_div_mod(n as int, 10);
    }
}

/// A number written by [`dec_digits`] and followed by a non-digit parses
/// back to its value.
proof fn lemma_parse_number_of_dec_digits(s: Seq<u8>, i: int, n: u64)
    requires
        0 <= i,
        i + dec_digits(n as nat).len() <= s.len(),
        s.subrange(i, i + dec_digits(n as nat).len()) == dec_digits(n as nat),
        i + dec_digits(n as nat).len() == s.len() || !is_digit(s[i + dec_digits(n as nat).len()]),
    ensures
        parse_number(s, i) == Some((n, i + dec_digits(n as nat).len())),
{
    let ds = dec_digits(n as nat);
    lemma_dec_digits_shape(n as nat);
    assert forall|k: int| i <= k < i + ds.len() implies is_digit(s[k]) by {
        assert(s.subrange(i, i + ds.len())[k - i] == ds[k - i]);
    }
    lemma_digit_run_end_exact(s, i, i + ds.len());
    lemma_digits_value_of_dec_digits(s, i, n as nat);
    assert(s[i] == ds[0]) by {
        assert(s.subrange(i, i + ds.len())[0] == ds[0]);
    }
}

/// Escaping leaves a sequence of plain bytes alone.
proof fn lemma_escape_plain(bs: Seq<u8>)
    requires
        forall|k: int| 0 <= k < bs.len() ==> 0x20 <= bs[k] && bs[k] != 0x22 && bs[k] != 0x5c,
    ensures
        escape_bytes(bs) == bs,
    decreases bs.len(),
{
    if bs.len() > 0 {
        lemma_escape_plain(bs.drop_first());
        assert(escape_bytes(bs) =~= bs);
    }
}

/// Escaped string content followed by a closing quote parses back to the
/// content.
proof fn lemma_parse_escaped_content(s: Seq<u8>, i: int, bs: Seq<u8>)
    requires
        0 <= i,
        i + escape_bytes(bs).len() + 1 <= s.len(),
        s.subrange(i, i + escape_bytes(bs).len() + 1) == escape_bytes(bs) + seq![0x22u8],
    ensures
        parse_str_content(s, i) == Some((bs, i + escape_bytes(bs).len() + 1)),
    decreases bs.len(),
{
    let full = escape_bytes(bs);
    let end = i + full.len() + 1;
    if bs.len() == 0 {
        assert(s[i] == 0x22) by {
            assert(s.subrange(i, end)[0] == (full + seq![0x22u8])[0]);
        }
        assert(bs =~= Seq::<u8>::empty());
    } else {
        let b = bs[0];
        let e = escape_byte(b);
        let rest = escape_bytes(bs.drop_first());
        assert(full == e + rest);
        assert forall|t: int| 0 <= t < e.len() implies s[i + t] == e[t] by {
            assert(s.subrange(i, end)[t] == (full + seq![0x22u8])[t]);
        }
        assert(s.subrange(i + e.len(), end) =~= rest + seq![0x22u8]) by {
            assert forall|t: int| 0 <= t < end - (i + e.len()) implies s.subrange(
                i + e.len(),
                end,
            )[t] == (rest + seq![0x22u8])[t] by {
                assert(s.subrange(i, end)[e.len() + t] == (full + seq![0x22u8])[e.len() + t]);
            }
        }
        lemma_parse_escaped_content(s, i + e.len(), bs.drop_first());
        assert(seq![b] + bs.drop_first() =~= bs);
        if b == 0x22 || b == 0x5c || b == 0x08 || b == 0x09 || b == 0x0a || b == 0x0c || b
            == 0x0d {
            assert(e.len() == 2 && s[i] == 0x5c && s[i + 1] == e[1]);
            assert(short_escape(e[1]) == Some(b));
        } else if b < 0x20 {
            assert(e.len() == 6);
            assert(s[i] == 0x5c && s[i + 1] == 0x75 && s[i + 2] == 0x30 && s[i + 3] == 0x30);
            assert(s[i + 4] == hex_digit((b / 16) as nat) && s[i + 5] == hex_digit(
                (b % 16) as nat,
            ));
            assert(hex_val(0x30) == Some(0nat));
            assert(hex_val(hex_digit((b / 16) as nat)) == Some((b / 16) as nat));
            assert(hex_val(hex_digit((b % 16) as nat)) == Some((b % 16) as nat));
            vstd::arithmetic::div_mod::lemma_fundamental_div_mod(b as int, 16);
            assert(0nat * 4096 + 0nat * 256 + ((b / 16) as nat) * 16 + ((b % 16) as nat) < 0x80);
            assert((0nat * 4096 + 0nat * 256 + ((b / 16) as nat) * 16 + ((b % 16) as nat)) as u8
                == b);
        } else {
            assert(s[i] == b && b >= 0x20 && b != 0x22 && b != 0x5c);
        }
    }
}

/// A quoted, escaped string parses back to its content.
proof fn lemma_parse_quoted(s: Seq<u8>, i: int, bs: Seq<u8>)
    requires
        0 <= i,
        i + escape_bytes(bs).len() + 2 <= s.len(),
        s.subrange(i, i + escape_bytes(bs).len() + 2) == seq![0x22u8] + escape_bytes(bs) + seq![
            0x22u8,
        ],
    ensures
        parse_string(s, i) == Some((bs, i + escape_bytes(bs).len() + 2)),
{
    let full = escape_bytes(bs);
    let end = i + full.len() + 2;
    assert(s[i] == 0x22) by {
        assert(s.subrange(i, end)[0] == (seq![0x22u8] + full + seq![0x22u8])[0]);
    }
    assert(s.subrange(i + 1, end) =~= full + seq![0x22u8]) by {
        assert forall|t: int| 0 <= t < end - (i + 1) implies s.subrange(i + 1, end)[t] == (full
            + seq![0x22u8])[t] by {
            assert(s.subrange(i, end)[1 + t] == (seq![0x22u8] + full + seq![0x22u8])[1 + t]);
        }
    }
    lemma_parse_escaped_content(s, i + 1, bs);
}

/// The fixed tokens hold no byte that escaping would touch.
proof fn lemma_tokens_plain()
    ensures
        escape_bytes(tag_request_vote()) == tag_request_vote(),
        escape_bytes(tag_append_entries()) == tag_append_entries(),
        escape_bytes(tag_vote_granted()) == tag_vote_granted(),
        escape_bytes(name_term()) == name_term(),
        escape_bytes(name_candidate_id()) == name_candidate_id(),
        escape_bytes(name_leader_id()) == name_leader_id(),
{
    assert(forall|k: int|
        0 <= k < tag_request_vote().len() ==> 0x20 <= #[trigger] tag_request_vote()[k]
            && tag_request_vote()[k] != 0x22 && tag_request_vote()[k] != 0x5c);
    lemma_escape_plain(tag_request_vote());
    assert(forall|k: int|
        0 <= k < tag_append_entries().len() ==> 0x20 <= #[trigger] tag_append_entries()[k]
            && tag_append_entries()[k] != 0x22 && tag_append_entries()[k] != 0x5c);
    lemma_escape_plain(tag_append_entries());
    assert(forall|k: int|
        0 <= k < tag_vote_granted().len() ==> 0x20 <= #[trigger] tag_vote_granted()[k]
            && tag_vote_granted()[k] != 0x22 && tag_vote_granted()[k] != 0x5c);
    lemma_escape_plain(tag_vote_granted());
    assert(forall|k: int|
        0 <= k < name_term().len() ==> 0x20 <= #[trigger] name_term()[k] && name_term()[k]
            != 0x22 && name_term()[k] != 0x5c);
    lemma_escape_plain(name_term());
    assert(forall|k: int|
        0 <= k < name_candidate_id().len() ==> 0x20 <= #[trigger] name_candidate_id()[k]
            && name_candidate_id()[k] != 0x22 && name_candidate_id()[k] != 0x5c);
    lemma_escape_plain(name_candidate_id());
    assert(forall|k: int|
        0 <= k < name_leader_id().len() ==> 0x20 <= #[trigger] name_leader_id()[k]
            && name_leader_id()[k] != 0x22 && name_leader_id()[k] != 0x5c);
    lemma_escape_plain(name_leader_id());
}

/// The encoded body of a two-field object, inner closing brace included.
spec fn term_id_body(term: u64, idb: Seq<u8>, id_name: Seq<u8>) -> Seq<u8> {
    key(name_term()) + dec_digits(term as nat) + seq![0x2cu8] + key(id_name) + seq![0x22u8]
        + escape_bytes(idb) + seq![0x22u8, 0x7du8]
}

/// The encoded two-field body parses back to its term and content bytes.
#[verifier::rlimit(100)]
proof fn lemma_parse_term_id_body(s: Seq<u8>, p: int, term: u64, idb: Seq<u8>, id_name: Seq<u8>)
    requires
        0 <= p,
        id_name == name_candidate_id() || id_name == name_leader_id(),
        p + term_id_body(term, idb, id_name).len() <= s.len(),
        s.subrange(p, p + term_id_body(term, idb, id_name).len()) == term_id_body(
            term,
            idb,
            id_name,
        ),
    ensures
        parse_term_id_object(s, p, id_name) == Some(
            ((term, idb), p + term_id_body(term, idb, id_name).len()),
        ),
{
    lemma_tokens_plain();
    let body = term_id_body(term, idb, id_name);
    let dig = dec_digits(term as nat);
    let ld = dig.len() as int;
    let idl = id_name.len() as int;
    let esc = escape_bytes(idb);
    let le = esc.len() as int;
    lemma_dec_digits_shape(term as nat);
    assert(key(name_term()).len() == 7);
    assert(key(id_name).len() == idl + 3);
    assert(body.len() == 14 + ld + idl + le);
    assert forall|t: int| 0 <= t < body.len() implies s[p + t] == body[t] by {
        assert(s.subrange(p, p + body.len())[t] == body[t]);
    }
    // "term" in quotes
    assert(s[p] == body[0] && s[p + 5] == body[5] && s[p + 6] == body[6]);
    assert(s[p] == 0x22 && s[p + 5] == 0x22 && s[p + 6] == 0x3a);
    assert(s.subrange(p, p + 6) =~= seq![0x22u8] + escape_bytes(name_term()) + seq![0x22u8]);
    lemma_parse_quoted(s, p, name_term());
    assert(skip_ws(s, p) == p);
    assert(skip_ws(s, p + 6) == p + 6);
    // the number, terminated by the comma
    assert(s[p + 7] == body[7] && body[7] == dig[0]);
    assert(is_digit(dig[0]));
    assert(skip_ws(s, p + 7) == p + 7);
    assert(s.subrange(p + 7, p + 7 + ld) =~= dig) by {
        assert forall|t: int| 0 <= t < ld implies s.subrange(p + 7, p + 7 + ld)[t] == dig[t] by {
            assert(s.subrange(p, p + body.len())[7 + t] == body[7 + t]);
            assert(body[7 + t] == dig[t]);
        }
    }
    assert(s[p + 7 + ld] == body[7 + ld] && body[7 + ld] == 0x2c);
    lemma_parse_number_of_dec_digits(s, p + 7, term);
    assert(skip_ws(s, p + 7 + ld) == p + 7 + ld);
    // the id field's name in quotes
    assert(s[p + 8 + ld] == body[8 + ld] && body[8 + ld] == 0x22);
    assert(skip_ws(s, p + 8 + ld) == p + 8 + ld);
    assert(s.subrange(p + 8 + ld, p + 10 + ld + idl) =~= seq![0x22u8] + escape_bytes(id_name)
        + seq![0x22u8]) by {
        assert forall|t: int| 0 <= t < idl + 2 implies s.subrange(p + 8 + ld, p + 10 + ld + idl)[t]
            == (seq![0x22u8] + id_name + seq![0x22u8])[t] by {
            assert(s.subrange(p, p + body.len())[8 + ld + t] == body[8 + ld + t]);
        }
    }
    lemma_parse_quoted(s, p + 8 + ld, id_name);
    assert(s[p + 10 + ld + idl] == body[10 + ld + idl] && body[10 + ld + idl] == 0x3a);
    assert(skip_ws(s, p + 10 + ld + idl) == p + 10 + ld + idl);
    // the id itself in quotes
    assert(s[p + 11 + ld + idl] == body[11 + ld + idl] && body[11 + ld + idl] == 0x22);
    assert(skip_ws(s, p + 11 + ld + idl) == p + 11 + ld + idl);
    assert(s.subrange(p + 11 + ld + idl, p + 13 + ld + idl + le) =~= seq![0x22u8] + esc + seq![
        0x22u8,
    ]) by {
        assert forall|t: int|
            0 <= t < le + 2 implies s.subrange(p + 11 + ld + idl, p + 13 + ld + idl + le)[t] == (
            seq![0x22u8] + esc + seq![0x22u8])[t] by {
            assert(s.subrange(p, p + body.len())[11 + ld + idl + t] == body[11 + ld + idl + t]);
        }
    }
    lemma_parse_quoted(s, p + 11 + ld + idl, idb);
    // the inner closing brace
    assert(s[p + 13 + ld + idl + le] == body[13 + ld + idl + le] && body[13 + ld + idl + le]
        == 0x7d);
    assert(skip_ws(s, p + 13 + ld + idl + le) == p + 13 + ld + idl + le);
    assert(id_name != name_term());
    assert(body.len() == 14 + ld + idl + le);
}

/// Decoding inverts encoding: the wire form of any message parses back to
/// exactly that message.
#[verifier::rlimit(100)]
pub proof fn lemma_encode_decode(m: MessageView)
    ensures
        parse_msg(encode_msg(m)) == Some(m),
{
    lemma_tokens_plain();
    let s = encode_msg(m);
    match m {
        MessageView::RequestVote { term, candidate_id } => {
            lemma_round_trip_two_field(m, tag_request_vote(), term, candidate_id, true);
        },
        MessageView::AppendEntries { term, leader_id } => {
            lemma_round_trip_two_field(m, tag_append_entries(), term, leader_id, false);
        },
        MessageView::VoteGranted { term } => {
            let dig = dec_digits(term as nat);
            let ld = dig.len() as int;
            lemma_dec_digits_shape(term as nat);
            assert(s =~= seq![0x7bu8] + key(tag_vote_granted()) + seq![0x7bu8] + key(name_term())
                + dig + seq![0x7du8] + seq![0x7du8]);
            assert(s[0] == 0x7b && s[1] == 0x22 && s[13] == 0x22 && s[14] == 0x3a && s[15]
                == 0x7b);
            assert(skip_ws(s, 0) == 0);
            assert(skip_ws(s, 1) == 1);
            assert(s.subrange(1, 14) =~= seq![0x22u8] + escape_bytes(tag_vote_granted()) + seq![
                0x22u8,
            ]);
            lemma_parse_quoted(s, 1, tag_vote_granted());
            assert(skip_ws(s, 14) == 14);
            assert(skip_ws(s, 15) == 15);
            assert(tag_vote_granted() != tag_request_vote());
            assert(tag_vote_granted() != tag_append_entries());
            // the one-field body
            assert(s[16] == 0x22 && s[21] == 0x22 && s[22] == 0x3a);
            assert(skip_ws(s, 16) == 16);
            assert(s.subrange(16, 22) =~= seq![0x22u8] + escape_bytes(name_term()) + seq![
                0x22u8,
            ]);
            lemma_parse_quoted(s, 16, name_term());
            assert(skip_ws(s, 22) == 22);
            assert(s[23] == dig[0] && is_digit(dig[0]));
            assert(skip_ws(s, 23) == 23);
            assert(s.subrange(23, 23 + ld) =~= dig);
            assert(s[23 + ld] == 0x7d);
            lemma_parse_number_of_dec_digits(s, 23, term);
            assert(skip_ws(s, 23 + ld) == 23 + ld);
            assert(parse_term_object(s, 16) == Some((term, 24 + ld)));
            // the tail
            assert(s[24 + ld] == 0x7d);
            assert(skip_ws(s, 24 + ld) == 24 + ld);
            assert(skip_ws(s, 25 + ld) == 25 + ld == s.len());
            assert(closed_at_end(s, 24 + ld));
        },
    }
}

/// The shared walk for the two message kinds with a term and an endpoint.
#[verifier::rlimit(100)]
proof fn lemma_round_trip_two_field(
    m: MessageView,
    tag: Seq<u8>,
    term: u64,
    id: Seq<char>,
    is_request: bool,
)
    requires
        is_request ==> m == (MessageView::RequestVote { term, candidate_id: id }) && tag
            == tag_request_vote(),
        !is_request ==> m == (MessageView::AppendEntries { term, leader_id: id }) && tag
            == tag_append_entries(),
    ensures
        parse_msg(encode_msg(m)) == Some(m),
{
    lemma_tokens_plain();
    vstd::utf8::encode_utf8_valid_utf8(id);
    vstd::utf8::encode_utf8_decode_utf8(id);
    let s = encode_msg(m);
    let lt = tag.len() as int;
    let id_name = if is_request {
        name_candidate_id()
    } else {
        name_leader_id()
    };
    let body = term_id_body(term, encode_utf8(id), id_name);
    lemma_two_field_layout(m, tag, term, id, is_request);
    lemma_parse_quoted(s, 1, tag);
    assert(skip_ws(s, 0) == 0);
    assert(skip_ws(s, 1) == 1);
    assert(skip_ws(s, 3 + lt) == 3 + lt);
    assert(skip_ws(s, 4 + lt) == 4 + lt);
    assert(tag_request_vote() != tag_append_entries());
    assert(tag_request_vote() != tag_vote_granted());
    assert(tag_append_entries() != tag_vote_granted());
    let p: int = 5 + lt;
    lemma_parse_term_id_body(s, p, term, encode_utf8(id), id_name);
    let q: int = p + body.len() as int;
    assert(skip_ws(s, q) == q);
    assert(skip_ws(s, q + 1) == q + 1 == s.len());
    assert(closed_at_end(s, q));
}

/// Where each region of the two-field wire form lies.
#[verifier::rlimit(100)]
proof fn lemma_two_field_layout(
    m: MessageView,
    tag: Seq<u8>,
    term: u64,
    id: Seq<char>,
    is_request: bool,
)
    requires
        is_request ==> m == (MessageView::RequestVote { term, candidate_id: id }) && tag
            == tag_request_vote(),
        !is_request ==> m == (MessageView::AppendEntries { term, leader_id: id }) && tag
            == tag_append_entries(),
    ensures
        ({
            let s = encode_msg(m);
            let lt = tag.len() as int;
            let body = term_id_body(
                term,
                encode_utf8(id),
                if is_request {
                    name_candidate_id()
                } else {
                    name_leader_id()
                },
            );
            &&& s.len() == 6 + lt + body.len()
            &&& s[0] == 0x7b
            &&& s[1] == 0x22
            &&& s[2 + lt] == 0x22
            &&& s[3 + lt] == 0x3a
            &&& s[4 + lt] == 0x7b
            &&& s[5 + lt + body.len()] == 0x7d
            &&& s.subrange(1, 3 + lt) == seq![0x22u8] + escape_bytes(tag) + seq![0x22u8]
            &&& s.subrange(5 + lt, 5 + lt + body.len()) == body
        }),
{
    lemma_tokens_plain();
    let s = encode_msg(m);
    let lt = tag.len() as int;
    let id_name = if is_request {
        name_candidate_id()
    } else {
        name_leader_id()
    };
    let body = term_id_body(term, encode_utf8(id), id_name);
    assert(s =~= seq![0x7bu8] + key(tag) + seq![0x7bu8] + body + seq![0x7du8]);
    let r = seq![0x7bu8] + key(tag) + seq![0x7bu8] + body + seq![0x7du8];
    assert(s[1] == r[1] && s[2 + lt] == r[2 + lt] && s[3 + lt] == r[3 + lt] && s[4 + lt] == r[4
        + lt] && s[5 + lt + body.len()] == r[5 + lt + body.len()]);
    assert(s.subrange(1, 3 + lt) =~= seq![0x22u8] + escape_bytes(tag) + seq![0x22u8]) by {
        assert forall|t: int| 0 <= t < 2 + lt implies s.subrange(1, 3 + lt)[t] == (seq![0x22u8]
            + tag + seq![0x22u8])[t] by {
            assert(s[1 + t] == r[1 + t]);
        }
    }
    assert(s.subrange(5 + lt, 5 + lt + body.len()) =~= body) by {
        assert forall|t: int| 0 <= t < body.len() implies s.subrange(
            5 + lt,
            5 + lt + body.len(),
        )[t] == body[t] by {
            assert(s[5 + lt + t] == r[5 + lt + t]);
        }
    }
}

} // verus!
