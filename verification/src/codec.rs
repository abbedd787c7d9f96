//! The codec: a task forest to and from its persisted text document, a
//! pretty-printed JSON array of task objects.

use vstd::prelude::*;
use vstd::string::{StrSliceExecFns, StringExecFns};
use crate::task::{forest_view, lemma_node_views, node_view, node_views, NodeView, TodoItem};
use crate::text::{char_from_u32, push_char};

verus! {

// ---------------------------------------------------------------------------
// The document grammar, spec side.
// ---------------------------------------------------------------------------

/// JSON whitespace.
pub open spec fn is_jws(c: char) -> bool {
    c == ' ' || c == '\t' || c == '\n' || c == '\r'
}

/// `s` without its leading JSON whitespace.
pub open spec fn jws(s: Seq<char>) -> Seq<char>
    decreases s.len(),
{
    if s.len() > 0 && is_jws(s[0]) {
        jws(s.drop_first())
    } else {
        s
    }
}

/// A hexadecimal digit.
pub open spec fn is_hex_digit(c: char) -> bool {
    ('0' <= c && c <= '9') || ('a' <= c && c <= 'f') || ('A' <= c && c <= 'F')
}

/// The value of a hexadecimal digit.
pub open spec fn hex_val(c: char) -> nat {
    if '0' <= c && c <= '9' {
        (c as u32 - '0' as u32) as nat
    } else if 'a' <= c && c <= 'f' {
        (c as u32 - 'a' as u32 + 10) as nat
    } else {
        (c as u32 - 'A' as u32 + 10) as nat
    }
}

/// The lowercase digit for a value below sixteen.
pub open spec fn hex_digit(n: nat) -> char {
    if n < 10 {
        (('0' as u32) + n as u32) as char
    } else {
        (('a' as u32) + (n - 10) as u32) as char
    }
}

/// Two spaces for each nesting level.
pub open spec fn spaces2(n: nat) -> Seq<char>
    decreases n,
{
    if n == 0 {
        Seq::<char>::empty()
    } else {
        spaces2((n - 1) as nat) + seq![' ', ' ']
    }
}

/// A line break followed by the indentation of the given nesting level.
pub open spec fn nli(ind: nat) -> Seq<char> {
    seq!['\n'] + spaces2(ind)
}

/// How one character of text is written inside a JSON string: itself, a
/// short escape, or a `\u00..` escape for the remaining control characters.
pub open spec fn enc_char(c: char) -> Seq<char> {
    if c == '"' {
        seq!['\\', '"']
    } else if c == '\\' {
        seq!['\\', '\\']
    } else if c == '\u{8}' {
        seq!['\\', 'b']
    } else if c == '\t' {
        seq!['\\', 't']
    } else if c == '\n' {
        seq!['\\', 'n']
    } else if c == '\u{c}' {
        seq!['\\', 'f']
    } else if c == '\r' {
        seq!['\\', 'r']
    } else if (c as u32) < 0x20 {
        seq!['\\', 'u', '0', '0', hex_digit((c as u32 / 16) as nat), hex_digit(
            (c as u32 % 16) as nat,
        )]
    } else {
        seq![c]
    }
}

/// The body of a JSON string: each character written in turn.
pub open spec fn enc_str_body(s: Seq<char>) -> Seq<char>
    decreases s.len(),
{
    if s.len() == 0 {
        Seq::<char>::empty()
    } else {
        enc_char(s[0]) + enc_str_body(s.drop_first())
    }
}

/// A JSON string: the escaped body between double quotes.
pub open spec fn enc_string(s: Seq<char>) -> Seq<char> {
    seq!['"'] + enc_str_body(s) + seq!['"']
}

/// A JSON boolean.
pub open spec fn enc_bool(b: bool) -> Seq<char> {
    if b {
        seq!['t', 'r', 'u', 'e']
    } else {
        seq!['f', 'a', 'l', 's', 'e']
    }
}

/// The four field names of a task object.
pub open spec fn key_title() -> Seq<char> {
    seq!['t', 'i', 't', 'l', 'e']
}

pub open spec fn key_details() -> Seq<char> {
    seq!['d', 'e', 't', 'a', 'i', 'l', 's']
}

pub open spec fn key_completed() -> Seq<char> {
    seq!['c', 'o', 'm', 'p', 'l', 'e', 't', 'e', 'd']
}

pub open spec fn key_children() -> Seq<char> {
    seq!['c', 'h', 'i', 'l', 'd', 'r', 'e', 'n']
}

/// One written field: a line break and its indentation, the quoted key, a
/// colon and a space, and the already-written value.
pub open spec fn enc_kv(key: Seq<char>, v: Seq<char>, ind: nat) -> Seq<char> {
    nli(ind) + enc_string(key) + seq![':', ' '] + v
}

/// One task object, pretty-printed at the given nesting level: the four
/// fields in declaration order, each on its own indented line.
pub open spec fn enc_node(t: NodeView, ind: nat) -> Seq<char>
    decreases t, 1nat,
{
    seq!['{'] + enc_kv(key_title(), enc_string(t.title), ind + 1) + seq![','] + enc_kv(
        key_details(),
        enc_string(t.details),
        ind + 1,
    ) + seq![','] + enc_kv(key_completed(), enc_bool(t.completed), ind + 1) + seq![','] + enc_kv(
        key_children(),
        enc_array(t.children, ind + 1),
        ind + 1,
    ) + nli(ind) + seq!['}']
}

/// A task array, pretty-printed: `[]` when empty, else one element per
/// indented line.
pub open spec fn enc_array(list: Seq<NodeView>, ind: nat) -> Seq<char>
    decreases list, 0nat,
{
    if list.len() == 0 {
        seq!['[', ']']
    } else {
        seq!['['] + nli(ind + 1) + enc_node(list[0], ind + 1) + enc_elems_tail(
            list.drop_first(),
            ind + 1,
        ) + nli(ind) + seq![']']
    }
}

/// The second and later elements of an array: a comma, a line break, the
/// element, and so on.
pub open spec fn enc_elems_tail(list: Seq<NodeView>, ind: nat) -> Seq<char>
    decreases list, 2nat,
{
    if list.len() == 0 {
        Seq::<char>::empty()
    } else {
        seq![','] + nli(ind) + enc_node(list[0], ind) + enc_elems_tail(list.drop_first(), ind)
    }
}

/// The whole persisted document: the root array and a final line break.
pub open spec fn enc_doc(f: Seq<NodeView>) -> Seq<char> {
    enc_array(f, 0) + seq!['\n']
}

// ---------------------------------------------------------------------------
// The parser, spec side. Each function takes the remaining text and returns
// the parsed value and what follows it, or nothing when the text conforms to
// no task document. Recursive calls are guarded by a strict length decrease,
// which every successful parse step provides.
// ---------------------------------------------------------------------------

/// A parsed boolean and the rest of the text.
pub open spec fn parse_bool(s: Seq<char>) -> Option<(bool, Seq<char>)> {
    if s.len() >= 4 && s[0] == 't' && s[1] == 'r' && s[2] == 'u' && s[3] == 'e' {
        Some((true, s.skip(4)))
    } else if s.len() >= 5 && s[0] == 'f' && s[1] == 'a' && s[2] == 'l' && s[3] == 's' && s[4]
        == 'e' {
        Some((false, s.skip(5)))
    } else {
        None
    }
}

/// A parsed escape sequence (after the backslash) and the rest of the text.
/// A `\u` escape outside the basic plane is a surrogate pair: a high
/// surrogate immediately followed by a second `\u` escape with the low one.
pub open spec fn parse_esc(s: Seq<char>) -> Option<(char, Seq<char>)> {
    if s.len() == 0 {
        None
    } else if s[0] == '"' || s[0] == '\\' || s[0] == '/' {
        Some((s[0], s.drop_first()))
    } else if s[0] == 'b' {
        Some(('\u{8}', s.drop_first()))
    } else if s[0] == 'f' {
        Some(('\u{c}', s.drop_first()))
    } else if s[0] == 'n' {
        Some(('\n', s.drop_first()))
    } else if s[0] == 'r' {
        Some(('\r', s.drop_first()))
    } else if s[0] == 't' {
        Some(('\t', s.drop_first()))
    } else if s[0] == 'u' && s.len() >= 5 && is_hex_digit(s[1]) && is_hex_digit(s[2])
        && is_hex_digit(s[3]) && is_hex_digit(s[4]) {
        let v = hex_val(s[1]) * 0x1000 + hex_val(s[2]) * 0x100 + hex_val(s[3]) * 16 + hex_val(
            s[4],
        );
        if 0xDC00 <= v && v <= 0xDFFF {
            None
        } else if 0xD800 <= v && v <= 0xDBFF {
            if s.len() >= 11 && s[5] == '\\' && s[6] == 'u' && is_hex_digit(s[7]) && is_hex_digit(
                s[8],
            ) && is_hex_digit(s[9]) && is_hex_digit(s[10]) {
                let w = hex_val(s[7]) * 0x1000 + hex_val(s[8]) * 0x100 + hex_val(s[9]) * 16
                    + hex_val(s[10]);
                if 0xDC00 <= w && w <= 0xDFFF {
                    Some(
                        (((0x10000 + (v - 0xD800) * 0x400 + (w - 0xDC00)) as u32) as char, s.skip(
                            11,
                        )),
                    )
                } else {
                    None
                }
            } else {
                None
            }
        } else {
            Some(((v as u32) as char, s.skip(5)))
        }
    } else {
        None
    }
}

/// The body of a JSON string after the opening quote: the decoded text and
/// what follows the closing quote.
pub open spec fn parse_strbody(s: Seq<char>) -> Option<(Seq<char>, Seq<char>)>
    decreases s.len(),
{
    if s.len() == 0 {
        None
    } else if s[0] == '"' {
        Some((Seq::<char>::empty(), s.drop_first()))
    } else if s[0] == '\\' {
        match parse_esc(s.drop_first()) {
            None => None,
            Some((c, r)) => if r.len() < s.len() {
                match parse_strbody(r) {
                    None => None,
                    Some((body, rr)) => Some((seq![c] + body, rr)),
                }
            } else {
                None
            },
        }
    } else if (s[0] as u32) >= 0x20 {
        match parse_strbody(s.drop_first()) {
            None => None,
            Some((body, rr)) => Some((seq![s[0]] + body, rr)),
        }
    } else {
        None
    }
}

/// A parsed JSON string and the rest of the text.
pub open spec fn parse_string(s: Seq<char>) -> Option<(Seq<char>, Seq<char>)> {
    if s.len() > 0 && s[0] == '"' {
        parse_strbody(s.drop_first())
    } else {
        None
    }
}

/// The fields of a task object seen so far, at most one of each.
#[verifier::ext_equal]
pub struct Slots {
    pub title: Option<Seq<char>>,
    pub details: Option<Seq<char>>,
    pub completed: Option<bool>,
    pub children: Option<Seq<NodeView>>,
}

/// No field seen yet.
pub open spec fn no_slots() -> Slots {
    Slots { title: None, details: None, completed: None, children: None }
}

/// One `"key": value` pair at the head of `s`: the slots with that field
/// filled, and the rest of the text. A repeated or unknown key, or a value of
/// the wrong shape, conforms to no task document.
pub open spec fn parse_one_field(s: Seq<char>, slots: Slots) -> Option<(Slots, Seq<char>)>
    decreases s.len(), 0nat,
{
    match parse_string(s) {
        None => None,
        Some((key, r1)) => {
            let r2 = jws(r1);
            if r2.len() > 0 && r2[0] == ':' {
                let r3 = jws(r2.drop_first());
                if key == key_title() {
                    if slots.title is Some {
                        None
                    } else {
                        match parse_string(r3) {
                            None => None,
                            Some((v, r4)) => Some((Slots { title: Some(v), ..slots }, r4)),
                        }
                    }
                } else if key == key_details() {
                    if slots.details is Some {
                        None
                    } else {
                        match parse_string(r3) {
                            None => None,
                            Some((v, r4)) => Some((Slots { details: Some(v), ..slots }, r4)),
                        }
                    }
                } else if key == key_completed() {
                    if slots.completed is Some {
                        None
                    } else {
                        match parse_bool(r3) {
                            None => None,
                            Some((v, r4)) => Some((Slots { completed: Some(v), ..slots }, r4)),
                        }
                    }
                } else if key == key_children() {
                    if slots.children is Some {
                        None
                    } else {
                        if r3.len() < s.len() {
                            match parse_array(r3) {
                                None => None,
                                Some((v, r4)) => Some((Slots { children: Some(v), ..slots }, r4)),
                            }
                        } else {
                            None
                        }
                    }
                } else {
                    None
                }
            } else {
                None
            }
        },
    }
}

/// The fields of a task object after its opening brace: the finished task and
/// the text after the closing brace. All four fields must appear.
pub open spec fn parse_fields(s: Seq<char>, slots: Slots) -> Option<(NodeView, Seq<char>)>
    decreases s.len(), 2nat,
{
    match parse_one_field(s, slots) {
        None => None,
        Some((slots2, r)) => {
            let r5 = jws(r);
            if r5.len() > 0 && r5[0] == ',' {
                let r6 = jws(r5.drop_first());
                if r6.len() < s.len() {
                    parse_fields(r6, slots2)
                } else {
                    None
                }
            } else if r5.len() > 0 && r5[0] == '}' {
                match (slots2.title, slots2.details, slots2.completed, slots2.children) {
                    (Some(t), Some(d), Some(c), Some(ch)) => Some(
                        (NodeView { title: t, details: d, completed: c, children: ch }, r5.drop_first()),
                    ),
                    _ => None,
                }
            } else {
                None
            }
        },
    }
}

/// One task object and the rest of the text.
pub open spec fn parse_node(s: Seq<char>) -> Option<(NodeView, Seq<char>)>
    decreases s.len(), 1nat,
{
    if s.len() > 0 && s[0] == '{' {
        let r = jws(s.drop_first());
        if r.len() < s.len() {
            parse_fields(r, no_slots())
        } else {
            None
        }
    } else {
        None
    }
}

/// The elements of a nonempty task array and the text after its closing
/// bracket.
pub open spec fn parse_elems(s: Seq<char>) -> Option<(Seq<NodeView>, Seq<char>)>
    decreases s.len(), 3nat,
{
    match parse_node(s) {
        None => None,
        Some((t, r)) => {
            let r5 = jws(r);
            if r5.len() > 0 && r5[0] == ',' {
                let r6 = jws(r5.drop_first());
                if r6.len() < s.len() {
                    match parse_elems(r6) {
                        None => None,
                        Some((rest_list, rr)) => Some((seq![t] + rest_list, rr)),
                    }
                } else {
                    None
                }
            } else if r5.len() > 0 && r5[0] == ']' {
                Some((seq![t], r5.drop_first()))
            } else {
                None
            }
        },
    }
}

/// A task array and the rest of the text.
pub open spec fn parse_array(s: Seq<char>) -> Option<(Seq<NodeView>, Seq<char>)>
    decreases s.len(), 4nat,
{
    if s.len() > 0 && s[0] == '[' {
        let r = jws(s.drop_first());
        if r.len() > 0 && r[0] == ']' {
            Some((Seq::<NodeView>::empty(), r.drop_first()))
        } else {
            if r.len() < s.len() {
                parse_elems(r)
            } else {
                None
            }
        }
    } else {
        None
    }
}

/// A whole document: one task array with nothing but whitespace around it,
/// or nothing if the text conforms to no task document.
pub open spec fn parse_doc(s: Seq<char>) -> Option<Seq<NodeView>> {
    match parse_array(jws(s)) {
        None => None,
        Some((f, r)) => if jws(r).len() == 0 {
            Some(f)
        } else {
            None
        },
    }
}

// ---------------------------------------------------------------------------
// The encoder, exec side.
// ---------------------------------------------------------------------------

/// Writing one more character extends the written string body.
proof fn lemma_enc_str_body_snoc(x: Seq<char>, c: char)
    ensures
        enc_str_body(x.push(c)) == enc_str_body(x) + enc_char(c),
    decreases x.len(),
{
    if x.len() == 0 {
        assert(x.push(c)[0] == c);
        assert(x.push(c).drop_first() =~= Seq::<char>::empty());
        assert(enc_str_body(Seq::<char>::empty()) == Seq::<char>::empty());
        assert(enc_str_body(x.push(c)) =~= enc_str_body(x) + enc_char(c));
    } else {
        assert(x.push(c)[0] == x[0]);
        assert(x.push(c).drop_first() =~= x.drop_first().push(c));
        lemma_enc_str_body_snoc(x.drop_first(), c);
        assert(enc_str_body(x.push(c)) == enc_char(x[0]) + (enc_str_body(x.drop_first())
            + enc_char(c)));
        assert(enc_str_body(x.push(c)) =~= enc_str_body(x) + enc_char(c));
    }
}

/// Writing one more array element extends the written element tail.
proof fn lemma_enc_elems_tail_snoc(x: Seq<NodeView>, t: NodeView, ind: nat)
    ensures
        enc_elems_tail(x.push(t), ind) == enc_elems_tail(x, ind) + (seq![','] + nli(ind)
            + enc_node(t, ind)),
    decreases x.len(),
{
    if x.len() == 0 {
        assert(x.push(t)[0] == t);
        assert(x.push(t).drop_first() =~= Seq::<NodeView>::empty());
        assert(enc_elems_tail(Seq::<NodeView>::empty(), ind) == Seq::<char>::empty());
        assert(enc_elems_tail(x.push(t), ind) =~= enc_elems_tail(x, ind) + (seq![','] + nli(ind)
            + enc_node(t, ind)));
    } else {
        assert(x.push(t)[0] == x[0]);
        assert(x.push(t).drop_first() =~= x.drop_first().push(t));
        lemma_enc_elems_tail_snoc(x.drop_first(), t, ind);
        assert(enc_elems_tail(x.push(t), ind) =~= enc_elems_tail(x, ind) + (seq![','] + nli(ind)
            + enc_node(t, ind)));
    }
}

/// The lowercase digit character for a value below sixteen.
fn hex_digit_exec(d: u32) -> (r: char)
    requires
        d < 16,
    ensures
        r == hex_digit(d as nat),
{
    if d < 10 {
        (48 + d as u8) as char
    } else {
        (87 + d as u8) as char
    }
}

/// Appends a line break and the given indentation.
fn write_nli(indent: &str, ghost_ind: Ghost<nat>, out: &mut String)
    requires
        indent@ == spaces2(ghost_ind@),
    ensures
        final(out)@ == old(out)@ + nli(ghost_ind@),
{
    out.append("\n");
    out.append(indent);
    proof {
        reveal_strlit("\n");
        assert(final(out)@ =~= old(out)@ + nli(ghost_ind@));
    }
}

/// Appends the text as a JSON string, escaping as `enc_string` says.
fn write_string(s: &str, out: &mut String)
    ensures
        final(out)@ == old(out)@ + enc_string(s@),
{
    push_char(out, '"');
    let n = s.unicode_len();
    let mut i: usize = 0;
    while i < n
        invariant
            i <= n,
            n == s@.len(),
            out@ == old(out)@ + seq!['"'] + enc_str_body(s@.take(i as int)),
        decreases n - i,
    {
        let ghost pre = out@;
        let c = s.get_char(i);
        if c == '"' {
            out.append("\\\"");
            proof {
                reveal_strlit("\\\"");
                assert(pre + "\\\""@ =~= pre + enc_char(c));
            }
        } else if c == '\\' {
            out.append("\\\\");
            proof {
                reveal_strlit("\\\\");
                assert(pre + "\\\\"@ =~= pre + enc_char(c));
            }
        } else if c == '\u{8}' {
            out.append("\\b");
            proof {
                reveal_strlit("\\b");
                assert(pre + "\\b"@ =~= pre + enc_char(c));
            }
        } else if c == '\t' {
            out.append("\\t");
            proof {
                reveal_strlit("\\t");
                assert(pre + "\\t"@ =~= pre + enc_char(c));
            }
        } else if c == '\n' {
            out.append("\\n");
            proof {
                reveal_strlit("\\n");
                assert(pre + "\\n"@ =~= pre + enc_char(c));
            }
        } else if c == '\u{c}' {
            out.append("\\f");
            proof {
                reveal_strlit("\\f");
                assert(pre + "\\f"@ =~= pre + enc_char(c));
            }
        } else if c == '\r' {
            out.append("\\r");
            proof {
                reveal_strlit("\\r");
                assert(pre + "\\r"@ =~= pre + enc_char(c));
            }
        } else if (c as u32) < 0x20 {
            out.append("\\u00");
            let u = c as u32;
            push_char(out, hex_digit_exec(u / 16));
            push_char(out, hex_digit_exec(u % 16));
            proof {
                reveal_strlit("\\u00");
                assert(out@ =~= pre + enc_char(c));
            }
        } else {
            push_char(out, c);
            proof {
                assert(pre.push(c) =~= pre + enc_char(c));
            }
        }
        proof {
            assert(s@.take(i + 1) =~= s@.take(i as int).push(s@[i as int]));
            lemma_enc_str_body_snoc(s@.take(i as int), s@[i as int]);
            assert(out@ =~= old(out)@ + seq!['"'] + enc_str_body(s@.take(i + 1)));
        }
        i += 1;
    }
    push_char(out, '"');
    proof {
        assert(s@.take(n as int) =~= s@);
        assert(final(out)@ =~= old(out)@ + enc_string(s@));
    }
}


/// Appends a line break, the indentation, the quoted key, and `: `.
fn write_key(key: &str, deeper: &str, gi: Ghost<nat>, out: &mut String)
    requires
        deeper@ == spaces2(gi@),
    ensures
        final(out)@ == old(out)@ + nli(gi@) + enc_string(key@) + seq![':', ' '],
{
    write_nli(deeper, gi, out);
    write_string(key, out);
    out.append(": ");
    proof {
        reveal_strlit(": ");
        assert(": "@ =~= seq![':', ' ']);
    }
}

/// Appends one string-valued field and its trailing comma.
fn write_kv_string(key: &str, val: &str, deeper: &str, gi: Ghost<nat>, out: &mut String)
    requires
        deeper@ == spaces2(gi@),
    ensures
        final(out)@ == old(out)@ + enc_kv(key@, enc_string(val@), gi@) + seq![','],
{
    write_key(key, deeper, gi, out);
    write_string(val, out);
    out.append(",");
    proof {
        reveal_strlit(",");
        assert(final(out)@ =~= old(out)@ + enc_kv(key@, enc_string(val@), gi@) + seq![',']);
    }
}

/// Appends one boolean-valued field and its trailing comma.
fn write_kv_bool(key: &str, b: bool, deeper: &str, gi: Ghost<nat>, out: &mut String)
    requires
        deeper@ == spaces2(gi@),
    ensures
        final(out)@ == old(out)@ + enc_kv(key@, enc_bool(b), gi@) + seq![','],
{
    write_key(key, deeper, gi, out);
    if b {
        out.append("true");
        proof {
            reveal_strlit("true");
            assert("true"@ =~= enc_bool(true));
        }
    } else {
        out.append("false");
        proof {
            reveal_strlit("false");
            assert("false"@ =~= enc_bool(false));
        }
    }
    out.append(",");
    proof {
        reveal_strlit(",");
        assert(final(out)@ =~= old(out)@ + enc_kv(key@, enc_bool(b), gi@) + seq![',']);
    }
}

/// The written object equals its written fields, read left to right.
#[verifier::rlimit(100)]
#[verifier::spinoff_prover]
proof fn lemma_enc_node_assoc(t: NodeView, ind: nat, base: Seq<char>)
    ensures
        base + seq!['{'] + enc_kv(key_title(), enc_string(t.title), ind + 1) + seq![','] + enc_kv(
            key_details(),
            enc_string(t.details),
            ind + 1,
        ) + seq![','] + enc_kv(key_completed(), enc_bool(t.completed), ind + 1) + seq![','] + nli(
            ind + 1,
        ) + enc_string(key_children()) + seq![':', ' '] + enc_array(t.children, ind + 1) + nli(ind)
            + seq!['}'] == base + enc_node(t, ind),
{
    assert(base + seq!['{'] + enc_kv(key_title(), enc_string(t.title), ind + 1) + seq![',']
        + enc_kv(key_details(), enc_string(t.details), ind + 1) + seq![','] + enc_kv(
        key_completed(),
        enc_bool(t.completed),
        ind + 1,
    ) + seq![','] + nli(ind + 1) + enc_string(key_children()) + seq![':', ' '] + enc_array(
        t.children,
        ind + 1,
    ) + nli(ind) + seq!['}'] =~= base + enc_node(t, ind));
}

impl TodoItem {
    /// Appends the task as a pretty-printed JSON object at the indentation
    /// that `indent` holds.
    #[verifier::rlimit(100)]
    #[verifier::spinoff_prover]
    fn write_node(&self, indent: &str, ghost_ind: Ghost<nat>, out: &mut String)
        requires
            indent@ == spaces2(ghost_ind@),
        ensures
            final(out)@ == old(out)@ + enc_node(self@, ghost_ind@),
        decreases *self, 1nat,
    {
        let ghost ind = ghost_ind@;
        let mut deeper = indent.to_owned();
        deeper.append("  ");
        proof {
            reveal_strlit("  ");
            assert(deeper@ =~= spaces2(ind + 1));
        }
        push_char(out, '{');
        write_kv_string("title", self.title.as_str(), deeper.as_str(), Ghost(ind + 1), out);
        write_kv_string("details", self.details.as_str(), deeper.as_str(), Ghost(ind + 1), out);
        write_kv_bool("completed", self.completed, deeper.as_str(), Ghost(ind + 1), out);
        write_key("children", deeper.as_str(), Ghost(ind + 1), out);
        write_array_at(&self.children, deeper.as_str(), Ghost(ind + 1), out);
        write_nli(indent, ghost_ind, out);
        push_char(out, '}');
        proof {
            reveal_strlit("title");
            reveal_strlit("details");
            reveal_strlit("completed");
            reveal_strlit("children");
            assert("title"@ =~= key_title());
            assert("details"@ =~= key_details());
            assert("completed"@ =~= key_completed());
            assert("children"@ =~= key_children());
            assert(self@.title == self.title@);
            assert(self@.details == self.details@);
            assert(self@.children == node_views(self.children@));
            lemma_enc_node_assoc(self@, ind, old(out)@);
            assert(out@ == old(out)@ + enc_node(self@, ind));
        }
    }
}

/// Appends the tasks as a pretty-printed JSON array at the indentation that
/// `indent` holds.
fn write_array_at(list: &Vec<TodoItem>, indent: &str, ghost_ind: Ghost<nat>, out: &mut String)
    requires
        indent@ == spaces2(ghost_ind@),
    ensures
        final(out)@ == old(out)@ + enc_array(node_views(list@), ghost_ind@),
    decreases *list, 0nat,
{
    let ghost ind = ghost_ind@;
    let ghost vs = node_views(list@);
    proof {
        lemma_node_views(list@);
    }
    if list.len() == 0 {
        out.append("[]");
        proof {
            reveal_strlit("[]");
            assert(final(out)@ =~= old(out)@ + enc_array(vs, ind));
        }
        return ;
    }
    let mut deeper = indent.to_owned();
    deeper.append("  ");
    proof {
        reveal_strlit("  ");
        assert(deeper@ =~= spaces2(ind + 1));
    }
    push_char(out, '[');
    write_nli(deeper.as_str(), Ghost(ind + 1), out);
    proof {
        assert(decreases_to!(*list => list@));
        assert(decreases_to!(list@ => list@[0]));
    }
    list[0].write_node(deeper.as_str(), Ghost(ind + 1), out);
    let ghost head = old(out)@ + seq!['['] + nli(ind + 1) + enc_node(vs[0], ind + 1);
    proof {
        assert(out@ =~= head + enc_elems_tail(vs.drop_first().take(0), ind + 1));
    }
    let n = list.len();
    let mut i: usize = 1;
    while i < n
        invariant
            1 <= i <= n,
            n == list@.len(),
            vs == node_views(list@),
            vs.len() == n,
            forall|j: int| 0 <= j < n ==> vs[j] == node_view(#[trigger] list@[j]),
            deeper@ == spaces2(ind + 1),
            out@ == head + enc_elems_tail(vs.drop_first().take(i - 1), ind + 1),
        decreases n - i,
    {
        let ghost pre = out@;
        push_char(out, ',');
        write_nli(deeper.as_str(), Ghost(ind + 1), out);
        proof {
            assert(decreases_to!(*list => list@));
            assert(decreases_to!(list@ => list@[i as int]));
        }
        list[i].write_node(deeper.as_str(), Ghost(ind + 1), out);
        proof {
            let tail = vs.drop_first();
            assert(tail.take(i as int) =~= tail.take(i - 1).push(tail[i - 1]));
            assert(tail[i - 1] == vs[i as int]);
            lemma_enc_elems_tail_snoc(tail.take(i - 1), tail[i - 1], ind + 1);
            assert(out@ =~= head + enc_elems_tail(tail.take(i as int), ind + 1));
        }
        i += 1;
    }
    write_nli(indent, ghost_ind, out);
    push_char(out, ']');
    proof {
        assert(vs.drop_first().take(n - 1) =~= vs.drop_first());
        assert(final(out)@ =~= old(out)@ + enc_array(vs, ind));
    }
}

/// Encodes the forest as its persisted document: a pretty-printed JSON array
/// of task objects and a final line break, exactly `enc_doc` of its model.
pub fn encode(forest: &Vec<TodoItem>) -> (r: String)
    ensures
        r@ == enc_doc(forest_view(forest@)),
{
    let mut out = String::new();
    let empty_indent = String::new();
    proof {
        assert(empty_indent@ =~= spaces2(0));
    }
    write_array_at(forest, empty_indent.as_str(), Ghost(0nat), &mut out);
    push_char(&mut out, '\n');
    proof {
        assert(out@ =~= enc_doc(forest_view(forest@)));
    }
    out
}

// ---------------------------------------------------------------------------
// The parser, exec side. Each function returns what its spec counterpart
// says of the text from the given position on, as a value and the position
// after it.
// ---------------------------------------------------------------------------

/// JSON whitespace, decided in code.
fn is_jws_exec(c: char) -> (b: bool)
    ensures
        b == is_jws(c),
{
    c == ' ' || c == '\t' || c == '\n' || c == '\r'
}

/// Advances past JSON whitespace: afterwards the remaining text is `jws` of
/// the text at the given position.
fn skip_jws(s: &str, n: usize, pos: usize) -> (p: usize)
    requires
        n == s@.len(),
        pos <= n,
    ensures
        pos <= p <= n,
        s@.skip(p as int) == jws(s@.skip(pos as int)),
{
    let mut p = pos;
    while p < n && is_jws_exec(s.get_char(p))
        invariant
            pos <= p <= n,
            n == s@.len(),
            jws(s@.skip(pos as int)) == jws(s@.skip(p as int)),
        decreases n - p,
    {
        proof {
            assert(s@.skip(p as int)[0] == s@[p as int]);
            assert(s@.skip(p as int).drop_first() =~= s@.skip(p + 1));
        }
        p += 1;
    }
    proof {
        if p < n {
            assert(s@.skip(p as int)[0] == s@[p as int]);
        } else {
            assert(s@.skip(p as int).len() == 0);
        }
        assert(jws(s@.skip(p as int)) == s@.skip(p as int));
    }
    p
}

/// A boolean at the given position, as `parse_bool` says.
fn pbool(s: &str, n: usize, pos: usize) -> (r: Option<(bool, usize)>)
    requires
        n == s@.len(),
        pos <= n,
    ensures
        (match r {
            Some((b, p2)) => pos < p2 <= n && parse_bool(s@.skip(pos as int)) == Some(
                (b, s@.skip(p2 as int)),
            ),
            None => parse_bool(s@.skip(pos as int)) is None,
        }),
{
    let ghost rem = s@.skip(pos as int);
    proof {
        assert(rem.len() == n - pos);
        assert forall|k: int| 0 <= k < rem.len() implies rem[k] == s@[pos + k] by {}
    }
    if n - pos >= 4 && s.get_char(pos) == 't' && s.get_char(pos + 1) == 'r' && s.get_char(pos + 2)
        == 'u' && s.get_char(pos + 3) == 'e' {
        proof {
            assert(rem.skip(4) =~= s@.skip(pos + 4));
        }
        Some((true, pos + 4))
    } else if n - pos >= 5 && s.get_char(pos) == 'f' && s.get_char(pos + 1) == 'a' && s.get_char(
        pos + 2,
    ) == 'l' && s.get_char(pos + 3) == 's' && s.get_char(pos + 4) == 'e' {
        proof {
            assert(rem.skip(5) =~= s@.skip(pos + 5));
        }
        Some((false, pos + 5))
    } else {
        None
    }
}

/// A hexadecimal digit's value, or nothing.
fn hex_val_exec(c: char) -> (r: Option<u32>)
    ensures
        (match r {
            Some(v) => is_hex_digit(c) && v == hex_val(c) && v < 16,
            None => !is_hex_digit(c),
        }),
{
    let u = c as u32;
    if 48 <= u && u <= 57 {
        Some(u - 48)
    } else if 97 <= u && u <= 102 {
        Some(u - 97 + 10)
    } else if 65 <= u && u <= 70 {
        Some(u - 65 + 10)
    } else {
        None
    }
}

/// An escape sequence after its backslash, as `parse_esc` says.
fn pesc(s: &str, n: usize, pos: usize) -> (r: Option<(char, usize)>)
    requires
        n == s@.len(),
        pos <= n,
    ensures
        (match r {
            Some((c, p2)) => pos < p2 <= n && parse_esc(s@.skip(pos as int)) == Some(
                (c, s@.skip(p2 as int)),
            ),
            None => parse_esc(s@.skip(pos as int)) is None,
        }),
{
    let ghost rem = s@.skip(pos as int);
    proof {
        assert(rem.len() == n - pos);
        assert forall|k: int| 0 <= k < rem.len() implies rem[k] == s@[pos + k] by {}
    }
    if pos == n {
        return None;
    }
    proof {
        assert(rem.drop_first() =~= s@.skip(pos + 1));
    }
    let c0 = s.get_char(pos);
    if c0 == '"' || c0 == '\\' || c0 == '/' {
        Some((c0, pos + 1))
    } else if c0 == 'b' {
        Some(('\u{8}', pos + 1))
    } else if c0 == 'f' {
        Some(('\u{c}', pos + 1))
    } else if c0 == 'n' {
        Some(('\n', pos + 1))
    } else if c0 == 'r' {
        Some(('\r', pos + 1))
    } else if c0 == 't' {
        Some(('\t', pos + 1))
    } else if c0 == 'u' {
        if n - pos < 5 {
            return None;
        }
        let h1 = hex_val_exec(s.get_char(pos + 1));
        let h2 = hex_val_exec(s.get_char(pos + 2));
        let h3 = hex_val_exec(s.get_char(pos + 3));
        let h4 = hex_val_exec(s.get_char(pos + 4));
        match (h1, h2, h3, h4) {
            (Some(v1), Some(v2), Some(v3), Some(v4)) => {
                let v: u32 = v1 * 0x1000 + v2 * 0x100 + v3 * 16 + v4;
                if 0xDC00 <= v && v <= 0xDFFF {
                    None
                } else if 0xD800 <= v && v <= 0xDBFF {
                    if n - pos < 11 || s.get_char(pos + 5) != '\\' || s.get_char(pos + 6) != 'u' {
                        return None;
                    }
                    let g1 = hex_val_exec(s.get_char(pos + 7));
                    let g2 = hex_val_exec(s.get_char(pos + 8));
                    let g3 = hex_val_exec(s.get_char(pos + 9));
                    let g4 = hex_val_exec(s.get_char(pos + 10));
                    match (g1, g2, g3, g4) {
                        (Some(w1), Some(w2), Some(w3), Some(w4)) => {
                            let w: u32 = w1 * 0x1000 + w2 * 0x100 + w3 * 16 + w4;
                            if 0xDC00 <= w && w <= 0xDFFF {
                                proof {
                                    assert(rem.skip(11) =~= s@.skip(pos + 11));
                                }
                                match char_from_u32(0x10000 + (v - 0xD800) * 0x400 + (w - 0xDC00)) {
                                    Some(c) => Some((c, pos + 11)),
                                    None => {
                                        proof {
                                            assert(false);
                                        }
                                        None
                                    },
                                }
                            } else {
                                None
                            }
                        },
                        _ => None,
                    }
                } else {
                    proof {
                        assert(rem.skip(5) =~= s@.skip(pos + 5));
                    }
                    match char_from_u32(v) {
                        Some(c) => Some((c, pos + 5)),
                        None => {
                            proof {
                                assert(false);
                            }
                            None
                        },
                    }
                }
            },
            _ => None,
        }
    } else {
        None
    }
}

/// The body of a JSON string after its opening quote, as `parse_strbody`
/// says.
fn pstrbody(s: &str, n: usize, pos: usize) -> (r: Option<(String, usize)>)
    requires
        n == s@.len(),
        pos <= n,
    ensures
        (match r {
            Some((body, p2)) => pos < p2 <= n && parse_strbody(s@.skip(pos as int)) == Some(
                (body@, s@.skip(p2 as int)),
            ),
            None => parse_strbody(s@.skip(pos as int)) is None,
        }),
{
    let mut acc = String::new();
    let mut p = pos;
    loop
        invariant
            pos <= p <= n,
            n == s@.len(),
            (match parse_strbody(s@.skip(p as int)) {
                Some((body, rest)) => parse_strbody(s@.skip(pos as int)) == Some(
                    (acc@ + body, rest),
                ),
                None => parse_strbody(s@.skip(pos as int)) is None,
            }),
        decreases n - p,
    {
        let ghost rem = s@.skip(p as int);
        proof {
            assert(rem.len() == n - p);
            assert forall|k: int| 0 <= k < rem.len() implies rem[k] == s@[p + k] by {}
        }
        if p == n {
            return None;
        }
        proof {
            assert(rem.drop_first() =~= s@.skip(p + 1));
        }
        let c = s.get_char(p);
        if c == '"' {
            proof {
                assert(parse_strbody(rem) == Some(
                    (Seq::<char>::empty(), s@.skip(p + 1)),
                ));
                assert(acc@ + Seq::<char>::empty() =~= acc@);
            }
            return Some((acc, p + 1));
        } else if c == '\\' {
            match pesc(s, n, p + 1) {
                None => {
                    return None;
                },
                Some((e, p2)) => {
                    let ghost acc0 = acc@;
                    proof {
                        assert(s@.skip(p2 as int).len() < rem.len());
                    }
                    push_char(&mut acc, e);
                    proof {
                        assert(parse_strbody(rem) == (match parse_strbody(s@.skip(p2 as int)) {
                            None => None::<(Seq<char>, Seq<char>)>,
                            Some((body, rr)) => Some((seq![e] + body, rr)),
                        }));
                        if parse_strbody(s@.skip(p2 as int)) is Some {
                            let body2 = parse_strbody(s@.skip(p2 as int)).unwrap().0;
                            assert(acc0 + (seq![e] + body2) =~= acc@ + body2);
                        }
                    }
                    p = p2;
                },
            }
        } else if (c as u32) >= 0x20 {
            let ghost acc0 = acc@;
            push_char(&mut acc, c);
            proof {
                assert(parse_strbody(rem) == (match parse_strbody(s@.skip(p + 1)) {
                    None => None::<(Seq<char>, Seq<char>)>,
                    Some((body, rr)) => Some((seq![c] + body, rr)),
                }));
                if parse_strbody(s@.skip(p + 1)) is Some {
                    let body2 = parse_strbody(s@.skip(p + 1)).unwrap().0;
                    assert(acc0 + (seq![c] + body2) =~= acc@ + body2);
                }
            }
            p += 1;
        } else {
            return None;
        }
    }
}

/// A JSON string at the given position, as `parse_string` says.
fn pstring(s: &str, n: usize, pos: usize) -> (r: Option<(String, usize)>)
    requires
        n == s@.len(),
        pos <= n,
    ensures
        (match r {
            Some((body, p2)) => pos < p2 <= n && parse_string(s@.skip(pos as int)) == Some(
                (body@, s@.skip(p2 as int)),
            ),
            None => parse_string(s@.skip(pos as int)) is None,
        }),
{
    let ghost rem = s@.skip(pos as int);
    proof {
        assert(rem.len() == n - pos);
        assert forall|k: int| 0 <= k < rem.len() implies rem[k] == s@[pos + k] by {}
    }
    if pos == n {
        return None;
    }
    if s.get_char(pos) != '"' {
        return None;
    }
    proof {
        assert(rem.drop_first() =~= s@.skip(pos + 1));
    }
    pstrbody(s, n, pos + 1)
}

/// The four fields of a task object in code, matching `Slots`.
pub open spec fn slots_of(
    title: Option<String>,
    details: Option<String>,
    completed: Option<bool>,
    children: Option<Vec<TodoItem>>,
) -> Slots {
    Slots {
        title: (match title {
            Some(t) => Some(t@),
            None => None,
        }),
        details: (match details {
            Some(d) => Some(d@),
            None => None,
        }),
        completed,
        children: (match children {
            Some(c) => Some(node_views(c@)),
            None => None,
        }),
    }
}

/// One task object at the given position, as `parse_node` says.
#[verifier::rlimit(100)]
#[verifier::spinoff_prover]
fn pnode(s: &str, n: usize, pos: usize) -> (r: Option<(TodoItem, usize)>)
    requires
        n == s@.len(),
        pos <= n,
    ensures
        (match r {
            Some((t, p2)) => pos < p2 <= n && parse_node(s@.skip(pos as int)) == Some(
                (t@, s@.skip(p2 as int)),
            ),
            None => parse_node(s@.skip(pos as int)) is None,
        }),
    decreases n - pos, 1nat,
{
    let ghost rem = s@.skip(pos as int);
    proof {
        assert(rem.len() == n - pos);
        assert forall|k: int| 0 <= k < rem.len() implies rem[k] == s@[pos + k] by {}
    }
    if pos == n || s.get_char(pos) != '{' {
        return None;
    }
    proof {
        assert(rem.drop_first() =~= s@.skip(pos + 1));
    }
    let start = skip_jws(s, n, pos + 1);
    proof {
        assert(s@.skip(start as int).len() < rem.len());
    }
    let mut title: Option<String> = None;
    let mut details: Option<String> = None;
    let mut completed: Option<bool> = None;
    let mut children: Option<Vec<TodoItem>> = None;
    let mut p = start;
    loop
        invariant
            pos < start <= p <= n,
            n == s@.len(),
            (match parse_fields(s@.skip(p as int), slots_of(title, details, completed, children)) {
                Some((t, rest)) => parse_node(s@.skip(pos as int)) == Some((t, rest)),
                None => parse_node(s@.skip(pos as int)) is None,
            }),
        decreases n - p,
    {
        let ghost slots0 = slots_of(title, details, completed, children);
        let ghost cur = s@.skip(p as int);
        // one field: key, colon, value
        let keyr = pstring(s, n, p);
        if keyr.is_none() {
            return None;
        }
        let (key, pk) = keyr.unwrap();
        let p2 = skip_jws(s, n, pk);
        proof {
            assert(s@.skip(p2 as int).len() == n - p2);
            assert forall|k: int| 0 <= k < n - p2 implies s@.skip(p2 as int)[k] == s@[p2 + k] by {}
        }
        if p2 == n || s.get_char(p2) != ':' {
            return None;
        }
        proof {
            assert(s@.skip(p2 as int).drop_first() =~= s@.skip(p2 + 1));
        }
        let p3 = skip_jws(s, n, p2 + 1);
        let ghost r3 = s@.skip(p3 as int);
        let kt = "title".to_owned();
        let kd = "details".to_owned();
        let kc = "completed".to_owned();
        let kh = "children".to_owned();
        proof {
            reveal_strlit("title");
            reveal_strlit("details");
            reveal_strlit("completed");
            reveal_strlit("children");
            assert(kt@ =~= key_title());
            assert(kd@ =~= key_details());
            assert(kc@ =~= key_completed());
            assert(kh@ =~= key_children());
        }
        let ghost slots1: Slots;
        let p4: usize;
        if key == kt {
            if title.is_some() {
                return None;
            }
            match pstring(s, n, p3) {
                None => {
                    return None;
                },
                Some((v, q)) => {
                    title = Some(v);
                    p4 = q;
                },
            }
            proof {
                slots1 = slots_of(title, details, completed, children);
            }
        } else if key == kd {
            if details.is_some() {
                return None;
            }
            match pstring(s, n, p3) {
                None => {
                    return None;
                },
                Some((v, q)) => {
                    details = Some(v);
                    p4 = q;
                },
            }
            proof {
                slots1 = slots_of(title, details, completed, children);
            }
        } else if key == kc {
            if completed.is_some() {
                return None;
            }
            match pbool(s, n, p3) {
                None => {
                    return None;
                },
                Some((v, q)) => {
                    completed = Some(v);
                    p4 = q;
                },
            }
            proof {
                slots1 = slots_of(title, details, completed, children);
            }
        } else if key == kh {
            if children.is_some() {
                return None;
            }
            proof {
                assert(r3.len() < cur.len());
            }
            match parray(s, n, p3) {
                None => {
                    return None;
                },
                Some((v, q)) => {
                    children = Some(v);
                    p4 = q;
                },
            }
            proof {
                slots1 = slots_of(title, details, completed, children);
            }
        } else {
            proof {
                assert(key@ != key_title() && key@ != key_details() && key@ != key_completed()
                    && key@ != key_children());
            }
            return None;
        }
        proof {
            assert(parse_one_field(cur, slots0) == Some((slots1, s@.skip(p4 as int))));
        }
        // after the value: comma or closing brace
        let p5 = skip_jws(s, n, p4);
        proof {
            assert(s@.skip(p5 as int).len() == n - p5);
            assert forall|k: int| 0 <= k < n - p5 implies s@.skip(p5 as int)[k] == s@[p5 + k] by {}
        }
        if p5 == n {
            return None;
        }
        let c5 = s.get_char(p5);
        proof {
            assert(s@.skip(p5 as int).drop_first() =~= s@.skip(p5 + 1));
        }
        if c5 == ',' {
            let p6 = skip_jws(s, n, p5 + 1);
            proof {
                assert(s@.skip(p6 as int).len() < cur.len());
            }
            p = p6;
        } else if c5 == '}' {
            match (title, details, completed, children) {
                (Some(t), Some(d), Some(c), Some(ch)) => {
                    let node = TodoItem { title: t, details: d, completed: c, children: ch };
                    proof {
                        assert(node@ =~= parse_fields(cur, slots0).unwrap().0);
                    }
                    return Some((node, p5 + 1));
                },
                _ => {
                    return None;
                },
            }
        } else {
            return None;
        }
    }
}

/// A task array at the given position, as `parse_array` says.
#[verifier::rlimit(100)]
#[verifier::spinoff_prover]
fn parray(s: &str, n: usize, pos: usize) -> (r: Option<(Vec<TodoItem>, usize)>)
    requires
        n == s@.len(),
        pos <= n,
    ensures
        (match r {
            Some((v, p2)) => pos < p2 <= n && parse_array(s@.skip(pos as int)) == Some(
                (node_views(v@), s@.skip(p2 as int)),
            ),
            None => parse_array(s@.skip(pos as int)) is None,
        }),
    decreases n - pos, 0nat,
{
    let ghost rem = s@.skip(pos as int);
    proof {
        assert(rem.len() == n - pos);
        assert forall|k: int| 0 <= k < rem.len() implies rem[k] == s@[pos + k] by {}
    }
    if pos == n || s.get_char(pos) != '[' {
        return None;
    }
    proof {
        assert(rem.drop_first() =~= s@.skip(pos + 1));
    }
    let start = skip_jws(s, n, pos + 1);
    let ghost r0 = s@.skip(start as int);
    proof {
        assert(r0.len() == n - start);
        assert forall|k: int| 0 <= k < r0.len() implies r0[k] == s@[start + k] by {}
    }
    if start < n && s.get_char(start) == ']' {
        let mut acc: Vec<TodoItem> = Vec::new();
        proof {
            assert(r0.drop_first() =~= s@.skip(start + 1));
            assert(node_views(acc@) =~= Seq::<NodeView>::empty());
        }
        return Some((acc, start + 1));
    }
    proof {
        if start == n {
            assert(parse_array(rem) is None);
        }
        assert(r0.len() < rem.len());
    }
    if start == n {
        return None;
    }
    // at least one element
    let mut acc: Vec<TodoItem> = Vec::new();
    let mut p = start;
    loop
        invariant
            pos < start <= p <= n,
            n == s@.len(),
            (match parse_elems(s@.skip(p as int)) {
                Some((l, rest)) => parse_array(s@.skip(pos as int)) == Some(
                    (node_views(acc@) + l, rest),
                ),
                None => parse_array(s@.skip(pos as int)) is None,
            }),
        decreases n - p,
    {
        let ghost cur = s@.skip(p as int);
        let ghost acc0 = acc@;
        let noder = pnode(s, n, p);
        if noder.is_none() {
            return None;
        }
        let (t, pt) = noder.unwrap();
        let ghost tv = t@;
        let p5 = skip_jws(s, n, pt);
        proof {
            assert(s@.skip(p5 as int).len() == n - p5);
            assert forall|k: int| 0 <= k < n - p5 implies s@.skip(p5 as int)[k] == s@[p5 + k] by {}
        }
        if p5 == n {
            return None;
        }
        let c5 = s.get_char(p5);
        proof {
            assert(s@.skip(p5 as int).drop_first() =~= s@.skip(p5 + 1));
        }
        if c5 == ',' {
            acc.push(t);
            let p6 = skip_jws(s, n, p5 + 1);
            proof {
                assert(s@.skip(p6 as int).len() < cur.len());
                lemma_node_views(acc0.push(t));
                lemma_node_views(acc0);
                assert forall|j: int| 0 <= j < acc@.len() implies node_views(acc@)[j]
                    == node_views(acc0).push(tv)[j] by {
                    assert(node_views(acc@)[j] == node_view(acc@[j]));
                    if j < acc0.len() {
                        assert(acc@[j] == acc0[j]);
                        assert(node_views(acc0)[j] == node_view(acc0[j]));
                    } else {
                        assert(acc@[j] == t);
                    }
                }
                assert(node_views(acc@) =~= node_views(acc0).push(tv));
                if parse_elems(s@.skip(p6 as int)) is Some {
                    let l2 = parse_elems(s@.skip(p6 as int)).unwrap().0;
                    assert(parse_elems(cur).unwrap().0 == seq![tv] + l2);
                    assert(node_views(acc0) + (seq![tv] + l2) =~= node_views(acc@) + l2);
                }
            }
            p = p6;
        } else if c5 == ']' {
            acc.push(t);
            proof {
                lemma_node_views(acc0.push(t));
                lemma_node_views(acc0);
                assert forall|j: int| 0 <= j < acc@.len() implies node_views(acc@)[j]
                    == node_views(acc0).push(tv)[j] by {
                    assert(node_views(acc@)[j] == node_view(acc@[j]));
                    if j < acc0.len() {
                        assert(acc@[j] == acc0[j]);
                        assert(node_views(acc0)[j] == node_view(acc0[j]));
                    } else {
                        assert(acc@[j] == t);
                    }
                }
                assert(node_views(acc@) =~= node_views(acc0).push(tv));
                assert(parse_elems(cur) == Some((seq![tv], s@.skip(p5 + 1))));
                assert(node_views(acc0) + seq![tv] =~= node_views(acc@));
            }
            return Some((acc, p5 + 1));
        } else {
            return None;
        }
    }
}

/// A failed decode: the text is not a well-formed task document.
#[derive(Debug)]
pub struct DecodeError;

/// Decodes a persisted document into a task forest, exactly as `parse_doc`
/// says: the forest whose model `parse_doc` gives, or an error when the text
/// conforms to no task document.
pub fn decode(s: &str) -> (r: Result<Vec<TodoItem>, DecodeError>)
    ensures
        (match r {
            Ok(v) => parse_doc(s@) == Some(forest_view(v@)),
            Err(_) => parse_doc(s@) is None,
        }),
{
    let n = s.unicode_len();
    proof {
        assert(s@.skip(0) =~= s@);
    }
    let p = skip_jws(s, n, 0);
    match parray(s, n, p) {
        None => Err(DecodeError),
        Some((v, p2)) => {
            let p3 = skip_jws(s, n, p2);
            if p3 == n {
                proof {
                    assert(s@.skip(p3 as int).len() == 0);
                }
                Ok(v)
            } else {
                proof {
                    assert(s@.skip(p3 as int).len() > 0);
                }
                Err(DecodeError)
            }
        },
    }
}

// ---------------------------------------------------------------------------
// The round-trip law: decoding an encoded forest gives the forest back.
// ---------------------------------------------------------------------------

/// Dropping whitespace passes over any all-whitespace prefix.
proof fn lemma_jws_prepend(w: Seq<char>, tail: Seq<char>)
    requires
        forall|j: int| 0 <= j < w.len() ==> is_jws(#[trigger] w[j]),
    ensures
        jws(w + tail) == jws(tail),
    decreases w.len(),
{
    if w.len() == 0 {
        assert(w + tail =~= tail);
    } else {
        assert((w + tail)[0] == w[0]);
        assert((w + tail).drop_first() =~= w.drop_first() + tail);
        lemma_jws_prepend(w.drop_first(), tail);
    }
}

/// Indentation is whitespace throughout.
proof fn lemma_spaces2_ws(n: nat)
    ensures
        forall|j: int| 0 <= j < spaces2(n).len() ==> is_jws(#[trigger] spaces2(n)[j]),
    decreases n,
{
    if n > 0 {
        lemma_spaces2_ws((n - 1) as nat);
        assert forall|j: int| 0 <= j < spaces2(n).len() implies is_jws(#[trigger] spaces2(n)[j]) by {
            if j < spaces2((n - 1) as nat).len() {
                assert(spaces2(n)[j] == spaces2((n - 1) as nat)[j]);
            } else {
                assert(spaces2(n)[j] == ' ');
            }
        }
    }
}

/// Dropping whitespace after a line break and its indentation lands on the
/// next visible character.
proof fn lemma_jws_nli(ind: nat, tail: Seq<char>)
    requires
        tail.len() > 0,
        !is_jws(tail[0]),
    ensures
        jws(nli(ind) + tail) == tail,
{
    lemma_spaces2_ws(ind);
    assert forall|j: int| 0 <= j < nli(ind).len() implies is_jws(#[trigger] nli(ind)[j]) by {
        if j == 0 {
            assert(nli(ind)[j] == '\n');
        } else {
            assert(nli(ind)[j] == spaces2(ind)[j - 1]);
        }
    }
    lemma_jws_prepend(nli(ind), tail);
}

/// A hexadecimal digit written for a small value reads back as that value.
proof fn lemma_hex_digit(n: nat)
    requires
        n < 16,
    ensures
        is_hex_digit(hex_digit(n)),
        hex_val(hex_digit(n)) == n,
{
}

/// The escaped form of one character of text reads back as that character.
proof fn lemma_rt_strbody(x: Seq<char>, rest: Seq<char>)
    ensures
        parse_strbody(enc_str_body(x) + seq!['"'] + rest) == Some((x, rest)),
    decreases x.len(),
{
    let s = enc_str_body(x) + seq!['"'] + rest;
    if x.len() == 0 {
        assert(s =~= seq!['"'] + rest);
        assert(s[0] == '"');
        assert(s.drop_first() =~= rest);
    } else {
        let c = x[0];
        let x2 = x.drop_first();
        let s2 = enc_str_body(x2) + seq!['"'] + rest;
        lemma_rt_strbody(x2, rest);
        assert(s =~= enc_char(c) + s2);
        if c == '"' || c == '\\' {
            let e: char = if c == '"' { '"' } else { '\\' };
            assert(s[0] == '\\');
            assert(s[1] == e);
            assert(s.drop_first() =~= seq![e] + s2);
            assert((seq![e] + s2)[0] == e);
            assert((seq![e] + s2).drop_first() =~= s2);
            assert(parse_esc(s.drop_first()) == Some((c, s2)));
            assert(s2.len() < s.len());
            assert(seq![c] + x2 =~= x);
        } else if c == '\u{8}' || c == '\t' || c == '\n' || c == '\u{c}' || c == '\r' {
            let e: char = if c == '\u{8}' {
                'b'
            } else if c == '\t' {
                't'
            } else if c == '\n' {
                'n'
            } else if c == '\u{c}' {
                'f'
            } else {
                'r'
            };
            assert(s[0] == '\\');
            assert(s.drop_first() =~= seq![e] + s2);
            assert((seq![e] + s2)[0] == e);
            assert((seq![e] + s2).drop_first() =~= s2);
            assert(parse_esc(s.drop_first()) == Some((c, s2)));
            assert(s2.len() < s.len());
            assert(seq![c] + x2 =~= x);
        } else if (c as u32) < 0x20 {
            let u = c as u32;
            let h1 = hex_digit((u / 16) as nat);
            let h2 = hex_digit((u % 16) as nat);
            lemma_hex_digit((u / 16) as nat);
            lemma_hex_digit((u % 16) as nat);
            let esc = seq!['u', '0', '0', h1, h2] + s2;
            assert(s[0] == '\\');
            assert(s.drop_first() =~= esc);
            assert(esc[0] == 'u' && esc[1] == '0' && esc[2] == '0' && esc[3] == h1 && esc[4]
                == h2);
            assert(hex_val('0') == 0);
            let v = hex_val(esc[1]) * 0x1000 + hex_val(esc[2]) * 0x100 + hex_val(esc[3]) * 16
                + hex_val(esc[4]);
            assert(v == (u / 16) * 16 + (u % 16));
            assert(v == u);
            assert(esc.skip(5) =~= s2);
            vstd::utf8::char_u32_cast(c, u);
            assert((v as u32) as char == c);
            assert(parse_esc(s.drop_first()) == Some((c, s2)));
            assert(s2.len() < s.len());
            assert(seq![c] + x2 =~= x);
        } else {
            assert(s[0] == c);
            assert(s.drop_first() =~= s2);
            assert(seq![c] + x2 =~= x);
        }
    }
}

/// A written JSON string reads back as the text it was written from.
proof fn lemma_rt_string(x: Seq<char>, rest: Seq<char>)
    ensures
        parse_string(enc_string(x) + rest) == Some((x, rest)),
{
    let s = enc_string(x) + rest;
    assert(s[0] == '"');
    assert(s.drop_first() =~= enc_str_body(x) + seq!['"'] + rest);
    lemma_rt_strbody(x, rest);
}

/// A written boolean reads back as itself.
proof fn lemma_rt_bool(b: bool, rest: Seq<char>)
    ensures
        parse_bool(enc_bool(b) + rest) == Some((b, rest)),
{
    let s = enc_bool(b) + rest;
    if b {
        assert(s[0] == 't' && s[1] == 'r' && s[2] == 'u' && s[3] == 'e');
        assert(s.skip(4) =~= rest);
    } else {
        assert(s[0] == 'f' && s[1] == 'a' && s[2] == 'l' && s[3] == 's' && s[4] == 'e');
        assert(s.skip(5) =~= rest);
    }
}

/// A written key, colon and space read back as the key, leaving the value.
proof fn lemma_rt_entry(key: Seq<char>, valtail: Seq<char>)
    requires
        valtail.len() > 0,
        !is_jws(valtail[0]),
    ensures
        ({
            let s = enc_string(key) + seq![':', ' '] + valtail;
            &&& parse_string(s) == Some((key, seq![':', ' '] + valtail))
            &&& jws(seq![':', ' '] + valtail) == seq![':', ' '] + valtail
            &&& (seq![':', ' '] + valtail)[0] == ':'
            &&& jws((seq![':', ' '] + valtail).drop_first()) == valtail
        }),
{
    let r1 = seq![':', ' '] + valtail;
    let s = enc_string(key) + seq![':', ' '] + valtail;
    assert(s =~= enc_string(key) + r1);
    lemma_rt_string(key, r1);
    assert(r1[0] == ':');
    assert(r1.drop_first() =~= seq![' '] + valtail);
    lemma_jws_prepend(seq![' '], valtail);
    assert(jws(valtail) == valtail);
    assert(jws(r1.drop_first()) == valtail);
}


/// One written string-valued field reads back, filling the title slot.
proof fn lemma_rt_field_title(v: Seq<char>, slots: Slots, tail: Seq<char>)
    requires
        slots.title is None,
    ensures
        parse_one_field(enc_string(key_title()) + seq![':', ' '] + (enc_string(v) + tail), slots)
            == Some((Slots { title: Some(v), ..slots }, tail)),
{
    let vt = enc_string(v) + tail;
    assert(vt[0] == '"');
    lemma_rt_entry(key_title(), vt);
    lemma_rt_string(v, tail);
}

/// One written string-valued field reads back, filling the details slot.
proof fn lemma_rt_field_details(v: Seq<char>, slots: Slots, tail: Seq<char>)
    requires
        slots.details is None,
    ensures
        parse_one_field(enc_string(key_details()) + seq![':', ' '] + (enc_string(v) + tail), slots)
            == Some((Slots { details: Some(v), ..slots }, tail)),
{
    let vt = enc_string(v) + tail;
    assert(vt[0] == '"');
    lemma_rt_entry(key_details(), vt);
    lemma_rt_string(v, tail);
    assert(key_details() != key_title());
}

/// One written boolean field reads back, filling the completed slot.
proof fn lemma_rt_field_completed(b: bool, slots: Slots, tail: Seq<char>)
    requires
        slots.completed is None,
    ensures
        parse_one_field(enc_string(key_completed()) + seq![':', ' '] + (enc_bool(b) + tail), slots)
            == Some((Slots { completed: Some(b), ..slots }, tail)),
{
    let vt = enc_bool(b) + tail;
    assert(vt[0] == 't' || vt[0] == 'f');
    lemma_rt_entry(key_completed(), vt);
    lemma_rt_bool(b, tail);
    assert(key_completed() != key_title() && key_completed() != key_details());
}

/// One written array field reads back, filling the children slot, given that
/// the written array itself reads back.
proof fn lemma_rt_field_children(ch: Seq<NodeView>, aind: nat, slots: Slots, tail: Seq<char>)
    requires
        slots.children is None,
        parse_array(enc_array(ch, aind) + tail) == Some((ch, tail)),
    ensures
        parse_one_field(
            enc_string(key_children()) + seq![':', ' '] + (enc_array(ch, aind) + tail),
            slots,
        ) == Some((Slots { children: Some(ch), ..slots }, tail)),
{
    let vt = enc_array(ch, aind) + tail;
    assert(vt[0] == '[');
    lemma_rt_entry(key_children(), vt);
    assert(key_children() != key_title() && key_children() != key_details() && key_children()
        != key_completed());
    let cur = enc_string(key_children()) + seq![':', ' '] + vt;
    assert(vt.len() < cur.len());
}

/// After a field and a comma, parsing the fields goes on at the next key.
proof fn lemma_rt_comma(cur: Seq<char>, slots: Slots, slots2: Slots, ind1: nat, nextcur: Seq<char>)
    requires
        parse_one_field(cur, slots) == Some((slots2, seq![','] + (nli(ind1) + nextcur))),
        nextcur.len() > 0,
        !is_jws(nextcur[0]),
        nextcur.len() < cur.len(),
    ensures
        parse_fields(cur, slots) == parse_fields(nextcur, slots2),
{
    let tail = seq![','] + (nli(ind1) + nextcur);
    assert(tail[0] == ',');
    assert(jws(tail) == tail);
    assert(tail.drop_first() =~= nli(ind1) + nextcur);
    lemma_jws_nli(ind1, nextcur);
}

/// After the last field, a line break and the closing brace finish the task.
proof fn lemma_rt_close(cur: Seq<char>, slots: Slots, t: NodeView, ind: nat, rest: Seq<char>)
    requires
        parse_one_field(cur, slots) == Some(
            (
                Slots {
                    title: Some(t.title),
                    details: Some(t.details),
                    completed: Some(t.completed),
                    children: Some(t.children),
                },
                nli(ind) + seq!['}'] + rest,
            ),
        ),
    ensures
        parse_fields(cur, slots) == Some((t, rest)),
{
    let tail = nli(ind) + seq!['}'] + rest;
    assert(tail =~= nli(ind) + (seq!['}'] + rest));
    assert((seq!['}'] + rest)[0] == '}');
    lemma_jws_nli(ind, seq!['}'] + rest);
    assert(jws(tail) == seq!['}'] + rest);
    assert((seq!['}'] + rest).drop_first() =~= rest);
    let built = NodeView {
        title: t.title,
        details: t.details,
        completed: t.completed,
        children: t.children,
    };
    assert(built == t);
}

/// Where each field of a written task object begins and what follows it.
pub open spec fn rt_tail4(t: NodeView, ind: nat, rest: Seq<char>) -> Seq<char> {
    nli(ind) + seq!['}'] + rest
}

pub open spec fn rt_cur4(t: NodeView, ind: nat, rest: Seq<char>) -> Seq<char> {
    enc_string(key_children()) + seq![':', ' '] + (enc_array(t.children, ind + 1) + rt_tail4(
        t,
        ind,
        rest,
    ))
}

pub open spec fn rt_cur3(t: NodeView, ind: nat, rest: Seq<char>) -> Seq<char> {
    enc_string(key_completed()) + seq![':', ' '] + (enc_bool(t.completed) + (seq![','] + (nli(
        ind + 1,
    ) + rt_cur4(t, ind, rest))))
}

pub open spec fn rt_cur2(t: NodeView, ind: nat, rest: Seq<char>) -> Seq<char> {
    enc_string(key_details()) + seq![':', ' '] + (enc_string(t.details) + (seq![','] + (nli(
        ind + 1,
    ) + rt_cur3(t, ind, rest))))
}

pub open spec fn rt_cur1(t: NodeView, ind: nat, rest: Seq<char>) -> Seq<char> {
    enc_string(key_title()) + seq![':', ' '] + (enc_string(t.title) + (seq![','] + (nli(ind + 1)
        + rt_cur2(t, ind, rest))))
}

/// A written task object starts with its brace, and what follows regroups as
/// the first field's text.
#[verifier::rlimit(100)]
#[verifier::spinoff_prover]
proof fn lemma_rt_node_shape(t: NodeView, ind: nat, rest: Seq<char>)
    ensures
        (enc_node(t, ind) + rest)[0] == '{',
        (enc_node(t, ind) + rest).drop_first() == nli(ind + 1) + rt_cur1(t, ind, rest),
{
    assert((enc_node(t, ind) + rest)[0] == '{');
    assert((enc_node(t, ind) + rest).drop_first() =~= nli(ind + 1) + rt_cur1(t, ind, rest));
}

/// A written task object reads back as that task.
#[verifier::rlimit(100)]
#[verifier::spinoff_prover]
proof fn lemma_rt_node(t: NodeView, ind: nat, rest: Seq<char>)
    ensures
        parse_node(enc_node(t, ind) + rest) == Some((t, rest)),
    decreases t, 0nat,
{
    let s = enc_node(t, ind) + rest;
    let tail4 = rt_tail4(t, ind, rest);
    let cur4 = rt_cur4(t, ind, rest);
    let cur3 = rt_cur3(t, ind, rest);
    let cur2 = rt_cur2(t, ind, rest);
    let cur1 = rt_cur1(t, ind, rest);
    let tail1 = seq![','] + (nli(ind + 1) + cur2);
    let tail2 = seq![','] + (nli(ind + 1) + cur3);
    let tail3 = seq![','] + (nli(ind + 1) + cur4);
    lemma_rt_node_shape(t, ind, rest);
    assert(cur1[0] == '"');
    lemma_jws_nli(ind + 1, cur1);
    assert(jws(s.drop_first()) == cur1);
    assert(cur1.len() < s.len());

    let slots0 = no_slots();
    let slots1 = Slots { title: Some(t.title), ..slots0 };
    let slots2 = Slots { details: Some(t.details), ..slots1 };
    let slots3 = Slots { completed: Some(t.completed), ..slots2 };

    lemma_rt_field_title(t.title, slots0, tail1);
    assert(cur2[0] == '"');
    assert(cur2.len() < cur1.len());
    lemma_rt_comma(cur1, slots0, slots1, ind + 1, cur2);

    lemma_rt_field_details(t.details, slots1, tail2);
    assert(cur3[0] == '"');
    assert(cur3.len() < cur2.len());
    lemma_rt_comma(cur2, slots1, slots2, ind + 1, cur3);

    lemma_rt_field_completed(t.completed, slots2, tail3);
    assert(cur4[0] == '"');
    assert(cur4.len() < cur3.len());
    lemma_rt_comma(cur3, slots2, slots3, ind + 1, cur4);

    lemma_rt_array(t.children, ind + 1, tail4);
    lemma_rt_field_children(t.children, ind + 1, slots3, tail4);
    assert(Slots { children: Some(t.children), ..slots3 } == (Slots {
        title: Some(t.title),
        details: Some(t.details),
        completed: Some(t.completed),
        children: Some(t.children),
    }));
    assert(tail4 == nli(ind) + seq!['}'] + rest);
    lemma_rt_close(cur4, slots3, t, ind, rest);
    assert(parse_fields(cur1, slots0) == Some((t, rest)));
}

/// The written elements of a nonempty array read back as those elements.
#[verifier::rlimit(100)]
#[verifier::spinoff_prover]
proof fn lemma_rt_elems(list: Seq<NodeView>, ind: nat, cind: nat, rest: Seq<char>)
    requires
        list.len() > 0,
    ensures
        parse_elems(enc_node(list[0], ind) + enc_elems_tail(list.drop_first(), ind) + nli(cind)
            + seq![']'] + rest) == Some((list, rest)),
    decreases list, 0nat,
{
    let tail = list.drop_first();
    let after = enc_elems_tail(tail, ind) + nli(cind) + seq![']'] + rest;
    let s = enc_node(list[0], ind) + enc_elems_tail(tail, ind) + nli(cind) + seq![']'] + rest;
    assert(s =~= enc_node(list[0], ind) + after);
    lemma_rt_node(list[0], ind, after);
    assert(parse_node(s) == Some((list[0], after)));
    if tail.len() == 0 {
        assert(after =~= nli(cind) + (seq![']'] + rest));
        assert((seq![']'] + rest)[0] == ']');
        lemma_jws_nli(cind, seq![']'] + rest);
        assert(jws(after) == seq![']'] + rest);
        assert((seq![']'] + rest).drop_first() =~= rest);
        assert(seq![list[0]] =~= list);
    } else {
        let next = enc_node(tail[0], ind) + enc_elems_tail(tail.drop_first(), ind) + nli(cind)
            + seq![']'] + rest;
        assert(after =~= seq![','] + (nli(ind) + next));
        assert(jws(after) == after);
        assert(after.drop_first() =~= nli(ind) + next);
        assert(next[0] == '{');
        lemma_jws_nli(ind, next);
        assert(next.len() < s.len());
        lemma_rt_elems(tail, ind, cind, rest);
        assert(parse_elems(next) == Some((tail, rest)));
        assert(seq![list[0]] + tail =~= list);
    }
}

/// A written task array reads back as those tasks.
proof fn lemma_rt_array(list: Seq<NodeView>, ind: nat, rest: Seq<char>)
    ensures
        parse_array(enc_array(list, ind) + rest) == Some((list, rest)),
    decreases list, 1nat,
{
    let s = enc_array(list, ind) + rest;
    if list.len() == 0 {
        assert(s[0] == '[');
        assert(s.drop_first() =~= seq![']'] + rest);
        assert((seq![']'] + rest)[0] == ']');
        assert(jws(s.drop_first()) == seq![']'] + rest);
        assert((seq![']'] + rest).drop_first() =~= rest);
        assert(parse_array(s) == Some((Seq::<NodeView>::empty(), rest)));
    } else {
        let inner = enc_node(list[0], ind + 1) + enc_elems_tail(list.drop_first(), ind + 1) + nli(
            ind,
        ) + seq![']'] + rest;
        assert(s[0] == '[');
        assert(s.drop_first() =~= nli(ind + 1) + inner);
        assert(inner[0] == '{');
        lemma_jws_nli(ind + 1, inner);
        assert(jws(s.drop_first()) == inner);
        assert(inner.len() < s.len());
        lemma_rt_elems(list, ind + 1, ind, rest);
        assert(parse_elems(inner) == Some((list, rest)));
    }
}

/// The round-trip law: for every forest, decoding the encoded document gives
/// the forest back exactly.
pub proof fn lemma_round_trip(f: Seq<NodeView>)
    ensures
        parse_doc(enc_doc(f)) == Some(f),
{
    let s = enc_doc(f);
    assert(s =~= enc_array(f, 0) + seq!['\n']);
    assert(s[0] == '[');
    assert(jws(s) == s);
    lemma_rt_array(f, 0, seq!['\n']);
    assert(parse_array(jws(s)) == Some((f, seq!['\n'])));
    lemma_jws_prepend(seq!['\n'], Seq::<char>::empty());
    assert(seq!['\n'] + Seq::<char>::empty() =~= seq!['\n']);
    assert(jws(Seq::<char>::empty()).len() == 0);
    assert(jws(seq!['\n']).len() == 0);
}

} // verus!
