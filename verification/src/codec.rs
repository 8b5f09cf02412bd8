//! The envelope codec: the exact wire text of an encoded envelope, the
//! encoder that produces it, and the decoder for the line-oriented JSON
//! wire format.
//!
//! What the contracts here state: `encode` is pinned exactly, character by
//! character, by `encoded_text`; the flat body representation is proved
//! lossless by `lemma_payload_round_trip`; and `decode` promises that every
//! envelope it accepts is well formed, that it rejects lines without wire
//! content, that its only failure is `Malformed`, and that a line that is
//! the canonical wire text of a well-formed envelope decodes to exactly
//! that envelope — so decoding inverts encoding, by contract alone.

use vstd::prelude::*;

use crate::protocol::{Body, BodyV, Message, MessageV, Payload, PayloadV, known_tag, wf_message,
    wf_payload};
use crate::parse::{JVal, JValV, expect_lit, num_at, parse_number_at, parse_string_at,
    parse_value_at, skip_value_at, skip_ws};
use crate::text::{chars_to_string, dec_text, esc_char, escape_text, lemma_text_at_index,
    push_quoted, push_str, push_u64, quoted, str_chars, text_at};

verus! {

/// Decoding failure: the line is not a well-formed envelope of the wire
/// format.
#[derive(Debug, Clone, Copy, PartialEq, Eq)]
pub enum DecodeError {
    Malformed,
}

/// The wire tag of a payload variant.
pub open spec fn tag_text(p: PayloadV) -> Seq<char> {
    match p {
        PayloadV::Echo { .. } => "echo"@,
        PayloadV::EchoOk { .. } => "echo_ok"@,
        PayloadV::Init { .. } => "init"@,
        PayloadV::InitOk => "init_ok"@,
        PayloadV::Unknown { tag } => tag,
    }
}

/// The wire text of the message-id member, empty when the id is absent.
pub open spec fn msg_id_text(id: Option<u64>) -> Seq<char> {
    match id {
        Option::Some(n) => ",\"msg_id\":"@ + dec_text(n as nat),
        Option::None => Seq::empty(),
    }
}

/// The wire text of the reply-to member, empty when the id is absent.
pub open spec fn reply_to_text(id: Option<u64>) -> Seq<char> {
    match id {
        Option::Some(n) => ",\"in_reply_to\":"@ + dec_text(n as nat),
        Option::None => Seq::empty(),
    }
}

/// The comma-separated quoted items of a string list.
pub open spec fn list_text(items: Seq<Seq<char>>) -> Seq<char>
    decreases items.len(),
{
    if items.len() == 0 {
        Seq::empty()
    } else if items.len() == 1 {
        quoted(items[0])
    } else {
        list_text(items.drop_last()) + seq![','] + quoted(items.last())
    }
}

/// The wire text of the members a payload variant contributes to the body
/// object, after the tag and the correlation ids.
pub open spec fn fields_text(p: PayloadV) -> Seq<char> {
    match p {
        PayloadV::Echo { echo } => ",\"echo\":"@ + quoted(echo),
        PayloadV::EchoOk { echo } => ",\"echo\":"@ + quoted(echo),
        PayloadV::Init { node_id, node_ids } => ",\"node_id\":"@ + quoted(node_id)
            + ",\"node_ids\":"@ + seq!['['] + list_text(node_ids) + seq![']'],
        PayloadV::InitOk => Seq::empty(),
        PayloadV::Unknown { .. } => Seq::empty(),
    }
}

/// The wire text of a body: one flat object holding the tag, the renamed
/// correlation ids, and the payload's own members.
pub open spec fn body_text(b: BodyV) -> Seq<char> {
    "{\"type\":"@ + quoted(tag_text(b.payload)) + msg_id_text(b.id) + reply_to_text(b.reply_to)
        + fields_text(b.payload) + "}"@
}

/// The wire text of a whole envelope, without the line terminator.
pub open spec fn line_text(m: MessageV) -> Seq<char> {
    "{\"src\":"@ + quoted(m.src) + ",\"dest\":"@ + quoted(m.dst) + ",\"body\":"@
        + body_text(m.body) + "}"@
}

/// The full encoded form: the envelope's wire text terminated by a single
/// newline.
pub open spec fn encoded_text(m: MessageV) -> Seq<char> {
    line_text(m).push('\n')
}

/// No character of the text is a line terminator.
pub open spec fn no_newline(s: Seq<char>) -> bool {
    forall|k: int| 0 <= k < s.len() ==> s[k] != '\n'
}

proof fn lemma_no_newline_concat(a: Seq<char>, b: Seq<char>)
    requires
        no_newline(a),
        no_newline(b),
    ensures
        no_newline(a + b),
{
    assert forall|k: int| 0 <= k < (a + b).len() implies (a + b)[k] != '\n' by {
        if k < a.len() {
            assert((a + b)[k] == a[k]);
        } else {
            assert((a + b)[k] == b[k - a.len()]);
        }
    }
}

proof fn lemma_escape_text_no_newline(s: Seq<char>)
    ensures
        no_newline(escape_text(s)),
    decreases s.len(),
{
    if s.len() > 0 {
        lemma_escape_text_no_newline(s.drop_last());
        assert(no_newline(esc_char(s.last())));
        lemma_no_newline_concat(escape_text(s.drop_last()), esc_char(s.last()));
    }
}

proof fn lemma_quoted_no_newline(s: Seq<char>)
    ensures
        no_newline(quoted(s)),
{
    lemma_escape_text_no_newline(s);
    lemma_no_newline_concat(seq!['"'], escape_text(s));
    lemma_no_newline_concat(seq!['"'] + escape_text(s), seq!['"']);
}

proof fn lemma_dec_text_no_newline(n: nat)
    ensures
        no_newline(dec_text(n)),
    decreases n,
{
    if n >= 10 {
        lemma_dec_text_no_newline(n / 10);
    }
}

proof fn lemma_list_text_no_newline(items: Seq<Seq<char>>)
    ensures
        no_newline(list_text(items)),
    decreases items.len(),
{
    if items.len() == 1 {
        lemma_quoted_no_newline(items[0]);
    } else if items.len() > 1 {
        lemma_list_text_no_newline(items.drop_last());
        lemma_quoted_no_newline(items.last());
        lemma_no_newline_concat(list_text(items.drop_last()), seq![',']);
        lemma_no_newline_concat(list_text(items.drop_last()) + seq![','], quoted(items.last()));
    }
}

proof fn lemma_id_texts_no_newline(id: Option<u64>)
    ensures
        no_newline(msg_id_text(id)),
        no_newline(reply_to_text(id)),
{
    reveal_strlit(",\"msg_id\":");
    reveal_strlit(",\"in_reply_to\":");
    if let Some(n) = id {
        lemma_dec_text_no_newline(n as nat);
        lemma_no_newline_concat(",\"msg_id\":"@, dec_text(n as nat));
        lemma_no_newline_concat(",\"in_reply_to\":"@, dec_text(n as nat));
    }
}

proof fn lemma_fields_text_no_newline(p: PayloadV)
    ensures
        no_newline(fields_text(p)),
{
    reveal_strlit(",\"echo\":");
    reveal_strlit(",\"node_id\":");
    reveal_strlit(",\"node_ids\":");
    match p {
        PayloadV::Echo { echo } => {
            lemma_quoted_no_newline(echo);
            lemma_no_newline_concat(",\"echo\":"@, quoted(echo));
        },
        PayloadV::EchoOk { echo } => {
            lemma_quoted_no_newline(echo);
            lemma_no_newline_concat(",\"echo\":"@, quoted(echo));
        },
        PayloadV::Init { node_id, node_ids } => {
            lemma_quoted_no_newline(node_id);
            lemma_list_text_no_newline(node_ids);
            let a = ",\"node_id\":"@ + quoted(node_id);
            lemma_no_newline_concat(",\"node_id\":"@, quoted(node_id));
            lemma_no_newline_concat(a, ",\"node_ids\":"@);
            lemma_no_newline_concat(a + ",\"node_ids\":"@, seq!['[']);
            lemma_no_newline_concat(a + ",\"node_ids\":"@ + seq!['['], list_text(node_ids));
            lemma_no_newline_concat(
                a + ",\"node_ids\":"@ + seq!['['] + list_text(node_ids),
                seq![']'],
            );
        },
        PayloadV::InitOk => {},
        PayloadV::Unknown { .. } => {},
    }
}

proof fn lemma_body_text_no_newline(b: BodyV)
    ensures
        no_newline(body_text(b)),
{
    reveal_strlit("{\"type\":");
    reveal_strlit("}");
    lemma_quoted_no_newline(tag_text(b.payload));
    lemma_id_texts_no_newline(b.id);
    lemma_id_texts_no_newline(b.reply_to);
    lemma_fields_text_no_newline(b.payload);
    let a1 = "{\"type\":"@ + quoted(tag_text(b.payload));
    lemma_no_newline_concat("{\"type\":"@, quoted(tag_text(b.payload)));
    lemma_no_newline_concat(a1, msg_id_text(b.id));
    lemma_no_newline_concat(a1 + msg_id_text(b.id), reply_to_text(b.reply_to));
    lemma_no_newline_concat(
        a1 + msg_id_text(b.id) + reply_to_text(b.reply_to),
        fields_text(b.payload),
    );
    lemma_no_newline_concat(
        a1 + msg_id_text(b.id) + reply_to_text(b.reply_to) + fields_text(b.payload),
        "}"@,
    );
}

/// An encoded envelope occupies exactly one line of output: its text ends
/// with the single newline terminator and holds no other newline.
pub proof fn lemma_encoded_single_line(m: MessageV)
    ensures
        encoded_text(m).len() > 0,
        encoded_text(m).last() == '\n',
        forall|k: int| 0 <= k < encoded_text(m).len() - 1 ==> encoded_text(m)[k] != '\n',
{
    reveal_strlit("{\"src\":");
    reveal_strlit(",\"dest\":");
    reveal_strlit(",\"body\":");
    reveal_strlit("}");
    lemma_quoted_no_newline(m.src);
    lemma_quoted_no_newline(m.dst);
    lemma_body_text_no_newline(m.body);
    let a1 = "{\"src\":"@ + quoted(m.src);
    lemma_no_newline_concat("{\"src\":"@, quoted(m.src));
    lemma_no_newline_concat(a1, ",\"dest\":"@);
    lemma_no_newline_concat(a1 + ",\"dest\":"@, quoted(m.dst));
    let a2 = a1 + ",\"dest\":"@ + quoted(m.dst);
    lemma_no_newline_concat(a2, ",\"body\":"@);
    lemma_no_newline_concat(a2 + ",\"body\":"@, body_text(m.body));
    lemma_no_newline_concat(a2 + ",\"body\":"@ + body_text(m.body), "}"@);
    assert(no_newline(line_text(m)));
    assert forall|k: int| 0 <= k < encoded_text(m).len() - 1 implies encoded_text(m)[k] != '\n' by {
        assert(encoded_text(m)[k] == line_text(m)[k]);
    }
}

/// Appends the quoted wire tag of a payload to `out`.
fn push_tag(out: &mut Vec<char>, p: &Payload)
    ensures
        final(out)@ == old(out)@ + quoted(tag_text(p@)),
{
    match p {
        Payload::Echo { .. } => push_quoted(out, "echo"),
        Payload::EchoOk { .. } => push_quoted(out, "echo_ok"),
        Payload::Init { .. } => push_quoted(out, "init"),
        Payload::InitOk => push_quoted(out, "init_ok"),
        Payload::Unknown { tag } => push_quoted(out, tag.as_str()),
    }
}

/// Appends the bracketed, comma-separated quoted items of a string list to
/// `out`.
fn push_list(out: &mut Vec<char>, items: &Vec<String>)
    ensures
        final(out)@ == old(out)@ + seq!['['] + list_text(items.deep_view()) + seq![']'],
{
    out.push('[');
    let ghost vs = items.deep_view();
    let ghost pre = out@;
    let n = items.len();
    let mut i: usize = 0;
    while i < n
        invariant
            i <= n,
            n == items@.len(),
            vs == items.deep_view(),
            vs.len() == n,
            forall|k: int| 0 <= k < n ==> vs[k] == #[trigger] items@[k]@,
            out@ == pre + list_text(vs.subrange(0, i as int)),
        decreases n - i,
    {
        if i > 0 {
            out.push(',');
        }
        push_quoted(out, items[i].as_str());
        i = i + 1;
        proof {
            let t = vs.subrange(0, i as int);
            assert(t.drop_last() =~= vs.subrange(0, i - 1));
            assert(t.last() == vs[i - 1]);
            assert(out@ =~= pre + list_text(t));
        }
    }
    out.push(']');
    proof {
        assert(vs.subrange(0, n as int) =~= vs);
        assert(out@ =~= old(out)@ + seq!['['] + list_text(vs) + seq![']']);
    }
}

/// Appends the members a payload contributes to the body object to `out`.
fn push_fields(out: &mut Vec<char>, p: &Payload)
    ensures
        final(out)@ == old(out)@ + fields_text(p@),
{
    match p {
        Payload::Echo { echo } => {
            push_str(out, ",\"echo\":");
            push_quoted(out, echo.as_str());
        },
        Payload::EchoOk { echo } => {
            push_str(out, ",\"echo\":");
            push_quoted(out, echo.as_str());
        },
        Payload::Init { node_id, node_ids } => {
            push_str(out, ",\"node_id\":");
            push_quoted(out, node_id.as_str());
            push_str(out, ",\"node_ids\":");
            push_list(out, node_ids);
            proof {
                assert(out@ =~= old(out)@ + fields_text(p@));
            }
        },
        Payload::InitOk => {},
        Payload::Unknown { .. } => {},
    }
}

/// Appends the wire text of the message-id member to `out`.
fn push_msg_id(out: &mut Vec<char>, id: Option<u64>)
    ensures
        final(out)@ == old(out)@ + msg_id_text(id),
{
    if let Some(n) = id {
        push_str(out, ",\"msg_id\":");
        push_u64(out, n);
    }
}

/// Appends the wire text of the reply-to member to `out`.
fn push_reply_to(out: &mut Vec<char>, id: Option<u64>)
    ensures
        final(out)@ == old(out)@ + reply_to_text(id),
{
    if let Some(n) = id {
        push_str(out, ",\"in_reply_to\":");
        push_u64(out, n);
    }
}

/// Appends the wire text of a body to `out`.
fn push_body(out: &mut Vec<char>, b: &Body)
    ensures
        final(out)@ == old(out)@ + body_text(b@),
{
    push_str(out, "{\"type\":");
    push_tag(out, &b.payload);
    push_msg_id(out, b.id);
    push_reply_to(out, b.reply_to);
    push_fields(out, &b.payload);
    push_str(out, "}");
    proof {
        assert(out@ =~= old(out)@ + body_text(b@));
    }
}

/// Encodes an envelope as one line of wire text: its canonical JSON object
/// terminated by a single newline. The text is pinned exactly by
/// `encoded_text`.
pub fn encode(m: &Message) -> (r: String)
    ensures
        r@ == encoded_text(m@),
{
    let mut out: Vec<char> = Vec::new();
    push_str(&mut out, "{\"src\":");
    push_quoted(&mut out, m.src.as_str());
    push_str(&mut out, ",\"dest\":");
    push_quoted(&mut out, m.dst.as_str());
    push_str(&mut out, ",\"body\":");
    push_body(&mut out, &m.body);
    push_str(&mut out, "}");
    out.push('\n');
    proof {
        assert(out@ =~= encoded_text(m@));
    }
    chars_to_string(&out)
}

/// The key/value members of a flat wire object, by view.
pub open spec fn fields_view(fs: Seq<(String, JVal)>) -> Seq<(Seq<char>, JValV)> {
    fs.map_values(|p: (String, JVal)| (p.0@, p.1@))
}

/// The value of the first member with the given key, if any.
pub open spec fn field_lookup(fs: Seq<(Seq<char>, JValV)>, key: Seq<char>) -> Option<JValV>
    decreases fs.len(),
{
    if fs.len() == 0 {
        None
    } else if fs[0].0 == key {
        Some(fs[0].1)
    } else {
        field_lookup(fs.drop_first(), key)
    }
}

/// What payload a flat wire object denotes, from its tag and its remaining
/// members: each recognized tag requires its own members with their exact
/// shapes, and every other tag denotes `Unknown`.
pub open spec fn spec_payload_of(tag: Seq<char>, fs: Seq<(Seq<char>, JValV)>) -> Result<
    PayloadV,
    DecodeError,
> {
    if tag == "echo"@ {
        match field_lookup(fs, "echo"@) {
            Option::Some(JValV::SStr(e)) => Ok(PayloadV::Echo { echo: e }),
            _ => Err(DecodeError::Malformed),
        }
    } else if tag == "echo_ok"@ {
        match field_lookup(fs, "echo"@) {
            Option::Some(JValV::SStr(e)) => Ok(PayloadV::EchoOk { echo: e }),
            _ => Err(DecodeError::Malformed),
        }
    } else if tag == "init"@ {
        match field_lookup(fs, "node_id"@) {
            Option::Some(JValV::SStr(nid)) => match field_lookup(fs, "node_ids"@) {
                Option::Some(JValV::StrList(nids)) => Ok(
                    PayloadV::Init { node_id: nid, node_ids: nids },
                ),
                _ => Err(DecodeError::Malformed),
            },
            _ => Err(DecodeError::Malformed),
        }
    } else if tag == "init_ok"@ {
        Ok(PayloadV::InitOk)
    } else {
        Ok(PayloadV::Unknown { tag })
    }
}

/// The members each payload variant spreads into the flat body object,
/// beside the tag and the correlation ids.
pub open spec fn payload_fields(p: PayloadV) -> Seq<(Seq<char>, JValV)> {
    match p {
        PayloadV::Echo { echo } => seq![("echo"@, JValV::SStr(echo))],
        PayloadV::EchoOk { echo } => seq![("echo"@, JValV::SStr(echo))],
        PayloadV::Init { node_id, node_ids } => seq![
            ("node_id"@, JValV::SStr(node_id)),
            ("node_ids"@, JValV::StrList(node_ids)),
        ],
        PayloadV::InitOk => Seq::empty(),
        PayloadV::Unknown { .. } => Seq::empty(),
    }
}

/// Spreading a payload into the flat members of the wire body and reading
/// them back under their tag reproduces the payload exactly: the flattened
/// representation, with its renamed sibling keys, loses nothing.
pub proof fn lemma_payload_round_trip(p: PayloadV)
    requires
        wf_payload(p),
    ensures
        spec_payload_of(tag_text(p), payload_fields(p)) == Ok::<PayloadV, DecodeError>(p),
{
    reveal_with_fuel(field_lookup, 3);
    reveal_strlit("echo");
    reveal_strlit("echo_ok");
    reveal_strlit("init");
    reveal_strlit("init_ok");
    reveal_strlit("node_id");
    reveal_strlit("node_ids");
    assert("echo"@.len() == 4 && "echo_ok"@.len() == 7 && "init"@.len() == 4 && "init_ok"@.len()
        == 7 && "node_id"@.len() == 7 && "node_ids"@.len() == 8);
    assert("init"@[0] == 'i' && "echo"@[0] == 'e' && "init_ok"@[0] == 'i' && "echo_ok"@[0] == 'e');
    match p {
        PayloadV::Echo { echo } => {
        },
        PayloadV::EchoOk { echo } => {
            assert("echo_ok"@ != "echo"@);
        },
        PayloadV::Init { node_id, node_ids } => {
            assert("init"@ != "echo"@);
            assert("init"@ != "echo_ok"@);
            let fs = payload_fields(p);
            assert(fs.drop_first() =~= seq![("node_ids"@, JValV::StrList(node_ids))]);
            assert("node_id"@ != "node_ids"@);
        },
        PayloadV::InitOk => {
            assert("init_ok"@ != "echo"@);
            assert("init_ok"@ != "echo_ok"@);
            assert("init_ok"@ != "init"@);
        },
        PayloadV::Unknown { tag } => {
        },
    }
}

/// A copy of a string list whose contents are the same strings.
fn clone_string_list(v: &Vec<String>) -> (r: Vec<String>)
    ensures
        r.deep_view() == v.deep_view(),
        r@.len() == v@.len(),
{
    let n = v.len();
    let mut r: Vec<String> = Vec::new();
    let mut i: usize = 0;
    while i < n
        invariant
            i <= n,
            n == v@.len(),
            r@.len() == i,
            forall|k: int| 0 <= k < i ==> r@[k] == #[trigger] v@[k],
        decreases n - i,
    {
        r.push(v[i].clone());
        i = i + 1;
    }
    proof {
        assert(r@ =~= v@);
        assert(r.deep_view() =~= v.deep_view());
    }
    r
}

/// The value of the first member with the given key, by scan.
fn find_field<'a>(fields: &'a Vec<(String, JVal)>, key: &str) -> (r: Option<&'a JVal>)
    ensures
        match r {
            Option::Some(v) => field_lookup(fields_view(fields@), key@) == Some(v@),
            Option::None => field_lookup(fields_view(fields@), key@) is None,
        },
{
    let key_s: String = key.to_owned();
    let ghost fv = fields_view(fields@);
    proof {
        assert(fv.skip(0) =~= fv);
    }
    let n = fields.len();
    let mut k: usize = 0;
    while k < n
        invariant
            k <= n,
            n == fields@.len(),
            fv == fields_view(fields@),
            fv.len() == n,
            key_s@ == key@,
            forall|t: int| 0 <= t < n ==> #[trigger] fv[t] == (fields@[t].0@, fields@[t].1@),
            field_lookup(fv, key@) == field_lookup(fv.skip(k as int), key@),
        decreases n - k,
    {
        let pair = &fields[k];
        proof {
            assert(fv.skip(k as int)[0] == fv[k as int]);
        }
        if pair.0 == key_s {
            return Some(&pair.1);
        }
        k = k + 1;
        proof {
            assert(fv.skip(k - 1).drop_first() =~= fv.skip(k as int));
        }
    }
    proof {
        assert(fv.skip(n as int) =~= Seq::empty());
    }
    None
}

/// Builds the payload denoted by a flat wire object's tag and remaining
/// members; exactly `spec_payload_of`.
fn make_payload(tag: String, fields: &Vec<(String, JVal)>) -> (r: Result<Payload, DecodeError>)
    ensures
        match r {
            Ok(p) => spec_payload_of(tag@, fields_view(fields@)) == Ok::<PayloadV, DecodeError>(p@)
                && wf_payload(p@),
            Err(e) => spec_payload_of(tag@, fields_view(fields@)) == Err::<PayloadV, DecodeError>(
                e,
            ),
        },
{
    let t_echo: String = "echo".to_owned();
    let t_echo_ok: String = "echo_ok".to_owned();
    let t_init: String = "init".to_owned();
    let t_init_ok: String = "init_ok".to_owned();
    if tag == t_echo {
        match find_field(fields, "echo") {
            Some(v) => match v {
                JVal::SStr(st) => Ok(Payload::Echo { echo: st.clone() }),
                _ => Err(DecodeError::Malformed),
            },
            None => Err(DecodeError::Malformed),
        }
    } else if tag == t_echo_ok {
        match find_field(fields, "echo") {
            Some(v) => match v {
                JVal::SStr(st) => Ok(Payload::EchoOk { echo: st.clone() }),
                _ => Err(DecodeError::Malformed),
            },
            None => Err(DecodeError::Malformed),
        }
    } else if tag == t_init {
        let nid: String = match find_field(fields, "node_id") {
            Some(v) => match v {
                JVal::SStr(st) => st.clone(),
                _ => {
                    return Err(DecodeError::Malformed);
                },
            },
            None => {
                return Err(DecodeError::Malformed);
            },
        };
        match find_field(fields, "node_ids") {
            Some(v) => match v {
                JVal::StrList(items) => Ok(
                    Payload::Init { node_id: nid, node_ids: clone_string_list(items) },
                ),
                _ => Err(DecodeError::Malformed),
            },
            None => Err(DecodeError::Malformed),
        }
    } else if tag == t_init_ok {
        Ok(Payload::InitOk)
    } else {
        Ok(Payload::Unknown { tag })
    }
}

/// The line is the canonical wire text of the envelope, with or without the
/// line terminator.
pub open spec fn canonical_line(s: Seq<char>, mv: MessageV) -> bool {
    s == line_text(mv) || s == encoded_text(mv)
}

/// A text standing at a position splits over concatenation.
proof fn lemma_text_at_split(s: Seq<char>, i: int, a: Seq<char>, b: Seq<char>)
    requires
        text_at(s, i, a + b),
    ensures
        text_at(s, i, a),
        text_at(s, i + a.len(), b),
{
    assert forall|k: int| 0 <= k < a.len() implies s.subrange(i, i + a.len())[k] == a[k] by {
        lemma_text_at_index(s, i, a + b, k);
    }
    assert(s.subrange(i, i + a.len()) =~= a);
    assert forall|k: int| 0 <= k < b.len() implies s.subrange(
        i + a.len(),
        i + a.len() + b.len(),
    )[k] == b[k] by {
        lemma_text_at_index(s, i, a + b, a.len() as int + k);
    }
    assert(s.subrange(i + a.len(), i + a.len() + b.len()) =~= b);
}

/// The first item of a non-empty list leads its wire text.
proof fn lemma_list_front(items: Seq<Seq<char>>)
    requires
        items.len() >= 1,
    ensures
        items.len() == 1 ==> list_text(items) == quoted(items[0]),
        items.len() > 1 ==> list_text(items) == quoted(items[0]) + seq![','] + list_text(
            items.drop_first(),
        ),
    decreases items.len(),
{
    if items.len() > 1 {
        lemma_list_front(items.drop_last());
        if items.len() == 2 {
            assert(items.drop_last()[0] == items[0]);
            assert(items.drop_first() =~= seq![items[1]]);
            assert(list_text(items.drop_first()) == quoted(items[1]));
            assert(list_text(items) =~= quoted(items[0]) + seq![','] + list_text(
                items.drop_first(),
            ));
        } else {
            assert(items.drop_last().drop_first() =~= items.drop_first().drop_last());
            assert(items.drop_first().last() == items.last());
            assert(list_text(items.drop_first()) == list_text(items.drop_first().drop_last())
                + seq![','] + quoted(items.drop_first().last()));
            assert(list_text(items) =~= quoted(items[0]) + seq![','] + list_text(
                items.drop_first(),
            ));
        }
    }
}

/// Reads the items of a non-empty canonical string list, starting at the
/// first quote, up to and including the closing bracket.
fn read_canonical_items(s: &Vec<char>, i: usize) -> (r: Option<(Vec<String>, usize)>)
    requires
        i <= s@.len(),
    ensures
        r matches Some(p) ==> i < p.1 <= s@.len(),
        forall|items: Seq<Seq<char>>|
            items.len() >= 1 && #[trigger] text_at(
                s@,
                i as int,
                list_text(items) + seq![']'],
            ) ==> (r matches Some(p) && p.0.deep_view() == items && p.1 == i + list_text(
                items,
            ).len() + 1),
    decreases s@.len() - i,
{
    let (st, j) = match parse_string_at(s, i) {
        Ok(p) => p,
        Err(_) => {
            proof {
                assert forall|items: Seq<Seq<char>>|
                    items.len() >= 1 && #[trigger] text_at(
                        s@,
                        i as int,
                        list_text(items) + seq![']'],
                    ) implies false by {
                    lemma_list_front(items);
                    if items.len() == 1 {
                        lemma_text_at_split(s@, i as int, quoted(items[0]), seq![']']);
                    } else {
                        assert(list_text(items) + seq![']'] =~= quoted(items[0]) + (seq![',']
                            + list_text(items.drop_first()) + seq![']']));
                        lemma_text_at_split(
                            s@,
                            i as int,
                            quoted(items[0]),
                            seq![','] + list_text(items.drop_first()) + seq![']'],
                        );
                    }
                }
            }
            return None;
        },
    };
    proof {
        assert forall|items: Seq<Seq<char>>|
            items.len() >= 1 && #[trigger] text_at(
                s@,
                i as int,
                list_text(items) + seq![']'],
            ) implies st@ == items[0] && j == i + quoted(items[0]).len() by {
            lemma_list_front(items);
            if items.len() == 1 {
                lemma_text_at_split(s@, i as int, quoted(items[0]), seq![']']);
            } else {
                assert(list_text(items) + seq![']'] =~= quoted(items[0]) + (seq![','] + list_text(
                    items.drop_first(),
                ) + seq![']']));
                lemma_text_at_split(
                    s@,
                    i as int,
                    quoted(items[0]),
                    seq![','] + list_text(items.drop_first()) + seq![']'],
                );
            }
        }
    }
    if j < s.len() && s[j] == ']' {
        let mut out: Vec<String> = Vec::new();
        out.push(st);
        proof {
            assert forall|items: Seq<Seq<char>>|
                items.len() >= 1 && #[trigger] text_at(
                    s@,
                    i as int,
                    list_text(items) + seq![']'],
                ) implies out.deep_view() == items && j + 1 == i + list_text(items).len() + 1 by {
                lemma_list_front(items);
                if items.len() > 1 {
                    assert(list_text(items) + seq![']'] =~= quoted(items[0]) + (seq![',']
                        + list_text(items.drop_first()) + seq![']']));
                    lemma_text_at_split(
                        s@,
                        i as int,
                        quoted(items[0]),
                        seq![','] + list_text(items.drop_first()) + seq![']'],
                    );
                    lemma_text_at_index(
                        s@,
                        i + quoted(items[0]).len(),
                        seq![','] + list_text(items.drop_first()) + seq![']'],
                        0,
                    );
                    assert(false);
                }
                lemma_text_at_split(s@, i as int, quoted(items[0]), seq![']']);
                assert(out.deep_view() =~= items);
            }
        }
        return Some((out, j + 1));
    }
    if j < s.len() && s[j] == ',' {
        match read_canonical_items(s, j + 1) {
            Some((rest, end)) => {
                let mut out: Vec<String> = Vec::new();
                out.push(st);
                let mut k: usize = 0;
                let rn = rest.len();
                while k < rn
                    invariant
                        k <= rn,
                        rn == rest@.len(),
                        out@.len() == k + 1,
                        out@[0] == st,
                        forall|q: int| 0 <= q < k ==> out@[q + 1] == #[trigger] rest@[q],
                    decreases rn - k,
                {
                    out.push(rest[k].clone());
                    k = k + 1;
                }
                proof {
                    assert forall|items: Seq<Seq<char>>|
                        items.len() >= 1 && #[trigger] text_at(
                            s@,
                            i as int,
                            list_text(items) + seq![']'],
                        ) implies out.deep_view() == items && end == i + list_text(items).len()
                        + 1 by {
                        lemma_list_front(items);
                        if items.len() == 1 {
                            lemma_text_at_split(s@, i as int, quoted(items[0]), seq![']']);
                            lemma_text_at_index(s@, i + quoted(items[0]).len(), seq![']'], 0);
                            assert(false);
                        }
                        assert(list_text(items) + seq![']'] =~= quoted(items[0]) + seq![','] + (
                        list_text(items.drop_first()) + seq![']']));
                        lemma_text_at_split(
                            s@,
                            i as int,
                            quoted(items[0]) + seq![','],
                            list_text(items.drop_first()) + seq![']'],
                        );
                        lemma_text_at_split(s@, i as int, quoted(items[0]), seq![',']);
                        assert(items.drop_first().len() >= 1);
                        assert(rest.deep_view() == items.drop_first());
                        assert forall|q: int| 0 <= q < out.deep_view().len() implies out.deep_view()[q]
                            == items[q] by {
                            if q > 0 {
                                assert(out@[q] == rest@[q - 1]);
                                assert(rest.deep_view()[q - 1] == items.drop_first()[q - 1]);
                            }
                        }
                        assert(out.deep_view() =~= items);
                    }
                }
                return Some((out, end));
            },
            None => {
                proof {
                    assert forall|items: Seq<Seq<char>>|
                        items.len() >= 1 && #[trigger] text_at(
                            s@,
                            i as int,
                            list_text(items) + seq![']'],
                        ) implies false by {
                        lemma_list_front(items);
                        if items.len() == 1 {
                            lemma_text_at_split(s@, i as int, quoted(items[0]), seq![']']);
                            lemma_text_at_index(s@, i + quoted(items[0]).len(), seq![']'], 0);
                        } else {
                            assert(list_text(items) + seq![']'] =~= quoted(items[0]) + seq![','] + (
                            list_text(items.drop_first()) + seq![']']));
                            lemma_text_at_split(
                                s@,
                                i as int,
                                quoted(items[0]) + seq![','],
                                list_text(items.drop_first()) + seq![']'],
                            );
                        }
                    }
                }
                return None;
            },
        }
    }
    proof {
        assert forall|items: Seq<Seq<char>>|
            items.len() >= 1 && #[trigger] text_at(
                s@,
                i as int,
                list_text(items) + seq![']'],
            ) implies false by {
            lemma_list_front(items);
            if items.len() == 1 {
                lemma_text_at_split(s@, i as int, quoted(items[0]), seq![']']);
                lemma_text_at_index(s@, i + quoted(items[0]).len(), seq![']'], 0);
                assert(s@[j as int] == ']');
            } else {
                assert(list_text(items) + seq![']'] =~= quoted(items[0]) + seq![','] + (list_text(
                    items.drop_first(),
                ) + seq![']']));
                lemma_text_at_split(
                    s@,
                    i as int,
                    quoted(items[0]) + seq![','],
                    list_text(items.drop_first()) + seq![']'],
                );
                lemma_text_at_split(s@, i as int, quoted(items[0]), seq![',']);
                lemma_text_at_index(s@, i + quoted(items[0]).len(), seq![','], 0);
                assert(s@[j as int] == ',');
            }
        }
    }
    None
}

/// Converse of splitting: adjacent texts stand together.
proof fn lemma_text_at_join(s: Seq<char>, i: int, a: Seq<char>, b: Seq<char>)
    requires
        text_at(s, i, a),
        text_at(s, i + a.len(), b),
    ensures
        text_at(s, i, a + b),
{
    assert forall|k: int| 0 <= k < (a + b).len() implies s.subrange(i, i + (a + b).len())[k] == (a
        + b)[k] by {
        if k < a.len() {
            lemma_text_at_index(s, i, a, k);
        } else {
            lemma_text_at_index(s, i + a.len(), b, k - a.len());
        }
    }
    assert(s.subrange(i, i + (a + b).len()) =~= a + b);
}

/// Where each canonical segment of an envelope's wire text stands, what
/// follows the optional id members, and which payload variant a recognized
/// tag text forces.
#[verifier::rlimit(100)]
#[verifier::spinoff_prover]
proof fn lemma_line_layout(s: Seq<char>, mv: MessageV)
    requires
        wf_message(mv),
        canonical_line(s, mv),
    ensures
        ("{\"src\":"@).len() == 7,
        (",\"dest\":"@).len() == 8,
        (",\"body\":"@).len() == 8,
        ("{\"type\":"@).len() == 8,
        (",\"msg_id\":"@).len() == 10,
        (",\"in_reply_to\":"@).len() == 15,
        (",\"echo\":"@).len() == 8,
        (",\"node_id\":"@).len() == 11,
        (",\"node_ids\":"@).len() == 12,
        text_at(s, 0, "{\"src\":"@),
        text_at(s, 7, quoted(mv.src)),
        text_at(s, 7 + quoted(mv.src).len() as int, ",\"dest\":"@),
        text_at(s, 15 + quoted(mv.src).len() as int, quoted(mv.dst)),
        text_at(s, 15 + quoted(mv.src).len() as int + quoted(mv.dst).len() as int, ",\"body\":"@),
        text_at(s, 23 + quoted(mv.src).len() as int + quoted(mv.dst).len() as int, "{\"type\":"@),
        text_at(
            s,
            31 + quoted(mv.src).len() as int + quoted(mv.dst).len() as int,
            quoted(tag_text(mv.body.payload)),
        ),
        ({
            let o6 = 31 + quoted(mv.src).len() as int + quoted(mv.dst).len() as int + quoted(
                tag_text(mv.body.payload),
            ).len() as int;
            let o7 = o6 + msg_id_text(mv.body.id).len() as int;
            let o8 = o7 + reply_to_text(mv.body.reply_to).len() as int;
            let o9 = o8 + fields_text(mv.body.payload).len() as int;
            &&& (mv.body.id matches Some(n) ==> text_at(s, o6, ",\"msg_id\":"@) && num_at(
                s,
                o6 + 10,
                n,
            ) && msg_id_text(mv.body.id).len() == 10 + dec_text(n as nat).len())
            &&& (mv.body.id is None ==> !text_at(s, o6, ",\"msg_id\":"@) && o7 == o6)
            &&& (mv.body.reply_to matches Some(n) ==> text_at(s, o7, ",\"in_reply_to\":"@)
                && num_at(s, o7 + 15, n) && reply_to_text(mv.body.reply_to).len() == 15 + dec_text(
                n as nat,
            ).len())
            &&& (mv.body.reply_to is None ==> !text_at(s, o7, ",\"in_reply_to\":"@) && o8 == o7)
            &&& (match mv.body.payload {
                PayloadV::Echo { echo } => text_at(s, o8, ",\"echo\":"@) && text_at(
                    s,
                    o8 + 8,
                    quoted(echo),
                ),
                PayloadV::EchoOk { echo } => text_at(s, o8, ",\"echo\":"@) && text_at(
                    s,
                    o8 + 8,
                    quoted(echo),
                ),
                PayloadV::Init { node_id, node_ids } => text_at(s, o8, ",\"node_id\":"@)
                    && text_at(s, o8 + 11, quoted(node_id)) && text_at(
                    s,
                    o8 + 11 + quoted(node_id).len(),
                    ",\"node_ids\":"@,
                ) && s[o8 + 23 + quoted(node_id).len()] == '[' && (node_ids.len() == 0 ==> s[o8
                    + 24 + quoted(node_id).len()] == ']' && o9 == o8 + 25 + quoted(node_id).len())
                    && (node_ids.len() >= 1 ==> text_at(
                    s,
                    o8 + 24 + quoted(node_id).len(),
                    list_text(node_ids) + seq![']'],
                ) && o9 == o8 + 25 + quoted(node_id).len() + list_text(node_ids).len()),
                PayloadV::InitOk => o9 == o8,
                PayloadV::Unknown { .. } => o9 == o8,
            })
            &&& s[o9] == '}'
            &&& s[o9 + 1] == '}'
            &&& o9 + 2 == line_text(mv).len()
            &&& (s.len() == o9 + 2 || (s.len() == o9 + 3 && s[o9 + 2] == '\n'))
        }),
        tag_text(mv.body.payload) == "echo"@ <==> mv.body.payload is Echo,
        tag_text(mv.body.payload) == "echo_ok"@ <==> mv.body.payload is EchoOk,
        tag_text(mv.body.payload) == "init"@ <==> mv.body.payload is Init,
        tag_text(mv.body.payload) == "init_ok"@ <==> mv.body.payload is InitOk,
        s.len() > 0 && s[0] == '{',
{
    reveal_strlit("{\"src\":");
    reveal_strlit(",\"dest\":");
    reveal_strlit(",\"body\":");
    reveal_strlit("{\"type\":");
    reveal_strlit(",\"msg_id\":");
    reveal_strlit(",\"in_reply_to\":");
    reveal_strlit(",\"echo\":");
    reveal_strlit(",\"node_id\":");
    reveal_strlit(",\"node_ids\":");
    reveal_strlit("}");
    reveal_strlit("echo");
    reveal_strlit("echo_ok");
    reveal_strlit("init");
    reveal_strlit("init_ok");
    assert("echo"@[0] == 'e' && "init"@[0] == 'i' && "init_ok"@[0] == 'i' && "echo_ok"@[0] == 'e');
    let lt = line_text(mv);
    assert(text_at(s, 0, lt)) by {
        if s == encoded_text(mv) {
            assert(s.subrange(0, lt.len() as int) =~= lt);
        } else {
            assert(s.subrange(0, lt.len() as int) =~= lt);
        }
    }
    let a1 = "{\"src\":"@ + quoted(mv.src);
    let a2 = a1 + ",\"dest\":"@;
    let a3 = a2 + quoted(mv.dst);
    let a4 = a3 + ",\"body\":"@;
    let bt = body_text(mv.body);
    let a5 = a4 + bt;
    lemma_text_at_split(s, 0, a5, "}"@);
    lemma_text_at_split(s, 0, a4, bt);
    lemma_text_at_split(s, 0, a3, ",\"body\":"@);
    lemma_text_at_split(s, 0, a2, quoted(mv.dst));
    lemma_text_at_split(s, 0, a1, ",\"dest\":"@);
    lemma_text_at_split(s, 0, "{\"src\":"@, quoted(mv.src));
    let ob = a4.len() as int;
    let b1 = "{\"type\":"@ + quoted(tag_text(mv.body.payload));
    let b2 = b1 + msg_id_text(mv.body.id);
    let b3 = b2 + reply_to_text(mv.body.reply_to);
    let b4 = b3 + fields_text(mv.body.payload);
    lemma_text_at_split(s, ob, b4, "}"@);
    lemma_text_at_split(s, ob, b3, fields_text(mv.body.payload));
    lemma_text_at_split(s, ob, b2, reply_to_text(mv.body.reply_to));
    lemma_text_at_split(s, ob, b1, msg_id_text(mv.body.id));
    lemma_text_at_split(s, ob, "{\"type\":"@, quoted(tag_text(mv.body.payload)));
    let o6 = ob + b1.len() as int;
    let o7 = o6 + msg_id_text(mv.body.id).len() as int;
    let o8 = o7 + reply_to_text(mv.body.reply_to).len() as int;
    let o9 = o8 + fields_text(mv.body.payload).len() as int;
    lemma_text_at_index(s, o9 + 1, "}"@, 0);
    assert(s[o9] == '}') by {
        lemma_text_at_index(s, ob, b4 + "}"@, b4.len() as int);
    }
    if let Some(n) = mv.body.id {
        lemma_text_at_split(s, o6, ",\"msg_id\":"@, dec_text(n as nat));
        assert(num_at(s, o6 + 10, n)) by {
            let after = o6 + 10 + dec_text(n as nat).len();
            assert(after == o7);
            if o7 < o8 {
                lemma_text_at_index(s, o7, reply_to_text(mv.body.reply_to), 0);
                assert(s[o7] == ',');
            } else if o8 < o9 {
                lemma_text_at_index(s, o8, fields_text(mv.body.payload), 0);
                assert(s[o8] == ',');
            } else {
                assert(s[o7] == '}');
            }
        }
    } else {
        if text_at(s, o6, ",\"msg_id\":"@) {
            lemma_text_at_index(s, o6, ",\"msg_id\":"@, 2);
            if o7 < o8 {
                lemma_text_at_index(s, o7, reply_to_text(mv.body.reply_to), 2);
            } else if o8 < o9 {
                lemma_text_at_index(s, o8, fields_text(mv.body.payload), 2);
            } else {
                lemma_text_at_index(s, o6, ",\"msg_id\":"@, 0);
            }
            assert(false);
        }
    }
    if let Some(n) = mv.body.reply_to {
        lemma_text_at_split(s, o7, ",\"in_reply_to\":"@, dec_text(n as nat));
        assert(num_at(s, o7 + 15, n)) by {
            if o8 < o9 {
                lemma_text_at_index(s, o8, fields_text(mv.body.payload), 0);
                assert(s[o8] == ',');
            } else {
                assert(s[o8] == '}');
            }
        }
    } else {
        if text_at(s, o7, ",\"in_reply_to\":"@) {
            lemma_text_at_index(s, o7, ",\"in_reply_to\":"@, 2);
            if o8 < o9 {
                lemma_text_at_index(s, o8, fields_text(mv.body.payload), 2);
            } else {
                lemma_text_at_index(s, o7, ",\"in_reply_to\":"@, 0);
            }
            assert(false);
        }
    }
    match mv.body.payload {
        PayloadV::Echo { echo } => {
            lemma_text_at_split(s, o8, ",\"echo\":"@, quoted(echo));
        },
        PayloadV::EchoOk { echo } => {
            lemma_text_at_split(s, o8, ",\"echo\":"@, quoted(echo));
        },
        PayloadV::Init { node_id, node_ids } => {
            let f1 = ",\"node_id\":"@ + quoted(node_id);
            let f2 = f1 + ",\"node_ids\":"@;
            let f3 = f2 + seq!['['];
            let f4 = f3 + list_text(node_ids);
            lemma_text_at_split(s, o8, f4, seq![']']);
            lemma_text_at_split(s, o8, f3, list_text(node_ids));
            lemma_text_at_split(s, o8, f2, seq!['[']);
            lemma_text_at_split(s, o8, f1, ",\"node_ids\":"@);
            lemma_text_at_split(s, o8, ",\"node_id\":"@, quoted(node_id));
            lemma_text_at_index(s, f2.len() as int + o8, seq!['['], 0);
            if node_ids.len() == 0 {
                assert(list_text(node_ids) =~= Seq::<char>::empty());
                lemma_text_at_index(s, f3.len() as int + o8, seq![']'], 0);
            } else {
                lemma_text_at_join(s, f3.len() as int + o8, list_text(node_ids), seq![']']);
            }
        },
        PayloadV::InitOk => {},
        PayloadV::Unknown { tag } => {
            assert(!known_tag(tag));
        },
    }
    if s.len() == lt.len() + 1 {
        assert(s == encoded_text(mv));
        assert(s[o9 + 2] == '\n');
    }
}


/// The position of the optional id members in a canonical line.
pub open spec fn off_ids(mv: MessageV) -> int {
    31 + quoted(mv.src).len() as int + quoted(mv.dst).len() as int + quoted(
        tag_text(mv.body.payload),
    ).len() as int
}

/// The position of the payload's own members in a canonical line.
pub open spec fn off_fields(mv: MessageV) -> int {
    off_ids(mv) + msg_id_text(mv.body.id).len() as int + reply_to_text(
        mv.body.reply_to,
    ).len() as int
}

/// Reads the leading canonical segments: both addresses and the tag.
#[verifier::rlimit(100)]
#[verifier::spinoff_prover]
fn read_canonical_head(s: &Vec<char>) -> (r: Option<(String, String, String, usize)>)
    ensures
        r matches Some(p) ==> p.3 <= s@.len() && s@.len() > 0 && s@[0] == '{',
        forall|mv: MessageV|
            wf_message(mv) && #[trigger] canonical_line(s@, mv) ==> (r matches Some(p) && p.0@
                == mv.src && p.1@ == mv.dst && p.2@ == tag_text(mv.body.payload) && p.3 == off_ids(
                mv,
            )),
{
    let j1 = match expect_lit(s, 0, "{\"src\":") {
        Some(j) => j,
        None => {
            proof {
                assert forall|mv: MessageV|
                    wf_message(mv) && #[trigger] canonical_line(s@, mv) implies false by {
                    lemma_line_layout(s@, mv);
                }
            }
            return None;
        },
    };
    let (src_s, j2) = match parse_string_at(s, j1) {
        Ok(p) => p,
        Err(_) => {
            proof {
                assert forall|mv: MessageV|
                    wf_message(mv) && #[trigger] canonical_line(s@, mv) implies false by {
                    lemma_line_layout(s@, mv);
                }
            }
            return None;
        },
    };
    let j3 = match expect_lit(s, j2, ",\"dest\":") {
        Some(j) => j,
        None => {
            proof {
                assert forall|mv: MessageV|
                    wf_message(mv) && #[trigger] canonical_line(s@, mv) implies false by {
                    lemma_line_layout(s@, mv);
                }
            }
            return None;
        },
    };
    let (dst_s, j4) = match parse_string_at(s, j3) {
        Ok(p) => p,
        Err(_) => {
            proof {
                assert forall|mv: MessageV|
                    wf_message(mv) && #[trigger] canonical_line(s@, mv) implies false by {
                    lemma_line_layout(s@, mv);
                }
            }
            return None;
        },
    };
    let j5 = match expect_lit(s, j4, ",\"body\":") {
        Some(j) => j,
        None => {
            proof {
                assert forall|mv: MessageV|
                    wf_message(mv) && #[trigger] canonical_line(s@, mv) implies false by {
                    lemma_line_layout(s@, mv);
                }
            }
            return None;
        },
    };
    let j6 = match expect_lit(s, j5, "{\"type\":") {
        Some(j) => j,
        None => {
            proof {
                assert forall|mv: MessageV|
                    wf_message(mv) && #[trigger] canonical_line(s@, mv) implies false by {
                    lemma_line_layout(s@, mv);
                }
            }
            return None;
        },
    };
    let (tag_s, j7) = match parse_string_at(s, j6) {
        Ok(p) => p,
        Err(_) => {
            proof {
                assert forall|mv: MessageV|
                    wf_message(mv) && #[trigger] canonical_line(s@, mv) implies false by {
                    lemma_line_layout(s@, mv);
                }
            }
            return None;
        },
    };
    proof {
        assert forall|mv: MessageV|
            wf_message(mv) && #[trigger] canonical_line(s@, mv) implies src_s@ == mv.src && dst_s@
            == mv.dst && tag_s@ == tag_text(mv.body.payload) && j7 as int == off_ids(mv) by {
            lemma_line_layout(s@, mv);
        }
        reveal_strlit("{\"src\":");
        lemma_text_at_index(s@, 0, "{\"src\":"@, 0);
    }
    Some((src_s, dst_s, tag_s, j7))
}

/// Reads the optional canonical id members.
#[verifier::rlimit(100)]
#[verifier::spinoff_prover]
fn read_canonical_ids(s: &Vec<char>, j0: usize) -> (r: Option<(Option<u64>, Option<u64>, usize)>)
    requires
        j0 <= s@.len(),
    ensures
        r matches Some(p) ==> p.2 <= s@.len(),
        forall|mv: MessageV|
            wf_message(mv) && #[trigger] canonical_line(s@, mv) && j0 == off_ids(mv) ==> (r matches
                Some(p) && p.0 == mv.body.id && p.1 == mv.body.reply_to && p.2 == off_fields(mv)),
{
    let mut id: Option<u64> = None;
    let mut j: usize = j0;
    match expect_lit(s, j, ",\"msg_id\":") {
        Some(ja) => {
            match parse_number_at(s, ja) {
                Ok((JVal::Num(n), jb)) => {
                    id = Some(n);
                    j = jb;
                },
                _ => {
                    proof {
                        assert forall|mv: MessageV|
                            wf_message(mv) && #[trigger] canonical_line(s@, mv) && j0 == off_ids(
                                mv,
                            ) implies false by {
                            lemma_line_layout(s@, mv);
                        }
                    }
                    return None;
                },
            }
        },
        None => {},
    }
    proof {
        assert forall|mv: MessageV|
            wf_message(mv) && #[trigger] canonical_line(s@, mv) && j0 == off_ids(mv) implies id
            == mv.body.id && j as int == off_ids(mv) + msg_id_text(mv.body.id).len() by {
            lemma_line_layout(s@, mv);
        }
    }
    let mut reply_to: Option<u64> = None;
    match expect_lit(s, j, ",\"in_reply_to\":") {
        Some(ja) => {
            match parse_number_at(s, ja) {
                Ok((JVal::Num(n), jb)) => {
                    reply_to = Some(n);
                    j = jb;
                },
                _ => {
                    proof {
                        assert forall|mv: MessageV|
                            wf_message(mv) && #[trigger] canonical_line(s@, mv) && j0 == off_ids(
                                mv,
                            ) implies false by {
                            lemma_line_layout(s@, mv);
                        }
                    }
                    return None;
                },
            }
        },
        None => {},
    }
    proof {
        assert forall|mv: MessageV|
            wf_message(mv) && #[trigger] canonical_line(s@, mv) && j0 == off_ids(mv) implies
            reply_to == mv.body.reply_to && j as int == off_fields(mv) by {
            lemma_line_layout(s@, mv);
        }
    }
    Some((id, reply_to, j))
}

/// Reads the canonical members of the handshake payload.
#[verifier::rlimit(100)]
#[verifier::spinoff_prover]
fn read_canonical_init(s: &Vec<char>, j0: usize) -> (r: Option<(Payload, usize)>)
    requires
        j0 <= s@.len(),
    ensures
        r matches Some(p) ==> wf_payload(p.0@) && p.1 <= s@.len(),
        forall|mv: MessageV|
            wf_message(mv) && #[trigger] canonical_line(s@, mv) && j0 == off_fields(mv)
                && mv.body.payload is Init ==> (r matches Some(p) && p.0@ == mv.body.payload
                && p.1 == off_fields(mv) + fields_text(mv.body.payload).len()),
{
    let ja = match expect_lit(s, j0, ",\"node_id\":") {
        Some(x) => x,
        None => {
            proof {
                assert forall|mv: MessageV|
                    wf_message(mv) && #[trigger] canonical_line(s@, mv) && j0 == off_fields(mv)
                        && mv.body.payload is Init implies false by {
                    lemma_line_layout(s@, mv);
                }
            }
            return None;
        },
    };
    let (nid, jb) = match parse_string_at(s, ja) {
        Ok(p) => p,
        Err(_) => {
            proof {
                assert forall|mv: MessageV|
                    wf_message(mv) && #[trigger] canonical_line(s@, mv) && j0 == off_fields(mv)
                        && mv.body.payload is Init implies false by {
                    lemma_line_layout(s@, mv);
                }
            }
            return None;
        },
    };
    let jc = match expect_lit(s, jb, ",\"node_ids\":") {
        Some(x) => x,
        None => {
            proof {
                assert forall|mv: MessageV|
                    wf_message(mv) && #[trigger] canonical_line(s@, mv) && j0 == off_fields(mv)
                        && mv.body.payload is Init implies false by {
                    lemma_line_layout(s@, mv);
                }
            }
            return None;
        },
    };
    if jc >= s.len() || s[jc] != '[' {
        proof {
            assert forall|mv: MessageV|
                wf_message(mv) && #[trigger] canonical_line(s@, mv) && j0 == off_fields(mv)
                    && mv.body.payload is Init implies false by {
                lemma_line_layout(s@, mv);
            }
        }
        return None;
    }
    if jc + 1 < s.len() && s[jc + 1] == ']' {
        let p = Payload::Init { node_id: nid, node_ids: Vec::new() };
        proof {
            assert forall|mv: MessageV|
                wf_message(mv) && #[trigger] canonical_line(s@, mv) && j0 == off_fields(mv)
                    && mv.body.payload is Init implies p@ == mv.body.payload && jc
                + 2 == off_fields(mv) + fields_text(mv.body.payload).len() by {
                lemma_line_layout(s@, mv);
                if let PayloadV::Init { node_id, node_ids } = mv.body.payload {
                    if node_ids.len() >= 1 {
                        lemma_list_front(node_ids);
                        lemma_text_at_index(
                            s@,
                            off_fields(mv) + 24 + quoted(node_id).len(),
                            list_text(node_ids) + seq![']'],
                            0,
                        );
                        assert(quoted(node_ids[0])[0] == '"');
                        assert(list_text(node_ids)[0] == '"');
                        assert(false);
                    }
                    match p@ {
                        PayloadV::Init { node_id: pn, node_ids: pl } => {
                            assert(pn == node_id);
                            assert(pl =~= node_ids);
                        },
                        _ => {
                            assert(false);
                        },
                    }
                    assert(p@ == mv.body.payload);
                }
            }
        }
        return Some((p, jc + 2));
    }
    match read_canonical_items(s, jc + 1) {
        Some((items, je)) => {
            let p = Payload::Init { node_id: nid, node_ids: items };
            proof {
                assert forall|mv: MessageV|
                    wf_message(mv) && #[trigger] canonical_line(s@, mv) && j0 == off_fields(mv)
                        && mv.body.payload is Init implies p@ == mv.body.payload
                    && je as int == off_fields(mv) + fields_text(mv.body.payload).len() by {
                    lemma_line_layout(s@, mv);
                    if let PayloadV::Init { node_id, node_ids } = mv.body.payload {
                        if node_ids.len() == 0 {
                            assert(false);
                        }
                        assert(p@ =~= mv.body.payload);
                    }
                }
            }
            return Some((p, je));
        },
        None => {
            proof {
                assert forall|mv: MessageV|
                    wf_message(mv) && #[trigger] canonical_line(s@, mv) && j0 == off_fields(mv)
                        && mv.body.payload is Init implies false by {
                    lemma_line_layout(s@, mv);
                    if let PayloadV::Init { node_id, node_ids } = mv.body.payload {
                        if node_ids.len() == 0 {
                            assert(false);
                        }
                    }
                }
            }
            return None;
        },
    }
}

/// Reads the canonical members of the payload named by the tag.
#[verifier::rlimit(100)]
#[verifier::spinoff_prover]
fn read_canonical_payload(s: &Vec<char>, tag_s: String, j0: usize) -> (r: Option<(Payload, usize)>)
    requires
        j0 <= s@.len(),
    ensures
        r matches Some(p) ==> wf_payload(p.0@) && p.1 <= s@.len(),
        forall|mv: MessageV|
            wf_message(mv) && #[trigger] canonical_line(s@, mv) && j0 == off_fields(mv) && tag_s@
                == tag_text(mv.body.payload) ==> (r matches Some(p) && p.0@ == mv.body.payload
                && p.1 == off_fields(mv) + fields_text(mv.body.payload).len()),
{
    let t_echo: String = "echo".to_owned();
    let t_echo_ok: String = "echo_ok".to_owned();
    let t_init: String = "init".to_owned();
    let t_init_ok: String = "init_ok".to_owned();
    if tag_s == t_echo || tag_s == t_echo_ok {
        let ja = match expect_lit(s, j0, ",\"echo\":") {
            Some(x) => x,
            None => {
                proof {
                    assert forall|mv: MessageV|
                        wf_message(mv) && #[trigger] canonical_line(s@, mv) && j0 == off_fields(mv)
                            && tag_s@ == tag_text(mv.body.payload) implies false by {
                        lemma_line_layout(s@, mv);
                    }
                }
                return None;
            },
        };
        let (echo_s, jb) = match parse_string_at(s, ja) {
            Ok(p) => p,
            Err(_) => {
                proof {
                    assert forall|mv: MessageV|
                        wf_message(mv) && #[trigger] canonical_line(s@, mv) && j0 == off_fields(mv)
                            && tag_s@ == tag_text(mv.body.payload) implies false by {
                        lemma_line_layout(s@, mv);
                    }
                }
                return None;
            },
        };
        let p = if tag_s == t_echo {
            Payload::Echo { echo: echo_s }
        } else {
            Payload::EchoOk { echo: echo_s }
        };
        proof {
            assert forall|mv: MessageV|
                wf_message(mv) && #[trigger] canonical_line(s@, mv) && j0 == off_fields(mv)
                    && tag_s@ == tag_text(mv.body.payload) implies p@ == mv.body.payload
                && jb as int == off_fields(mv) + fields_text(mv.body.payload).len() by {
                lemma_line_layout(s@, mv);
            }
        }
        return Some((p, jb));
    }
    if tag_s == t_init {
        proof {
            assert forall|mv: MessageV|
                wf_message(mv) && #[trigger] canonical_line(s@, mv) && j0 == off_fields(mv)
                    && tag_s@ == tag_text(mv.body.payload) implies mv.body.payload is Init by {
                lemma_line_layout(s@, mv);
            }
        }
        return read_canonical_init(s, j0);
    }
    let p = if tag_s == t_init_ok {
        Payload::InitOk
    } else {
        Payload::Unknown { tag: tag_s }
    };
    proof {
        assert forall|mv: MessageV|
            wf_message(mv) && #[trigger] canonical_line(s@, mv) && j0 == off_fields(mv) && tag_s@
                == tag_text(mv.body.payload) implies p@ == mv.body.payload && j0 as int
            == off_fields(mv) + fields_text(mv.body.payload).len() by {
            lemma_line_layout(s@, mv);
        }
    }
    Some((p, j0))
}

/// Reads a line that is exactly the canonical wire text of some envelope;
/// any other line is left to the general reader.
#[verifier::rlimit(100)]
#[verifier::spinoff_prover]
fn read_canonical(s: &Vec<char>) -> (r: Option<Message>)
    ensures
        r matches Some(m) ==> wf_message(m@) && s@.len() > 0 && s@[0] == '{',
        forall|mv: MessageV|
            wf_message(mv) && #[trigger] canonical_line(s@, mv) ==> (r matches Some(m) && m@
                == mv),
{
    let (src_s, dst_s, tag_s, j0) = match read_canonical_head(s) {
        Some(p) => p,
        None => {
            return None;
        },
    };
    let (id, reply_to, j1) = match read_canonical_ids(s, j0) {
        Some(p) => p,
        None => {
            return None;
        },
    };
    let (payload, j) = match read_canonical_payload(s, tag_s, j1) {
        Some(p) => p,
        None => {
            return None;
        },
    };
    proof {
        assert forall|mv: MessageV|
            wf_message(mv) && #[trigger] canonical_line(s@, mv) implies payload@
            == mv.body.payload && j as int == line_text(mv).len() - 2 by {
            lemma_line_layout(s@, mv);
        }
    }
    if s.len() < 2 || j > s.len() - 2 {
        proof {
            assert forall|mv: MessageV|
                wf_message(mv) && #[trigger] canonical_line(s@, mv) implies false by {
                lemma_line_layout(s@, mv);
            }
        }
        return None;
    }
    if s[j] != '}' || s[j + 1] != '}' {
        proof {
            assert forall|mv: MessageV|
                wf_message(mv) && #[trigger] canonical_line(s@, mv) implies false by {
                lemma_line_layout(s@, mv);
            }
        }
        return None;
    }
    let jend = j + 2;
    if !(jend == s.len() || (jend + 1 == s.len() && s[jend] == '\n')) {
        proof {
            assert forall|mv: MessageV|
                wf_message(mv) && #[trigger] canonical_line(s@, mv) implies false by {
                lemma_line_layout(s@, mv);
            }
        }
        return None;
    }
    let m = Message { src: src_s, dst: dst_s, body: Body { id, reply_to, payload } };
    proof {
        assert forall|mv: MessageV|
            wf_message(mv) && #[trigger] canonical_line(s@, mv) implies m@ == mv by {
            lemma_line_layout(s@, mv);
        }
    }
    Some(m)
}

/// Reads the flat body object starting at `i`: the tag, the two renamed
/// correlation ids, and the payload's own members, in any order. A later
/// duplicate of the tag or of a correlation id wins; of the payload's own
/// members the first occurrence counts. A missing or ill-shaped required
/// member is malformed.
fn parse_body_at(s: &Vec<char>, i: usize) -> (r: Result<(Body, usize), DecodeError>)
    requires
        i <= s@.len(),
    ensures
        r matches Ok(p) ==> i < p.1 <= s@.len() && wf_payload(p.0@.payload),
{
    if i >= s.len() || s[i] != '{' {
        return Err(DecodeError::Malformed);
    }
    let mut id: Option<u64> = None;
    let mut reply_to: Option<u64> = None;
    let mut tag: Option<String> = None;
    let mut fields: Vec<(String, JVal)> = Vec::new();
    let mut j: usize = skip_ws(s, i + 1);
    let mut open_members = true;
    if j < s.len() && s[j] == '}' {
        j = j + 1;
        open_members = false;
    }
    if open_members {
        let k_type: String = "type".to_owned();
        let k_msg_id: String = "msg_id".to_owned();
        let k_reply_to: String = "in_reply_to".to_owned();
        loop
            invariant
                i < j <= s@.len(),
            decreases s@.len() - j,
        {
            let (key, nj) = match parse_string_at(s, j) {
                Ok(p) => p,
                Err(e) => {
                    return Err(e);
                },
            };
            j = skip_ws(s, nj);
            if j >= s.len() || s[j] != ':' {
                return Err(DecodeError::Malformed);
            }
            j = skip_ws(s, j + 1);
            let (v, nj2) = match parse_value_at(s, j) {
                Ok(p) => p,
                Err(e) => {
                    return Err(e);
                },
            };
            j = nj2;
            if key == k_type {
                match v {
                    JVal::SStr(t) => {
                        tag = Some(t);
                    },
                    _ => {
                        return Err(DecodeError::Malformed);
                    },
                }
            } else if key == k_msg_id {
                match v {
                    JVal::Num(n) => {
                        id = Some(n);
                    },
                    JVal::Null => {
                        id = None;
                    },
                    _ => {
                        return Err(DecodeError::Malformed);
                    },
                }
            } else if key == k_reply_to {
                match v {
                    JVal::Num(n) => {
                        reply_to = Some(n);
                    },
                    JVal::Null => {
                        reply_to = None;
                    },
                    _ => {
                        return Err(DecodeError::Malformed);
                    },
                }
            } else {
                fields.push((key, v));
            }
            j = skip_ws(s, j);
            if j >= s.len() {
                return Err(DecodeError::Malformed);
            }
            if s[j] == '}' {
                j = j + 1;
                break;
            }
            if s[j] != ',' {
                return Err(DecodeError::Malformed);
            }
            j = skip_ws(s, j + 1);
        }
    }
    match tag {
        Some(t) => match make_payload(t, &fields) {
            Ok(p) => Ok((Body { id, reply_to, payload: p }, j)),
            Err(e) => Err(e),
        },
        None => Err(DecodeError::Malformed),
    }
}

/// Decodes one line of wire text into an envelope. The line must hold one
/// object with string members `src` and `dest` and an object member `body`,
/// in any order beside members this protocol does not know, and nothing but
/// whitespace around it; anything else is malformed. A decoded envelope is
/// well formed: an unrecognized tag decodes to the `Unknown` payload, never
/// to a failure. One leniency is chosen deliberately: inside an ignored
/// nested object or array only bracket nesting and string syntax are
/// checked, not the grammar of every inner value.
pub fn decode(line: &str) -> (r: Result<Message, DecodeError>)
    ensures
        r matches Ok(m) ==> wf_message(m@),
        r matches Err(e) ==> e == DecodeError::Malformed,
        (forall|k: int| 0 <= k < line@.len() ==> crate::text::is_ws(#[trigger] line@[k])) ==> r
            is Err,
        forall|mv: MessageV|
            wf_message(mv) && #[trigger] canonical_line(line@, mv) ==> (r matches Ok(m) && m@
                == mv),
{
    let s = str_chars(line);
    if let Some(m) = read_canonical(&s) {
        return Ok(m);
    }
    let mut src: Option<String> = None;
    let mut dst: Option<String> = None;
    let mut body: Option<Body> = None;
    let mut j: usize = skip_ws(&s, 0);
    if j >= s.len() || s[j] != '{' {
        return Err(DecodeError::Malformed);
    }
    j = skip_ws(&s, j + 1);
    let mut open_members = true;
    if j < s.len() && s[j] == '}' {
        j = j + 1;
        open_members = false;
    }
    if open_members {
        let k_src: String = "src".to_owned();
        let k_dest: String = "dest".to_owned();
        let k_body: String = "body".to_owned();
        loop
            invariant
                j <= s@.len(),
                body matches Some(b) ==> wf_payload(b@.payload),
                s@ == line@,
                forall|mv: MessageV|
                    wf_message(mv) && #[trigger] canonical_line(line@, mv) ==> false,
            decreases s@.len() - j,
        {
            let (key, nj) = match parse_string_at(&s, j) {
                Ok(p) => p,
                Err(e) => {
                    return Err(e);
                },
            };
            j = skip_ws(&s, nj);
            if j >= s.len() || s[j] != ':' {
                return Err(DecodeError::Malformed);
            }
            j = skip_ws(&s, j + 1);
            if key == k_src {
                match parse_value_at(&s, j) {
                    Ok((JVal::SStr(t), nj2)) => {
                        src = Some(t);
                        j = nj2;
                    },
                    Ok(_) => {
                        return Err(DecodeError::Malformed);
                    },
                    Err(e) => {
                        return Err(e);
                    },
                }
            } else if key == k_dest {
                match parse_value_at(&s, j) {
                    Ok((JVal::SStr(t), nj2)) => {
                        dst = Some(t);
                        j = nj2;
                    },
                    Ok(_) => {
                        return Err(DecodeError::Malformed);
                    },
                    Err(e) => {
                        return Err(e);
                    },
                }
            } else if key == k_body {
                match parse_body_at(&s, j) {
                    Ok((b, nj2)) => {
                        body = Some(b);
                        j = nj2;
                    },
                    Err(e) => {
                        return Err(e);
                    },
                }
            } else {
                match skip_value_at(&s, j) {
                    Ok(nj2) => {
                        j = nj2;
                    },
                    Err(e) => {
                        return Err(e);
                    },
                }
            }
            j = skip_ws(&s, j);
            if j >= s.len() {
                return Err(DecodeError::Malformed);
            }
            if s[j] == '}' {
                j = j + 1;
                break;
            }
            if s[j] != ',' {
                return Err(DecodeError::Malformed);
            }
            j = skip_ws(&s, j + 1);
        }
    }
    j = skip_ws(&s, j);
    if j < s.len() {
        return Err(DecodeError::Malformed);
    }
    match (src, dst, body) {
        (Some(a), Some(d), Some(b)) => Ok(Message { src: a, dst: d, body: b }),
        _ => Err(DecodeError::Malformed),
    }
}

} // verus!
