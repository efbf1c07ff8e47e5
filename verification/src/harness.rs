//! What the test harness prints for one measured call: the cost marker and
//! a one-line JSON object with the label and the two costs.
use vstd::prelude::*;
use crate::protocol::{
    cost_payloads, is_marked, lemma_cost_payloads_concat, lemma_marked_line_found, payload, COST_MARKER,
};
use crate::text::{all_digits, decimal, decimal_string, digit_char, digits_value, lemma_decimal_reads_back};

verus! {

/// Machine-readable cost record emitted by the harness for one measured call.
pub struct CostRecord {
    pub label: String,
    pub cpu_instructions: u64,
    pub memory_bytes: u64,
}

/// Lower-case hexadecimal digit for `d` (0 to 15).
pub open spec fn hex_digit(d: nat) -> char {
    if d < 10 {
        digit_char(d)
    } else {
        (87 + d) as char
    }
}

/// How one character is written inside a JSON string: quote and backslash
/// escaped with a backslash, the control characters that have a short
/// escape with it, other control characters as `\u00XX`, any other
/// character as it is.
pub open spec fn json_escape_char(c: char) -> Seq<char> {
    if c == '"' {
        seq!['\\', '"']
    } else if c == '\\' {
        seq!['\\', '\\']
    } else if c == '\x08' {
        seq!['\\', 'b']
    } else if c == '\t' {
        seq!['\\', 't']
    } else if c == '\n' {
        seq!['\\', 'n']
    } else if c == '\x0c' {
        seq!['\\', 'f']
    } else if c == '\r' {
        seq!['\\', 'r']
    } else if (c as u32) < 0x20 {
        seq!['\\', 'u', '0', '0', hex_digit((c as u32 / 16) as nat), hex_digit((c as u32 % 16) as nat)]
    } else {
        seq![c]
    }
}

/// The characters of `s`, each written as inside a JSON string.
pub open spec fn json_escaped(s: Seq<char>) -> Seq<char>
    decreases s.len(),
{
    if s.len() == 0 {
        Seq::empty()
    } else {
        json_escaped(s.drop_last()) + json_escape_char(s.last())
    }
}

/// `s` as a JSON string literal.
pub open spec fn json_string(s: Seq<char>) -> Seq<char> {
    seq!['"'] + json_escaped(s) + seq!['"']
}

/// The value of a hexadecimal digit (either case); 0 for any other character.
pub open spec fn hex_value(c: char) -> int {
    if '0' <= c <= '9' {
        c as int - 48
    } else if 'a' <= c <= 'f' {
        c as int - 87
    } else if 'A' <= c <= 'F' {
        c as int - 55
    } else {
        0
    }
}

/// The characters that the contents of a JSON string stand for, read from
/// the left: `\"`, `\\`, `\/`, `\b`, `\t`, `\n`, `\f`, `\r` and `\uXXXX` are
/// turned back into their characters, any other character stands for itself.
pub open spec fn json_unescaped(t: Seq<char>) -> Seq<char>
    decreases t.len(),
{
    if t.len() == 0 {
        Seq::empty()
    } else if t[0] == '\\' && t.len() >= 2 {
        let e = t[1];
        if e == '"' || e == '\\' || e == '/' {
            seq![e] + json_unescaped(t.skip(2))
        } else if e == 'b' {
            seq!['\x08'] + json_unescaped(t.skip(2))
        } else if e == 't' {
            seq!['\t'] + json_unescaped(t.skip(2))
        } else if e == 'n' {
            seq!['\n'] + json_unescaped(t.skip(2))
        } else if e == 'f' {
            seq!['\x0c'] + json_unescaped(t.skip(2))
        } else if e == 'r' {
            seq!['\r'] + json_unescaped(t.skip(2))
        } else if e == 'u' && t.len() >= 6 {
            seq![
                (4096 * hex_value(t[2]) + 256 * hex_value(t[3]) + 16 * hex_value(t[4]) + hex_value(
                    t[5],
                )) as char,
            ] + json_unescaped(t.skip(6))
        } else {
            seq![t[0]] + json_unescaped(t.skip(1))
        }
    } else {
        seq![t[0]] + json_unescaped(t.skip(1))
    }
}

proof fn lemma_json_escaped_concat(a: Seq<char>, b: Seq<char>)
    ensures
        json_escaped(a + b) == json_escaped(a) + json_escaped(b),
    decreases b.len(),
{
    if b.len() == 0 {
        assert(a + b =~= a);
        assert(json_escaped(a) + json_escaped(b) =~= json_escaped(a));
    } else {
        assert((a + b).drop_last() =~= a + b.drop_last());
        assert((a + b).last() == b.last());
        lemma_json_escaped_concat(a, b.drop_last());
        assert(json_escaped(a) + json_escaped(b.drop_last()) + json_escape_char(b.last()) =~= json_escaped(a)
            + (json_escaped(b.drop_last()) + json_escape_char(b.last())));
    }
}

proof fn lemma_json_escaped_first(s: Seq<char>)
    requires
        s.len() > 0,
    ensures
        json_escaped(s) == json_escape_char(s[0]) + json_escaped(s.skip(1)),
{
    assert(s =~= seq![s[0]] + s.skip(1));
    lemma_json_escaped_concat(seq![s[0]], s.skip(1));
    let one = seq![s[0]];
    assert(one.drop_last() =~= Seq::<char>::empty());
    assert(one.last() == s[0]);
    assert(json_escaped(one.drop_last()).len() == 0);
    assert(json_escaped(one) == json_escaped(one.drop_last()) + json_escape_char(s[0]));
    assert(json_escaped(one) =~= json_escape_char(s[0]));
}

proof fn lemma_hex_digit_value(d: nat)
    requires
        d < 16,
    ensures
        hex_value(hex_digit(d)) == d,
{
    if d < 10 {
        assert((digit_char(d) as int) == 48 + d);
    } else {
        assert((((87 + d) as char) as int) == 87 + d);
    }
}

proof fn lemma_json_unescape_step(c: char, rest: Seq<char>)
    ensures
        json_unescaped(json_escape_char(c) + rest) == seq![c] + json_unescaped(rest),
{
    let e = json_escape_char(c);
    let t = e + rest;
    assert(t.take(e.len() as int) =~= e);
    assert(t.skip(e.len() as int) =~= rest);
    assert(t[0] == e[0]);
    if e.len() >= 2 {
        assert(t[1] == e[1]);
    }
    if c != '"' && c != '\\' && c != '\x08' && c != '\t' && c != '\n' && c != '\x0c' && c != '\r' && (c as u32)
        < 0x20 {
        let v = c as u32;
        assert(t[2] == '0' && t[3] == '0');
        assert(t[4] == hex_digit((v / 16) as nat) && t[5] == hex_digit((v % 16) as nat));
        lemma_hex_digit_value((v / 16) as nat);
        lemma_hex_digit_value((v % 16) as nat);
        assert(hex_value('0') == 0);
        assert(4096 * hex_value(t[2]) + 256 * hex_value(t[3]) + 16 * hex_value(t[4]) + hex_value(t[5])
            == v as int);
        assert(((v as int) as char) == c);
    } else if c == '"' || c == '\\' || c == '\x08' || c == '\t' || c == '\n' || c == '\x0c' || c == '\r' {
    } else {
        assert(e =~= seq![c]);
        assert(t[0] != '\\');
    }
}

/// Reading back the contents of a JSON string gives the text that was
/// written: nothing of the label is lost or altered in the encoding.
pub proof fn lemma_json_unescape_escaped(s: Seq<char>)
    ensures
        json_unescaped(json_escaped(s)) == s,
    decreases s.len(),
{
    if s.len() > 0 {
        lemma_json_escaped_first(s);
        lemma_json_unescape_step(s[0], json_escaped(s.skip(1)));
        lemma_json_unescape_escaped(s.skip(1));
        assert(seq![s[0]] + s.skip(1) =~= s);
    }
}

/// `serde_json::to_string` of a string slice: serde_json writes a quote, the
/// characters escaped by its table (quote, backslash, control characters
/// below U+0020; `\b \t \n \f \r` in short form, the others as `\u00` and
/// two lower-case hex digits), and a closing quote.  It succeeds on every
/// string slice: it writes into a `Vec<u8>`, whose `io::Write` never fails,
/// and string serialization has no other error path; its error type is
/// mapped to `None` all the same.
#[verifier::external_body]
fn json_quote(s: &str) -> (r: Option<String>)
    ensures
        r is Some,
        r matches Some(j) ==> j@ == json_string(s@),
{
    serde_json::to_string(s).ok()
}

/// The JSON object of a harness record, fields in declaration order, given
/// its label already written as a JSON string.
pub open spec fn record_object(label_json: Seq<char>, cpu: nat, mem: nat) -> Seq<char> {
    "{\"label\":"@ + label_json + ",\"cpu_instructions\":"@ + decimal(cpu) + ",\"memory_bytes\":"@
        + decimal(mem) + "}"@
}

/// The JSON object of a harness record.
pub open spec fn record_json(r: CostRecord) -> Seq<char> {
    record_object(json_string(r.label@), r.cpu_instructions as nat, r.memory_bytes as nat)
}

/// The line the harness prints for a record: the marker, then its JSON.
pub open spec fn record_line(r: CostRecord) -> Seq<char> {
    COST_MARKER@ + record_json(r)
}

/// The JSON object of a record from its label already written as a JSON
/// string.
pub fn frame_record(label_json: &str, cpu_instructions: u64, memory_bytes: u64) -> (j: String)
    ensures
        j@ == record_object(label_json@, cpu_instructions as nat, memory_bytes as nat),
{
    let mut j = String::new();
    j.append("{\"label\":");
    j.append(label_json);
    j.append(",\"cpu_instructions\":");
    let cpu = decimal_string(cpu_instructions as u128);
    j.append(cpu.as_str());
    j.append(",\"memory_bytes\":");
    let mem = decimal_string(memory_bytes as u128);
    j.append(mem.as_str());
    j.append("}");
    proof {
        assert(j@ =~= record_object(label_json@, cpu_instructions as nat, memory_bytes as nat));
    }
    j
}

impl CostRecord {
    /// The record as a one-line JSON object (always `Some`: the JSON
    /// encoder never fails on a label).
    pub fn to_json(&self) -> (j: Option<String>)
        ensures
            j is Some,
            j matches Some(text) ==> text@ == record_json(*self),
    {
        match json_quote(self.label.as_str()) {
            Some(label_json) => Some(frame_record(label_json.as_str(), self.cpu_instructions, self.memory_bytes)),
            None => None,
        }
    }

    /// The line the harness prints for this record (see `record_line`);
    /// always `Some`, as for `to_json`.
    pub fn cost_line(&self) -> (line: Option<String>)
        ensures
            line is Some,
            line matches Some(text) ==> text@ == record_line(*self),
    {
        match self.to_json() {
            Some(json) => {
                let mut line = String::new();
                line.append(COST_MARKER);
                line.append(json.as_str());
                Some(line)
            },
            None => None,
        }
    }
}

/// `s` holds no line break.
pub open spec fn single_line(s: Seq<char>) -> bool {
    forall|k: int| 0 <= k < s.len() ==> s[k] != '\n'
}

proof fn lemma_single_line_concat(a: Seq<char>, b: Seq<char>)
    requires
        single_line(a),
        single_line(b),
    ensures
        single_line(a + b),
{
    assert forall|k: int| 0 <= k < (a + b).len() implies (a + b)[k] != '\n' by {
        if k < a.len() {
            assert((a + b)[k] == a[k]);
        } else {
            assert((a + b)[k] == b[k - a.len()]);
        }
    }
}

proof fn lemma_decimal_single_line(n: nat)
    ensures
        single_line(decimal(n)),
    decreases n,
{
    if n >= 10 {
        lemma_decimal_single_line(n / 10);
        assert(single_line(seq![digit_char(n % 10)]));
        assert(decimal(n / 10).push(digit_char(n % 10)) =~= decimal(n / 10) + seq![digit_char(n % 10)]);
        lemma_single_line_concat(decimal(n / 10), seq![digit_char(n % 10)]);
    }
}

proof fn lemma_json_escaped_single_line(s: Seq<char>)
    ensures
        single_line(json_escaped(s)),
    decreases s.len(),
{
    if s.len() > 0 {
        lemma_json_escaped_single_line(s.drop_last());
        let e = json_escape_char(s.last());
        assert(single_line(e));
        lemma_single_line_concat(json_escaped(s.drop_last()), e);
    }
}

/// A harness line is a single line: it holds no line break, whatever the
/// label, since the JSON encoding escapes line breaks.
pub proof fn lemma_record_line_single_line(r: CostRecord)
    ensures
        single_line(record_line(r)),
        is_marked(record_line(r)),
        payload(record_line(r)) == record_json(r),
        record_line(r).last() == '}',
{
    reveal_strlit("##SOROBAN_COST_JSON##");
    reveal_strlit("{\"label\":");
    reveal_strlit(",\"cpu_instructions\":");
    reveal_strlit(",\"memory_bytes\":");
    reveal_strlit("}");
    lemma_json_escaped_single_line(r.label@);
    let label = json_string(r.label@);
    lemma_single_line_concat(seq!['"'], json_escaped(r.label@));
    lemma_single_line_concat(seq!['"'] + json_escaped(r.label@), seq!['"']);
    lemma_decimal_single_line(r.cpu_instructions as nat);
    lemma_decimal_single_line(r.memory_bytes as nat);
    let p1 = "{\"label\":"@ + label;
    lemma_single_line_concat("{\"label\":"@, label);
    let p2 = p1 + ",\"cpu_instructions\":"@;
    lemma_single_line_concat(p1, ",\"cpu_instructions\":"@);
    let p3 = p2 + decimal(r.cpu_instructions as nat);
    lemma_single_line_concat(p2, decimal(r.cpu_instructions as nat));
    let p4 = p3 + ",\"memory_bytes\":"@;
    lemma_single_line_concat(p3, ",\"memory_bytes\":"@);
    let p5 = p4 + decimal(r.memory_bytes as nat);
    lemma_single_line_concat(p4, decimal(r.memory_bytes as nat));
    let p6 = p5 + "}"@;
    lemma_single_line_concat(p5, "}"@);
    assert(p6 == record_json(r));
    lemma_single_line_concat(COST_MARKER@, record_json(r));
    let line = record_line(r);
    assert(line.subrange(0, COST_MARKER@.len() as int) =~= COST_MARKER@);
    assert(payload(line) =~= record_json(r));
}

/// What the harness prints for a record, among any other test output made of
/// whole lines, is found by the report as exactly that record's JSON object,
/// between the records printed before and after it.
pub proof fn lemma_printed_record_is_found(before: Seq<char>, r: CostRecord, after: Seq<char>)
    requires
        before.len() == 0 || before.last() == '\n',
    ensures
        cost_payloads(before + record_line(r).push('\n') + after) == cost_payloads(before) + seq![
            record_json(r),
        ] + cost_payloads(after),
{
    lemma_record_line_single_line(r);
    let line = record_line(r);
    let printed = line.push('\n');
    lemma_marked_line_found(line);
    assert(before + printed + after =~= before + (printed + after));
    lemma_cost_payloads_concat(before, printed + after);
    lemma_cost_payloads_concat(printed, after);
}

/// The JSON object of a harness record holds the record's whole label, as the
/// contents of a JSON string that read back as exactly that label, and its
/// CPU instructions and memory bytes in full, as digits that read back as
/// the record's values.
pub proof fn lemma_record_json_fields(r: CostRecord)
    ensures
        exists|label: Seq<char>, cpu: Seq<char>, mem: Seq<char>|
            #![trigger json_unescaped(label), digits_value(cpu), digits_value(mem)]
            {
                &&& record_json(r) == "{\"label\":"@ + seq!['"'] + label + seq!['"']
                    + ",\"cpu_instructions\":"@ + cpu + ",\"memory_bytes\":"@ + mem + "}"@
                &&& json_unescaped(label) == r.label@
                &&& cpu.len() >= 1 && all_digits(cpu) && digits_value(cpu) == r.cpu_instructions
                &&& mem.len() >= 1 && all_digits(mem) && digits_value(mem) == r.memory_bytes
            },
{
    let label = json_escaped(r.label@);
    let cpu = decimal(r.cpu_instructions as nat);
    let mem = decimal(r.memory_bytes as nat);
    lemma_json_unescape_escaped(r.label@);
    lemma_decimal_reads_back(r.cpu_instructions as nat);
    lemma_decimal_reads_back(r.memory_bytes as nat);
    assert(record_json(r) == "{\"label\":"@ + seq!['"'] + label + seq!['"'] + ",\"cpu_instructions\":"@
        + cpu + ",\"memory_bytes\":"@ + mem + "}"@);
    assert(json_unescaped(label) == r.label@ && digits_value(cpu) == r.cpu_instructions && digits_value(
        mem,
    ) == r.memory_bytes);
}

} // verus!
