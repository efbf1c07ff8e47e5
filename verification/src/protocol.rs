//! The line protocol between the test harness and the report: each record is
//! one line of test output, the marker followed by a JSON object.
use vstd::prelude::*;
use crate::text::push_char;

verus! {

/// The prefix that marks a cost record line in test output.
pub const COST_MARKER: &'static str = "##SOROBAN_COST_JSON##";

/// `line` without one trailing carriage return.
pub open spec fn strip_cr(line: Seq<char>) -> Seq<char> {
    if line.len() > 0 && line.last() == '\r' {
        line.drop_last()
    } else {
        line
    }
}

/// Reading `s` from the start: the lines completed so far (each without its
/// `\n`, and without a `\r` just before it) and the line still open.
pub open spec fn scan_lines(s: Seq<char>) -> (Seq<Seq<char>>, Seq<char>)
    decreases s.len(),
{
    if s.len() == 0 {
        (Seq::empty(), Seq::empty())
    } else {
        let (done, open) = scan_lines(s.drop_last());
        if s.last() == '\n' {
            (done.push(strip_cr(open)), Seq::empty())
        } else {
            (done, open.push(s.last()))
        }
    }
}

/// The lines of `s`, as `str::lines` yields them: split at `\n`, a `\r`
/// right before a `\n` dropped, and a last line without `\n` kept only when
/// it is not empty.
pub open spec fn text_lines(s: Seq<char>) -> Seq<Seq<char>> {
    let (done, open) = scan_lines(s);
    if open.len() > 0 {
        done.push(open)
    } else {
        done
    }
}

/// `line` starts with the cost marker.
pub open spec fn is_marked(line: Seq<char>) -> bool {
    &&& line.len() >= COST_MARKER@.len()
    &&& line.subrange(0, COST_MARKER@.len() as int) == COST_MARKER@
}

/// What follows the cost marker in a marked line.
pub open spec fn payload(line: Seq<char>) -> Seq<char> {
    line.subrange(COST_MARKER@.len() as int, line.len() as int)
}

/// The payloads of the marked lines among `lines`, in order.
pub open spec fn payloads(lines: Seq<Seq<char>>) -> Seq<Seq<char>>
    decreases lines.len(),
{
    if lines.len() == 0 {
        Seq::empty()
    } else if is_marked(lines.last()) {
        payloads(lines.drop_last()).push(payload(lines.last()))
    } else {
        payloads(lines.drop_last())
    }
}

/// The payloads of all cost record lines in the test output `s`.
pub open spec fn cost_payloads(s: Seq<char>) -> Seq<Seq<char>> {
    payloads(text_lines(s))
}

/// The contents of a sequence of strings.
pub open spec fn string_views(v: Seq<String>) -> Seq<Seq<char>> {
    v.map_values(|s: String| s@)
}

/// The payload of `line` when it starts with the cost marker.
pub fn marked_payload(line: &str) -> (p: Option<String>)
    ensures
        is_marked(line@) <==> p is Some,
        p matches Some(text) ==> text@ == payload(line@),
{
    proof {
        reveal_strlit("##SOROBAN_COST_JSON##");
    }
    let n = line.unicode_len();
    let m = COST_MARKER.unicode_len();
    if n < m {
        return None;
    }
    let mut i: usize = 0;
    while i < m
        invariant
            m == COST_MARKER@.len(),
            n == line@.len(),
            m <= n,
            i <= m,
            forall|j: int| 0 <= j < i ==> line@[j] == COST_MARKER@[j],
        decreases m - i,
    {
        if line.get_char(i) != COST_MARKER.get_char(i) {
            proof {
                assert(line@.subrange(0, m as int)[i as int] != COST_MARKER@[i as int]);
            }
            return None;
        }
        i = i + 1;
    }
    proof {
        assert(line@.subrange(0, m as int) =~= COST_MARKER@);
    }
    let rest = line.substring_char(m, n);
    Some(rest.to_owned())
}

fn without_carriage_return(s: &String) -> (r: String)
    ensures
        r@ == strip_cr(s@),
{
    let n = s.as_str().unicode_len();
    if n > 0 && s.as_str().get_char(n - 1) == '\r' {
        s.as_str().substring_char(0, n - 1).to_owned()
    } else {
        s.clone()
    }
}

/// The payloads of all cost record lines in the test output `output`, in
/// the order the lines appear.
pub fn extract_payloads(output: &str) -> (found: Vec<String>)
    ensures
        string_views(found@) == cost_payloads(output@),
{
    let mut found: Vec<String> = Vec::new();
    let mut open = String::new();
    let ghost mut done: Seq<Seq<char>> = Seq::empty();
    for c in it: output.chars()
        invariant
            it.seq() == output@,
            scan_lines(output@.take(it.index() as int)) == (done, open@),
            string_views(found@) == payloads(done),
    {
        let ghost i = it.index() as int;
        proof {
            assert(output@.take(i + 1).drop_last() =~= output@.take(i));
            assert(output@.take(i + 1).last() == c);
        }
        if c == '\n' {
            let line = without_carriage_return(&open);
            let p = marked_payload(line.as_str());
            match p {
                Some(text) => {
                    found.push(text);
                },
                None => {},
            }
            proof {
                let lines = done.push(strip_cr(open@));
                assert(lines.drop_last() =~= done);
                done = lines;
                assert(string_views(found@) =~= payloads(done));
            }
            open = String::new();
        } else {
            push_char(&mut open, c);
        }
    }
    proof {
        assert(output@.take(output@.len() as int) =~= output@);
    }
    if !open.as_str().is_empty() {
        let p = marked_payload(open.as_str());
        match p {
            Some(text) => {
                found.push(text);
            },
            None => {},
        }
        proof {
            let lines = done.push(open@);
            assert(lines.drop_last() =~= done);
            assert(string_views(found@) =~= payloads(lines));
        }
    }
    found
}

proof fn lemma_scan_concat(a: Seq<char>, b: Seq<char>)
    requires
        scan_lines(a).1.len() == 0,
    ensures
        scan_lines(a + b) == (scan_lines(a).0 + scan_lines(b).0, scan_lines(b).1),
    decreases b.len(),
{
    if b.len() == 0 {
        assert(a + b =~= a);
        assert(scan_lines(a).0 + scan_lines(b).0 =~= scan_lines(a).0);
        assert(scan_lines(a).1 =~= scan_lines(b).1);
    } else {
        assert((a + b).drop_last() =~= a + b.drop_last());
        assert((a + b).last() == b.last());
        lemma_scan_concat(a, b.drop_last());
        let (da, _) = scan_lines(a);
        let (db, ob) = scan_lines(b.drop_last());
        if b.last() == '\n' {
            assert((da + db).push(strip_cr(ob)) =~= da + db.push(strip_cr(ob)));
        }
    }
}

proof fn lemma_payloads_concat(x: Seq<Seq<char>>, y: Seq<Seq<char>>)
    ensures
        payloads(x + y) == payloads(x) + payloads(y),
    decreases y.len(),
{
    if y.len() == 0 {
        assert(x + y =~= x);
        assert(payloads(x) + payloads(y) =~= payloads(x));
    } else {
        assert((x + y).drop_last() =~= x + y.drop_last());
        assert((x + y).last() == y.last());
        lemma_payloads_concat(x, y.drop_last());
        if is_marked(y.last()) {
            assert((payloads(x) + payloads(y.drop_last())).push(payload(y.last())) =~= payloads(x)
                + payloads(y.drop_last()).push(payload(y.last())));
        }
    }
}

/// Output made of whole lines gives up the cost records of each of its
/// parts, in order: records are found wherever they stand among other output.
pub proof fn lemma_cost_payloads_concat(a: Seq<char>, b: Seq<char>)
    requires
        a.len() == 0 || a.last() == '\n',
    ensures
        cost_payloads(a + b) == cost_payloads(a) + cost_payloads(b),
{
    if a.len() > 0 {
        assert(a.drop_last().push(a.last()) =~= a);
    }
    lemma_scan_concat(a, b);
    let (da, _) = scan_lines(a);
    let (db, ob) = scan_lines(b);
    if ob.len() > 0 {
        assert((da + db).push(ob) =~= da + db.push(ob));
        lemma_payloads_concat(da, db.push(ob));
    } else {
        lemma_payloads_concat(da, db);
    }
}

proof fn lemma_scan_single_line(s: Seq<char>)
    requires
        forall|k: int| 0 <= k < s.len() ==> s[k] != '\n',
    ensures
        scan_lines(s) == (Seq::<Seq<char>>::empty(), s),
    decreases s.len(),
{
    if s.len() > 0 {
        lemma_scan_single_line(s.drop_last());
        assert(s.drop_last().push(s.last()) =~= s);
    }
}

/// A marked line ended by a line break gives up exactly its payload.
pub proof fn lemma_marked_line_found(line: Seq<char>)
    requires
        is_marked(line),
        forall|k: int| 0 <= k < line.len() ==> line[k] != '\n',
        line.len() == 0 || line.last() != '\r',
    ensures
        cost_payloads(line.push('\n')) == seq![payload(line)],
{
    lemma_scan_single_line(line);
    let s = line.push('\n');
    assert(s.drop_last() =~= line);
    assert(s.last() == '\n');
    assert(strip_cr(line) == line);
    let lines = Seq::<Seq<char>>::empty().push(line);
    assert(scan_lines(s) == (lines, Seq::<char>::empty()));
    assert(text_lines(s) == lines);
    assert(lines.drop_last() =~= Seq::<Seq<char>>::empty());
    assert(lines.last() == line);
    assert(lines.len() == 1);
    assert(payloads(lines.drop_last()).len() == 0);
    assert(payloads(lines) == payloads(lines.drop_last()).push(payload(line)));
    assert(payloads(lines) =~= seq![payload(line)]);
}

} // verus!
