//! Write-ahead log: a durable, append-only record of every mutation.
//!
//! The log is modelled as the sequence of text lines that make up the log
//! file, one record per line: `PUT,<key>,<value>` or `DELETE,<key>`, with
//! fields separated by commas and no escaping. Appending is durable before
//! the caller's in-memory state changes; replaying the lines in order and
//! folding them into a map rebuilds the exact pre-crash state.
//!
//! Malformed lines (wrong field count, unrecognized tag) are skipped
//! silently during replay: the log tolerates damage rather than refusing
//! recovery outright.

use vstd::prelude::*;

use crate::text::{clean_text, MAX_TEXT_CHARS};

verus! {

/// Index of the first comma in `s`, or `s.len()` when there is none.
pub open spec fn first_comma(s: Seq<char>) -> nat
    decreases s.len(),
{
    if s.len() == 0 {
        0
    } else if s[0] == ',' {
        0
    } else {
        (first_comma(s.drop_first()) + 1) as nat
    }
}

pub proof fn lemma_first_comma(s: Seq<char>)
    ensures
        first_comma(s) <= s.len(),
        forall|j: int| 0 <= j < first_comma(s) ==> s[j] != ',',
        first_comma(s) < s.len() ==> s[first_comma(s) as int] == ',',
    decreases s.len(),
{
    if s.len() != 0 && s[0] != ',' {
        lemma_first_comma(s.drop_first());
        assert forall|j: int| 0 <= j < first_comma(s) implies s[j] != ',' by {
            if j > 0 {
                assert(s[j] == s.drop_first()[j - 1]);
            }
        }
    }
}

/// Where the first comma of `s` is known to sit at `k`, `first_comma`
/// computes `k`.
pub proof fn lemma_first_comma_at(s: Seq<char>, k: int)
    requires
        0 <= k <= s.len(),
        forall|j: int| 0 <= j < k ==> s[j] != ',',
        k < s.len() ==> s[k] == ',',
    ensures
        first_comma(s) == k,
    decreases k,
{
    if k > 0 {
        lemma_first_comma_at(s.drop_first(), k - 1);
    }
}

/// The fields of `s`, split at every comma. A text without commas is one
/// field; every comma separates two fields, so `n` commas give `n + 1`
/// fields.
pub open spec fn split_commas(s: Seq<char>) -> Seq<Seq<char>>
    decreases s.len(),
{
    let i = first_comma(s);
    if i >= s.len() {
        seq![s]
    } else {
        seq![s.take(i as int)] + split_commas(s.skip(i + 1 as int))
    }
}

/// A comma-free text splits into the one field it is.
pub proof fn lemma_split_no_comma(s: Seq<char>)
    requires
        forall|j: int| 0 <= j < s.len() ==> s[j] != ',',
    ensures
        split_commas(s) == seq![s],
{
    lemma_first_comma_at(s, s.len() as int);
}

/// Splitting takes the comma-free field before the first comma off the
/// front.
pub proof fn lemma_split_step(p: Seq<char>, r: Seq<char>)
    requires
        forall|j: int| 0 <= j < p.len() ==> p[j] != ',',
    ensures
        split_commas(p + seq![','] + r) == seq![p] + split_commas(r),
{
    let s = p + seq![','] + r;
    assert(s[p.len() as int] == ',');
    lemma_first_comma_at(s, p.len() as int);
    assert(s.take(p.len() as int) =~= p);
    assert(s.skip(p.len() + 1 as int) =~= r);
}

/// Splits a string at every comma, as [`split_commas`] describes.
pub fn split_commas_exec(s: &str) -> (parts: Vec<String>)
    ensures
        parts@.map_values(|p: String| p@) == split_commas(s@),
{
    let n = s.unicode_len();
    let mut parts: Vec<String> = Vec::new();
    let mut start: usize = 0;
    let mut i: usize = 0;
    proof {
        assert(s@.skip(0) =~= s@);
        assert(parts@.map_values(|p: String| p@) =~= Seq::<Seq<char>>::empty());
    }
    while i < n
        invariant
            n == s@.len(),
            0 <= start <= i <= n,
            forall|j: int| start <= j < i ==> s@[j] != ',',
            split_commas(s@) == parts@.map_values(|p: String| p@) + split_commas(
                s@.skip(start as int),
            ),
        decreases n - i,
    {
        if s.get_char(i) == ',' {
            let field = s.substring_char(start, i).to_owned();
            proof {
                let tail = s@.skip(start as int);
                let p = s@.subrange(start as int, i as int);
                let r = s@.skip(i + 1);
                assert(tail =~= p + seq![','] + r);
                lemma_split_step(p, r);
                assert(parts@.push(field).map_values(|q: String| q@) + split_commas(r)
                    =~= parts@.map_values(|q: String| q@) + (seq![p] + split_commas(r)));
            }
            parts.push(field);
            start = i + 1;
        }
        i += 1;
    }
    let field = s.substring_char(start, n).to_owned();
    proof {
        let tail = s@.skip(start as int);
        assert(tail =~= s@.subrange(start as int, n as int));
        lemma_split_no_comma(tail);
        assert(parts@.push(field).map_values(|q: String| q@) =~= parts@.map_values(
            |q: String| q@,
        ) + seq![tail]);
    }
    parts.push(field);
    parts
}

/// One replayed operation: the key, and the written value for a put or
/// nothing for a delete.
pub type SpecOp = (Seq<char>, Option<Seq<char>>);

/// The log line recording a put.
pub open spec fn spec_put_line(key: Seq<char>, value: Seq<char>) -> Seq<char> {
    "PUT,"@ + key + ","@ + value
}

/// The log line recording a delete.
pub open spec fn spec_delete_line(key: Seq<char>) -> Seq<char> {
    "DELETE,"@ + key
}

/// What one log line means: a put, a delete, or nothing when the line is
/// malformed (wrong field count or unrecognized tag). A field that held a
/// comma splits into further fields, so the field count check rejects it.
pub open spec fn spec_parse_line(line: Seq<char>) -> Option<SpecOp> {
    let parts = split_commas(line);
    if parts.len() == 3 && parts[0] == "PUT"@ {
        Some((parts[1], Some(parts[2])))
    } else if parts.len() == 2 && parts[0] == "DELETE"@ {
        Some((parts[1], None))
    } else {
        None
    }
}

/// A put line parses back to the put it recorded, as long as key and value
/// are free of delimiters.
pub proof fn lemma_parse_put_line(key: Seq<char>, value: Seq<char>)
    requires
        clean_text(key),
        clean_text(value),
    ensures
        spec_parse_line(spec_put_line(key, value)) == Some((key, Some(value))),
{
    reveal_strlit("PUT,");
    reveal_strlit("PUT");
    reveal_strlit(",");
    let line = spec_put_line(key, value);
    assert(line =~= "PUT"@ + seq![','] + (key + seq![','] + value));
    lemma_split_step("PUT"@, key + seq![','] + value);
    lemma_split_step(key, value);
    lemma_split_no_comma(value);
    assert(split_commas(line) =~= seq!["PUT"@, key, value]);
    reveal_strlit("DELETE");
}

/// A delete line parses back to the delete it recorded.
pub proof fn lemma_parse_delete_line(key: Seq<char>)
    requires
        clean_text(key),
    ensures
        spec_parse_line(spec_delete_line(key)) == Some((key, None::<Seq<char>>)),
{
    reveal_strlit("DELETE,");
    reveal_strlit("DELETE");
    reveal_strlit("PUT");
    let line = spec_delete_line(key);
    assert(line =~= "DELETE"@ + seq![','] + key);
    lemma_split_step("DELETE"@, key);
    lemma_split_no_comma(key);
    assert(split_commas(line) =~= seq!["DELETE"@, key]);
}

/// Builds the line recording a put.
fn put_line(key: &str, value: &str) -> (line: String)
    ensures
        line@ == spec_put_line(key@, value@),
{
    let mut line = "PUT,".to_owned();
    line.append(key);
    line.append(",");
    line.append(value);
    proof {
        assert(line@ =~= spec_put_line(key@, value@));
    }
    line
}

/// Builds the line recording a delete.
fn delete_line(key: &str) -> (line: String)
    ensures
        line@ == spec_delete_line(key@),
{
    let mut line = "DELETE,".to_owned();
    line.append(key);
    proof {
        assert(line@ =~= spec_delete_line(key@));
    }
    line
}

/// Parses one log line, skipping malformed ones as [`spec_parse_line`]
/// describes.
fn parse_line(line: &str) -> (op: Option<(String, Option<String>)>)
    ensures
        match op {
            Some(o) => spec_parse_line(line@) == Some((o.0@, spec_value_view(o.1))),
            None => spec_parse_line(line@) is None,
        },
{
    let mut parts = split_commas_exec(line);
    proof {
        assert(parts@.map_values(|p: String| p@).len() == parts@.len());
    }
    if parts.len() == 3 && crate::text::str_eq(parts[0].as_str(), "PUT") {
        let value = parts.pop().unwrap();
        let key = parts.pop().unwrap();
        Some((key, Some(value)))
    } else if parts.len() == 2 && crate::text::str_eq(parts[0].as_str(), "DELETE") {
        let key = parts.pop().unwrap();
        Some((key, None))
    } else {
        None
    }
}

/// The text of an optional value.
pub open spec fn spec_value_view(v: Option<String>) -> Option<Seq<char>> {
    match v {
        Some(s) => Some(s@),
        None => None,
    }
}

/// The operation an executable replay step hands out, as the model sees it.
pub open spec fn spec_op_view(op: (String, Option<String>)) -> SpecOp {
    (op.0@, spec_value_view(op.1))
}

/// The operations that replaying `lines` hands out, in order: the meaning
/// of each well-formed line, with malformed lines skipped.
pub open spec fn spec_replay(lines: Seq<Seq<char>>) -> Seq<SpecOp>
    decreases lines.len(),
{
    if lines.len() == 0 {
        Seq::empty()
    } else {
        let rest = spec_replay(lines.drop_last());
        match spec_parse_line(lines.last()) {
            Some(op) => rest.push(op),
            None => rest,
        }
    }
}

/// One operation applied to a key-value map: a put inserts or overwrites,
/// a delete removes.
pub open spec fn apply_op(m: Map<Seq<char>, Seq<char>>, op: SpecOp) -> Map<Seq<char>, Seq<char>> {
    match op.1 {
        Some(v) => m.insert(op.0, v),
        None => m.remove(op.0),
    }
}

/// A sequence of operations folded into a map, oldest first, so that a
/// later operation on the same key overrides an earlier one.
pub open spec fn fold_ops(m: Map<Seq<char>, Seq<char>>, ops: Seq<SpecOp>) -> Map<
    Seq<char>,
    Seq<char>,
>
    decreases ops.len(),
{
    if ops.len() == 0 {
        m
    } else {
        apply_op(fold_ops(m, ops.drop_last()), ops.last())
    }
}

/// The map that replaying `lines` from an empty state rebuilds.
pub open spec fn replay_map(lines: Seq<Seq<char>>) -> Map<Seq<char>, Seq<char>> {
    fold_ops(Map::empty(), spec_replay(lines))
}

/// Appending one line extends the replayed operations by that line's
/// meaning, and the rebuilt map by that operation's effect.
pub proof fn lemma_replay_push(lines: Seq<Seq<char>>, line: Seq<char>)
    ensures
        spec_replay(lines.push(line)) == match spec_parse_line(line) {
            Some(op) => spec_replay(lines).push(op),
            None => spec_replay(lines),
        },
        replay_map(lines.push(line)) == match spec_parse_line(line) {
            Some(op) => apply_op(replay_map(lines), op),
            None => replay_map(lines),
        },
{
    assert(lines.push(line).drop_last() =~= lines);
    match spec_parse_line(line) {
        Some(op) => {
            assert(spec_replay(lines).push(op).drop_last() =~= spec_replay(lines));
        },
        None => {},
    }
}

/// A line a well-formed log may hold: no line break (a break would split
/// it into two records), and short enough that every field recovered from
/// it fits a segment's 32-bit length prefix.
pub open spec fn line_wf(line: Seq<char>) -> bool {
    &&& forall|j: int| 0 <= j < line.len() ==> line[j] != '\n'
    &&& line.len() <= MAX_TEXT_CHARS
}

/// The write-ahead log, as the sequence of text lines of the log file.
/// The caller reads the file into lines at startup and appends each line
/// this log produces back to the file, synchronizing before it applies
/// the recorded operation anywhere else.
pub struct WriteAheadLog {
    lines: Vec<String>,
}

impl View for WriteAheadLog {
    type V = Seq<Seq<char>>;

    closed spec fn view(&self) -> Seq<Seq<char>> {
        self.lines@.map_values(|l: String| l@)
    }
}

impl WriteAheadLog {
    /// Every line of the log can be written out and read back as one file
    /// line.
    pub open spec fn wf(&self) -> bool {
        forall|i: int| 0 <= i < self@.len() ==> line_wf(#[trigger] self@[i])
    }

    /// A fresh, empty log.
    pub fn new() -> (wal: Self)
        ensures
            wal@ == Seq::<Seq<char>>::empty(),
            wal.wf(),
    {
        let wal = WriteAheadLog { lines: Vec::new() };
        proof {
            assert(wal@ =~= Seq::<Seq<char>>::empty());
        }
        wal
    }

    /// A log rebuilt from the lines of an existing log file.
    pub fn from_lines(lines: Vec<String>) -> (wal: Self)
        ensures
            wal@ == lines@.map_values(|l: String| l@),
    {
        WriteAheadLog { lines }
    }

    /// The lines of the log, for the caller to persist.
    pub fn lines(&self) -> (lines: &Vec<String>)
        ensures
            lines@.map_values(|l: String| l@) == self@,
    {
        &self.lines
    }

    /// Appends the record of a put. The key and value must be free of
    /// delimiters, and short enough for one well-formed line.
    pub fn log_put(&mut self, key: &str, value: &str)
        requires
            clean_text(key@),
            clean_text(value@),
            key@.len() + value@.len() + 5 <= MAX_TEXT_CHARS,
        ensures
            final(self)@ == old(self)@.push(spec_put_line(key@, value@)),
            old(self).wf() ==> final(self).wf(),
    {
        let line = put_line(key, value);
        proof {
            assert(line_wf(line@)) by {
                reveal_strlit("PUT,");
                reveal_strlit(",");
            }
            assert(self.lines@.push(line).map_values(|l: String| l@) =~= self@.push(line@));
        }
        self.lines.push(line);
    }

    /// Appends the record of a delete. The key must be free of delimiters
    /// and short enough for one well-formed line.
    pub fn log_delete(&mut self, key: &str)
        requires
            clean_text(key@),
            key@.len() + 8 <= MAX_TEXT_CHARS,
        ensures
            final(self)@ == old(self)@.push(spec_delete_line(key@)),
            old(self).wf() ==> final(self).wf(),
    {
        let line = delete_line(key);
        proof {
            assert(line_wf(line@)) by {
                reveal_strlit("DELETE,");
            }
            assert(self.lines@.push(line).map_values(|l: String| l@) =~= self@.push(line@));
        }
        self.lines.push(line);
    }

    /// Replays the log from the beginning: hands out one operation per
    /// well-formed record, in the exact order the records were appended,
    /// skipping malformed lines. Folding the operations into a map
    /// rebuilds the state the log recorded.
    pub fn replay(&self) -> (ops: Vec<(String, Option<String>)>)
        ensures
            ops@.map_values(|op: (String, Option<String>)| spec_op_view(op)) == spec_replay(self@),
    {
        let mut ops: Vec<(String, Option<String>)> = Vec::new();
        let n = self.lines.len();
        let mut i: usize = 0;
        proof {
            assert(self@.take(0) =~= Seq::<Seq<char>>::empty());
            assert(ops@.map_values(|op: (String, Option<String>)| spec_op_view(op)) =~= Seq::<
                SpecOp,
            >::empty());
        }
        while i < n
            invariant
                n == self.lines.len(),
                n == self@.len(),
                0 <= i <= n,
                ops@.map_values(|op: (String, Option<String>)| spec_op_view(op)) == spec_replay(
                    self@.take(i as int),
                ),
            decreases n - i,
        {
            proof {
                assert(self@.take(i + 1 as int).drop_last() =~= self@.take(i as int));
                assert(self@.take(i + 1 as int).last() == self@[i as int]);
                assert(self@[i as int] == self.lines@[i as int]@);
            }
            match parse_line(self.lines[i].as_str()) {
                Some(op) => {
                    proof {
                        let ghost prev = ops@.map_values(
                            |op: (String, Option<String>)| spec_op_view(op),
                        );
                        assert(ops@.push(op).map_values(
                            |op: (String, Option<String>)| spec_op_view(op),
                        ) =~= prev.push(spec_op_view(op)));
                    }
                    ops.push(op);
                },
                None => {},
            }
            i += 1;
        }
        proof {
            assert(self@.take(n as int) =~= self@);
        }
        ops
    }
}

/// Every field of a split is no longer than the text it came from.
pub proof fn lemma_split_parts_len(s: Seq<char>)
    ensures
        forall|i: int|
            0 <= i < split_commas(s).len() ==> (#[trigger] split_commas(s)[i]).len() <= s.len(),
    decreases s.len(),
{
    let fc = first_comma(s);
    lemma_first_comma(s);
    if fc < s.len() {
        let rest = s.skip(fc + 1 as int);
        lemma_split_parts_len(rest);
        assert forall|i: int| 0 <= i < split_commas(s).len() implies (#[trigger] split_commas(
            s,
        )[i]).len() <= s.len() by {
            if i > 0 {
                assert(split_commas(s)[i] == split_commas(rest)[i - 1]);
            }
        }
    }
}

/// Folding one more operation onto a prefix.
pub proof fn lemma_fold_ops_take(m: Map<Seq<char>, Seq<char>>, ops: Seq<SpecOp>, i: int)
    requires
        0 <= i < ops.len(),
    ensures
        fold_ops(m, ops.take(i + 1)) == apply_op(fold_ops(m, ops.take(i)), ops[i]),
{
    assert(ops.take(i + 1).drop_last() =~= ops.take(i));
    assert(ops.take(i + 1).last() == ops[i]);
}

/// Whether an operation's texts are short enough for the segment format.
pub open spec fn op_fits(op: SpecOp) -> bool {
    &&& crate::text::text_fits(op.0)
    &&& match op.1 {
        Some(v) => crate::text::text_fits(v),
        None => true,
    }
}

/// Every operation replayed from well-formed lines carries fields no
/// longer than one line, so they fit the segment format.
pub proof fn lemma_replay_fits(lines: Seq<Seq<char>>)
    requires
        forall|i: int| 0 <= i < lines.len() ==> line_wf(#[trigger] lines[i]),
    ensures
        forall|i: int| 0 <= i < spec_replay(lines).len() ==> op_fits(#[trigger] spec_replay(lines)[i]),
    decreases lines.len(),
{
    if lines.len() != 0 {
        let prefix = lines.drop_last();
        let line = lines.last();
        lemma_replay_fits(prefix);
        lemma_split_parts_len(line);
        match spec_parse_line(line) {
            Some(op) => {
                assert(op_fits(op));
                assert forall|i: int| 0 <= i < spec_replay(lines).len() implies op_fits(
                    #[trigger] spec_replay(lines)[i],
                ) by {
                    if i < spec_replay(prefix).len() {
                        assert(spec_replay(lines)[i] == spec_replay(prefix)[i]);
                    }
                }
            },
            None => {},
        }
    }
}

/// A rebuilt map never holds more keys than the log holds lines.
pub proof fn lemma_replay_map_len(lines: Seq<Seq<char>>)
    ensures
        replay_map(lines).dom().finite(),
        replay_map(lines).len() <= lines.len(),
    decreases lines.len(),
{
    if lines.len() == 0 {
    } else {
        let prefix = lines.drop_last();
        lemma_replay_map_len(prefix);
        assert(prefix.push(lines.last()) =~= lines);
        lemma_replay_push(prefix, lines.last());
        let m = replay_map(prefix);
        match spec_parse_line(lines.last()) {
            Some(op) => {
                match op.1 {
                    Some(v) => {
                        assert(m.insert(op.0, v).dom() =~= m.dom().insert(op.0));
                        vstd::set::axiom_set_insert_len(m.dom(), op.0);
                    },
                    None => {
                        assert(m.remove(op.0).dom() =~= m.dom().remove(op.0));
                        vstd::set::axiom_set_remove_len(m.dom(), op.0);
                    },
                }
            },
            None => {},
        }
    }
}

} // verus!
