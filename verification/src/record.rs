//! Splitting one line of text into a key and a value field.
//!
//! A line is a record when it holds exactly one separator. The text before
//! the separator is the key, the text after it, with surrounding whitespace
//! removed, is the value. What the value means is left to the caller.

use vstd::prelude::*;

verus! {

/// The character that separates the key from the value.
pub open spec fn is_separator(c: char) -> bool {
    c == ';'
}

/// Whether `c` has the Unicode property `White_Space`.
pub open spec fn is_whitespace(c: char) -> bool {
    let u = c as u32;
    ||| 0x09 <= u <= 0x0D
    ||| u == 0x20
    ||| u == 0x85
    ||| u == 0xA0
    ||| u == 0x1680
    ||| 0x2000 <= u <= 0x200A
    ||| u == 0x2028
    ||| u == 0x2029
    ||| u == 0x202F
    ||| u == 0x205F
    ||| u == 0x3000
}

/// `text` without its leading whitespace.
pub open spec fn trimmed_start(text: Seq<char>) -> Seq<char>
    decreases text.len(),
{
    if text.len() > 0 && is_whitespace(text.first()) {
        trimmed_start(text.drop_first())
    } else {
        text
    }
}

/// `text` without its trailing whitespace.
pub open spec fn trimmed_end(text: Seq<char>) -> Seq<char>
    decreases text.len(),
{
    if text.len() > 0 && is_whitespace(text.last()) {
        trimmed_end(text.drop_last())
    } else {
        text
    }
}

/// `text` without its leading and trailing whitespace.
pub open spec fn trimmed(text: Seq<char>) -> Seq<char> {
    trimmed_end(trimmed_start(text))
}

/// Number of separators in `line`.
pub open spec fn separator_count(line: Seq<char>) -> nat
    decreases line.len(),
{
    if line.len() == 0 {
        0
    } else {
        separator_count(line.drop_last()) + if is_separator(line.last()) {
            1nat
        } else {
            0nat
        }
    }
}

/// Position of the first separator in `line`, or the length of `line` where it
/// holds none.
pub open spec fn first_separator(line: Seq<char>) -> int
    decreases line.len(),
{
    if line.len() == 0 || is_separator(line.first()) {
        0
    } else {
        1 + first_separator(line.drop_first())
    }
}

/// A key and the text of its value, as one line gave them.
#[derive(Clone, Debug, PartialEq, Eq)]
pub struct Record {
    pub key: String,
    pub value: String,
}

/// The mathematical value of a [`Record`].
pub struct RecordView {
    pub key: Seq<char>,
    pub value: Seq<char>,
}

impl View for Record {
    type V = RecordView;

    open spec fn view(&self) -> RecordView {
        RecordView { key: self.key@, value: self.value@ }
    }
}

/// What a line means: the record it holds, or `None` where the line does not
/// hold exactly one separator.
pub open spec fn parse_record(line: Seq<char>) -> Option<RecordView> {
    if separator_count(line) == 1 {
        let at = first_separator(line);
        Some(RecordView { key: line.take(at), value: trimmed(line.skip(at + 1)) })
    } else {
        None
    }
}

/// `first_separator` is the one position that holds a separator and has none
/// before it.
pub proof fn lemma_first_separator(line: Seq<char>, at: int)
    requires
        0 <= at <= line.len(),
        forall|j: int| 0 <= j < at ==> !is_separator(#[trigger] line[j]),
        at < line.len() ==> is_separator(line[at]),
    ensures
        first_separator(line) == at,
    decreases line.len(),
{
    if line.len() > 0 && !is_separator(line.first()) {
        assert(at > 0);
        let rest = line.drop_first();
        assert forall|j: int| 0 <= j < at - 1 implies !is_separator(#[trigger] rest[j]) by {
            assert(rest[j] == line[j + 1]);
        }
        lemma_first_separator(rest, at - 1);
    }
}

/// Removes leading and trailing whitespace with `str::trim`, which takes
/// whitespace to be the characters with the Unicode property `White_Space`.
#[verifier::external_body]
fn trim(text: &str) -> (r: &str)
    ensures
        r@ == trimmed(text@),
{
    text.trim()
}

/// Splits `line` at its separator. Returns `None` where the line does not hold
/// exactly one separator.
pub fn parse_line(line: &str) -> (r: Option<Record>)
    ensures
        match r {
            Some(record) => parse_record(line@) == Some(record@),
            None => parse_record(line@) is None,
        },
{
    let len: usize = line.unicode_len();
    let mut count: usize = 0;
    let mut first: usize = len;
    let mut i: usize = 0;
    for c in it: line.chars()
        invariant
            it.seq() == line@,
            len == line@.len(),
            i == it.index(),
            count <= i,
            count == separator_count(line@.take(i as int)),
            count == 0 ==> first == len,
            count > 0 ==> first < i && is_separator(line@[first as int]),
            forall|j: int| 0 <= j < i && j < first ==> !is_separator(#[trigger] line@[j]),
    {
        proof {
            assert(line@.take(i + 1).drop_last() == line@.take(i as int));
        }
        if c == ';' {
            if count == 0 {
                first = i;
            }
            count = count + 1;
        }
        i = i + 1;
    }
    proof {
        assert(line@.take(len as int) == line@);
    }
    if count != 1 {
        return None;
    }
    proof {
        lemma_first_separator(line@, first as int);
    }
    let key = line.substring_char(0, first);
    let field = line.substring_char(first + 1, len);
    let value = trim(field);
    Some(Record { key: key.to_owned(), value: value.to_owned() })
}

/// The values of `records`.
pub open spec fn record_views(records: Seq<Record>) -> Seq<RecordView> {
    records.map_values(|r: Record| r@)
}

/// The records that `lines` hold, in the order of the lines. A line that is no
/// record contributes nothing.
pub open spec fn records_of(lines: Seq<Seq<char>>) -> Seq<RecordView> {
    lines.filter_map(|line: Seq<char>| parse_record(line))
}

/// Splits every line of `chunk` and returns the records, in the order of the
/// lines. Lines that do not hold exactly one separator are skipped.
pub fn parse_chunk(chunk: &Vec<String>) -> (records: Vec<Record>)
    ensures
        record_views(records@) == records_of(chunk.deep_view()),
{
    let ghost lines = chunk.deep_view();
    let mut records: Vec<Record> = Vec::new();
    let mut i: usize = 0;
    assert(record_views(records@) =~= records_of(lines.take(0)));
    while i < chunk.len()
        invariant
            i <= chunk.len(),
            lines == chunk.deep_view(),
            record_views(records@) == records_of(lines.take(i as int)),
        decreases chunk.len() - i,
    {
        let ghost before = record_views(records@);
        proof {
            assert(lines.take(i + 1).drop_last() =~= lines.take(i as int));
            assert(lines.take(i + 1).last() == chunk[i as int]@);
        }
        match parse_line(chunk[i].as_str()) {
            Some(record) => {
                records.push(record);
                assert(record_views(records@) =~= before + seq![record@]);
            },
            None => {},
        }
        i = i + 1;
    }
    proof {
        assert(lines.take(chunk.len() as int) =~= lines);
    }
    records
}

/// The records of two runs of lines, one after the other, are the records of
/// the first run followed by those of the second.
pub proof fn lemma_records_of_concat(a: Seq<Seq<char>>, b: Seq<Seq<char>>)
    ensures
        records_of(a + b) == records_of(a) + records_of(b),
    decreases b.len(),
{
    if b.len() == 0 {
        assert(a + b =~= a);
        assert(records_of(a) + records_of(b) =~= records_of(a));
    } else {
        lemma_records_of_concat(a, b.drop_last());
        assert((a + b).drop_last() =~= a + b.drop_last());
        assert((a + b).last() == b.last());
        assert(records_of(a + b) =~= records_of(a) + records_of(b));
    }
}

/// A line made of a key, one separator and a field is the record of that key
/// and the trimmed field, provided that neither holds a separator.
pub proof fn lemma_parse_record_joined(key: Seq<char>, field: Seq<char>)
    requires
        forall|i: int| 0 <= i < key.len() ==> !is_separator(#[trigger] key[i]),
        forall|i: int| 0 <= i < field.len() ==> !is_separator(#[trigger] field[i]),
    ensures
        parse_record(key + seq![';'] + field) == Some(
            RecordView { key, value: trimmed(field) },
        ),
{
    let line = key + seq![';'] + field;
    lemma_first_separator(line, key.len() as int);
    lemma_separator_count_none(key);
    lemma_separator_count_none(field);
    lemma_separator_count_concat(key, seq![';']);
    lemma_separator_count_concat(key + seq![';'], field);
    assert(separator_count(seq![';']) == 1) by {
        assert(seq![';'].drop_last() =~= Seq::<char>::empty());
        reveal_with_fuel(separator_count, 2);
    }
    assert(line.take(key.len() as int) =~= key);
    assert(line.skip(key.len() as int + 1) =~= field);
}

/// The separators of two texts, one after the other, are counted together.
pub proof fn lemma_separator_count_concat(a: Seq<char>, b: Seq<char>)
    ensures
        separator_count(a + b) == separator_count(a) + separator_count(b),
    decreases b.len(),
{
    if b.len() == 0 {
        assert(a + b =~= a);
    } else {
        lemma_separator_count_concat(a, b.drop_last());
        assert((a + b).drop_last() =~= a + b.drop_last());
    }
}

/// A text without a separator counts none.
pub proof fn lemma_separator_count_none(text: Seq<char>)
    requires
        forall|i: int| 0 <= i < text.len() ==> !is_separator(#[trigger] text[i]),
    ensures
        separator_count(text) == 0,
    decreases text.len(),
{
    if text.len() > 0 {
        lemma_separator_count_none(text.drop_last());
    }
}

} // verus!
