//! The stored form of a chain table: one text line per record.
//!
//! A record is written as its endpoint digest, one space, its seed
//! plaintext, and a line feed. Reading accepts the same lines in any
//! order, with or without a final line feed, and passes over empty lines.

use crate::bytes::{append_bytes, copy_bytes};
use crate::config::{Config, ConfigView};
use crate::digest::{check_digest, is_digest, DIGEST_LEN};
use crate::table::{
    lemma_stored, lemma_stored_distinct, map_of, put, records_valid, stored, ChainTable, Record,
};
use vstd::prelude::*;
use vstd::slice::slice_subrange;

verus! {

/// The byte between the two fields of a record: a space.
pub const FIELD_SEPARATOR: u8 = 0x20;

/// The byte that ends a record: a line feed.
pub const RECORD_SEPARATOR: u8 = 0x0a;

/// Why stored bytes could not be read as a table.
#[derive(Debug, Clone, Copy, PartialEq, Eq, Structural)]
pub enum PersistenceError {
    /// A line that is not empty is not a record. `line` counts lines from
    /// zero.
    MalformedRecord { line: usize },
}

/// The line that stands for a record.
pub open spec fn record_line(rec: Record) -> Seq<u8> {
    rec.0 + seq![FIELD_SEPARATOR] + rec.1
}

/// The stored form of a sequence of records: their lines in order, each
/// ended by a line feed.
pub open spec fn save(recs: Seq<Record>) -> Seq<u8>
    decreases recs.len(),
{
    if recs.len() == 0 {
        Seq::empty()
    } else {
        save(recs.drop_last()) + record_line(recs.last()) + seq![RECORD_SEPARATOR]
    }
}

/// The lines of a text: the pieces between its line feeds. A text with `n`
/// line feeds has `n + 1` lines; the last is what follows the last line
/// feed and may be empty.
pub open spec fn split_lines(bytes: Seq<u8>) -> Seq<Seq<u8>>
    decreases bytes.len(),
{
    if bytes.len() == 0 {
        seq![Seq::empty()]
    } else {
        let before = split_lines(bytes.drop_last());
        if bytes.last() == RECORD_SEPARATOR {
            before.push(Seq::empty())
        } else {
            before.update(before.len() - 1, before.last().push(bytes.last()))
        }
    }
}

/// Lines put together again, with a line feed between each two.
pub open spec fn join_lines(lines: Seq<Seq<u8>>) -> Seq<u8>
    decreases lines.len(),
{
    if lines.len() == 0 {
        Seq::empty()
    } else if lines.len() == 1 {
        lines[0]
    } else {
        join_lines(lines.drop_last()) + seq![RECORD_SEPARATOR] + lines.last()
    }
}

/// The record that a line stands for, if it is one: a rendered digest, a
/// space, and a plaintext of the space, with nothing before, between or
/// after.
pub open spec fn parse_line(cfg: ConfigView, line: Seq<u8>) -> Option<Record> {
    let endpoint = line.subrange(0, DIGEST_LEN as int);
    let seed = line.subrange(DIGEST_LEN + 1, line.len() as int);
    if line.len() == DIGEST_LEN + 1 + cfg.plaintext_len && is_digest(endpoint)
        && line[DIGEST_LEN as int] == FIELD_SEPARATOR && cfg.is_plaintext(seed) {
        Some((endpoint, seed))
    } else {
        None
    }
}

/// A line that is neither empty nor a record.
pub open spec fn malformed(cfg: ConfigView, line: Seq<u8>) -> bool {
    line.len() > 0 && parse_line(cfg, line) is None
}

/// The index of the first malformed line, if there is one.
pub open spec fn first_malformed(cfg: ConfigView, lines: Seq<Seq<u8>>) -> Option<nat>
    decreases lines.len(),
{
    if lines.len() == 0 {
        None
    } else {
        match first_malformed(cfg, lines.drop_last()) {
            Some(i) => Some(i),
            None => if malformed(cfg, lines.last()) {
                Some((lines.len() - 1) as nat)
            } else {
                None
            },
        }
    }
}

/// The records that the lines stand for, in line order. Lines that stand
/// for none are passed over.
pub open spec fn parsed_records(cfg: ConfigView, lines: Seq<Seq<u8>>) -> Seq<Record>
    decreases lines.len(),
{
    if lines.len() == 0 {
        Seq::empty()
    } else {
        let before = parsed_records(cfg, lines.drop_last());
        match parse_line(cfg, lines.last()) {
            Some(rec) => before.push(rec),
            None => before,
        }
    }
}

/// The records of the table that reading a stored table gives, in the
/// table's order: the records read, stored one by one.
pub open spec fn load_records(cfg: ConfigView, bytes: Seq<u8>) -> Seq<Record> {
    stored(parsed_records(cfg, split_lines(bytes)))
}

/// What reading a stored table gives: the mapping of the records read,
/// where a later line replaces an earlier one with the same endpoint; or
/// the first malformed line.
pub open spec fn load(cfg: ConfigView, bytes: Seq<u8>) -> Result<
    Map<Seq<u8>, Seq<u8>>,
    PersistenceError,
> {
    let lines = split_lines(bytes);
    match first_malformed(cfg, lines) {
        Some(i) => Err(PersistenceError::MalformedRecord { line: i as usize }),
        None => Ok(map_of(parsed_records(cfg, lines))),
    }
}

/// The lines of a text are what the name says: there is at least one, none
/// holds a line feed, and with a line feed between each two they
/// make up the text.
pub proof fn lemma_split_lines(bytes: Seq<u8>)
    ensures
        split_lines(bytes).len() >= 1,
        forall|i: int|
            0 <= i < split_lines(bytes).len() ==> !(#[trigger] split_lines(bytes)[i]).contains(
                RECORD_SEPARATOR,
            ),
        join_lines(split_lines(bytes)) == bytes,
    decreases bytes.len(),
{
    let lines = split_lines(bytes);
    if bytes.len() > 0 {
        let front = bytes.drop_last();
        let before = split_lines(front);
        lemma_split_lines(front);
        assert(front.push(bytes.last()) == bytes);
        if bytes.last() == RECORD_SEPARATOR {
            assert(lines.drop_last() == before);
            assert(join_lines(lines) == front + seq![RECORD_SEPARATOR] + Seq::<u8>::empty());
            assert forall|i: int| 0 <= i < lines.len() implies !(#[trigger] lines[i]).contains(
                RECORD_SEPARATOR,
            ) by {
                if i < before.len() {
                    assert(lines[i] == before[i]);
                }
            }
        } else {
            let longer = before.last().push(bytes.last());
            assert(lines.drop_last() == before.drop_last());
            assert(lines.last() == longer);
            if before.len() > 1 {
                let head = join_lines(before.drop_last()) + seq![RECORD_SEPARATOR];
                assert(head + longer == (head + before.last()).push(bytes.last()));
            }
            assert forall|i: int| 0 <= i < lines.len() implies !(#[trigger] lines[i]).contains(
                RECORD_SEPARATOR,
            ) by {
                if i < before.len() - 1 {
                    assert(lines[i] == before[i]);
                } else if lines[i].contains(RECORD_SEPARATOR) {
                    let k = choose|k: int| 0 <= k < longer.len() && longer[k] == RECORD_SEPARATOR;
                    assert(before.last()[k] == RECORD_SEPARATOR);
                }
            }
        }
    }
}

/// The first malformed line is malformed, and no line before it is.
pub proof fn lemma_first_malformed(cfg: ConfigView, lines: Seq<Seq<u8>>)
    ensures
        match first_malformed(cfg, lines) {
            Some(i) => i < lines.len() && malformed(cfg, lines[i as int]) && forall|j: int|
                0 <= j < i ==> !malformed(cfg, #[trigger] lines[j]),
            None => forall|j: int| 0 <= j < lines.len() ==> !malformed(cfg, #[trigger] lines[j]),
        },
    decreases lines.len(),
{
    if lines.len() > 0 {
        let front = lines.drop_last();
        lemma_first_malformed(cfg, front);
        assert forall|j: int| 0 <= j < front.len() implies front[j] == lines[j] by {}
        match first_malformed(cfg, front) {
            Some(i) => {
                assert(front[i as int] == lines[i as int]);
                assert forall|j: int| 0 <= j < i implies !malformed(cfg, #[trigger] lines[j]) by {
                    assert(front[j] == lines[j]);
                }
            },
            None => {
                assert forall|j: int| 0 <= j < front.len() implies !malformed(
                    cfg,
                    #[trigger] lines[j],
                ) by {
                    assert(front[j] == lines[j]);
                }
            },
        }
    }
}

/// Appending bytes without a line feed lengthens the last line.
proof fn lemma_split_extend(bytes: Seq<u8>, more: Seq<u8>)
    requires
        !more.contains(RECORD_SEPARATOR),
    ensures
        split_lines(bytes + more) == split_lines(bytes).update(
            split_lines(bytes).len() - 1,
            split_lines(bytes).last() + more,
        ),
        split_lines(bytes).len() > 0,
    decreases more.len(),
{
    lemma_split_lines(bytes);
    let lines = split_lines(bytes);
    if more.len() == 0 {
        assert(bytes + more == bytes);
        assert(lines.last() + more == lines.last());
        assert(lines.update(lines.len() - 1, lines.last()) == lines);
    } else {
        let front = more.drop_last();
        assert(!front.contains(RECORD_SEPARATOR)) by {
            if front.contains(RECORD_SEPARATOR) {
                let i = choose|i: int| 0 <= i < front.len() && front[i] == RECORD_SEPARATOR;
                assert(more[i] == RECORD_SEPARATOR);
            }
        }
        assert(more.last() != RECORD_SEPARATOR) by {
            assert(more[more.len() - 1] == more.last());
        }
        lemma_split_extend(bytes, front);
        assert((bytes + more).drop_last() == bytes + front);
        assert((bytes + more).last() == more.last());
        assert((lines.last() + front).push(more.last()) == lines.last() + more);
    }
}

/// The line of a valid record holds no line feed and reads back as that
/// record.
proof fn lemma_record_line_parses(cfg: ConfigView, rec: Record)
    requires
        cfg.valid(),
        is_digest(rec.0),
        cfg.is_plaintext(rec.1),
    ensures
        !record_line(rec).contains(RECORD_SEPARATOR),
        record_line(rec).len() > 0,
        parse_line(cfg, record_line(rec)) == Some(rec),
{
    let line = record_line(rec);
    assert(line.subrange(0, DIGEST_LEN as int) == rec.0);
    assert(line.subrange(DIGEST_LEN + 1, line.len() as int) == rec.1);
    assert(line[DIGEST_LEN as int] == FIELD_SEPARATOR);
    if line.contains(RECORD_SEPARATOR) {
        let i = choose|i: int| 0 <= i < line.len() && line[i] == RECORD_SEPARATOR;
        if i < DIGEST_LEN {
            assert(line[i] == rec.0[i]);
        } else if i > DIGEST_LEN {
            let symbol = rec.1[i - DIGEST_LEN - 1];
            assert(line[i] == symbol);
            assert(cfg.alphabet.contains(symbol));
        }
    }
}

/// The lines of a stored table are the lines of its records, followed by
/// one empty line.
proof fn lemma_split_save(cfg: ConfigView, recs: Seq<Record>)
    requires
        cfg.valid(),
        records_valid(cfg, recs),
    ensures
        split_lines(save(recs)) == Seq::new(recs.len(), |i: int| record_line(recs[i])).push(
            Seq::empty(),
        ),
    decreases recs.len(),
{
    let lines = Seq::new(recs.len(), |i: int| record_line(recs[i]));
    if recs.len() == 0 {
        assert(lines.push(Seq::empty()) == seq![Seq::<u8>::empty()]);
    } else {
        let front = recs.drop_last();
        let front_lines = Seq::new(front.len(), |i: int| record_line(front[i]));
        let line = record_line(recs.last());
        assert(records_valid(cfg, front)) by {
            assert forall|i: int| 0 <= i < front.len() implies front[i] == recs[i] by {}
        }
        lemma_split_save(cfg, front);
        lemma_record_line_parses(cfg, recs.last());
        lemma_split_extend(save(front), line);
        let text = save(front) + line;
        assert(split_lines(text) == front_lines.push(line)) by {
            assert(Seq::<u8>::empty() + line == line);
            assert(front_lines.push(Seq::empty()).update(front_lines.len() as int, line)
                == front_lines.push(line));
        }
        assert(save(recs) == text.push(RECORD_SEPARATOR)) by {
            assert(text + seq![RECORD_SEPARATOR] == text.push(RECORD_SEPARATOR));
        }
        assert(text.push(RECORD_SEPARATOR).drop_last() == text);
        assert(front_lines.push(line) == lines);
    }
}

/// Lines that are records, followed by an empty line, read back as those
/// records.
proof fn lemma_parse_record_lines(cfg: ConfigView, recs: Seq<Record>)
    requires
        cfg.valid(),
        records_valid(cfg, recs),
    ensures
        first_malformed(cfg, Seq::new(recs.len(), |i: int| record_line(recs[i]))) is None,
        parsed_records(cfg, Seq::new(recs.len(), |i: int| record_line(recs[i]))) == recs,
    decreases recs.len(),
{
    let lines = Seq::new(recs.len(), |i: int| record_line(recs[i]));
    if recs.len() > 0 {
        let front = recs.drop_last();
        let front_lines = Seq::new(front.len(), |i: int| record_line(front[i]));
        assert(records_valid(cfg, front)) by {
            assert forall|i: int| 0 <= i < front.len() implies front[i] == recs[i] by {}
        }
        lemma_parse_record_lines(cfg, front);
        lemma_record_line_parses(cfg, recs.last());
        assert(lines.drop_last() == front_lines);
        assert(lines.last() == record_line(recs.last()));
        assert(front.push(recs.last()) == recs);
    } else {
        assert(parsed_records(cfg, lines) == recs);
    }
}

/// Round trip: what was saved loads, and it loads as the same mapping.
/// Reading the stored form of the records of a table gives a table with
/// exactly those records, in the same order.
pub proof fn lemma_load_save(cfg: ConfigView, recs: Seq<Record>)
    requires
        cfg.valid(),
        records_valid(cfg, recs),
    ensures
        load(cfg, save(recs)) == Ok::<Map<Seq<u8>, Seq<u8>>, PersistenceError>(map_of(recs)),
        load_records(cfg, save(recs)) == recs,
{
    let lines = Seq::new(recs.len(), |i: int| record_line(recs[i]));
    lemma_split_save(cfg, recs);
    lemma_parse_record_lines(cfg, recs);
    let all = lines.push(Seq::empty());
    assert(all.drop_last() == lines);
    assert(parse_line(cfg, Seq::empty()) is None);
    lemma_stored_distinct(recs);
}

/// Writes the table in its stored form.
pub fn write_map(map: &ChainTable) -> (buf: Vec<u8>)
    ensures
        buf@ == save(map.records()),
        load(map.config_view(), buf@) == Ok::<Map<Seq<u8>, Seq<u8>>, PersistenceError>(map@),
        load_records(map.config_view(), buf@) == map.records(),
{
    proof {
        use_type_invariant(map);
        lemma_load_save(map.config_view(), map.records());
    }
    let mut buf: Vec<u8> = Vec::new();
    let n: usize = map.len();
    let mut i: usize = 0;
    while i < n
        invariant
            i <= n,
            n == map.records().len(),
            buf@ == save(map.records().subrange(0, i as int)),
        decreases n - i,
    {
        let (k, v) = map.record(i);
        proof {
            let done = map.records().subrange(0, i as int);
            let more = map.records().subrange(0, i + 1);
            assert(more.drop_last() == done);
            assert(more.last() == map.records()[i as int]);
            assert(save(more) == buf@ + k@ + seq![FIELD_SEPARATOR] + v@ + seq![RECORD_SEPARATOR]);
        }
        append_bytes(&mut buf, k);
        buf.push(FIELD_SEPARATOR);
        append_bytes(&mut buf, v);
        buf.push(RECORD_SEPARATOR);
        i += 1;
    }
    assert(map.records().subrange(0, n as int) == map.records());
    buf
}

/// Reads one line as a record.
fn parse_record(cfg: &Config, line: &[u8]) -> (rec: Option<(Vec<u8>, Vec<u8>)>)
    ensures
        match rec {
            Some(r) => parse_line(cfg@, line@) == Some((r.0@, r.1@)),
            None => parse_line(cfg@, line@) is None,
        },
{
    proof {
        use_type_invariant(cfg);
    }
    if line.len() != DIGEST_LEN + 1 + cfg.plaintext_len() {
        return None;
    }
    let endpoint = slice_subrange(line, 0, DIGEST_LEN);
    let seed = slice_subrange(line, DIGEST_LEN + 1, line.len());
    if !check_digest(endpoint) || line[DIGEST_LEN] != FIELD_SEPARATOR || !cfg.is_plaintext(seed) {
        return None;
    }
    Some((copy_bytes(endpoint), copy_bytes(seed)))
}

/// Stores the record that a line stands for, and tells whether the line
/// stands for one. A line that stands for none leaves the table as it was.
fn store_line(map: &mut ChainTable, line: &[u8]) -> (ok: bool)
    ensures
        final(map).config_view() == old(map).config_view(),
        ok == (parse_line(old(map).config_view(), line@) is Some),
        final(map).records() == match parse_line(old(map).config_view(), line@) {
            Some(rec) => put(old(map).records(), rec),
            None => old(map).records(),
        },
{
    match parse_record(map.config(), line) {
        Some(rec) => {
            map.insert(rec.0, rec.1);
            true
        },
        None => false,
    }
}

/// Reads a table from its stored form.
///
/// Every line that is not empty must be a record; the first that is not
/// makes the whole read fail, and nothing is returned of the lines before
/// it.
pub fn read_map(cfg: Config, bytes: &[u8]) -> (r: Result<ChainTable, PersistenceError>)
    ensures
        match r {
            Ok(map) => {
                &&& load(cfg@, bytes@) == Ok::<Map<Seq<u8>, Seq<u8>>, PersistenceError>(map@)
                &&& map.wf()
                &&& map.config_view() == cfg@
                &&& map.records() == load_records(cfg@, bytes@)
                &&& forall|j: int|
                    0 <= j < split_lines(bytes@).len() ==> !malformed(
                        cfg@,
                        #[trigger] split_lines(bytes@)[j],
                    )
            },
            Err(e) => {
                &&& load(cfg@, bytes@) == Err::<Map<Seq<u8>, Seq<u8>>, PersistenceError>(e)
                &&& e matches PersistenceError::MalformedRecord { line }
                &&& line < split_lines(bytes@).len()
                &&& malformed(cfg@, split_lines(bytes@)[line as int])
                &&& forall|j: int|
                    0 <= j < line ==> !malformed(cfg@, #[trigger] split_lines(bytes@)[j])
            },
        },
{
    let ghost params = cfg@;
    let mut map = ChainTable::new(cfg);
    let len: usize = bytes.len();
    let mut start: usize = 0;
    let mut line_no: usize = 0;
    let mut i: usize = 0;
    let ghost mut done: Seq<Seq<u8>> = Seq::empty();
    proof {
        let nothing = bytes@.subrange(0, 0);
        assert(nothing == Seq::<u8>::empty());
        assert(split_lines(nothing) == seq![Seq::<u8>::empty()]);
        assert(seq![Seq::<u8>::empty()] == done.push(nothing));
    }
    while i < len
        invariant
            start <= i <= len,
            len == bytes@.len(),
            line_no <= i,
            line_no == done.len(),
            params == cfg@,
            map.config_view() == params,
            split_lines(bytes@.subrange(0, i as int)) == done.push(
                bytes@.subrange(start as int, i as int),
            ),
            first_malformed(params, done) is None,
            map.records() == stored(parsed_records(params, done)),
        decreases len - i,
    {
        let ghost line = bytes@.subrange(start as int, i as int);
        proof {
            let upto = bytes@.subrange(0, i as int);
            let next = bytes@.subrange(0, i + 1);
            assert(next.drop_last() == upto);
            assert(next.last() == bytes@[i as int]);
            assert(done.push(line).drop_last() == done);
            assert(done.push(line).last() == line);
            if bytes@[i as int] != RECORD_SEPARATOR {
                let longer = line.push(bytes@[i as int]);
                assert(longer == bytes@.subrange(start as int, i + 1));
                assert(done.push(line).update(done.len() as int, longer) == done.push(longer));
            } else {
                assert(bytes@.subrange(i + 1, i + 1) == Seq::<u8>::empty());
            }
        }
        if bytes[i] == RECORD_SEPARATOR {
            if i > start && !store_line(&mut map, slice_subrange(bytes, start, i)) {
                proof {
                    lemma_load_fails_at(params, bytes@, done, line, i as int);
                    lemma_first_malformed(params, split_lines(bytes@));
                }
                return Err(PersistenceError::MalformedRecord { line: line_no });
            }
            proof {
                lemma_parsed_push(params, done, line);
                done = done.push(line);
            }
            start = i + 1;
            line_no += 1;
        }
        i += 1;
    }
    let ghost line = bytes@.subrange(start as int, len as int);
    proof {
        assert(bytes@.subrange(0, len as int) == bytes@);
        assert(done.push(line).drop_last() == done);
        assert(done.push(line).last() == line);
        lemma_first_malformed(params, split_lines(bytes@));
        lemma_stored(parsed_records(params, split_lines(bytes@)));
        lemma_parsed_push(params, done, line);
    }
    if len > start && !store_line(&mut map, slice_subrange(bytes, start, len)) {
        return Err(PersistenceError::MalformedRecord { line: line_no });
    }
    proof {
        use_type_invariant(&map);
    }
    Ok(map)
}

/// One more line adds the record it stands for, if it stands for one, to
/// the records read and to the records stored.
proof fn lemma_parsed_push(cfg: ConfigView, lines: Seq<Seq<u8>>, line: Seq<u8>)
    ensures
        parsed_records(cfg, lines.push(line)) == match parse_line(cfg, line) {
            Some(rec) => parsed_records(cfg, lines).push(rec),
            None => parsed_records(cfg, lines),
        },
        stored(parsed_records(cfg, lines.push(line))) == match parse_line(cfg, line) {
            Some(rec) => put(stored(parsed_records(cfg, lines)), rec),
            None => stored(parsed_records(cfg, lines)),
        },
        parse_line(cfg, Seq::empty()) is None,
{
    assert(lines.push(line).drop_last() == lines);
    let read = parsed_records(cfg, lines);
    if let Some(rec) = parse_line(cfg, line) {
        assert(read.push(rec).drop_last() == read);
    }
}

/// A malformed line makes the whole text fail, whatever follows it.
proof fn lemma_load_fails_at(
    cfg: ConfigView,
    bytes: Seq<u8>,
    done: Seq<Seq<u8>>,
    line: Seq<u8>,
    i: int,
)
    requires
        0 <= i <= bytes.len(),
        split_lines(bytes.subrange(0, i)) == done.push(line),
        i < bytes.len() ==> bytes[i] == RECORD_SEPARATOR,
        first_malformed(cfg, done) is None,
        malformed(cfg, line),
    ensures
        first_malformed(cfg, split_lines(bytes)) == Some(done.len()),
{
    let lines = done.push(line);
    assert(lines.drop_last() == done);
    assert(lines.last() == line);
    assert(first_malformed(cfg, lines) == Some(done.len()));
    if i < bytes.len() {
        let next = bytes.subrange(0, i + 1);
        assert(next.drop_last() == bytes.subrange(0, i));
        assert(next.last() == RECORD_SEPARATOR);
        assert(split_lines(next) == lines.push(Seq::empty()));
        assert(lines.push(Seq::empty()).drop_last() == lines);
        assert(first_malformed(cfg, split_lines(next)) == Some(done.len()));
        lemma_first_malformed_stays(cfg, bytes, i + 1, done.len());
    } else {
        assert(bytes.subrange(0, i) == bytes);
    }
}

/// Once a complete line of a prefix is the first malformed one, it is the
/// first malformed line of the whole text.
proof fn lemma_first_malformed_stays(cfg: ConfigView, bytes: Seq<u8>, i: int, at: nat)
    requires
        0 <= i <= bytes.len(),
        first_malformed(cfg, split_lines(bytes.subrange(0, i))) == Some(at),
        at + 1 < split_lines(bytes.subrange(0, i)).len(),
    ensures
        first_malformed(cfg, split_lines(bytes)) == Some(at),
    decreases bytes.len() - i,
{
    if i == bytes.len() {
        assert(bytes.subrange(0, i) == bytes);
    } else {
        let upto = bytes.subrange(0, i);
        let next = bytes.subrange(0, i + 1);
        let lines = split_lines(upto);
        assert(next.drop_last() == upto);
        lemma_first_malformed_prefix(cfg, lines, at);
        if bytes[i] == RECORD_SEPARATOR {
            assert(lines.push(Seq::empty()).drop_last() == lines);
        } else {
            let changed = lines.update(lines.len() - 1, lines.last().push(bytes[i]));
            assert(changed.drop_last() == lines.drop_last());
        }
        lemma_first_malformed_stays(cfg, bytes, i + 1, at);
    }
}

/// A first malformed line that is not the last line is the first malformed
/// line of the lines before the last.
proof fn lemma_first_malformed_prefix(cfg: ConfigView, lines: Seq<Seq<u8>>, at: nat)
    requires
        first_malformed(cfg, lines) == Some(at),
        at + 1 < lines.len(),
    ensures
        first_malformed(cfg, lines.drop_last()) == Some(at),
{
}

} // verus!
