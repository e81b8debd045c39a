//! The persistence format: two-field records, one per stored chain, in
//! `seed,endpoint` order (the reverse of the in-memory orientation), no
//! header, fields quoted only when they hold a delimiter, a quote or a
//! line break, quotes doubled inside quoted fields.

use vstd::prelude::*;

use crate::store::EntryView;

verus! {

/// Failure to read persisted table text.
#[derive(Debug, PartialEq, Eq)]
pub enum LoadError {
    /// A record was malformed: an unterminated quoted field, stray text
    /// after a closing quote, or fewer than two fields.
    Malformed,
}

/// Whether a field must be quoted to survive the record format.
pub open spec fn needs_quoting(f: Seq<char>) -> bool {
    exists|i: int|
        0 <= i < f.len() && ((f[i] == ',') || (f[i] == '"') || (f[i] == '\n') || (f[i] == '\r'))
}

/// A field's characters with every quote doubled.
pub open spec fn escape_quotes(f: Seq<char>) -> Seq<char>
    decreases f.len(),
{
    if f.len() == 0 {
        Seq::empty()
    } else {
        escape_quotes(f.drop_last()) + (if f.last() == '"' {
            seq!['"', '"']
        } else {
            seq![f.last()]
        })
    }
}

/// A field as written: bare, or wrapped in quotes with inner quotes
/// doubled when it holds a special character.
pub open spec fn encode_field(f: Seq<char>) -> Seq<char> {
    if needs_quoting(f) {
        seq!['"'] + escape_quotes(f) + seq!['"']
    } else {
        f
    }
}

/// One record as written: the seed, the delimiter, the endpoint, a line
/// break.
pub open spec fn encode_record(seed: Seq<char>, endpoint: Seq<char>) -> Seq<char> {
    encode_field(seed) + seq![','] + encode_field(endpoint) + seq!['\n']
}

/// The whole table as written: one record per stored chain, in storage
/// order, each `(endpoint, seed)` entry written as `seed,endpoint`.
pub open spec fn encode_records(entries: Seq<EntryView>) -> Seq<char>
    decreases entries.len(),
{
    if entries.len() == 0 {
        Seq::empty()
    } else {
        encode_records(entries.drop_last()) + encode_record(
            entries.last().1,
            entries.last().0,
        )
    }
}

/// The first position at or past `pos` holding a line break, or the end.
pub open spec fn line_end(s: Seq<char>, pos: int) -> int
    decreases s.len() - pos,
{
    if !(0 <= pos < s.len()) {
        s.len() as int
    } else if s[pos] == '\n' || s[pos] == '\r' {
        pos
    } else {
        line_end(s, pos + 1)
    }
}

/// Where `line_end` lands: past every non-break character, on a break or
/// the end.
pub proof fn lemma_line_end_at(s: Seq<char>, pos: int, e: int)
    requires
        0 <= pos <= e <= s.len(),
        forall|i: int| pos <= i < e ==> (#[trigger] s[i]) != '\n' && s[i] != '\r',
        e == s.len() || s[e] == '\n' || s[e] == '\r',
    ensures
        line_end(s, pos) == e,
    decreases e - pos,
{
    if pos < e {
        lemma_line_end_at(s, pos + 1, e);
    }
}

/// The first position in `[pos, end)` holding the delimiter, or `end`.
pub open spec fn field_end(s: Seq<char>, pos: int, end: int) -> int
    decreases end - pos,
{
    if !(0 <= pos < end && end <= s.len()) {
        end
    } else if s[pos] == ',' {
        pos
    } else {
        field_end(s, pos + 1, end)
    }
}

/// Where `field_end` lands: past every non-delimiter character, on a
/// delimiter or the end of the line.
pub proof fn lemma_field_end_at(s: Seq<char>, pos: int, end: int, fe: int)
    requires
        0 <= pos <= fe <= end <= s.len(),
        forall|i: int| pos <= i < fe ==> (#[trigger] s[i]) != ',',
        fe == end || s[fe] == ',',
    ensures
        field_end(s, pos, end) == fe,
    decreases fe - pos,
{
    if pos < fe {
        lemma_field_end_at(s, pos + 1, end, fe);
    }
}

/// Reads the inside of a quoted field from `pos`, doubled quotes read as
/// one quote, up to the closing quote: the field read so far is `acc`.
/// Yields the field and the position just past the closing quote, or
/// nothing when the field never closes.
pub open spec fn parse_quoted(s: Seq<char>, pos: int, end: int, acc: Seq<char>) -> Option<
    (Seq<char>, int),
>
    decreases end - pos,
{
    if !(0 <= pos < end && end <= s.len()) {
        None
    } else if s[pos] == '"' {
        if pos + 1 < end && s[pos + 1] == '"' {
            parse_quoted(s, pos + 2, end, acc.push('"'))
        } else {
            Some((acc, pos + 1))
        }
    } else {
        parse_quoted(s, pos + 1, end, acc.push(s[pos]))
    }
}

/// Reads one field at `pos`: a quoted field when a quote opens it (which
/// must close, and be followed by a delimiter or the line's end), a bare
/// run of non-delimiter characters otherwise. Yields the field and the
/// position just past it.
pub open spec fn parse_field(s: Seq<char>, pos: int, end: int) -> Option<(Seq<char>, int)> {
    if 0 <= pos < end && end <= s.len() && s[pos] == '"' {
        match parse_quoted(s, pos + 1, end, Seq::empty()) {
            Some((f, p)) => if p == end || (p < end && s[p] == ',') {
                Some((f, p))
            } else {
                None
            },
            None => None,
        }
    } else {
        let fe = field_end(s, pos, end);
        Some((s.subrange(pos, fe), fe))
    }
}

/// Reads the fields of one record line, delimiter-separated.
pub open spec fn parse_fields_from(s: Seq<char>, pos: int, end: int) -> Option<Seq<Seq<char>>>
    decreases end - pos,
{
    if !(0 <= pos <= end && end <= s.len()) {
        None
    } else {
        match parse_field(s, pos, end) {
            Some((f, p)) => {
                if p == end {
                    Some(seq![f])
                } else if pos <= p < end && s[p] == ',' {
                    match parse_fields_from(s, p + 1, end) {
                        Some(rest) => Some(seq![f] + rest),
                        None => None,
                    }
                } else {
                    None
                }
            },
            None => None,
        }
    }
}

/// Reads every record of the persisted text from `pos` on: one record
/// per line, lines broken by a line feed, a carriage return or the pair,
/// empty lines passed over, at least two fields to a record (the seed,
/// the endpoint; any further fields are ignored). Nothing on a malformed
/// record.
pub open spec fn parse_records_from(s: Seq<char>, pos: int) -> Option<Seq<(Seq<char>, Seq<char>)>>
    decreases s.len() - pos,
{
    if !(0 <= pos) {
        None
    } else if pos >= s.len() {
        Some(Seq::empty())
    } else {
        let e_raw = line_end(s, pos);
        let e = if pos <= e_raw <= s.len() {
            e_raw
        } else {
            s.len() as int
        };
        let next = if e < s.len() && s[e] == '\r' && e + 1 < s.len() && s[e + 1] == '\n' {
            e + 2
        } else if e < s.len() {
            e + 1
        } else {
            e
        };
        if e == pos {
            parse_records_from(s, next)
        } else {
            match parse_fields_from(s, pos, e) {
                Some(fs) => {
                    if fs.len() < 2 {
                        None
                    } else {
                        match parse_records_from(s, next) {
                            Some(rest) => Some(seq![(fs[0], fs[1])] + rest),
                            None => None,
                        }
                    }
                },
                None => None,
            }
        }
    }
}

/// The records persisted text holds, read from its start.
pub open spec fn parse_records_spec(s: Seq<char>) -> Option<Seq<(Seq<char>, Seq<char>)>> {
    parse_records_from(s, 0)
}

/// A sequence of owned string pairs, as views.
pub open spec fn pairs_view(v: Seq<(String, String)>) -> Seq<(Seq<char>, Seq<char>)> {
    Seq::new(v.len(), |i: int| (v[i].0@, v[i].1@))
}

/// A field free of line breaks. Only such fields can round-trip through
/// the record format, whose records are lines.
pub open spec fn clean_field(f: Seq<char>) -> bool {
    forall|i: int| 0 <= i < f.len() ==> (#[trigger] f[i]) != '\n' && f[i] != '\r'
}

/// `escape_quotes` read from the front: the first character's encoding,
/// then the rest's.
pub proof fn lemma_escape_quotes_first(f: Seq<char>)
    requires
        f.len() >= 1,
    ensures
        escape_quotes(f) == (if f[0] == '"' {
            seq!['"', '"']
        } else {
            seq![f[0]]
        }) + escape_quotes(f.drop_first()),
    decreases f.len(),
{
    let head: Seq<char> = if f[0] == '"' {
        seq!['"', '"']
    } else {
        seq![f[0]]
    };
    if f.len() == 1 {
        assert(f.drop_last() =~= Seq::<char>::empty());
        assert(f.drop_first() =~= Seq::<char>::empty());
        assert(f.last() == f[0]);
        assert(escape_quotes(f) =~= head + escape_quotes(f.drop_first()));
    } else {
        lemma_escape_quotes_first(f.drop_last());
        assert(f.drop_last()[0] == f[0]);
        assert(f.drop_last().drop_first() =~= f.drop_first().drop_last());
        assert(f.drop_first().last() == f.last());
        assert(escape_quotes(f) == escape_quotes(f.drop_last()) + (if f.last() == '"' {
            seq!['"', '"']
        } else {
            seq![f.last()]
        }));
        assert(escape_quotes(f.drop_first()) == escape_quotes(f.drop_first().drop_last()) + (
        if f.last() == '"' {
            seq!['"', '"']
        } else {
            seq![f.last()]
        }));
        assert(escape_quotes(f) =~= head + escape_quotes(f.drop_first()));
    }
}

/// Escaping keeps a field free of line breaks: it only doubles quotes.
pub proof fn lemma_escape_quotes_clean(f: Seq<char>)
    requires
        clean_field(f),
    ensures
        clean_field(escape_quotes(f)),
    decreases f.len(),
{
    if f.len() > 0 {
        assert(clean_field(f.drop_last()));
        lemma_escape_quotes_clean(f.drop_last());
        let tail: Seq<char> = if f.last() == '"' {
            seq!['"', '"']
        } else {
            seq![f.last()]
        };
        assert(f.last() != '\n' && f.last() != '\r');
        assert(clean_field(tail));
        assert forall|i: int| 0 <= i < escape_quotes(f).len() implies (#[trigger] escape_quotes(
            f,
        )[i]) != '\n' && escape_quotes(f)[i] != '\r' by {
            if i < escape_quotes(f.drop_last()).len() {
                assert(escape_quotes(f)[i] == escape_quotes(f.drop_last())[i]);
            } else {
                assert(escape_quotes(f)[i] == tail[i - escape_quotes(f.drop_last()).len()]);
            }
        }
    }
}

/// An encoded field is free of line breaks whenever the field is.
pub proof fn lemma_encode_field_clean(f: Seq<char>)
    requires
        clean_field(f),
    ensures
        clean_field(encode_field(f)),
{
    if needs_quoting(f) {
        lemma_escape_quotes_clean(f);
        let e = seq!['"'] + escape_quotes(f) + seq!['"'];
        assert forall|i: int| 0 <= i < e.len() implies (#[trigger] e[i]) != '\n' && e[i] != '\r' by {
            if 1 <= i < 1 + escape_quotes(f).len() {
                assert(e[i] == escape_quotes(f)[i - 1]);
            }
        }
    }
}

/// A quoted field read from anywhere lands between its start and the
/// line's end.
pub proof fn lemma_parse_quoted_pos(s: Seq<char>, pos: int, end: int, acc: Seq<char>)
    ensures
        parse_quoted(s, pos, end, acc) matches Some(fp) ==> pos < fp.1 <= end,
    decreases end - pos,
{
    if 0 <= pos < end && end <= s.len() {
        if s[pos] == '"' {
            if pos + 1 < end && s[pos + 1] == '"' {
                lemma_parse_quoted_pos(s, pos + 2, end, acc.push('"'));
            }
        } else {
            lemma_parse_quoted_pos(s, pos + 1, end, acc.push(s[pos]));
        }
    }
}

/// `field_end` lands between its start and the line's end.
pub proof fn lemma_field_end_bounds(s: Seq<char>, pos: int, end: int)
    requires
        0 <= pos <= end <= s.len(),
    ensures
        pos <= field_end(s, pos, end) <= end,
    decreases end - pos,
{
    if pos < end && s[pos] != ',' {
        lemma_field_end_bounds(s, pos + 1, end);
    }
}

/// A field read at `pos` ends between `pos` and the line's end, on a
/// delimiter or on the end itself.
pub proof fn lemma_parse_field_pos(s: Seq<char>, pos: int, end: int)
    requires
        0 <= pos <= end <= s.len(),
    ensures
        parse_field(s, pos, end) matches Some(fp) ==> pos <= fp.1 <= end && (fp.1 == end || s[fp.1]
            == ','),
{
    if pos < end && s[pos] == '"' {
        lemma_parse_quoted_pos(s, pos + 1, end, Seq::empty());
    } else {
        lemma_field_end_bounds(s, pos, end);
        if field_end(s, pos, end) < end {
            lemma_field_end_is_delim(s, pos, end);
        }
    }
}

/// When `field_end` stops short of the line's end, it stops on the
/// delimiter.
pub proof fn lemma_field_end_is_delim(s: Seq<char>, pos: int, end: int)
    requires
        0 <= pos <= end <= s.len(),
        field_end(s, pos, end) < end,
    ensures
        s[field_end(s, pos, end)] == ',',
    decreases end - pos,
{
    if pos < end && s[pos] != ',' {
        lemma_field_end_is_delim(s, pos + 1, end);
    }
}

/// Reading a quoted field recovers exactly the field that was escaped
/// into it: the escaped text sits at `pos`, the closing quote follows
/// it, and what comes after the closing quote is not another quote.
pub proof fn lemma_parse_escaped(s: Seq<char>, pos: int, end: int, f: Seq<char>, acc: Seq<char>)
    requires
        0 <= pos,
        pos + escape_quotes(f).len() + 1 <= end <= s.len(),
        s.subrange(pos, pos + escape_quotes(f).len()) == escape_quotes(f),
        s[pos + escape_quotes(f).len()] == '"',
        pos + escape_quotes(f).len() + 1 == end || s[pos + escape_quotes(f).len() + 1] != '"',
    ensures
        parse_quoted(s, pos, end, acc) == Some((acc + f, pos + escape_quotes(f).len() + 1)),
    decreases f.len(),
{
    let el = escape_quotes(f).len() as int;
    if f.len() == 0 {
        assert(escape_quotes(f).len() == 0);
        assert(s[pos] == '"');
        assert(acc + f =~= acc);
    } else {
        lemma_escape_quotes_first(f);
        let rest = f.drop_first();
        let head: Seq<char> = if f[0] == '"' {
            seq!['"', '"']
        } else {
            seq![f[0]]
        };
        let hl = head.len() as int;
        assert(escape_quotes(f) == head + escape_quotes(rest));
        assert(el == hl + escape_quotes(rest).len());
        assert forall|i: int| 0 <= i < el implies s[pos + i] == escape_quotes(f)[i] by {
            assert(s.subrange(pos, pos + el)[i] == s[pos + i]);
        }
        let rl = escape_quotes(rest).len() as int;
        assert forall|j: int| 0 <= j < rl implies s.subrange(pos + hl, pos + hl + rl)[j]
            == escape_quotes(rest)[j] by {
            assert(s.subrange(pos + hl, pos + hl + rl)[j] == s[pos + hl + j]);
            assert(s[pos + (hl + j)] == escape_quotes(f)[hl + j]);
            assert(escape_quotes(f)[hl + j] == escape_quotes(rest)[j]);
        }
        assert(s.subrange(pos + hl, pos + hl + rl) =~= escape_quotes(rest));
        if f[0] == '"' {
            assert(s[pos + 0] == escape_quotes(f)[0]);
            assert(s[pos + 1] == escape_quotes(f)[1]);
            assert(s[pos] == '"' && s[pos + 1] == '"');
            assert(pos + 1 < end);
            lemma_parse_escaped(s, pos + 2, end, rest, acc.push('"'));
            assert(acc.push('"') + rest =~= acc + f);
        } else {
            assert(s[pos + 0] == escape_quotes(f)[0]);
            assert(s[pos] == f[0]);
            assert(f[0] != '"');
            lemma_parse_escaped(s, pos + 1, end, rest, acc.push(f[0]));
            assert(acc.push(f[0]) + rest =~= acc + f);
        }
    }
}

/// Reading a field at the position where one was encoded recovers it,
/// provided a delimiter or the line's end follows.
pub proof fn lemma_parse_encoded_field(s: Seq<char>, pos: int, end: int, f: Seq<char>)
    requires
        0 <= pos,
        pos + encode_field(f).len() <= end <= s.len(),
        s.subrange(pos, pos + encode_field(f).len()) == encode_field(f),
        pos + encode_field(f).len() == end || s[pos + encode_field(f).len()] == ',',
    ensures
        parse_field(s, pos, end) == Some((f, pos + encode_field(f).len())),
{
    let ef = encode_field(f);
    let p = pos + ef.len() as int;
    assert forall|i: int| 0 <= i < ef.len() implies s[pos + i] == ef[i] by {
        assert(s.subrange(pos, p)[i] == s[pos + i]);
    }
    if needs_quoting(f) {
        assert(ef == seq!['"'] + escape_quotes(f) + seq!['"']);
        assert(s[pos] == ef[0]);
        assert(ef[0] == '"');
        let el = escape_quotes(f).len() as int;
        assert(ef.len() == el + 2);
        assert forall|j: int| 0 <= j < el implies s.subrange(pos + 1, pos + 1 + el)[j]
            == escape_quotes(f)[j] by {
            assert(s.subrange(pos + 1, pos + 1 + el)[j] == s[pos + 1 + j]);
            assert(s[pos + (1 + j)] == ef[1 + j]);
            assert(ef[1 + j] == escape_quotes(f)[j]);
        }
        assert(s.subrange(pos + 1, pos + 1 + el) =~= escape_quotes(f));
        assert(s[pos + 1 + el] == ef[1 + el]);
        assert(ef[1 + el] == '"');
        assert(pos + 1 + el + 1 == p);
        assert(p == end || s[p] == ',');
        assert(p == end || s[p] != '"');
        lemma_parse_escaped(s, pos + 1, end, f, Seq::empty());
        assert(Seq::<char>::empty() + f =~= f);
        assert(parse_quoted(s, pos + 1, end, Seq::empty()) == Some((f, p)));
    } else {
        assert(ef == f);
        assert forall|i: int| pos <= i < p implies (#[trigger] s[i]) != ',' by {
            assert(s[i] == f[i - pos]);
            assert(f[i - pos] != ',');
        }
        if pos < end {
            assert(s[pos] != '"') by {
                if f.len() > 0 {
                    assert(s[pos] == f[0]);
                    assert(f[0] != '"');
                } else {
                    assert(p == pos);
                    assert(s[pos] == ',');
                }
            };
        }
        lemma_field_end_at(s, pos, end, p);
        assert(s.subrange(pos, p) == f);
    }
}

/// Reading the fields of an encoded record line recovers its two fields.
pub proof fn lemma_parse_encoded_line(s: Seq<char>, pos: int, end: int, seed: Seq<char>, endp: Seq<
    char,
>)
    requires
        0 <= pos <= end <= s.len(),
        end - pos == encode_field(seed).len() + 1 + encode_field(endp).len(),
        s.subrange(pos, end) == encode_field(seed) + seq![','] + encode_field(endp),
    ensures
        parse_fields_from(s, pos, end) == Some(seq![seed, endp]),
{
    let es = encode_field(seed);
    let ee = encode_field(endp);
    let line = es + seq![','] + ee;
    assert forall|i: int| 0 <= i < line.len() implies s[pos + i] == line[i] by {
        assert(s.subrange(pos, end)[i] == s[pos + i]);
    }
    let p1 = pos + es.len() as int;
    assert(s[p1] == line[es.len() as int]);
    assert(line[es.len() as int] == ',');
    assert(s.subrange(pos, p1) =~= es);
    lemma_parse_encoded_field(s, pos, end, seed);
    let p2 = p1 + 1 + ee.len() as int;
    assert(p2 == end);
    assert forall|j: int| 0 <= j < ee.len() implies s.subrange(p1 + 1, p2)[j] == ee[j] by {
        assert(s.subrange(p1 + 1, p2)[j] == s[p1 + 1 + j]);
        assert(s[pos + (es.len() + 1 + j)] == line[es.len() + 1 + j]);
        assert(line[es.len() + 1 + j] == ee[j]);
    }
    assert(s.subrange(p1 + 1, p2) =~= ee);
    lemma_parse_encoded_field(s, p1 + 1, end, endp);
    assert(parse_fields_from(s, p1 + 1, end) == Some(seq![endp]));
    assert(seq![seed] + seq![endp] =~= seq![seed, endp]);
}

/// `encode_records` read from the front: the first entry's record, then
/// the rest's.
pub proof fn lemma_encode_records_first(entries: Seq<EntryView>)
    requires
        entries.len() >= 1,
    ensures
        encode_records(entries) == encode_record(entries[0].1, entries[0].0) + encode_records(
            entries.drop_first(),
        ),
    decreases entries.len(),
{
    let head = encode_record(entries[0].1, entries[0].0);
    if entries.len() == 1 {
        assert(entries.drop_last() =~= Seq::<EntryView>::empty());
        assert(entries.drop_first() =~= Seq::<EntryView>::empty());
        assert(entries.last() == entries[0]);
        assert(encode_records(entries) =~= head + encode_records(entries.drop_first()));
    } else {
        lemma_encode_records_first(entries.drop_last());
        assert(entries.drop_last()[0] == entries[0]);
        assert(entries.drop_last().drop_first() =~= entries.drop_first().drop_last());
        assert(entries.drop_first().last() == entries.last());
        assert(encode_records(entries.drop_first()) == encode_records(
            entries.drop_first().drop_last(),
        ) + encode_record(entries.last().1, entries.last().0));
        assert(encode_records(entries) =~= head + encode_records(entries.drop_first()));
    }
}

/// Entries whose fields are all free of line breaks: the ones the record
/// format can round-trip.
pub open spec fn clean_entries(entries: Seq<EntryView>) -> bool {
    forall|i: int|
        0 <= i < entries.len() ==> clean_field((#[trigger] entries[i]).0) && clean_field(
            entries[i].1,
        )
}

/// Reading encoded records from where they begin recovers exactly the
/// records that were written.
pub proof fn lemma_parse_encoded_records(s: Seq<char>, pos: int, entries: Seq<EntryView>)
    requires
        0 <= pos <= s.len(),
        s.subrange(pos, s.len() as int) == encode_records(entries),
        clean_entries(entries),
    ensures
        parse_records_from(s, pos) == Some(crate::store::saved_records(entries)),
    decreases entries.len(),
{
    if entries.len() == 0 {
        assert(encode_records(entries).len() == 0);
        assert(pos == s.len());
        assert(crate::store::saved_records(entries) =~= Seq::<(Seq<char>, Seq<char>)>::empty());
    } else {
        lemma_encode_records_first(entries);
        let seed = entries[0].1;
        let endp = entries[0].0;
        let rec = encode_record(seed, endp);
        let rest_enc = encode_records(entries.drop_first());
        let whole = encode_records(entries);
        assert(whole == rec + rest_enc);
        assert forall|i: int| 0 <= i < whole.len() implies s[pos + i] == whole[i] by {
            assert(s.subrange(pos, s.len() as int)[i] == s[pos + i]);
        }
        let es = encode_field(seed);
        let ee = encode_field(endp);
        let line = es + seq![','] + ee;
        let ll = line.len() as int;
        assert(rec == line + seq!['\n']);
        assert(rec.len() == ll + 1);
        let e = pos + ll;
        assert(clean_field(seed) && clean_field(endp));
        lemma_encode_field_clean(seed);
        lemma_encode_field_clean(endp);
        assert forall|i: int| pos <= i < e implies (#[trigger] s[i]) != '\n' && s[i] != '\r' by {
            let j = i - pos;
            assert(s[pos + j] == whole[j]);
            assert(whole[j] == rec[j]);
            assert(rec[j] == line[j]);
            if j < es.len() {
                assert(line[j] == es[j]);
            } else if j == es.len() {
                assert(line[j] == ',');
            } else {
                assert(line[j] == ee[j - es.len() - 1]);
            }
        }
        assert(s[pos + ll] == whole[ll]);
        assert(whole[ll] == rec[ll]);
        assert(rec[ll] == '\n');
        assert(e < s.len());
        lemma_line_end_at(s, pos, e);
        assert forall|j: int| 0 <= j < ll implies s.subrange(pos, e)[j] == line[j] by {
            assert(s.subrange(pos, e)[j] == s[pos + j]);
            assert(s[pos + j] == whole[j]);
            assert(whole[j] == rec[j]);
            assert(rec[j] == line[j]);
        }
        assert(s.subrange(pos, e) =~= line);
        lemma_parse_encoded_line(s, pos, e, seed, endp);
        let next = e + 1;
        assert forall|j: int| 0 <= j < rest_enc.len() implies s.subrange(
            next,
            s.len() as int,
        )[j] == rest_enc[j] by {
            assert(s.subrange(next, s.len() as int)[j] == s[next + j]);
            assert(s[pos + (rec.len() + j)] == whole[rec.len() + j]);
            assert(whole[rec.len() + j] == rest_enc[j]);
        }
        assert(s.subrange(next, s.len() as int) =~= rest_enc);
        assert(clean_entries(entries.drop_first())) by {
            assert forall|i: int|
                0 <= i < entries.drop_first().len() implies clean_field(
                (#[trigger] entries.drop_first()[i]).0,
            ) && clean_field(entries.drop_first()[i].1) by {
                assert(entries.drop_first()[i] == entries[i + 1]);
            }
        }
        lemma_parse_encoded_records(s, next, entries.drop_first());
        assert(e != pos);
        assert(parse_records_from(s, pos) == Some(
            seq![(seed, endp)] + crate::store::saved_records(entries.drop_first()),
        ));
        assert(seq![(seed, endp)] + crate::store::saved_records(entries.drop_first())
            =~= crate::store::saved_records(entries));
    }
}

/// Finds the current line's end: the next line break, or the text's end.
fn find_line_end(data: &str, pos: usize, n: usize) -> (e: usize)
    requires
        n == data@.len(),
        pos <= n,
    ensures
        pos <= e <= n,
        e as int == line_end(data@, pos as int),
{
    let mut e = pos;
    while e < n
        invariant
            n == data@.len(),
            pos <= e <= n,
            forall|i: int| pos <= i < e ==> (#[trigger] data@[i]) != '\n' && data@[i] != '\r',
        decreases n - e,
    {
        let c = data.get_char(e);
        if c == '\n' || c == '\r' {
            proof {
                lemma_line_end_at(data@, pos as int, e as int);
            }
            return e;
        }
        e = e + 1;
    }
    proof {
        lemma_line_end_at(data@, pos as int, n as int);
    }
    n
}

/// Finds the current field's end: the next delimiter, or the line's end.
fn find_field_end(data: &str, pos: usize, end: usize) -> (fe: usize)
    requires
        end <= data@.len(),
        pos <= end,
    ensures
        pos <= fe <= end,
        fe as int == field_end(data@, pos as int, end as int),
{
    let mut fe = pos;
    while fe < end
        invariant
            end <= data@.len(),
            pos <= fe <= end,
            forall|i: int| pos <= i < fe ==> (#[trigger] data@[i]) != ',',
        decreases end - fe,
    {
        if data.get_char(fe) == ',' {
            proof {
                lemma_field_end_at(data@, pos as int, end as int, fe as int);
            }
            return fe;
        }
        fe = fe + 1;
    }
    proof {
        lemma_field_end_at(data@, pos as int, end as int, end as int);
    }
    end
}

/// Reads one field starting at `pos`, and where the text past it begins.
fn parse_field_exec(data: &str, pos: usize, end: usize) -> (r: Result<(String, usize), LoadError>)
    requires
        pos <= end,
        end <= data@.len(),
    ensures
        (match parse_field(data@, pos as int, end as int) {
            Some(fp) => r is Ok && r->Ok_0.0@ == fp.0 && r->Ok_0.1 as int == fp.1,
            None => r is Err,
        }),
{
    let ghost s = data@;
    if pos < end && data.get_char(pos) == '"' {
        let mut acc = String::new();
        let mut q = pos + 1;
        while q < end
            invariant
                s == data@,
                end <= s.len(),
                pos + 1 <= q <= end,
                pos < end,
                s[pos as int] == '"',
                parse_quoted(s, pos + 1, end as int, Seq::empty()) == parse_quoted(
                    s,
                    q as int,
                    end as int,
                    acc@,
                ),
            decreases end - q,
        {
            let c = data.get_char(q);
            if c == '"' {
                if q + 1 < end && data.get_char(q + 1) == '"' {
                    crate::strutil::push_char(&mut acc, '"');
                    q = q + 2;
                } else {
                    let p = q + 1;
                    proof {
                        assert(parse_quoted(s, q as int, end as int, acc@) == Some(
                            (acc@, p as int),
                        ));
                    }
                    if p == end || data.get_char(p) == ',' {
                        return Ok((acc, p));
                    } else {
                        return Err(LoadError::Malformed);
                    }
                }
            } else {
                crate::strutil::push_char(&mut acc, c);
                q = q + 1;
            }
        }
        proof {
            assert(parse_quoted(s, q as int, end as int, acc@) is None);
        }
        Err(LoadError::Malformed)
    } else {
        let fe = find_field_end(data, pos, end);
        let f = data.substring_char(pos, fe).to_owned();
        Ok((f, fe))
    }
}

/// Reads one record line: its first two fields, which every record must
/// have; any further fields are read and ignored.
fn parse_line(data: &str, pos: usize, end: usize) -> (r: Result<(String, String), LoadError>)
    requires
        pos <= end,
        end <= data@.len(),
    ensures
        (match parse_fields_from(data@, pos as int, end as int) {
            Some(fs) => if fs.len() >= 2 {
                r is Ok && r->Ok_0.0@ == fs[0] && r->Ok_0.1@ == fs[1]
            } else {
                r is Err
            },
            None => r is Err,
        }),
{
    let ghost s = data@;
    let mut fpos = pos;
    let mut first: Option<String> = None;
    let mut second: Option<String> = None;
    let ghost mut acc: Seq<Seq<char>> = Seq::empty();
    loop
        invariant
            s == data@,
            pos <= fpos <= end,
            end <= s.len(),
            first is Some <==> acc.len() >= 1,
            second is Some <==> acc.len() >= 2,
            first matches Some(x) ==> x@ == acc[0],
            second matches Some(x) ==> x@ == acc[1],
            (match parse_fields_from(s, fpos as int, end as int) {
                Some(rest) => parse_fields_from(s, pos as int, end as int) == Some(acc + rest),
                None => parse_fields_from(s, pos as int, end as int) is None,
            }),
        decreases end - fpos,
    {
        let fp = match parse_field_exec(data, fpos, end) {
            Ok(v) => v,
            Err(_) => {
                return Err(LoadError::Malformed);
            },
        };
        proof {
            lemma_parse_field_pos(s, fpos as int, end as int);
        }
        let (f, p) = fp;
        let ghost fv = f@;
        let ghost newacc = acc.push(fv);
        if first.is_none() {
            first = Some(f);
        } else if second.is_none() {
            second = Some(f);
        }
        if p == end {
            proof {
                assert(parse_fields_from(s, fpos as int, end as int) == Some(seq![fv]));
                assert(acc + seq![fv] =~= newacc);
            }
            match (first, second) {
                (Some(a), Some(b)) => {
                    return Ok((a, b));
                },
                (_, _) => {
                    proof {
                        assert(newacc.len() < 2);
                    }
                    return Err(LoadError::Malformed);
                },
            }
        } else {
            proof {
                assert(s[p as int] == ',');
                assert(parse_fields_from(s, fpos as int, end as int) == (match parse_fields_from(
                    s,
                    p + 1,
                    end as int,
                ) {
                    Some(rest) => Some(seq![fv] + rest),
                    None => None::<Seq<Seq<char>>>,
                }));
                let pr = parse_fields_from(s, p + 1, end as int);
                if pr is Some {
                    let rest = pr->0;
                    assert(acc + (seq![fv] + rest) =~= newacc + rest);
                }
                acc = newacc;
            }
            fpos = p + 1;
        }
    }
}

/// Reads persisted table text into its `(seed, endpoint)` records.
pub(crate) fn parse_records(data: &str) -> (r: Result<Vec<(String, String)>, LoadError>)
    ensures
        parse_records_spec(data@) matches Some(rs) ==> r is Ok && pairs_view(r->Ok_0@) == rs,
        parse_records_spec(data@) is None ==> r is Err,
{
    let ghost s = data@;
    let n = data.unicode_len();
    let mut out: Vec<(String, String)> = Vec::new();
    let mut pos: usize = 0;
    while pos < n
        invariant
            s == data@,
            n == s.len(),
            0 <= pos <= n,
            (match parse_records_from(s, pos as int) {
                Some(rest) => parse_records_from(s, 0) == Some(pairs_view(out@) + rest),
                None => parse_records_from(s, 0) is None,
            }),
        decreases n - pos,
    {
        let e = find_line_end(data, pos, n);
        let next = if e < n && data.get_char(e) == '\r' && e + 1 < n && data.get_char(e + 1)
            == '\n' {
            e + 2
        } else if e < n {
            e + 1
        } else {
            e
        };
        if e == pos {
            pos = next;
        } else {
            let (seed, endpoint) = match parse_line(data, pos, e) {
                Ok(v) => v,
                Err(_) => {
                    return Err(LoadError::Malformed);
                },
            };
            let ghost rec = (seed@, endpoint@);
            let ghost outv = pairs_view(out@);
            out.push((seed, endpoint));
            proof {
                assert(pairs_view(out@) =~= outv.push(rec));
                let pr = parse_records_from(s, next as int);
                if pr is Some {
                    let rest = pr->0;
                    assert(parse_records_from(s, pos as int) == Some(seq![rec] + rest));
                    assert(outv + (seq![rec] + rest) =~= pairs_view(out@) + rest);
                }
            }
            pos = next;
        }
    }
    proof {
        assert(parse_records_from(s, pos as int) == Some(Seq::<(Seq<char>, Seq<char>)>::empty()));
        assert(pairs_view(out@) + Seq::<(Seq<char>, Seq<char>)>::empty() =~= pairs_view(out@));
    }
    Ok(out)
}

/// Appends one field to `out`, quoting it when needed.
fn encode_field_into(out: &mut String, f: &str)
    ensures
        final(out)@ == old(out)@ + encode_field(f@),
{
    let n = f.unicode_len();
    let mut needs = false;
    let mut k: usize = 0;
    while k < n
        invariant
            n == f@.len(),
            0 <= k <= n,
            needs == needs_quoting(f@.take(k as int)),
        decreases n - k,
    {
        let c = f.get_char(k);
        if c == ',' || c == '"' || c == '\n' || c == '\r' {
            needs = true;
        }
        proof {
            assert(f@.take(k + 1).drop_last() =~= f@.take(k as int));
            if !needs_quoting(f@.take(k + 1)) {
                assert(!needs_quoting(f@.take(k as int))) by {
                    if needs_quoting(f@.take(k as int)) {
                        let i = choose|i: int|
                            0 <= i < f@.take(k as int).len() && ((f@.take(k as int)[i] == ',') || (
                            f@.take(k as int)[i] == '"') || (f@.take(k as int)[i] == '\n') || (
                            f@.take(k as int)[i] == '\r'));
                        assert(f@.take(k + 1)[i] == f@.take(k as int)[i]);
                    }
                };
            }
            if needs_quoting(f@.take(k as int)) {
                let i = choose|i: int|
                    0 <= i < f@.take(k as int).len() && ((f@.take(k as int)[i] == ',') || (f@.take(
                        k as int,
                    )[i] == '"') || (f@.take(k as int)[i] == '\n') || (f@.take(k as int)[i]
                        == '\r'));
                assert(f@.take(k + 1)[i] == f@.take(k as int)[i]);
            }
            assert(f@.take(k + 1).last() == f@[k as int]);
        }
        k = k + 1;
    }
    proof {
        assert(f@.take(n as int) =~= f@);
    }
    if !needs {
        out.append(f);
        return ;
    }
    crate::strutil::push_char(out, '"');
    let ghost mid = out@;
    let mut k: usize = 0;
    while k < n
        invariant
            n == f@.len(),
            0 <= k <= n,
            out@ == mid + escape_quotes(f@.take(k as int)),
        decreases n - k,
    {
        let c = f.get_char(k);
        if c == '"' {
            crate::strutil::push_char(out, '"');
            crate::strutil::push_char(out, '"');
        } else {
            crate::strutil::push_char(out, c);
        }
        proof {
            assert(f@.take(k + 1).drop_last() =~= f@.take(k as int));
            assert(f@.take(k + 1).last() == f@[k as int]);
            assert(out@ =~= mid + escape_quotes(f@.take(k + 1)));
        }
        k = k + 1;
    }
    crate::strutil::push_char(out, '"');
    proof {
        assert(f@.take(n as int) =~= f@);
        assert(out@ =~= old(out)@ + encode_field(f@));
    }
}

/// Appends one `seed,endpoint` record line to `out`.
pub(crate) fn encode_record_into(out: &mut String, seed: &str, endpoint: &str)
    ensures
        final(out)@ == old(out)@ + encode_record(seed@, endpoint@),
{
    encode_field_into(out, seed);
    crate::strutil::push_char(out, ',');
    encode_field_into(out, endpoint);
    crate::strutil::push_char(out, '\n');
    proof {
        assert(out@ =~= old(out)@ + encode_record(seed@, endpoint@));
    }
}

} // verus!
