//! The GFF3 line codec: the exact correspondence between one raw line
//! of text and one [`Record`], in both directions, and its round-trip
//! law.

use vstd::prelude::*;

use crate::record::GffError;
use crate::record::Record;
use crate::record::RecordView;
use crate::text::dec_string;
use crate::text::free_of;
use crate::text::join_strs;
use crate::text::lemma_parse_dec_string;
use crate::text::lemma_split_len;
use crate::text::lemma_split_no_sep;
use crate::text::lemma_split_of_join;
use crate::text::lemma_split_sep_prefix;
use crate::text::parse_u64;
use crate::text::push_char;
use crate::text::spec_join;
use crate::text::spec_parse_u64;
use crate::text::spec_split;
use crate::text::split_str;
use crate::text::str_eq;
use crate::text::u64_to_string;

verus! {

/// Insert one pair into an attribute list: the first pair with the same
/// key is replaced in place, a new key is appended at the end.
pub open spec fn spec_insert_attr(
    attrs: Seq<(Seq<char>, Seq<char>)>,
    k: Seq<char>,
    v: Seq<char>,
) -> Seq<(Seq<char>, Seq<char>)>
    decreases attrs.len(),
{
    if attrs.len() == 0 {
        seq![(k, v)]
    } else if attrs[0].0 == k {
        seq![(k, v)] + attrs.skip(1)
    } else {
        seq![attrs[0]] + spec_insert_attr(attrs.skip(1), k, v)
    }
}

/// The `key=value` pair one attribute segment denotes: the segment must
/// hold exactly one `=`.
pub open spec fn spec_pair_of_segment(seg: Seq<char>) -> Option<(Seq<char>, Seq<char>)> {
    let parts = spec_split(seg, '=');
    if parts.len() == 2 {
        Some((parts[0], parts[1]))
    } else {
        None
    }
}

/// Attribute pairs denoted by a list of segments, folded left onto
/// `acc` with in-place replacement of a repeated key.
pub open spec fn spec_attrs_fold(
    segs: Seq<Seq<char>>,
    acc: Seq<(Seq<char>, Seq<char>)>,
) -> Option<Seq<(Seq<char>, Seq<char>)>>
    decreases segs.len(),
{
    if segs.len() == 0 {
        Some(acc)
    } else {
        match spec_pair_of_segment(segs[0]) {
            Some(p) => spec_attrs_fold(segs.skip(1), spec_insert_attr(acc, p.0, p.1)),
            None => None,
        }
    }
}

/// Attribute pairs denoted by the ninth column: the empty column is the
/// empty mapping; otherwise every `;`-separated segment must be a
/// single `key=value` pair.
pub open spec fn spec_parse_attributes(s: Seq<char>) -> Option<Seq<(Seq<char>, Seq<char>)>> {
    if s.len() == 0 {
        Some(Seq::<(Seq<char>, Seq<char>)>::empty())
    } else {
        spec_attrs_fold(spec_split(s, ';'), Seq::<(Seq<char>, Seq<char>)>::empty())
    }
}

/// Ninth-column text of one attribute pair.
pub open spec fn spec_segment_of_pair(p: (Seq<char>, Seq<char>)) -> Seq<char> {
    p.0 + seq!['='] + p.1
}

/// Ninth-column text of an attribute list: `key=value` segments joined
/// with `;`, the empty list giving the empty column.
pub open spec fn spec_encode_attributes(attrs: Seq<(Seq<char>, Seq<char>)>) -> Seq<char> {
    if attrs.len() == 0 {
        Seq::<char>::empty()
    } else {
        spec_join(attrs.map_values(|p: (Seq<char>, Seq<char>)| spec_segment_of_pair(p)), ';')
    }
}

proof fn lemma_insert_attr_at(
    attrs: Seq<(Seq<char>, Seq<char>)>,
    k: Seq<char>,
    v: Seq<char>,
    i: int,
)
    requires
        0 <= i < attrs.len(),
        attrs[i].0 == k,
        forall|j: int| 0 <= j < i ==> (#[trigger] attrs[j]).0 != k,
    ensures
        spec_insert_attr(attrs, k, v) == attrs.update(i, (k, v)),
    decreases attrs.len(),
{
    if i == 0 {
        assert(spec_insert_attr(attrs, k, v) =~~= attrs.update(0, (k, v)));
    } else {
        lemma_insert_attr_at(attrs.skip(1), k, v, i - 1);
        assert(attrs.skip(1).update(i - 1, (k, v)) =~~= attrs.update(i, (k, v)).skip(1));
        assert(spec_insert_attr(attrs, k, v) =~~= attrs.update(i, (k, v)));
    }
}

proof fn lemma_insert_attr_absent(attrs: Seq<(Seq<char>, Seq<char>)>, k: Seq<char>, v: Seq<char>)
    requires
        forall|j: int| 0 <= j < attrs.len() ==> (#[trigger] attrs[j]).0 != k,
    ensures
        spec_insert_attr(attrs, k, v) == attrs.push((k, v)),
    decreases attrs.len(),
{
    if attrs.len() == 0 {
        assert(spec_insert_attr(attrs, k, v) =~~= attrs.push((k, v)));
    } else {
        lemma_insert_attr_absent(attrs.skip(1), k, v);
        assert(spec_insert_attr(attrs, k, v) =~~= attrs.push((k, v)));
    }
}

/// Insert one pair into the attribute list, replacing the value of an
/// existing key in place and appending a new key at the end.
fn insert_attr(attrs: &mut Vec<(String, String)>, k: String, v: String)
    ensures
        final(attrs).deep_view() == spec_insert_attr(old(attrs).deep_view(), k@, v@),
{
    let n = attrs.len();
    let mut i: usize = 0;
    while i < n
        invariant
            0 <= i <= n,
            n == attrs@.len(),
            *attrs == *old(attrs),
            forall|j: int| 0 <= j < i ==> (#[trigger] attrs.deep_view()[j]).0 != k@,
        decreases n - i,
    {
        proof {
            assert(attrs.deep_view()[i as int] == (attrs@[i as int].0@, attrs@[i as int].1@));
        }
        if str_eq(attrs[i].0.as_str(), k.as_str()) {
            proof {
                lemma_insert_attr_at(attrs.deep_view(), k@, v@, i as int);
            }
            let ghost before = attrs.deep_view();
            attrs[i] = (k, v);
            proof {
                assert(attrs.deep_view() =~~= before.update(i as int, (k@, v@)));
            }
            return;
        }
        i = i + 1;
    }
    proof {
        lemma_insert_attr_absent(attrs.deep_view(), k@, v@);
    }
    let ghost before = attrs.deep_view();
    attrs.push((k, v));
    proof {
        assert(attrs.deep_view() =~~= before.push((k@, v@)));
    }
}

/// Decode the ninth column into its attribute pairs.
///
/// The empty column is the empty mapping.  Otherwise the column is
/// split on `;`, and each segment must hold exactly one `=`; a repeated
/// key keeps its first position with the later value.
pub fn parse_attributes(s: &str) -> (r: Result<Vec<(String, String)>, GffError>)
    ensures
        (match r {
            Ok(attrs) => spec_parse_attributes(s@) == Some(attrs.deep_view()),
            Err(e) => spec_parse_attributes(s@) is None && e == GffError::BadAttributePair,
        }),
{
    let mut attrs: Vec<(String, String)> = Vec::new();
    proof {
        assert(attrs.deep_view() =~~= Seq::<(Seq<char>, Seq<char>)>::empty());
    }
    if s.unicode_len() == 0 {
        return Ok(attrs);
    }
    let segs = split_str(s, ';');
    let n = segs.len();
    let ghost all_segs = segs.deep_view();
    proof {
        assert(all_segs.skip(0) =~~= all_segs);
    }
    let mut i: usize = 0;
    while i < n
        invariant
            0 <= i <= n,
            n == segs@.len(),
            all_segs == segs.deep_view(),
            all_segs.len() == n,
            s@.len() != 0,
            all_segs == spec_split(s@, ';'),
            spec_attrs_fold(all_segs, Seq::<(Seq<char>, Seq<char>)>::empty()) == spec_attrs_fold(
                all_segs.skip(i as int),
                attrs.deep_view(),
            ),
        decreases n - i,
    {
        let mut parts = split_str(segs[i].as_str(), '=');
        proof {
            assert(all_segs[i as int] == segs@[i as int]@);
            assert(all_segs.skip(i as int)[0] == all_segs[i as int]);
            assert(all_segs.skip(i as int).skip(1) =~~= all_segs.skip(i + 1));
            assert(parts.deep_view().len() == parts@.len());
        }
        if parts.len() != 2 {
            proof {
                assert(spec_pair_of_segment(all_segs[i as int]) is None);
                assert(spec_attrs_fold(all_segs.skip(i as int), attrs.deep_view()) is None);
                assert(spec_attrs_fold(all_segs, Seq::<(Seq<char>, Seq<char>)>::empty()) is None);
                assert(s@.len() != 0);
                assert(spec_parse_attributes(s@) is None);
            }
            return Err(GffError::BadAttributePair);
        }
        let ghost acc0 = attrs.deep_view();
        let v = match parts.pop() {
            Some(p) => p,
            None => {
                return Err(GffError::BadAttributePair);
            },
        };
        let k = match parts.pop() {
            Some(p) => p,
            None => {
                return Err(GffError::BadAttributePair);
            },
        };
        proof {
            assert(k@ == spec_split(all_segs[i as int], '=')[0]);
            assert(v@ == spec_split(all_segs[i as int], '=')[1]);
            assert(spec_pair_of_segment(all_segs[i as int]) == Some((k@, v@)));
        }
        insert_attr(&mut attrs, k, v);
        proof {
            assert(attrs.deep_view() == spec_insert_attr(acc0, k@, v@));
            assert(spec_attrs_fold(all_segs.skip(i as int), acc0) == spec_attrs_fold(
                all_segs.skip(i + 1),
                attrs.deep_view(),
            ));
        }
        i = i + 1;
    }
    proof {
        assert(all_segs.skip(n as int) =~~= Seq::<Seq<char>>::empty());
    }
    Ok(attrs)
}

/// Encode attribute pairs into the ninth-column text.
pub fn encode_attributes(attrs: &Vec<(String, String)>) -> (r: String)
    ensures
        r@ == spec_encode_attributes(attrs.deep_view()),
{
    if attrs.is_empty() {
        return String::new();
    }
    let n = attrs.len();
    let mut segs: Vec<String> = Vec::new();
    let mut i: usize = 0;
    while i < n
        invariant
            0 <= i <= n,
            n == attrs@.len(),
            segs.deep_view() =~~= attrs.deep_view().take(i as int).map_values(
                |p: (Seq<char>, Seq<char>)| spec_segment_of_pair(p),
            ),
        decreases n - i,
    {
        let mut seg = attrs[i].0.clone();
        push_char(&mut seg, '=');
        seg.append(attrs[i].1.as_str());
        proof {
            assert(seg@ =~= spec_segment_of_pair(attrs.deep_view()[i as int]));
        }
        let ghost before = segs.deep_view();
        segs.push(seg);
        proof {
            assert(segs.deep_view() =~~= before.push(seg@));
            assert(segs.deep_view() =~~= attrs.deep_view().take(i + 1).map_values(
                |p: (Seq<char>, Seq<char>)| spec_segment_of_pair(p),
            ));
        }
        i = i + 1;
    }
    proof {
        assert(attrs.deep_view().take(n as int) =~~= attrs.deep_view());
    }
    join_strs(&segs, ';')
}

/// The nine column texts a record is written as, in on-disk order.
pub open spec fn spec_columns(v: RecordView) -> Seq<Seq<char>> {
    seq![
        v.seqname,
        v.source,
        v.feature_type,
        dec_string(v.start as nat),
        dec_string(v.end as nat),
        v.score,
        v.strand,
        v.frame,
        spec_encode_attributes(v.attributes),
    ]
}

/// The exact line a record is written as: its nine columns joined by
/// tabs, coordinates in canonical base ten, score and strand as their
/// raw stored text.
pub open spec fn spec_encode_line(v: RecordView) -> Seq<char> {
    spec_join(spec_columns(v), '\t')
}

/// The record a raw line denotes, or the error that rejects the line:
/// not exactly nine tab-separated columns, a start or end column that
/// is no base-ten `u64`, or a malformed attributes column.
pub open spec fn spec_decode_line(line: Seq<char>) -> Result<RecordView, GffError> {
    let cols = spec_split(line, '\t');
    if cols.len() != 9 {
        Err(GffError::MissingColumns)
    } else if spec_parse_u64(cols[3]) is None || spec_parse_u64(cols[4]) is None {
        Err(GffError::BadCoordinate)
    } else if spec_parse_attributes(cols[8]) is None {
        Err(GffError::BadAttributePair)
    } else {
        Ok(RecordView {
            seqname: cols[0],
            source: cols[1],
            feature_type: cols[2],
            start: spec_parse_u64(cols[3]).unwrap(),
            end: spec_parse_u64(cols[4]).unwrap(),
            score: cols[5],
            strand: cols[6],
            frame: cols[7],
            attributes: spec_parse_attributes(cols[8]).unwrap(),
        })
    }
}

/// Decode one raw GFF3 line into a record.
///
/// The line must split on tabs into exactly nine columns, the start and
/// end columns must be base-ten `u64` numbers, and the attributes
/// column must decode; each failure is its own error, and the line is
/// otherwise taken as it stands.
pub fn decode_line(line: &str) -> (r: Result<Record, GffError>)
    ensures
        (match r {
            Ok(rec) => spec_decode_line(line@) == Ok::<RecordView, GffError>(rec@),
            Err(e) => spec_decode_line(line@) == Err::<RecordView, GffError>(e),
        }),
{
    let cols = split_str(line, '\t');
    proof {
        assert(cols.deep_view().len() == cols@.len());
    }
    if cols.len() != 9 {
        return Err(GffError::MissingColumns);
    }
    proof {
        assert(forall|j: int|
            0 <= j < 9 ==> #[trigger] cols.deep_view()[j] == cols@[j]@);
    }
    let start = match parse_u64(cols[3].as_str()) {
        Some(v) => v,
        None => {
            return Err(GffError::BadCoordinate);
        },
    };
    let end = match parse_u64(cols[4].as_str()) {
        Some(v) => v,
        None => {
            return Err(GffError::BadCoordinate);
        },
    };
    let attributes = match parse_attributes(cols[8].as_str()) {
        Ok(a) => a,
        Err(e) => {
            return Err(e);
        },
    };
    let rec = Record {
        seqname: cols[0].clone(),
        source: cols[1].clone(),
        feature_type: cols[2].clone(),
        start,
        end,
        score: cols[5].clone(),
        strand: cols[6].clone(),
        frame: cols[7].clone(),
        attributes,
    };
    proof {
        assert(rec@.seqname == spec_split(line@, '\t')[0]);
        assert(rec@.attributes == spec_parse_attributes(spec_split(line@, '\t')[8]).unwrap());
        assert(spec_decode_line(line@) == Ok::<RecordView, GffError>(rec@));
    }
    Ok(rec)
}

/// Encode a record into the exact nine-column tab-separated line the
/// format prescribes for it.
pub fn encode_line(rec: &Record) -> (r: String)
    ensures
        r@ == spec_encode_line(rec@),
{
    let mut cols: Vec<String> = Vec::new();
    cols.push(rec.seqname.clone());
    cols.push(rec.source.clone());
    cols.push(rec.feature_type.clone());
    cols.push(u64_to_string(rec.start));
    cols.push(u64_to_string(rec.end));
    cols.push(rec.score.clone());
    cols.push(rec.strand.clone());
    cols.push(rec.frame.clone());
    cols.push(encode_attributes(&rec.attributes));
    proof {
        assert(cols.deep_view() =~~= spec_columns(rec@));
    }
    join_strs(&cols, '\t')
}

/// The individual lines of a stream: the text between newlines, with a
/// trailing newline after the last line allowed and not required.
pub open spec fn spec_lines(s: Seq<char>) -> Seq<Seq<char>> {
    let parts = spec_split(s, '\n');
    if parts.last() == Seq::<char>::empty() {
        parts.drop_last()
    } else {
        parts
    }
}

/// Decode every line of a stream, one result per line, in input order.
pub fn decode_lines(input: &str) -> (r: Vec<Result<Record, GffError>>)
    ensures
        r@.len() == spec_lines(input@).len(),
        forall|i: int|
            0 <= i < r@.len() ==> (match #[trigger] r@[i] {
                Ok(rec) => spec_decode_line(spec_lines(input@)[i]) == Ok::<
                    RecordView,
                    GffError,
                >(rec@),
                Err(e) => spec_decode_line(spec_lines(input@)[i]) == Err::<
                    RecordView,
                    GffError,
                >(e),
            }),
{
    let mut lines = split_str(input, '\n');
    proof {
        lemma_split_len(input@, '\n');
        assert(lines.deep_view().len() == lines@.len());
        assert(lines@.len() >= 1);
    }
    let m = lines.len();
    if lines[m - 1].as_str().unicode_len() == 0 {
        proof {
            assert(lines.deep_view().last() =~= Seq::<char>::empty());
        }
        let ghost before = lines.deep_view();
        let _ = lines.pop();
        proof {
            assert(lines.deep_view() =~~= before.drop_last());
            assert(lines.deep_view() == spec_lines(input@));
        }
    } else {
        proof {
            assert(lines.deep_view().last() != Seq::<char>::empty());
            assert(lines.deep_view() == spec_lines(input@));
        }
    }
    let mut out: Vec<Result<Record, GffError>> = Vec::new();
    let n = lines.len();
    let mut i: usize = 0;
    while i < n
        invariant
            0 <= i <= n,
            n == lines@.len(),
            lines.deep_view().len() == n,
            lines.deep_view() == spec_lines(input@),
            out@.len() == i,
            forall|j: int|
                0 <= j < i ==> (match #[trigger] out@[j] {
                    Ok(rec) => spec_decode_line(spec_lines(input@)[j]) == Ok::<
                        RecordView,
                        GffError,
                    >(rec@),
                    Err(e) => spec_decode_line(spec_lines(input@)[j]) == Err::<
                        RecordView,
                        GffError,
                    >(e),
                }),
        decreases n - i,
    {
        proof {
            assert(lines.deep_view()[i as int] == lines@[i as int]@);
        }
        let res = decode_line(lines[i].as_str());
        out.push(res);
        i = i + 1;
    }
    out
}

/// Attribute texts that survive a round trip: free of the tab that
/// separates columns and of the `;` and `=` that separate pairs.
pub open spec fn attr_pair_writable(p: (Seq<char>, Seq<char>)) -> bool {
    &&& free_of(p.0, '\t')
    &&& free_of(p.0, ';')
    &&& free_of(p.0, '=')
    &&& free_of(p.1, '\t')
    &&& free_of(p.1, ';')
    &&& free_of(p.1, '=')
}

/// A record whose written line decodes back to it: no column text
/// carries a tab, every attribute text is free of the three separators,
/// and no attribute key repeats.
pub open spec fn spec_round_trippable(v: RecordView) -> bool {
    &&& free_of(v.seqname, '\t')
    &&& free_of(v.source, '\t')
    &&& free_of(v.feature_type, '\t')
    &&& free_of(v.score, '\t')
    &&& free_of(v.strand, '\t')
    &&& free_of(v.frame, '\t')
    &&& (forall|i: int|
        0 <= i < v.attributes.len() ==> attr_pair_writable(#[trigger] v.attributes[i]))
    &&& (forall|i: int, j: int|
        0 <= i < j < v.attributes.len() ==> v.attributes[i].0 != v.attributes[j].0)
}

proof fn lemma_join_free(parts: Seq<Seq<char>>, sep: char, c: char)
    requires
        c != sep,
        forall|i: int| 0 <= i < parts.len() ==> free_of(#[trigger] parts[i], c),
    ensures
        free_of(spec_join(parts, sep), c),
    decreases parts.len(),
{
    if parts.len() > 1 {
        assert(forall|i: int|
            0 <= i < parts.skip(1).len() ==> free_of(#[trigger] parts.skip(1)[i], c));
        lemma_join_free(parts.skip(1), sep, c);
    }
}

proof fn lemma_segment_of_pair_props(p: (Seq<char>, Seq<char>))
    requires
        attr_pair_writable(p),
    ensures
        free_of(spec_segment_of_pair(p), ';'),
        free_of(spec_segment_of_pair(p), '\t'),
        spec_segment_of_pair(p).len() >= 1,
        spec_pair_of_segment(spec_segment_of_pair(p)) == Some(p),
{
    let seg = spec_segment_of_pair(p);
    lemma_split_sep_prefix(p.0, p.1, '=');
    lemma_split_no_sep(p.1, '=');
    assert(spec_split(seg, '=') == seq![p.0] + seq![p.1]);
    assert(seq![p.0] + seq![p.1] =~= seq![p.0, p.1]);
    assert(spec_split(seg, '=').len() == 2);
    assert(spec_split(seg, '=')[0] == p.0);
    assert(spec_split(seg, '=')[1] == p.1);
    assert((p.0, p.1) == p);
}

proof fn lemma_fold_restore(attrs: Seq<(Seq<char>, Seq<char>)>, acc: Seq<(Seq<char>, Seq<char>)>)
    requires
        forall|i: int| 0 <= i < attrs.len() ==> attr_pair_writable(#[trigger] attrs[i]),
        forall|i: int, j: int| 0 <= i < j < attrs.len() ==> attrs[i].0 != attrs[j].0,
        forall|i: int, j: int|
            0 <= i < attrs.len() && 0 <= j < acc.len() ==> (#[trigger] acc[j]).0 != (
            #[trigger] attrs[i]).0,
    ensures
        spec_attrs_fold(
            attrs.map_values(|p: (Seq<char>, Seq<char>)| spec_segment_of_pair(p)),
            acc,
        ) == Some(acc + attrs),
    decreases attrs.len(),
{
    let segs = attrs.map_values(|p: (Seq<char>, Seq<char>)| spec_segment_of_pair(p));
    if attrs.len() == 0 {
        assert(acc + attrs =~~= acc);
    } else {
        let p0 = attrs[0];
        assert(segs[0] == spec_segment_of_pair(p0));
        lemma_segment_of_pair_props(p0);
        assert(forall|j: int| 0 <= j < acc.len() ==> (#[trigger] acc[j]).0 != p0.0);
        lemma_insert_attr_absent(acc, p0.0, p0.1);
        assert(spec_insert_attr(acc, p0.0, p0.1) == acc.push((p0.0, p0.1)));
        assert((p0.0, p0.1) == p0);
        assert(segs.skip(1) =~~= attrs.skip(1).map_values(
            |p: (Seq<char>, Seq<char>)| spec_segment_of_pair(p),
        ));
        assert(forall|i: int|
            0 <= i < attrs.skip(1).len() ==> attr_pair_writable(#[trigger] attrs.skip(1)[i]));
        assert(forall|i: int, j: int|
            0 <= i < j < attrs.skip(1).len() ==> attrs.skip(1)[i].0 != attrs.skip(1)[j].0);
        assert(forall|i: int, j: int|
            0 <= i < attrs.skip(1).len() && 0 <= j < acc.push(p0).len() ==> (#[trigger] acc.push(
                p0,
            )[j]).0 != (#[trigger] attrs.skip(1)[i]).0);
        lemma_fold_restore(attrs.skip(1), acc.push(p0));
        assert(acc.push(p0) + attrs.skip(1) =~~= acc + attrs);
    }
}

proof fn lemma_parse_encode_attributes(attrs: Seq<(Seq<char>, Seq<char>)>)
    requires
        forall|i: int| 0 <= i < attrs.len() ==> attr_pair_writable(#[trigger] attrs[i]),
        forall|i: int, j: int| 0 <= i < j < attrs.len() ==> attrs[i].0 != attrs[j].0,
    ensures
        spec_parse_attributes(spec_encode_attributes(attrs)) == Some(attrs),
        free_of(spec_encode_attributes(attrs), '\t'),
{
    let enc = spec_encode_attributes(attrs);
    if attrs.len() == 0 {
        assert(attrs =~~= Seq::<(Seq<char>, Seq<char>)>::empty());
    } else {
        let segs = attrs.map_values(|p: (Seq<char>, Seq<char>)| spec_segment_of_pair(p));
        assert forall|i: int| 0 <= i < segs.len() implies free_of(#[trigger] segs[i], ';')
            && free_of(segs[i], '\t') && segs[i].len() >= 1 by {
            lemma_segment_of_pair_props(attrs[i]);
        }
        lemma_join_free(segs, ';', '\t');
        if segs.len() == 1 {
            assert(enc == segs[0]);
            assert(enc.len() >= 1);
        } else {
            assert(enc == segs[0] + seq![';'] + spec_join(segs.skip(1), ';'));
            assert(enc.len() >= 1);
        }
        lemma_split_of_join(segs, ';');
        lemma_fold_restore(attrs, Seq::<(Seq<char>, Seq<char>)>::empty());
        assert(Seq::<(Seq<char>, Seq<char>)>::empty() + attrs =~~= attrs);
    }
}

/// Round trip: decoding the exact line written for a well-formed record
/// restores every one of its nine fields.
///
/// Well-formed means the record's texts cannot collide with the
/// format's separators: see [`spec_round_trippable`].  The score and
/// strand columns travel as their raw stored text, so they come back
/// unchanged whether or not they denote a number or an orientation.
pub proof fn lemma_round_trip(v: RecordView)
    requires
        spec_round_trippable(v),
    ensures
        spec_decode_line(spec_encode_line(v)) == Ok::<RecordView, GffError>(v),
{
    let cols = spec_columns(v);
    assert(cols.len() == 9);
    crate::text::lemma_dec_string_value(v.start as nat);
    crate::text::lemma_dec_string_value(v.end as nat);
    assert(free_of(dec_string(v.start as nat), '\t')) by {
        assert(forall|i: int|
            0 <= i < dec_string(v.start as nat).len() ==> crate::text::is_dec_digit(
                #[trigger] dec_string(v.start as nat)[i],
            ));
    }
    assert(free_of(dec_string(v.end as nat), '\t')) by {
        assert(forall|i: int|
            0 <= i < dec_string(v.end as nat).len() ==> crate::text::is_dec_digit(
                #[trigger] dec_string(v.end as nat)[i],
            ));
    }
    lemma_parse_encode_attributes(v.attributes);
    assert(forall|i: int| 0 <= i < cols.len() ==> free_of(#[trigger] cols[i], '\t'));
    lemma_split_of_join(cols, '\t');
    let line = spec_encode_line(v);
    assert(spec_split(line, '\t') == cols);
    lemma_parse_dec_string(v.start);
    lemma_parse_dec_string(v.end);
    assert(spec_parse_u64(cols[3]) == Some(v.start));
    assert(spec_parse_u64(cols[4]) == Some(v.end));
    assert(spec_parse_attributes(cols[8]) == Some(v.attributes));
    let decoded = spec_decode_line(line);
    assert(decoded is Ok);
    assert(decoded.unwrap() =~~= v);
}

/// A record whose written line also stays on one line of a stream:
/// round-trippable, and no text of it carries a newline.
pub open spec fn spec_stream_writable(v: RecordView) -> bool {
    &&& spec_round_trippable(v)
    &&& free_of(v.seqname, '\n')
    &&& free_of(v.source, '\n')
    &&& free_of(v.feature_type, '\n')
    &&& free_of(v.score, '\n')
    &&& free_of(v.strand, '\n')
    &&& free_of(v.frame, '\n')
    &&& (forall|i: int|
        0 <= i < v.attributes.len() ==> free_of((#[trigger] v.attributes[i]).0, '\n') && free_of(
            v.attributes[i].1,
            '\n',
        ))
}

/// The exact text the writer emits for a sequence of records: each
/// record's line followed by a newline.
pub open spec fn spec_encode_stream(vs: Seq<RecordView>) -> Seq<char>
    decreases vs.len(),
{
    if vs.len() == 0 {
        Seq::<char>::empty()
    } else {
        spec_encode_line(vs[0]) + seq!['\n'] + spec_encode_stream(vs.skip(1))
    }
}

proof fn lemma_encode_stream_push(vs: Seq<RecordView>, v: RecordView)
    ensures
        spec_encode_stream(vs.push(v)) == spec_encode_stream(vs) + spec_encode_line(v) + seq![
            '\n',
        ],
    decreases vs.len(),
{
    if vs.len() == 0 {
        assert(vs.push(v)[0] == v);
        assert(vs.push(v).skip(1) =~~= Seq::<RecordView>::empty());
        assert(spec_encode_stream(Seq::<RecordView>::empty()) == Seq::<char>::empty());
        assert(spec_encode_stream(vs.push(v)) =~= spec_encode_stream(vs) + spec_encode_line(v)
            + seq!['\n']);
    } else {
        lemma_encode_stream_push(vs.skip(1), v);
        assert(vs.push(v).skip(1) =~~= vs.skip(1).push(v));
        assert(vs.push(v)[0] == vs[0]);
        assert(spec_encode_stream(vs.push(v)) =~= spec_encode_stream(vs) + spec_encode_line(v)
            + seq!['\n']);
    }
}

proof fn lemma_encode_line_newline_free(v: RecordView)
    requires
        spec_stream_writable(v),
    ensures
        free_of(spec_encode_line(v), '\n'),
{
    let cols = spec_columns(v);
    crate::text::lemma_dec_string_value(v.start as nat);
    crate::text::lemma_dec_string_value(v.end as nat);
    assert(free_of(dec_string(v.start as nat), '\n')) by {
        assert(forall|i: int|
            0 <= i < dec_string(v.start as nat).len() ==> crate::text::is_dec_digit(
                #[trigger] dec_string(v.start as nat)[i],
            ));
    }
    assert(free_of(dec_string(v.end as nat), '\n')) by {
        assert(forall|i: int|
            0 <= i < dec_string(v.end as nat).len() ==> crate::text::is_dec_digit(
                #[trigger] dec_string(v.end as nat)[i],
            ));
    }
    assert(free_of(spec_encode_attributes(v.attributes), '\n')) by {
        if v.attributes.len() > 0 {
            let segs = v.attributes.map_values(
                |p: (Seq<char>, Seq<char>)| spec_segment_of_pair(p),
            );
            assert(forall|i: int| 0 <= i < segs.len() ==> free_of(#[trigger] segs[i], '\n'));
            lemma_join_free(segs, ';', '\n');
        }
    }
    assert(forall|i: int| 0 <= i < cols.len() ==> free_of(#[trigger] cols[i], '\n'));
    lemma_join_free(cols, '\t', '\n');
}

/// Stream round trip: the text written for a sequence of well-formed
/// records has exactly one line per record, and each line decodes back
/// to its record, in order.
pub proof fn lemma_stream_round_trip(vs: Seq<RecordView>)
    requires
        forall|i: int| 0 <= i < vs.len() ==> spec_stream_writable(#[trigger] vs[i]),
    ensures
        spec_lines(spec_encode_stream(vs)).len() == vs.len(),
        forall|i: int|
            0 <= i < vs.len() ==> spec_decode_line(spec_lines(spec_encode_stream(vs))[i]) == Ok::<
                RecordView,
                GffError,
            >(vs[i]),
{
    let stream = spec_encode_stream(vs);
    lemma_stream_split(vs);
    let parts = spec_split(stream, '\n');
    assert(parts.last() == Seq::<char>::empty());
    assert(spec_lines(stream) =~~= vs.map_values(|v: RecordView| spec_encode_line(v)));
    assert forall|i: int| 0 <= i < vs.len() implies spec_decode_line(
        spec_lines(stream)[i],
    ) == Ok::<RecordView, GffError>(vs[i]) by {
        lemma_round_trip(vs[i]);
    }
}

proof fn lemma_stream_split(vs: Seq<RecordView>)
    requires
        forall|i: int| 0 <= i < vs.len() ==> spec_stream_writable(#[trigger] vs[i]),
    ensures
        spec_split(spec_encode_stream(vs), '\n') == vs.map_values(
            |v: RecordView| spec_encode_line(v),
        ).push(Seq::<char>::empty()),
    decreases vs.len(),
{
    let stream = spec_encode_stream(vs);
    if vs.len() == 0 {
        assert(stream =~= Seq::<char>::empty());
        assert(spec_split(stream, '\n') =~~= vs.map_values(
            |v: RecordView| spec_encode_line(v),
        ).push(Seq::<char>::empty()));
    } else {
        assert(forall|i: int|
            0 <= i < vs.skip(1).len() ==> spec_stream_writable(#[trigger] vs.skip(1)[i]));
        lemma_stream_split(vs.skip(1));
        lemma_encode_line_newline_free(vs[0]);
        assert(stream =~= spec_encode_line(vs[0]) + seq!['\n'] + spec_encode_stream(vs.skip(1)));
        lemma_split_sep_prefix(spec_encode_line(vs[0]), spec_encode_stream(vs.skip(1)), '\n');
        assert(vs.skip(1).map_values(|v: RecordView| spec_encode_line(v)) =~~= vs.map_values(
            |v: RecordView| spec_encode_line(v),
        ).skip(1));
        assert(spec_split(stream, '\n') =~~= vs.map_values(
            |v: RecordView| spec_encode_line(v),
        ).push(Seq::<char>::empty()));
    }
}

/// Encode records exactly as a writer emits them: each record's line
/// followed by a newline.
pub fn encode_lines(records: &Vec<Record>) -> (r: String)
    ensures
        r@ == spec_encode_stream(records.deep_view()),
{
    let mut r = String::new();
    let n = records.len();
    let mut i: usize = 0;
    while i < n
        invariant
            0 <= i <= n,
            n == records@.len(),
            records.deep_view().len() == n,
            r@ == spec_encode_stream(records.deep_view().take(i as int)),
        decreases n - i,
    {
        let line = encode_line(&records[i]);
        r.append(line.as_str());
        push_char(&mut r, '\n');
        proof {
            assert(records.deep_view()[i as int] == records@[i as int]@);
            lemma_encode_stream_push(
                records.deep_view().take(i as int),
                records.deep_view()[i as int],
            );
            assert(records.deep_view().take(i as int).push(records.deep_view()[i as int])
                =~~= records.deep_view().take(i + 1));
            assert(r@ =~= spec_encode_stream(records.deep_view().take(i + 1)));
        }
        i = i + 1;
    }
    proof {
        assert(records.deep_view().take(n as int) =~~= records.deep_view());
    }
    r
}

} // verus!
