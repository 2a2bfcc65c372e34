//! The GFF3 record model: one genomic feature, its nine fields, and the
//! meaning of the score and strand columns.

use vstd::prelude::*;

use crate::text::parse_u64;
use crate::text::push_char;
use crate::text::spec_parse_u64;
use crate::text::str_eq;

verus! {

/// Orientation of a feature on a double-stranded sequence.
#[derive(Clone, Copy, Debug, PartialEq, Eq, Structural)]
pub enum Strand {
    Forward,
    Reverse,
}

/// Why one line failed to decode.
#[derive(Clone, Copy, Debug, PartialEq, Eq, Structural)]
pub enum GffError {
    /// The line does not split into exactly nine tab-separated columns.
    MissingColumns,
    /// The start or end column is not a base-ten unsigned integer.
    BadCoordinate,
    /// An attribute segment is not a single `key=value` pair.
    BadAttributePair,
}

/// Mathematical image of a record: each column as the text or number it
/// carries, and the attribute pairs in their stored order.
#[verifier::ext_equal]
pub ghost struct RecordView {
    pub seqname: Seq<char>,
    pub source: Seq<char>,
    pub feature_type: Seq<char>,
    pub start: u64,
    pub end: u64,
    pub score: Seq<char>,
    pub strand: Seq<char>,
    pub frame: Seq<char>,
    pub attributes: Seq<(Seq<char>, Seq<char>)>,
}

/// One GFF3 feature line.
///
/// The start and end coordinates are numbers; the score, strand and
/// frame columns keep their raw text, so a record decoded from a line
/// can reproduce that line exactly.  The attribute pairs keep their
/// insertion order.
pub struct Record {
    pub seqname: String,
    pub source: String,
    pub feature_type: String,
    pub start: u64,
    pub end: u64,
    pub score: String,
    pub strand: String,
    pub frame: String,
    pub attributes: Vec<(String, String)>,
}

impl View for Record {
    type V = RecordView;

    open spec fn view(&self) -> RecordView {
        RecordView {
            seqname: self.seqname@,
            source: self.source@,
            feature_type: self.feature_type@,
            start: self.start,
            end: self.end,
            score: self.score@,
            strand: self.strand@,
            frame: self.frame@,
            attributes: self.attributes.deep_view(),
        }
    }
}

impl DeepView for Record {
    type V = RecordView;

    open spec fn deep_view(&self) -> RecordView {
        self.view()
    }
}

/// Meaning of the score column text: `"."` is no score; any other text
/// is read as a base-ten `u64`; text that is not such a number also
/// yields no score, so absence and malformedness are indistinguishable.
pub open spec fn spec_score(s: Seq<char>) -> Option<u64> {
    if s == seq!['.'] {
        None
    } else {
        spec_parse_u64(s)
    }
}

/// Meaning of the strand column text: `"+"` and `"-"` name the two
/// orientations; every other text leaves the strand unknown.
pub open spec fn spec_strand(s: Seq<char>) -> Option<Strand> {
    if s == seq!['+'] {
        Some(Strand::Forward)
    } else if s == seq!['-'] {
        Some(Strand::Reverse)
    } else {
        None
    }
}

/// Value stored for `key` among the attribute pairs, if any: the first
/// pair with that key decides.
pub open spec fn spec_lookup(attrs: Seq<(Seq<char>, Seq<char>)>, key: Seq<char>) -> Option<
    Seq<char>,
>
    decreases attrs.len(),
{
    if attrs.len() == 0 {
        None
    } else if attrs[0].0 == key {
        Some(attrs[0].1)
    } else {
        spec_lookup(attrs.skip(1), key)
    }
}

proof fn lemma_lookup_at(attrs: Seq<(Seq<char>, Seq<char>)>, key: Seq<char>, i: int)
    requires
        0 <= i < attrs.len(),
        attrs[i].0 == key,
        forall|j: int| 0 <= j < i ==> (#[trigger] attrs[j]).0 != key,
    ensures
        spec_lookup(attrs, key) == Some(attrs[i].1),
    decreases attrs.len(),
{
    if i > 0 {
        lemma_lookup_at(attrs.skip(1), key, i - 1);
    }
}

proof fn lemma_lookup_absent(attrs: Seq<(Seq<char>, Seq<char>)>, key: Seq<char>)
    requires
        forall|j: int| 0 <= j < attrs.len() ==> (#[trigger] attrs[j]).0 != key,
    ensures
        spec_lookup(attrs, key) is None,
    decreases attrs.len(),
{
    if attrs.len() > 0 {
        lemma_lookup_absent(attrs.skip(1), key);
    }
}

impl Record {
    /// A placeholder record: empty text fields, zero coordinates, the
    /// `"."` placeholder for score and strand, and no attributes.
    pub fn new() -> (r: Record)
        ensures
            r@ == (RecordView {
                seqname: Seq::<char>::empty(),
                source: Seq::<char>::empty(),
                feature_type: Seq::<char>::empty(),
                start: 0,
                end: 0,
                score: seq!['.'],
                strand: seq!['.'],
                frame: Seq::<char>::empty(),
                attributes: Seq::<(Seq<char>, Seq<char>)>::empty(),
            }),
    {
        let mut score = String::new();
        push_char(&mut score, '.');
        let mut strand = String::new();
        push_char(&mut strand, '.');
        let r = Record {
            seqname: String::new(),
            source: String::new(),
            feature_type: String::new(),
            start: 0,
            end: 0,
            score,
            strand,
            frame: String::new(),
            attributes: Vec::new(),
        };
        proof {
            assert(Seq::<char>::empty().push('.') =~= seq!['.']);
            assert(r.attributes.deep_view() =~~= Seq::<(Seq<char>, Seq<char>)>::empty());
        }
        r
    }

    /// Sequence name of the feature.
    pub fn seqname(&self) -> (r: &str)
        ensures
            r@ == self@.seqname,
    {
        self.seqname.as_str()
    }

    /// Source of the feature.
    pub fn source(&self) -> (r: &str)
        ensures
            r@ == self@.source,
    {
        self.source.as_str()
    }

    /// Type of the feature.
    pub fn feature_type(&self) -> (r: &str)
        ensures
            r@ == self@.feature_type,
    {
        self.feature_type.as_str()
    }

    /// Start position of the feature (1-based).
    pub fn start(&self) -> (r: &u64)
        ensures
            *r == self@.start,
    {
        &self.start
    }

    /// End position of the feature (1-based).
    pub fn end(&self) -> (r: &u64)
        ensures
            *r == self@.end,
    {
        &self.end
    }

    /// Score of the feature, read from the raw column text.
    ///
    /// This conversion is lossy: a `"."` placeholder and text that does
    /// not parse as a base-ten `u64` both come back as `None`.
    pub fn score(&self) -> (r: Option<u64>)
        ensures
            r == spec_score(self@.score),
    {
        let n = self.score.as_str().unicode_len();
        if n == 1 {
            let c = self.score.as_str().get_char(0);
            if c == '.' {
                proof {
                    assert(self@.score =~= seq!['.']);
                }
                return None;
            }
            proof {
                assert(self@.score != seq!['.']) by {
                    assert(seq!['.'][0] == '.');
                }
            }
            return parse_u64(self.score.as_str());
        }
        proof {
            assert(self@.score != seq!['.']) by {
                assert(seq!['.'].len() == 1);
            }
        }
        parse_u64(self.score.as_str())
    }

    /// Strand of the feature, read from the raw column text.
    pub fn strand(&self) -> (r: Option<Strand>)
        ensures
            r == spec_strand(self@.strand),
    {
        let n = self.strand.as_str().unicode_len();
        if n == 1 {
            let c = self.strand.as_str().get_char(0);
            proof {
                assert(seq!['+'][0] == '+');
                assert(seq!['-'][0] == '-');
            }
            if c == '+' {
                proof {
                    assert(self@.strand =~= seq!['+']);
                }
                return Some(Strand::Forward);
            }
            if c == '-' {
                proof {
                    assert(self@.strand =~= seq!['-']);
                }
                return Some(Strand::Reverse);
            }
            return None;
        }
        proof {
            assert(seq!['+'].len() == 1);
            assert(seq!['-'].len() == 1);
        }
        None
    }

    /// Frame of the feature, as raw text.
    pub fn frame(&self) -> (r: &str)
        ensures
            r@ == self@.frame,
    {
        self.frame.as_str()
    }

    /// The attribute pairs, in stored order.
    pub fn attributes(&self) -> (r: &Vec<(String, String)>)
        ensures
            r.deep_view() == self@.attributes,
    {
        &self.attributes
    }

    /// Value of the attribute named `key`, if the record carries it.
    pub fn attribute(&self, key: &str) -> (r: Option<&String>)
        ensures
            match r {
                Some(v) => spec_lookup(self@.attributes, key@) == Some(v@),
                None => spec_lookup(self@.attributes, key@) is None,
            },
    {
        let n = self.attributes.len();
        let mut i: usize = 0;
        while i < n
            invariant
                0 <= i <= n,
                n == self.attributes@.len(),
                forall|j: int|
                    0 <= j < i ==> (#[trigger] self.attributes.deep_view()[j]).0 != key@,
            decreases n - i,
        {
            if str_eq(self.attributes[i].0.as_str(), key) {
                proof {
                    lemma_lookup_at(self.attributes.deep_view(), key@, i as int);
                }
                return Some(&self.attributes[i].1);
            }
            i = i + 1;
        }
        proof {
            lemma_lookup_absent(self.attributes.deep_view(), key@);
        }
        None
    }

    /// Mutable access to the raw seqname text.
    pub fn seqname_mut(&mut self) -> (r: &mut String)
        ensures
            *r == old(self).seqname,
            *final(self) == (Record { seqname: *final(r), ..*old(self) }),
    {
        &mut self.seqname
    }

    /// Mutable access to the raw source text.
    pub fn source_mut(&mut self) -> (r: &mut String)
        ensures
            *r == old(self).source,
            *final(self) == (Record { source: *final(r), ..*old(self) }),
    {
        &mut self.source
    }

    /// Mutable access to the raw feature-type text.
    pub fn feature_type_mut(&mut self) -> (r: &mut String)
        ensures
            *r == old(self).feature_type,
            *final(self) == (Record { feature_type: *final(r), ..*old(self) }),
    {
        &mut self.feature_type
    }

    /// Mutable access to the start coordinate.
    pub fn start_mut(&mut self) -> (r: &mut u64)
        ensures
            *r == old(self).start,
            *final(self) == (Record { start: *final(r), ..*old(self) }),
    {
        &mut self.start
    }

    /// Mutable access to the end coordinate.
    pub fn end_mut(&mut self) -> (r: &mut u64)
        ensures
            *r == old(self).end,
            *final(self) == (Record { end: *final(r), ..*old(self) }),
    {
        &mut self.end
    }

    /// Mutable access to the raw score text: write `"."` for no score,
    /// or the decimal digits of a number.
    pub fn score_mut(&mut self) -> (r: &mut String)
        ensures
            *r == old(self).score,
            *final(self) == (Record { score: *final(r), ..*old(self) }),
    {
        &mut self.score
    }

    /// Mutable access to the raw strand text: write `"+"`, `"-"` or `"."`.
    pub fn strand_mut(&mut self) -> (r: &mut String)
        ensures
            *r == old(self).strand,
            *final(self) == (Record { strand: *final(r), ..*old(self) }),
    {
        &mut self.strand
    }

    /// Mutable access to the attribute pairs.
    pub fn attributes_mut(&mut self) -> (r: &mut Vec<(String, String)>)
        ensures
            *r == old(self).attributes,
            *final(self) == (Record { attributes: *final(r), ..*old(self) }),
    {
        &mut self.attributes
    }
}

} // verus!
