//! Weighted tables read from name-count records in CSV form.
use vstd::prelude::*;
use crate::freq::{BuildError, FreqChoice, has_negative, running_totals_fit, weight_sum};

verus! {

/// The bundled data sets of names with their counts.
#[derive(Debug, Clone, Copy, PartialEq, Eq, Structural)]
pub enum CsvSource {
    USGiven,
    USSurnames,
}

impl CsvSource {
    /// The name of the bundled file that holds this data set.
    pub fn file_name(&self) -> (r: &'static str)
        ensures
            *self == CsvSource::USGiven ==> r@ == "us-given.csv"@,
            *self == CsvSource::USSurnames ==> r@ == "us-surnames.csv"@,
    {
        match self {
            CsvSource::USGiven => "us-given.csv",
            CsvSource::USSurnames => "us-surnames.csv",
        }
    }
}

/// Why a data set could not be turned into a table.
#[derive(Debug, Clone, Copy, PartialEq, Eq, Structural)]
pub enum SourceError {
    /// The bytes are not well-formed CSV.
    Malformed,
    /// A record has no second field, the count.
    MissingCount,
    /// A count is not a decimal integer that fits in a `u64`.
    InvalidCount,
    /// The counts sum past `i128::MAX`.
    TotalTooLarge,
    /// The counts do not make a table.
    Build(BuildError),
}

/// The records that the `csv` crate reads from `b`, with no header row:
/// `None` when it reports an error on any record.
pub uninterp spec fn csv_records_of(b: Seq<u8>) -> Option<Seq<Seq<Seq<char>>>>;

/// The fields of a record, as character sequences.
pub open spec fn fields(rec: Vec<String>) -> Seq<Seq<char>> {
    rec@.map_values(|s: String| s@)
}

/// The records of `v`, as sequences of fields.
pub open spec fn records_view(v: Seq<Vec<String>>) -> Seq<Seq<Seq<char>>> {
    v.map_values(|rec: Vec<String>| fields(rec))
}

/// Relies on `csv::ReaderBuilder` with `has_headers(false)` reading from a
/// byte slice: the records it yields, each as its list of fields.
#[verifier::external_body]
fn read_records(bytes: &[u8]) -> (r: Option<Vec<Vec<String>>>)
    ensures
        match r {
            Some(v) => csv_records_of(bytes@) == Some(records_view(v@)),
            None => csv_records_of(bytes@) is None,
        },
{
    let mut reader = csv::ReaderBuilder::new().has_headers(false).from_reader(bytes);
    let mut out = Vec::new();
    for rec in reader.records() {
        out.push(rec.ok()?.iter().map(|f| f.to_string()).collect());
    }
    Some(out)
}

/// The value of a string of decimal digits.
pub open spec fn digits_value(s: Seq<char>) -> int
    decreases s.len(),
{
    if s.len() == 0 {
        0
    } else {
        digits_value(s.drop_last()) * 10 + (s.last() as int - '0' as int)
    }
}

pub open spec fn all_digits(s: Seq<char>) -> bool {
    forall|i: int| 0 <= i < s.len() ==> '0' <= #[trigger] s[i] <= '9'
}

/// A `u64` written as an optional `+` and one or more decimal digits.
pub open spec fn decimal_u64(s: Seq<char>) -> Option<u64> {
    let d = if s.len() > 0 && s[0] == '+' {
        s.drop_first()
    } else {
        s
    };
    if d.len() > 0 && all_digits(d) && digits_value(d) <= u64::MAX {
        Some(digits_value(d) as u64)
    } else {
        None
    }
}

/// Relies on `u64`'s `FromStr`: an optional `+` followed by decimal digits,
/// with no other character, whose value fits.
#[verifier::external_body]
fn parse_u64(s: &str) -> (r: Option<u64>)
    ensures
        r == decimal_u64(s@),
{
    s.parse::<u64>().ok()
}

/// The weight and name of one record: its second field is the count, its
/// first the name.
pub open spec fn record_pair(rec: Seq<Seq<char>>) -> Result<(i128, Seq<char>), SourceError> {
    if rec.len() < 2 {
        Err(SourceError::MissingCount)
    } else {
        match decimal_u64(rec[1]) {
            None => Err(SourceError::InvalidCount),
            Some(c) => Ok((c as i128, rec[0])),
        }
    }
}

/// The weight and name of each record, or the error of the first record
/// that has none.
pub fn pairs_from_records(records: &Vec<Vec<String>>) -> (r: Result<
    Vec<(i128, String)>,
    SourceError,
>)
    ensures
        match r {
            Ok(v) => v@.len() == records@.len() && forall|i: int|
                0 <= i < v@.len() ==> record_pair(#[trigger] fields(records@[i])) == Ok::<
                    (i128, Seq<char>),
                    SourceError,
                >((v@[i].0, v@[i].1@)),
            Err(e) => exists|i: int|
                0 <= i < records@.len() && record_pair(#[trigger] fields(records@[i])) == Err::<
                    (i128, Seq<char>),
                    SourceError,
                >(e) && forall|j: int|
                    0 <= j < i ==> (#[trigger] record_pair(fields(records@[j]))) is Ok,
        },
{
    let mut out: Vec<(i128, String)> = Vec::new();
    let mut i: usize = 0;
    while i < records.len()
        invariant
            i <= records@.len(),
            out@.len() == i,
            forall|k: int|
                0 <= k < i ==> record_pair(#[trigger] fields(records@[k])) == Ok::<
                    (i128, Seq<char>),
                    SourceError,
                >((out@[k].0, out@[k].1@)),
        decreases records@.len() - i,
    {
        let rec = &records[i];
        let ghost f = fields(*rec);
        assert(f.len() == rec@.len());
        if rec.len() < 2 {
            return Err(SourceError::MissingCount);
        }
        assert(f[1] == rec@[1]@ && f[0] == rec@[0]@);
        let count = match parse_u64(rec[1].as_str()) {
            None => {
                return Err(SourceError::InvalidCount);
            },
            Some(c) => c,
        };
        out.push((count as i128, rec[0].clone()));
        i = i + 1;
    }
    Ok(out)
}

/// `w` holds, in order, the weights and names that `recs` give.
pub open spec fn pairs_match(recs: Seq<Seq<Seq<char>>>, w: Seq<(i128, String)>) -> bool {
    &&& w.len() == recs.len()
    &&& forall|i: int|
        0 <= i < w.len() ==> record_pair(#[trigger] recs[i]) == Ok::<(i128, Seq<char>), SourceError>(
            (w[i].0, w[i].1@),
        )
}

/// Whether every running total of `v` up to its first negative weight fits
/// in an `i128`: the condition on which `FreqChoice::from_items` may be
/// called.
pub fn totals_fit(v: &Vec<(i128, String)>) -> (r: bool)
    ensures
        r == running_totals_fit(v@),
{
    let mut acc: i128 = 0;
    let mut i: usize = 0;
    while i < v.len()
        invariant
            i <= v@.len(),
            !has_negative(v@.take(i as int)),
            acc == weight_sum(v@.take(i as int)),
            0 <= acc,
            forall|k: int| 0 <= k <= i ==> weight_sum(#[trigger] v@.take(k)) <= i128::MAX,
        decreases v@.len() - i,
    {
        let w = v[i].0;
        let ghost p = v@.take(i + 1);
        proof {
            assert(p.drop_last() == v@.take(i as int));
        }
        if w < 0 {
            proof {
                assert forall|k: int|
                    0 <= k <= v@.len() && !has_negative(#[trigger] v@.take(k)) implies weight_sum(
                    v@.take(k),
                ) <= i128::MAX by {
                    if k > i {
                        assert(v@.take(k)[i as int].0 < 0);
                    }
                }
            }
            return true;
        }
        proof {
            assert(!has_negative(p)) by {
                assert forall|j: int| 0 <= j < p.len() implies p[j].0 >= 0 by {
                    if j < i {
                        assert(p[j] == v@.take(i as int)[j]);
                    }
                }
            }
        }
        if w > i128::MAX - acc {
            return false;
        }
        acc = acc + w;
        i = i + 1;
    }
    assert(v@.take(v@.len() as int) == v@);
    true
}

/// A table from CSV bytes whose records hold a name and then its count.
pub fn table_from_csv(bytes: &[u8]) -> (r: Result<FreqChoice, SourceError>)
    ensures
        csv_records_of(bytes@) is None <==> r == Err::<FreqChoice, SourceError>(
            SourceError::Malformed,
        ),
        r != Err::<FreqChoice, SourceError>(SourceError::Build(BuildError::NegativeWeight)),
        r matches Ok(t) ==> csv_records_of(bytes@) is Some && exists|w: Seq<(i128, String)>|
            pairs_match(csv_records_of(bytes@)->0, w) && #[trigger] t.built_from(w),
        r == Err::<FreqChoice, SourceError>(SourceError::TotalTooLarge) ==> exists|
            w: Seq<(i128, String)>,
        | #[trigger] pairs_match(csv_records_of(bytes@)->0, w) && !running_totals_fit(w),
        r matches Err(SourceError::Build(_)) ==> exists|w: Seq<(i128, String)>|
            #[trigger] pairs_match(csv_records_of(bytes@)->0, w) && running_totals_fit(w)
                && weight_sum(w) <= 0,
        r matches Err(e) && (e is MissingCount || e is InvalidCount)
            ==> csv_records_of(bytes@) is Some && exists|i: int|
            0 <= i < (csv_records_of(bytes@)->0).len() && record_pair(
                #[trigger] (csv_records_of(bytes@)->0)[i],
            ) == Err::<(i128, Seq<char>), SourceError>(r->Err_0) && forall|j: int|
                0 <= j < i ==> (#[trigger] record_pair((csv_records_of(bytes@)->0)[j])) is Ok,
{
    let records = match read_records(bytes) {
        None => {
            return Err(SourceError::Malformed);
        },
        Some(records) => records,
    };
    let ghost recs = records_view(records@);
    assert forall|i: int| 0 <= i < records@.len() implies recs[i] == fields(
        #[trigger] records@[i],
    ) by {}
    let pairs = match pairs_from_records(&records) {
        Err(e) => {
            proof {
                let i = choose|i: int|
                    0 <= i < records@.len() && record_pair(#[trigger] fields(records@[i])) == Err::<
                        (i128, Seq<char>),
                        SourceError,
                    >(e) && forall|j: int|
                        0 <= j < i ==> (#[trigger] record_pair(fields(records@[j]))) is Ok;
                assert(record_pair(recs[i]) == Err::<(i128, Seq<char>), SourceError>(e));
                assert forall|j: int| 0 <= j < i implies (#[trigger] record_pair(recs[j])) is Ok by {
                    assert(recs[j] == fields(records@[j]));
                }
                assert(recs == csv_records_of(bytes@)->0);
                assert(0 <= i < recs.len());
            }
            return Err(e);
        },
        Ok(pairs) => pairs,
    };
    assert(pairs_match(recs, pairs@));
    assert(!has_negative(pairs@)) by {
        assert forall|i: int| 0 <= i < pairs@.len() implies pairs@[i].0 >= 0 by {
            assert(record_pair(recs[i]) == Ok::<(i128, Seq<char>), SourceError>(
                (pairs@[i].0, pairs@[i].1@),
            ));
        }
    }
    if !totals_fit(&pairs) {
        assert(pairs_match(csv_records_of(bytes@)->0, pairs@));
        return Err(SourceError::TotalTooLarge);
    }
    let ghost w = pairs@;
    assert(pairs_match(csv_records_of(bytes@)->0, w));
    match FreqChoice::from_items(pairs) {
        Ok(t) => {
            assert(t.built_from(w));
            assert(csv_records_of(bytes@) is Some);
            assert(exists|w2: Seq<(i128, String)>|
                pairs_match(csv_records_of(bytes@)->0, w2) && #[trigger] t.built_from(w2));
            let r: Result<FreqChoice, SourceError> = Ok(t);
            assert(r matches Ok(t2) && t2.built_from(w));
            r
        },
        Err(e) => {
            assert(e == BuildError::EmptyOrNonPositive);
            assert(pairs_match(csv_records_of(bytes@)->0, w) && running_totals_fit(w) && weight_sum(w) <= 0);
            Err(SourceError::Build(e))
        },
    }
}

} // verus!
