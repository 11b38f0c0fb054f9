//! Selecting UTM zones from a CRS registry listing.
//!
//! A registry query for projected CRS definitions covering a point returns
//! rows of CRS names and authority codes; a collaborator performs that
//! query and hands the rows in. What is decided here, exactly: a row counts
//! as a UTM zone when its name contains `"UTM zone"`; an optional datum
//! restricts rows to those whose name's datum prefix — the text before the
//! first `'/'`, with all spaces removed — equals it exactly; and each
//! selected row's code must read as a decimal number.

use vstd::prelude::*;
use vstd::string::StringSliceAdditionalSpecFns;

use crate::crs::EpsgCode;
use crate::errors::TopoError;

verus! {

/// One row of a CRS registry listing: the CRS name and its authority code,
/// both as bytes.
pub struct CrsRecord {
    pub name: Vec<u8>,
    pub code: Vec<u8>,
}

/// Whether `p` occurs contiguously anywhere in `s`.
pub open spec fn contains_subseq(s: Seq<u8>, p: Seq<u8>) -> bool {
    exists|i: int| 0 <= i && i + p.len() <= s.len() && #[trigger] s.subrange(i, i + p.len()) == p
}

/// The text before the first `'/'`, or the whole text without one.
pub open spec fn before_slash(s: Seq<u8>) -> Seq<u8>
    decreases s.len(),
{
    if s.len() == 0 {
        Seq::<u8>::empty()
    } else if s[0] == 47u8 {
        Seq::<u8>::empty()
    } else {
        seq![s[0]] + before_slash(s.drop_first())
    }
}

/// The text with every space removed.
pub open spec fn without_spaces(s: Seq<u8>) -> Seq<u8>
    decreases s.len(),
{
    if s.len() == 0 {
        Seq::<u8>::empty()
    } else {
        let rest = without_spaces(s.drop_last());
        if s.last() == 32u8 {
            rest
        } else {
            rest.push(s.last())
        }
    }
}

/// Whether a CRS name is a UTM zone under the optional datum restriction:
/// it contains the marker `"UTM zone"`, and when a datum is asked for, the
/// name's datum prefix with spaces removed equals it exactly.
pub open spec fn record_selected(name: Seq<u8>, datum: Option<Seq<u8>>) -> bool {
    &&& contains_subseq(name, "UTM zone".spec_bytes())
    &&& match datum {
        None => true,
        Some(d) => without_spaces(before_slash(name)) == d,
    }
}

/// Whether the text is one or more decimal digits.
pub open spec fn is_decimal(s: Seq<u8>) -> bool {
    s.len() > 0 && forall|i: int| 0 <= i < s.len() ==> 48 <= #[trigger] s[i] <= 57
}

/// The number the decimal digits spell, most significant first.
pub open spec fn decimal_value(s: Seq<u8>) -> int
    decreases s.len(),
{
    if s.len() == 0 {
        0
    } else {
        decimal_value(s.drop_last()) * 10 + (s.last() - 48)
    }
}

/// Whether the text reads as a decimal authority code.
pub open spec fn code_parses(s: Seq<u8>) -> bool {
    is_decimal(s) && decimal_value(s) <= u32::MAX
}

/// The selected rows of a listing, in listing order.
pub open spec fn selected_records(rs: Seq<CrsRecord>, datum: Option<Seq<u8>>) -> Seq<CrsRecord>
    decreases rs.len(),
{
    if rs.len() == 0 {
        Seq::<CrsRecord>::empty()
    } else {
        let rest = selected_records(rs.drop_last(), datum);
        if record_selected(rs.last().name@, datum) {
            rest.push(rs.last())
        } else {
            rest
        }
    }
}

/// Whether `hay` contains `pat` contiguously, by scanning every start.
fn contains_bytes(hay: &Vec<u8>, pat: &Vec<u8>) -> (r: bool)
    ensures
        r == contains_subseq(hay@, pat@),
{
    let n = hay.len();
    let m = pat.len();
    if m == 0 {
        proof {
            assert(hay@.subrange(0, 0 + pat@.len() as int) =~= pat@);
        }
        return true;
    }
    if m > n {
        proof {
            assert forall|i: int|
                !(0 <= i && i + pat@.len() <= hay@.len() && #[trigger] hay@.subrange(
                    i,
                    i + pat@.len(),
                ) == pat@) by {}
        }
        return false;
    }
    let mut i: usize = 0;
    while i <= n - m
        invariant
            m == pat@.len(),
            n == hay@.len(),
            0 < m <= n,
            0 <= i <= n - m + 1,
            forall|i2: int|
                0 <= i2 < i ==> #[trigger] hay@.subrange(i2, i2 + pat@.len()) != pat@,
        decreases n - m + 1 - i,
    {
        let mut j: usize = 0;
        let mut all_equal = true;
        while j < m
            invariant
                m == pat@.len(),
                n == hay@.len(),
                0 <= i <= n - m,
                0 <= j <= m,
                all_equal ==> forall|j2: int|
                    0 <= j2 < j ==> hay@[i + j2] == pat@[j2],
                !all_equal ==> hay@.subrange(i as int, i + pat@.len()) != pat@,
            decreases m - j,
        {
            if hay[i + j] != pat[j] {
                proof {
                    assert(hay@.subrange(i as int, i + pat@.len())[j as int] != pat@[j as int]);
                }
                all_equal = false;
            }
            j += 1;
        }
        if all_equal {
            proof {
                assert(hay@.subrange(i as int, i + pat@.len()) =~= pat@);
            }
            return true;
        }
        i += 1;
    }
    proof {
        assert forall|i2: int|
            !(0 <= i2 && i2 + pat@.len() <= hay@.len() && #[trigger] hay@.subrange(
                i2,
                i2 + pat@.len(),
            ) == pat@) by {
            if 0 <= i2 && i2 + pat@.len() <= hay@.len() {
                assert(i2 < i);
            }
        }
    }
    false
}

/// The datum prefix of a name with all spaces removed: what stands before
/// the first `'/'`, spaces dropped.
fn datum_prefix_stripped(name: &Vec<u8>) -> (r: Vec<u8>)
    ensures
        r@ == without_spaces(before_slash(name@)),
{
    let n = name.len();
    let mut i: usize = 0;
    let mut out: Vec<u8> = Vec::new();
    while i < n && name[i] != 47
        invariant
            n == name@.len(),
            0 <= i <= n,
            forall|j: int| 0 <= j < i ==> name@[j] != 47u8,
            out@ == without_spaces(name@.take(i as int)),
        decreases n - i,
    {
        proof {
            assert(name@.take(i + 1 as int).drop_last() =~= name@.take(i as int));
            assert(name@.take(i + 1 as int).last() == name@[i as int]);
        }
        if name[i] != 32 {
            out.push(name[i]);
        }
        i += 1;
    }
    proof {
        lemma_before_slash_is_take(name@, i as int);
    }
    out
}

/// When the first `i` bytes hold no slash, and byte `i` (if any) is one,
/// the text before the first slash is exactly the first `i` bytes.
proof fn lemma_before_slash_is_take(s: Seq<u8>, i: int)
    requires
        0 <= i <= s.len(),
        forall|j: int| 0 <= j < i ==> s[j] != 47u8,
        i < s.len() ==> s[i] == 47u8,
    ensures
        before_slash(s) == s.take(i),
    decreases i,
{
    if s.len() == 0 {
        assert(s.take(i) =~= Seq::<u8>::empty());
    } else if i == 0 {
        assert(s[0] == 47u8);
        assert(s.take(0) =~= Seq::<u8>::empty());
    } else {
        let rest = s.drop_first();
        assert forall|j: int| 0 <= j < i - 1 implies rest[j] != 47u8 by {
            assert(rest[j] == s[j + 1]);
        }
        if i - 1 < rest.len() {
            assert(rest[i - 1] == s[i]);
        }
        lemma_before_slash_is_take(rest, i - 1);
        assert(seq![s[0]] + rest.take(i - 1) =~= s.take(i));
    }
}

/// Digit strings spell non-negative values that only grow as digits are
/// appended.
proof fn lemma_decimal_value_monotone(s: Seq<u8>, i: int)
    requires
        0 <= i <= s.len(),
        forall|j: int| 0 <= j < s.len() ==> 48 <= #[trigger] s[j] <= 57,
    ensures
        0 <= decimal_value(s.take(i)) <= decimal_value(s),
    decreases s.len() - i,
{
    if i == s.len() {
        assert(s.take(i) =~= s);
        lemma_decimal_value_nonneg(s);
    } else {
        lemma_decimal_value_monotone(s, i + 1);
        assert(s.take(i + 1).drop_last() =~= s.take(i));
        assert(s.take(i + 1).last() == s[i]);
        lemma_decimal_value_nonneg(s.take(i));
        assert(decimal_value(s.take(i)) * 10 >= decimal_value(s.take(i))) by (nonlinear_arith)
            requires
                decimal_value(s.take(i)) >= 0,
        ;
    }
}

/// A digit string's value is never negative.
proof fn lemma_decimal_value_nonneg(s: Seq<u8>)
    requires
        forall|j: int| 0 <= j < s.len() ==> 48 <= #[trigger] s[j] <= 57,
    ensures
        decimal_value(s) >= 0,
    decreases s.len(),
{
    if s.len() > 0 {
        assert(forall|j: int|
            0 <= j < s.drop_last().len() ==> 48 <= #[trigger] s.drop_last()[j] <= 57);
        lemma_decimal_value_nonneg(s.drop_last());
        assert(decimal_value(s.drop_last()) * 10 >= 0) by (nonlinear_arith)
            requires
                decimal_value(s.drop_last()) >= 0,
        ;
    }
}

/// Reads a decimal authority code, or `None` when the text is empty, holds
/// a non-digit, or spells a value beyond `u32::MAX`.
fn parse_code(code: &Vec<u8>) -> (r: Option<u32>)
    ensures
        match r {
            Some(v) => code_parses(code@) && v as int == decimal_value(code@),
            None => !code_parses(code@),
        },
{
    let n = code.len();
    if n == 0 {
        return None;
    }
    let mut acc: u64 = 0;
    let mut i: usize = 0;
    while i < n
        invariant
            n == code@.len(),
            0 < n,
            0 <= i <= n,
            forall|j: int| 0 <= j < i ==> 48 <= #[trigger] code@[j] <= 57,
            acc as int == decimal_value(code@.take(i as int)),
            acc <= u32::MAX,
        decreases n - i,
    {
        let b = code[i];
        if b < 48 || b > 57 {
            return None;
        }
        let d: u64 = (b - 48) as u64;
        let next: u64 = acc * 10 + d;
        proof {
            assert(code@.take(i + 1 as int).drop_last() =~= code@.take(i as int));
            assert(code@.take(i + 1 as int).last() == code@[i as int]);
        }
        if next > 0xffff_ffff {
            proof {
                if code_parses(code@) {
                    lemma_decimal_value_monotone(code@, i + 1 as int);
                }
            }
            return None;
        }
        acc = next;
        i += 1;
    }
    proof {
        assert(code@.take(n as int) =~= code@);
    }
    Some(acc as u32)
}

/// The optional datum restriction as byte text.
pub open spec fn datum_view(datum_name: Option<&Vec<u8>>) -> Option<Seq<u8>> {
    match datum_name {
        Some(d) => Some(d@),
        None => None,
    }
}

/// Select the UTM zone codes from a registry listing: the codes of the
/// rows `record_selected` accepts, in listing order. Fails with
/// `InvalidCrsAuthority` exactly when a selected row's code does not read
/// as a decimal number; an empty selection is not an error — the caller
/// decides.
pub fn select_utm_zone_codes(records: &Vec<CrsRecord>, datum_name: Option<&Vec<u8>>) -> (r: Result<
    Vec<EpsgCode>,
    TopoError,
>)
    ensures
        ({
            let sel = selected_records(records@, datum_view(datum_name));
            match r {
                Ok(codes) => {
                    &&& codes@.len() == sel.len()
                    &&& forall|k: int|
                        0 <= k < sel.len() ==> code_parses((#[trigger] sel[k]).code@) && codes@[k]
                            as int == decimal_value(sel[k].code@)
                },
                Err(e) => e == TopoError::InvalidCrsAuthority && exists|k: int|
                    0 <= k < sel.len() && !code_parses((#[trigger] sel[k]).code@),
            }
        }),
{
    let ghost datum: Option<Seq<u8>> = datum_view(datum_name);
    let marker: Vec<u8> = "UTM zone".as_bytes_vec();
    let mut out: Vec<EpsgCode> = Vec::new();
    let mut i: usize = 0;
    while i < records.len()
        invariant
            marker@ == "UTM zone".spec_bytes(),
            datum == datum_view(datum_name),
            0 <= i <= records@.len(),
            out@.len() == selected_records(records@.take(i as int), datum).len(),
            forall|k: int|
                0 <= k < out@.len() ==> code_parses(
                    (#[trigger] selected_records(records@.take(i as int), datum)[k]).code@,
                ) && out@[k] as int == decimal_value(
                    selected_records(records@.take(i as int), datum)[k].code@,
                ),
        decreases records@.len() - i,
    {
        let rec = &records[i];
        proof {
            assert(records@.take(i + 1 as int).drop_last() =~= records@.take(i as int));
            assert(records@.take(i + 1 as int).last() == records@[i as int]);
        }
        let mut selected = contains_bytes(&rec.name, &marker);
        if selected {
            match datum_name {
                Some(d) => {
                    let prefix = datum_prefix_stripped(&rec.name);
                    if !bytes_equal(&prefix, d) {
                        selected = false;
                    }
                },
                None => {},
            }
        }
        if selected {
            proof {
                assert(record_selected(records@[i as int].name@, datum));
            }
            match parse_code(&rec.code) {
                Some(v) => {
                    out.push(v);
                },
                None => {
                    proof {
                        let sel_full = selected_records(records@, datum);
                        lemma_selected_records_prefix(records@, datum, i + 1 as int);
                        let selp = selected_records(records@.take(i + 1 as int), datum);
                        assert(selp.last() == records@[i as int]);
                        assert(selp =~= sel_full.subrange(0, selp.len() as int));
                        assert(sel_full[selp.len() - 1] == selp[selp.len() - 1]);
                        assert(!code_parses(sel_full[selp.len() - 1].code@));
                        assert(exists|k: int|
                            0 <= k < sel_full.len() && !code_parses(
                                (#[trigger] sel_full[k]).code@,
                            )) by {
                            assert(0 <= selp.len() - 1 < sel_full.len() && !code_parses(
                                (sel_full[selp.len() - 1]).code@,
                            ));
                        }
                    }
                    return Err(TopoError::InvalidCrsAuthority);
                },
            }
        } else {
            proof {
                assert(!record_selected(records@[i as int].name@, datum));
            }
        }
        i += 1;
    }
    proof {
        assert(records@.take(records@.len() as int) =~= records@);
    }
    Ok(out)
}

/// Whether two byte vectors hold the same bytes.
fn bytes_equal(a: &Vec<u8>, b: &Vec<u8>) -> (r: bool)
    ensures
        r == (a@ == b@),
{
    if a.len() != b.len() {
        return false;
    }
    let mut i: usize = 0;
    while i < a.len()
        invariant
            a@.len() == b@.len(),
            0 <= i <= a@.len(),
            forall|j: int| 0 <= j < i ==> a@[j] == b@[j],
        decreases a@.len() - i,
    {
        if a[i] != b[i] {
            return false;
        }
        i += 1;
    }
    proof {
        assert(a@ =~= b@);
    }
    true
}

/// The selected rows of a prefix are a prefix of the selected rows.
proof fn lemma_selected_records_prefix(rs: Seq<CrsRecord>, datum: Option<Seq<u8>>, i: int)
    requires
        0 <= i <= rs.len(),
    ensures
        selected_records(rs.take(i), datum).is_prefix_of(selected_records(rs, datum)),
    decreases rs.len() - i,
{
    if i == rs.len() {
        assert(rs.take(i) =~= rs);
    } else {
        lemma_selected_records_prefix(rs.take(rs.len() - 1), datum, i);
        assert(rs.take(rs.len() - 1) =~= rs.drop_last());
        assert(rs.take(rs.len() - 1).take(i) =~= rs.take(i));
    }
}

} // verus!
