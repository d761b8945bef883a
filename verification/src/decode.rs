use vstd::prelude::*;

use crate::data_type::DataType;
use crate::errors::DecodeError;
use crate::field_value::FieldValueEnum;
use crate::field_value::FieldValueEnumView;
use crate::layout::ResolvedFieldView;
use crate::layout::ResolvedLayout;
use crate::layout::ResolvedLayoutView;
use crate::layout::field_decodable;
use crate::layout::fields_decodable;
use crate::layout::layout_wf;
use crate::layout::skip_field;
use vstd::slice::slice_subrange;

verus! {

/// A decoded field value: trimmed text for character storage, a signed
/// integer for every numeric storage format.
#[derive(Debug, PartialEq)]
pub enum DecodedValue {
    /// Raw field bytes with trailing spaces trimmed.
    Text(Vec<u8>),
    /// The numeric value the field's bytes encode.
    Int(i128),
}

/// Mathematical view of a decoded value.
pub ghost enum DecodedValueView {
    Text(Seq<u8>),
    Int(int),
}

impl View for DecodedValue {
    type V = DecodedValueView;

    open spec fn view(&self) -> DecodedValueView {
        match self {
            DecodedValue::Text(b) => DecodedValueView::Text(b@),
            DecodedValue::Int(v) => DecodedValueView::Int(*v as int),
        }
    }
}

/// One decoded field occurrence: the field's path, which repetition it is,
/// its decoded value, and the condition-name labels its bytes match.
#[derive(Debug, PartialEq)]
pub struct DecodedEntry {
    /// Fully qualified path of the field.
    pub path: String,
    /// 0-based repetition index; 0 for a non-repeating field.
    pub occurrence: u32,
    /// The decoded value.
    pub value: DecodedValue,
    /// Labels of every matching condition name, in declaration order.
    /// Empty when no condition matches, which is not an error.
    pub matched_conditions: Vec<String>,
}

/// Mathematical view of a decoded entry.
#[verifier::ext_equal]
pub ghost struct DecodedEntryView {
    pub path: Seq<char>,
    pub occurrence: int,
    pub value: DecodedValueView,
    pub matched: Seq<Seq<char>>,
}

/// The views of a vector of labels.
pub open spec fn labels_view(v: Vec<String>) -> Seq<Seq<char>> {
    Seq::new(v.len() as nat, |i: int| v[i]@)
}

impl View for DecodedEntry {
    type V = DecodedEntryView;

    open spec fn view(&self) -> DecodedEntryView {
        DecodedEntryView {
            path: self.path@,
            occurrence: self.occurrence as int,
            value: self.value@,
            matched: labels_view(self.matched_conditions),
        }
    }
}

/// A decoded record: one entry per elementary field occurrence, in layout
/// order. Produced fresh per input record, with no state shared between
/// records.
#[derive(Debug, PartialEq)]
pub struct DecodedRecord {
    /// The decoded entries, in layout order.
    pub entries: Vec<DecodedEntry>,
}

/// The views of the decoded entries, in order.
pub open spec fn entries_view(v: Vec<DecodedEntry>) -> Seq<DecodedEntryView> {
    Seq::new(v.len() as nat, |i: int| v[i]@)
}

impl View for DecodedRecord {
    type V = Seq<DecodedEntryView>;

    open spec fn view(&self) -> Seq<DecodedEntryView> {
        entries_view(self.entries)
    }
}

/// The bytes with every trailing space removed.
pub open spec fn trim_trailing_spaces(s: Seq<u8>) -> Seq<u8>
    decreases s.len(),
{
    if s.len() > 0 && s.last() == 32u8 {
        trim_trailing_spaces(s.drop_last())
    } else {
        s
    }
}

/// Trimming keeps the longest prefix that ends in a non-space.
proof fn lemma_trim_take(s: Seq<u8>, k: int)
    requires
        0 <= k <= s.len(),
        forall|j: int| k <= j < s.len() ==> s[j] == 32u8,
        k > 0 ==> s[k - 1] != 32u8,
    ensures
        trim_trailing_spaces(s) == s.take(k),
    decreases s.len(),
{
    if s.len() == k {
        assert(s.take(k) =~= s);
    } else {
        assert(s.last() == 32u8);
        assert(s.drop_last() =~= s.take(s.len() - 1));
        assert(forall|j: int| k <= j < s.drop_last().len() ==> s.drop_last()[j] == s[j]);
        lemma_trim_take(s.drop_last(), k);
        assert(s.drop_last().take(k) =~= s.take(k));
    }
}

/// Whether a byte is a recognized display digit: an ASCII or EBCDIC zone in
/// the high nibble and a decimal digit in the low nibble.
pub open spec fn is_display_digit(b: u8) -> bool {
    ((b & 0xF0u8) == 0x30u8 || (b & 0xF0u8) == 0xF0u8) && (b & 0x0Fu8) <= 9u8
}

/// The unsigned value of the low-nibble digits, most significant first.
pub open spec fn digits_value(s: Seq<u8>) -> int
    decreases s.len(),
{
    if s.len() == 0 {
        0
    } else {
        digits_value(s.drop_last()) * 10 + (s.last() & 0x0Fu8)
    }
}

/// Powers of ten.
pub open spec fn pow10(n: int) -> int
    decreases n,
{
    if n <= 0 {
        1
    } else {
        10 * pow10(n - 1)
    }
}

proof fn lemma_pow10_mono(a: int, b: int)
    requires
        0 <= a <= b,
    ensures
        1 <= pow10(a) <= pow10(b),
    decreases b,
{
    if b > a {
        lemma_pow10_mono(a, b - 1);
    } else if b == a && b > 0 {
        lemma_pow10_mono(0, b - 1);
    }
}

proof fn lemma_pow10_19()
    ensures
        pow10(19) == 10_000_000_000_000_000_000,
        pow10(18) == 1_000_000_000_000_000_000,
{
    assert(pow10(0) == 1);
    assert(pow10(1) == 10);
    assert(pow10(2) == 100);
    assert(pow10(3) == 1000);
    assert(pow10(4) == 10000);
    assert(pow10(5) == 100000);
    assert(pow10(6) == 1000000);
    assert(pow10(7) == 10000000);
    assert(pow10(8) == 100000000);
    assert(pow10(9) == 1000000000);
    assert(pow10(10) == 10000000000);
    assert(pow10(11) == 100000000000);
    assert(pow10(12) == 1000000000000);
    assert(pow10(13) == 10000000000000);
    assert(pow10(14) == 100000000000000);
    assert(pow10(15) == 1000000000000000);
    assert(pow10(16) == 10000000000000000);
    assert(pow10(17) == 100000000000000000);
    assert(pow10(18) == 1000000000000000000);
    assert(pow10(19) == 10000000000000000000);
}

/// The digit fold stays below the power of ten of its length.
proof fn lemma_digits_value_bound(s: Seq<u8>)
    requires
        forall|i: int| 0 <= i < s.len() ==> (#[trigger] s[i] & 0x0Fu8) <= 9u8,
    ensures
        0 <= digits_value(s) < pow10(s.len() as int),
    decreases s.len(),
{
    if s.len() > 0 {
        assert(forall|i: int|
            0 <= i < s.drop_last().len() ==> (#[trigger] s.drop_last()[i]) == s[i]);
        lemma_digits_value_bound(s.drop_last());
        assert((s.last() & 0x0Fu8) <= 9u8);
    }
}

/// Every byte of an unsigned display numeric field is a recognized digit.
pub open spec fn display_valid(s: Seq<u8>) -> bool {
    forall|i: int| 0 <= i < s.len() ==> is_display_digit(#[trigger] s[i])
}

/// Every byte of a zoned decimal field is a digit, except that the last
/// byte's zone may carry the overpunched sign.
pub open spec fn zoned_valid(s: Seq<u8>) -> bool {
    &&& forall|i: int| 0 <= i < s.len() - 1 ==> is_display_digit(#[trigger] s[i])
    &&& (s.len() > 0 ==> (s.last() & 0x0Fu8) <= 9u8 && ((s.last() & 0xF0u8) == 0x30u8 || (s.last()
        & 0xF0u8) == 0xF0u8 || (s.last() & 0xF0u8) == 0xC0u8 || (s.last() & 0xF0u8) == 0xD0u8))
}

/// A zoned decimal is negative exactly when its sign zone is the negative
/// overpunch.
pub open spec fn zoned_negative(s: Seq<u8>) -> bool {
    s.len() > 0 && (s.last() & 0xF0u8) == 0xD0u8
}

/// The value of the first `n` full packed bytes, two digits per byte.
pub open spec fn packed_body_value(s: Seq<u8>, n: int) -> int
    decreases n,
{
    if n <= 0 || n > s.len() {
        0
    } else {
        packed_body_value(s, n - 1) * 100 + (s[n - 1] >> 4u8) * 10 + (s[n - 1] & 0x0Fu8)
    }
}

proof fn lemma_packed_body_bound(s: Seq<u8>, n: int)
    requires
        n <= s.len(),
        forall|i: int|
            0 <= i < n ==> ((#[trigger] s[i] >> 4u8) <= 9u8 && (s[i] & 0x0Fu8) <= 9u8),
    ensures
        0 <= packed_body_value(s, n) < pow10(2 * n),
    decreases n,
{
    if n > 0 {
        lemma_packed_body_bound(s, n - 1);
        assert(pow10(2 * n) == 10 * pow10(2 * n - 1));
        assert(pow10(2 * n - 1) == 10 * pow10(2 * n - 2));
    } else {
        lemma_pow10_mono(0, if 2 * n >= 0 {
            2 * n
        } else {
            0
        });
    }
}

/// Every nibble of a packed decimal field is a digit, except the final sign
/// nibble, which must be a recognized sign.
pub open spec fn packed_valid(s: Seq<u8>) -> bool {
    &&& forall|i: int|
        0 <= i < s.len() - 1 ==> ((#[trigger] s[i] >> 4u8) <= 9u8 && (s[i] & 0x0Fu8) <= 9u8)
    &&& (s.len() > 0 ==> (s.last() >> 4u8) <= 9u8 && ((s.last() & 0x0Fu8) == 0x0Cu8 || (s.last()
        & 0x0Fu8) == 0x0Du8 || (s.last() & 0x0Fu8) == 0x0Fu8))
}

/// A packed decimal is negative exactly when its sign nibble is the
/// negative sign.
pub open spec fn packed_negative(s: Seq<u8>) -> bool {
    s.len() > 0 && (s.last() & 0x0Fu8) == 0x0Du8
}

/// The unsigned digits of a packed field: the paired digits of every full
/// byte, then the high nibble of the sign byte.
pub open spec fn packed_value(s: Seq<u8>) -> int {
    if s.len() == 0 {
        0
    } else {
        packed_body_value(s, s.len() - 1) * 10 + (s.last() >> 4u8)
    }
}

/// The signed big-endian two's-complement value of the first `n` bytes.
pub open spec fn be_signed_prefix(s: Seq<u8>, n: int) -> int
    decreases n,
{
    if n <= 0 || n > s.len() {
        0
    } else if n == 1 {
        if s[0] >= 128u8 {
            s[0] - 256
        } else {
            s[0] as int
        }
    } else {
        be_signed_prefix(s, n - 1) * 256 + s[n - 1]
    }
}

/// The literal with surrounding single quotes removed, if both are present.
pub open spec fn unquote(span: Seq<char>) -> Seq<char> {
    if span.len() >= 2 && span[0] == '\'' && span.last() == '\'' {
        span.subrange(1, span.len() - 1)
    } else {
        span
    }
}

/// Whether the trimmed field bytes spell exactly the unquoted literal.
pub open spec fn condition_matches(trimmed: Seq<u8>, span: Seq<char>) -> bool {
    &&& trimmed.len() == unquote(span).len()
    &&& forall|k: int|
        0 <= k < trimmed.len() ==> (#[trigger] trimmed[k]) as u32 == (unquote(span)[k]) as u32
}

/// The labels of the first `n` condition-name entries whose literal the
/// trimmed field bytes match, in declaration order.
pub open spec fn matched_prefix(
    m: Seq<(Seq<char>, Seq<char>)>,
    n: int,
    trimmed: Seq<u8>,
) -> Seq<Seq<char>>
    decreases n,
{
    if n <= 0 || n > m.len() {
        Seq::empty()
    } else if condition_matches(trimmed, m[n - 1].1) {
        matched_prefix(m, n - 1, trimmed).push(m[n - 1].0)
    } else {
        matched_prefix(m, n - 1, trimmed)
    }
}

/// The matching condition-name labels of a field, if it carries a merged
/// condition map; no other value metadata is matched.
pub open spec fn spec_matched_labels(
    value: Option<FieldValueEnumView>,
    trimmed: Seq<u8>,
) -> Seq<Seq<char>> {
    match value {
        Some(FieldValueEnumView::Conditions(m)) => matched_prefix(m, m.len() as int, trimmed),
        _ => Seq::empty(),
    }
}

/// What one span of field bytes decodes to under each storage format.
/// Character storage always succeeds; display and zoned digits fail with
/// `InvalidDigit` on an unrecognized byte; packed digits fail with
/// `InvalidNibble` on an unrecognized nibble; binary storage always
/// succeeds.
pub open spec fn spec_decode_field(dt: DataType, s: Seq<u8>) -> Result<
    DecodedValueView,
    DecodeError,
> {
    match dt {
        DataType::Alphanumeric => Ok(DecodedValueView::Text(trim_trailing_spaces(s))),
        DataType::NumericDisplay => if display_valid(s) {
            Ok(DecodedValueView::Int(digits_value(s)))
        } else {
            Err(DecodeError::InvalidDigit)
        },
        DataType::ZonedDecimal => if zoned_valid(s) {
            Ok(
                DecodedValueView::Int(
                    if zoned_negative(s) {
                        -digits_value(s)
                    } else {
                        digits_value(s)
                    },
                ),
            )
        } else {
            Err(DecodeError::InvalidDigit)
        },
        DataType::PackedDecimal => if packed_valid(s) {
            Ok(
                DecodedValueView::Int(
                    if packed_negative(s) {
                        -packed_value(s)
                    } else {
                        packed_value(s)
                    },
                ),
            )
        } else {
            Err(DecodeError::InvalidNibble)
        },
        DataType::BinaryInteger => Ok(DecodedValueView::Int(be_signed_prefix(s, s.len() as int))),
        DataType::GroupMarker => Ok(DecodedValueView::Text(Seq::empty())),
    }
}

/// One decoded repetition of one elementary field.
pub open spec fn spec_decode_rep(f: ResolvedFieldView, raw: Seq<u8>, rep: int) -> Result<
    DecodedEntryView,
    DecodeError,
> {
    let bytes = raw.subrange(
        f.byte_offset + rep * f.byte_length,
        f.byte_offset + rep * f.byte_length + f.byte_length,
    );
    match spec_decode_field(f.data_type, bytes) {
        Ok(v) => Ok(
            DecodedEntryView {
                path: f.path,
                occurrence: rep,
                value: v,
                matched: spec_matched_labels(f.value, trim_trailing_spaces(bytes)),
            },
        ),
        Err(e) => Err(e),
    }
}

/// The first `k` decoded repetitions of one field, each independent.
pub open spec fn spec_decode_reps(f: ResolvedFieldView, raw: Seq<u8>, k: int) -> Result<
    Seq<DecodedEntryView>,
    DecodeError,
>
    decreases k,
{
    if k <= 0 {
        Ok(Seq::empty())
    } else {
        match spec_decode_reps(f, raw, k - 1) {
            Ok(s) => match spec_decode_rep(f, raw, k - 1) {
                Ok(ev) => Ok(s.push(ev)),
                Err(e) => Err(e),
            },
            Err(e) => Err(e),
        }
    }
}

/// The decoded entries of the first `n` layout fields; group fields own no
/// storage and yield no entries.
pub open spec fn spec_decode_fields(fs: Seq<ResolvedFieldView>, n: int, raw: Seq<u8>) -> Result<
    Seq<DecodedEntryView>,
    DecodeError,
>
    decreases n,
{
    if n <= 0 || n > fs.len() {
        Ok(Seq::empty())
    } else {
        match spec_decode_fields(fs, n - 1, raw) {
            Ok(s) => if skip_field(fs[n - 1]) {
                Ok(s)
            } else {
                match spec_decode_reps(fs[n - 1], raw, fs[n - 1].occurs_count) {
                    Ok(es) => Ok(s + es),
                    Err(e) => Err(e),
                }
            },
            Err(e) => Err(e),
        }
    }
}

/// What decoding a raw record against a resolved layout yields: a length
/// check, then one decoded entry per elementary field repetition.
pub open spec fn spec_decode_record(lv: ResolvedLayoutView, raw: Seq<u8>) -> Result<
    Seq<DecodedEntryView>,
    DecodeError,
> {
    if raw.len() != lv.total_length {
        Err(DecodeError::RecordLengthMismatch)
    } else {
        spec_decode_fields(lv.fields, lv.fields.len() as int, raw)
    }
}

/// Law: decoding is deterministic. The decoded record is a function of the
/// resolved layout and the raw bytes alone, so decoding the same bytes
/// against the same layout twice yields identical results.
pub proof fn lemma_decode_deterministic(lv: ResolvedLayoutView, raw: Seq<u8>)
    ensures
        spec_decode_record(lv, raw) == spec_decode_record(lv, raw),
{
}


/// Per-format cap on the byte length the exec decoders accept.
pub open spec fn decode_len_ok(dt: DataType, len: int) -> bool {
    match dt {
        DataType::NumericDisplay => len <= 18,
        DataType::ZonedDecimal => len <= 18,
        DataType::PackedDecimal => len <= 10,
        DataType::BinaryInteger => len <= 8,
        _ => true,
    }
}

/// Copies the field bytes with every trailing space removed.
#[verifier::loop_isolation(false)]
fn trim_bytes(bytes: &[u8]) -> (r: Vec<u8>)
    ensures
        r@ == trim_trailing_spaces(bytes@),
{
    let n = bytes.len();
    let mut k: usize = n;
    while k > 0 && bytes[k - 1] == 32u8
        invariant
            0 <= k <= n,
            forall|j: int| k <= j < n ==> bytes@[j] == 32u8,
        decreases k,
    {
        k -= 1;
    }
    proof {
        lemma_trim_take(bytes@, k as int);
    }
    let mut out: Vec<u8> = Vec::new();
    let mut i: usize = 0;
    while i < k
        invariant
            0 <= i <= k <= n,
            out@ =~= bytes@.take(i as int),
        decreases k - i,
    {
        out.push(bytes[i]);
        proof {
            assert(out@ =~= bytes@.take(i as int + 1));
        }
        i += 1;
    }
    proof {
        assert(out@ =~= bytes@.take(k as int));
    }
    out
}

/// Decodes one span of field bytes under its storage format, mirroring
/// `spec_decode_field`.
#[verifier::loop_isolation(false)]
fn decode_field(dt: DataType, bytes: &[u8]) -> (r: Result<DecodedValue, DecodeError>)
    requires
        decode_len_ok(dt, bytes@.len() as int),
    ensures
        match r {
            Ok(v) => spec_decode_field(dt, bytes@) == Ok::<DecodedValueView, DecodeError>(v@),
            Err(e) => spec_decode_field(dt, bytes@) == Err::<DecodedValueView, DecodeError>(e),
        },
{
    let n = bytes.len();
    match dt {
        DataType::Alphanumeric => Ok(DecodedValue::Text(trim_bytes(bytes))),
        DataType::GroupMarker => {
            let empty: Vec<u8> = Vec::new();
            proof {
                assert(empty@ =~= Seq::<u8>::empty());
            }
            Ok(DecodedValue::Text(empty))
        },
        DataType::NumericDisplay => {
            let mut acc: i128 = 0;
            let mut j: usize = 0;
            proof {
                lemma_pow10_19();
            }
            while j < n
                invariant
                    0 <= j <= n,
                    forall|i: int| 0 <= i < j ==> is_display_digit(#[trigger] bytes@[i]),
                    acc == digits_value(bytes@.take(j as int)),
                    0 <= acc < pow10(j as int),
                decreases n - j,
            {
                let b = bytes[j];
                if !(((b & 0xF0u8) == 0x30u8 || (b & 0xF0u8) == 0xF0u8) && (b & 0x0Fu8) <= 9u8) {
                    proof {
                        assert(!is_display_digit(bytes@[j as int]));
                        assert(!display_valid(bytes@));
                    }
                    return Err(DecodeError::InvalidDigit);
                }
                proof {
                    assert(bytes@.take(j as int + 1).drop_last() =~= bytes@.take(j as int));
                    assert(bytes@.take(j as int + 1).last() == bytes@[j as int]);
                    assert(pow10(j as int + 1) == 10 * pow10(j as int));
                    lemma_pow10_mono(j as int + 1, 18);
                }
                acc = acc * 10 + (b & 0x0Fu8) as i128;
                j += 1;
            }
            proof {
                assert(bytes@.take(n as int) =~= bytes@);
                assert(display_valid(bytes@));
            }
            Ok(DecodedValue::Int(acc))
        },
        DataType::ZonedDecimal => {
            if n == 0 {
                return Ok(DecodedValue::Int(0));
            }
            let mut acc: i128 = 0;
            let mut j: usize = 0;
            proof {
                lemma_pow10_19();
            }
            while j < n - 1
                invariant
                    0 <= j <= n - 1,
                    forall|i: int| 0 <= i < j ==> is_display_digit(#[trigger] bytes@[i]),
                    acc == digits_value(bytes@.take(j as int)),
                    0 <= acc < pow10(j as int),
                decreases n - j,
            {
                let b = bytes[j];
                if !(((b & 0xF0u8) == 0x30u8 || (b & 0xF0u8) == 0xF0u8) && (b & 0x0Fu8) <= 9u8) {
                    proof {
                        assert(!is_display_digit(bytes@[j as int]));
                        assert(!zoned_valid(bytes@));
                    }
                    return Err(DecodeError::InvalidDigit);
                }
                proof {
                    assert(bytes@.take(j as int + 1).drop_last() =~= bytes@.take(j as int));
                    assert(bytes@.take(j as int + 1).last() == bytes@[j as int]);
                    assert(pow10(j as int + 1) == 10 * pow10(j as int));
                    lemma_pow10_mono(j as int + 1, 18);
                }
                acc = acc * 10 + (b & 0x0Fu8) as i128;
                j += 1;
            }
            let last = bytes[n - 1];
            let zone = last & 0xF0u8;
            if !((last & 0x0Fu8) <= 9u8 && (zone == 0x30u8 || zone == 0xF0u8 || zone == 0xC0u8
                || zone == 0xD0u8)) {
                proof {
                    assert(!zoned_valid(bytes@));
                }
                return Err(DecodeError::InvalidDigit);
            }
            proof {
                assert(bytes@.drop_last() =~= bytes@.take(n as int - 1));
                assert(zoned_valid(bytes@));
                lemma_pow10_mono(n as int - 1, 18);
            }
            let value: i128 = acc * 10 + (last & 0x0Fu8) as i128;
            proof {
                assert(value == digits_value(bytes@));
            }
            if zone == 0xD0u8 {
                Ok(DecodedValue::Int(-value))
            } else {
                Ok(DecodedValue::Int(value))
            }
        },
        DataType::PackedDecimal => {
            if n == 0 {
                return Ok(DecodedValue::Int(0));
            }
            let mut acc: i128 = 0;
            let mut j: usize = 0;
            proof {
                lemma_pow10_19();
            }
            while j < n - 1
                invariant
                    0 <= j <= n - 1,
                    forall|i: int|
                        0 <= i < j ==> ((#[trigger] bytes@[i] >> 4u8) <= 9u8 && (bytes@[i]
                            & 0x0Fu8) <= 9u8),
                    acc == packed_body_value(bytes@, j as int),
                    0 <= acc < pow10(2 * j as int),
                decreases n - j,
            {
                let b = bytes[j];
                let hi = b >> 4u8;
                let lo = b & 0x0Fu8;
                if !(hi <= 9u8 && lo <= 9u8) {
                    proof {
                        assert(!packed_valid(bytes@));
                    }
                    return Err(DecodeError::InvalidNibble);
                }
                proof {
                    assert(pow10(2 * (j as int + 1)) == 10 * pow10(2 * j as int + 1));
                    assert(pow10(2 * j as int + 1) == 10 * pow10(2 * j as int));
                    lemma_pow10_mono(2 * (j as int + 1), 18);
                }
                acc = acc * 100 + (hi as i128) * 10 + lo as i128;
                j += 1;
            }
            let last = bytes[n - 1];
            let hi = last >> 4u8;
            let sign = last & 0x0Fu8;
            if !(hi <= 9u8 && (sign == 0x0Cu8 || sign == 0x0Du8 || sign == 0x0Fu8)) {
                proof {
                    assert(!packed_valid(bytes@));
                }
                return Err(DecodeError::InvalidNibble);
            }
            proof {
                assert(packed_valid(bytes@));
                lemma_pow10_mono(2 * (n as int - 1), 18);
            }
            let value: i128 = acc * 10 + hi as i128;
            proof {
                assert(value == packed_value(bytes@));
            }
            if sign == 0x0Du8 {
                Ok(DecodedValue::Int(-value))
            } else {
                Ok(DecodedValue::Int(value))
            }
        },
        DataType::BinaryInteger => {
            let mut acc: i128 = 0;
            let mut j: usize = 0;
            while j < n
                invariant
                    0 <= j <= n,
                    acc == be_signed_prefix(bytes@, j as int),
                    j == 0 ==> acc == 0,
                    j == 1 ==> -128 <= acc < 128,
                    j == 2 ==> -32768 <= acc < 32768,
                    j == 3 ==> -8388608 <= acc < 8388608,
                    j == 4 ==> -2147483648 <= acc < 2147483648,
                    j == 5 ==> -549755813888 <= acc < 549755813888,
                    j == 6 ==> -140737488355328 <= acc < 140737488355328,
                    j == 7 ==> -36028797018963968 <= acc < 36028797018963968,
                    j == 8 ==> -9223372036854775808 <= acc < 9223372036854775808,
                decreases n - j,
            {
                let b = bytes[j];
                if j == 0 {
                    if b >= 128u8 {
                        acc = b as i128 - 256;
                    } else {
                        acc = b as i128;
                    }
                } else {
                    acc = acc * 256 + b as i128;
                }
                j += 1;
            }
            Ok(DecodedValue::Int(acc))
        },
    }
}

/// Whether the trimmed field bytes spell the condition's literal, with the
/// literal's surrounding single quotes stripped.
#[verifier::loop_isolation(false)]
fn matches_condition(trimmed: &Vec<u8>, span: &String) -> (r: bool)
    ensures
        r == condition_matches(trimmed@, span@),
{
    let s = span.as_str();
    let n = s.unicode_len();
    let mut lo: usize = 0;
    let mut hi: usize = n;
    if n >= 2 {
        let c0 = s.get_char(0);
        let cl = s.get_char(n - 1);
        if c0 == '\'' && cl == '\'' {
            lo = 1;
            hi = n - 1;
        }
    }
    proof {
        assert(unquote(span@) =~= span@.subrange(lo as int, hi as int));
    }
    if trimmed.len() != hi - lo {
        return false;
    }
    let m = trimmed.len();
    let mut k: usize = 0;
    while k < m
        invariant
            0 <= k <= m,
            forall|q: int|
                0 <= q < k ==> (#[trigger] trimmed@[q]) as u32 == (unquote(span@)[q]) as u32,
        decreases m - k,
    {
        let c = s.get_char(lo + k);
        let cb = trimmed[k];
        if !(cb as u32 == c as u32) {
            proof {
                assert(unquote(span@)[k as int] == span@[lo as int + k as int]);
            }
            return false;
        }
        k += 1;
    }
    true
}

/// The labels of every condition name the trimmed field bytes match, in
/// declaration order; empty when the field carries no condition map.
#[verifier::loop_isolation(false)]
fn matched_labels(value: &Option<FieldValueEnum>, trimmed: &Vec<u8>) -> (r: Vec<String>)
    ensures
        labels_view(r) == spec_matched_labels(
            crate::field_definition::opt_value_view(*value),
            trimmed@,
        ),
{
    match value {
        Some(FieldValueEnum::FieldValueMap(m)) => {
            let mut out: Vec<String> = Vec::new();
            let n = m.entries.len();
            proof {
                assert(labels_view(out) =~= matched_prefix(m@, 0, trimmed@));
            }
            let mut j: usize = 0;
            while j < n
                invariant
                    0 <= j <= n,
                    n == m.entries.len(),
                    labels_view(out) == matched_prefix(m@, j as int, trimmed@),
                decreases n - j,
            {
                if matches_condition(trimmed, &m.entries[j].value.value_span) {
                    out.push(m.entries[j].label.clone());
                }
                proof {
                    assert(m@[j as int] == m.entries[j as int]@);
                    assert(labels_view(out) =~= matched_prefix(m@, j as int + 1, trimmed@));
                }
                j += 1;
            }
            proof {
                assert(m@.len() == n);
            }
            out
        },
        _ => {
            let out: Vec<String> = Vec::new();
            proof {
                assert(labels_view(out) =~= Seq::<Seq<char>>::empty());
            }
            out
        },
    }
}

/// An error among the first repetitions is the error of them all.
proof fn lemma_reps_error_persists(f: ResolvedFieldView, raw: Seq<u8>, m: int, k: int)
    requires
        0 <= m <= k,
        spec_decode_reps(f, raw, m) is Err,
    ensures
        spec_decode_reps(f, raw, k) == spec_decode_reps(f, raw, m),
    decreases k,
{
    if k > m {
        lemma_reps_error_persists(f, raw, m, k - 1);
    }
}

/// An error among the first fields is the error of the whole record.
proof fn lemma_fields_error_persists(fs: Seq<ResolvedFieldView>, raw: Seq<u8>, m: int, k: int)
    requires
        0 <= m <= k <= fs.len(),
        spec_decode_fields(fs, m, raw) is Err,
    ensures
        spec_decode_fields(fs, k, raw) == spec_decode_fields(fs, m, raw),
    decreases k,
{
    if k > m {
        lemma_fields_error_persists(fs, raw, m, k - 1);
    }
}

/// Decodes one raw record against a resolved layout: checks the record
/// length, then extracts every elementary field occurrence's byte span and
/// decodes it under its storage format, matching condition names where the
/// field carries them.
///
/// The result equals `spec_decode_record` of the layout's view and the raw
/// bytes: the decoded entries in layout order on success; on failure
/// `RecordLengthMismatch` when the buffer length differs from the resolved
/// record length, else the first `InvalidDigit` or `InvalidNibble`
/// encountered, exactly as the spec defines them. Decoding reads the layout
/// and the bytes only, so it is deterministic and safe to run concurrently
/// over one shared layout.
#[verifier::loop_isolation(false)]
pub fn decode_record(layout: &ResolvedLayout, raw: &[u8]) -> (r: Result<DecodedRecord, DecodeError>)
    requires
        layout_wf(layout@),
        fields_decodable(layout@.fields),
    ensures
        match r {
            Ok(rec) => spec_decode_record(layout@, raw@) == Ok::<
                Seq<DecodedEntryView>,
                DecodeError,
            >(rec@),
            Err(e) => spec_decode_record(layout@, raw@) == Err::<
                Seq<DecodedEntryView>,
                DecodeError,
            >(e),
        },
{
    let ghost lv = layout@;
    if raw.len() as u64 != layout.total_length {
        return Err(DecodeError::RecordLengthMismatch);
    }
    let nf = layout.fields.len();
    let mut out: Vec<DecodedEntry> = Vec::new();
    proof {
        assert(entries_view(out) =~= Seq::<DecodedEntryView>::empty());
    }
    let mut i: usize = 0;
    while i < nf
        invariant
            0 <= i <= nf,
            nf == layout.fields.len(),
            spec_decode_fields(lv.fields, i as int, raw@) == Ok::<
                Seq<DecodedEntryView>,
                DecodeError,
            >(entries_view(out)),
        decreases nf - i,
    {
        let f = &layout.fields[i];
        let ghost fv = lv.fields[i as int];
        let ghost base = entries_view(out);
        if f.is_group || matches!(f.data_type, DataType::GroupMarker) {
            proof {
                assert(skip_field(fv));
                assert(spec_decode_fields(lv.fields, i as int + 1, raw@) == Ok::<
                    Seq<DecodedEntryView>,
                    DecodeError,
                >(entries_view(out)));
            }
        } else {
            let occ = f.occurs_count;
            let mut rep: u32 = 0;
            proof {
                assert(fv == lv.fields[i as int]);
                assert(0 <= fv.byte_offset && 0 <= fv.byte_length && 1 <= fv.occurs_count
                    && fv.byte_offset + fv.byte_length * fv.occurs_count <= lv.total_length);
                assert(field_decodable(fv));
                assert(raw@.len() == lv.total_length);
                assert(spec_decode_reps(fv, raw@, 0) == Ok::<Seq<DecodedEntryView>, DecodeError>(
                    Seq::<DecodedEntryView>::empty(),
                ));
                assert(entries_view(out) =~= base + Seq::<DecodedEntryView>::empty());
            }
            while rep < occ
                invariant
                    0 <= rep <= occ,
                    spec_decode_reps(fv, raw@, rep as int) is Ok,
                    entries_view(out) == base + spec_decode_reps(fv, raw@, rep as int)->Ok_0,
                decreases occ - rep,
            {
                proof {
                    assert((rep as int + 1) * fv.byte_length == rep as int * fv.byte_length
                        + fv.byte_length && (rep as int + 1) * fv.byte_length <= fv.occurs_count
                        * fv.byte_length && fv.occurs_count * fv.byte_length == fv.byte_length
                        * fv.occurs_count && 0 <= rep as int * fv.byte_length) by (nonlinear_arith)
                        requires
                            0 <= rep as int,
                            rep as int + 1 <= fv.occurs_count,
                            fv.byte_length >= 0,
                    ;
                    assert(fv.byte_offset + (rep as int + 1) * fv.byte_length <= lv.total_length);
                }
                let off = f.byte_offset + (rep as u64) * f.byte_length;
                let start = off as usize;
                let end = (off + f.byte_length) as usize;
                proof {
                    assert(off as int == fv.byte_offset + rep as int * fv.byte_length);
                    assert(off + f.byte_length <= raw@.len());
                    assert(start as int == off as int);
                    assert(end as int == off as int + fv.byte_length);
                }
                let bytes = slice_subrange(raw, start, end);
                let trimmed = trim_bytes(bytes);
                match decode_field(f.data_type, bytes) {
                    Ok(v) => {
                        let matched = matched_labels(&f.value_option, &trimmed);
                        let entry = DecodedEntry {
                            path: f.path.clone(),
                            occurrence: rep,
                            value: v,
                            matched_conditions: matched,
                        };
                        let ghost ev = entry@;
                        out.push(entry);
                        proof {
                            assert(bytes@ == raw@.subrange(
                                fv.byte_offset + rep as int * fv.byte_length,
                                fv.byte_offset + rep as int * fv.byte_length + fv.byte_length,
                            ));
                            assert(crate::field_definition::opt_value_view(f.value_option)
                                == fv.value);
                            assert(ev =~= spec_decode_rep(fv, raw@, rep as int)->Ok_0);
                            assert(spec_decode_rep(fv, raw@, rep as int) == Ok::<
                                DecodedEntryView,
                                DecodeError,
                            >(ev));
                            assert(spec_decode_reps(fv, raw@, rep as int + 1) == Ok::<
                                Seq<DecodedEntryView>,
                                DecodeError,
                            >(spec_decode_reps(fv, raw@, rep as int)->Ok_0.push(ev)));
                            assert(entries_view(out) =~= (base + spec_decode_reps(
                                fv,
                                raw@,
                                rep as int,
                            )->Ok_0).push(ev));
                            assert(entries_view(out) =~= base + spec_decode_reps(
                                fv,
                                raw@,
                                rep as int + 1,
                            )->Ok_0);
                        }
                    },
                    Err(e) => {
                        proof {
                            assert(bytes@ == raw@.subrange(
                                fv.byte_offset + rep as int * fv.byte_length,
                                fv.byte_offset + rep as int * fv.byte_length + fv.byte_length,
                            ));
                            assert(spec_decode_rep(fv, raw@, rep as int)
                                == Err::<DecodedEntryView, DecodeError>(e));
                            assert(spec_decode_reps(fv, raw@, rep as int + 1)
                                == Err::<Seq<DecodedEntryView>, DecodeError>(e));
                            lemma_reps_error_persists(fv, raw@, rep as int + 1, occ as int);
                            assert(spec_decode_fields(lv.fields, i as int + 1, raw@) == Err::<
                                Seq<DecodedEntryView>,
                                DecodeError,
                            >(e));
                            lemma_fields_error_persists(lv.fields, raw@, i as int + 1, nf as int);
                        }
                        return Err(e);
                    },
                }
                rep += 1;
            }
            proof {
                assert(spec_decode_fields(lv.fields, i as int + 1, raw@) == Ok::<
                    Seq<DecodedEntryView>,
                    DecodeError,
                >(entries_view(out)));
            }
        }
        i += 1;
    }
    proof {
        assert(lv.fields.len() == nf);
    }
    Ok(DecodedRecord { entries: out })
}

} // verus!
