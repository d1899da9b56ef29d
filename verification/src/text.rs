//! The text of a path file: one pose a line, written `x,y,theta`, with the
//! position in metres and the heading in radians, as decimal numbers.
use crate::geometry::COORD_MAX;
use crate::task::record::Sample;
use vstd::prelude::*;
use vstd::slice::slice_subrange;
use vstd::string::StringSliceAdditionalSpecFns;

pub mod write;

verus! {

/// Largest absolute value of a heading that is read, in microradians.
pub const THETA_MAX: i64 = 1_000_000_000_000;

/// `b` is a decimal digit.
pub open spec fn is_digit(b: u8) -> bool {
    48 <= b && b <= 57
}

/// `b` is a blank: a space, a tab, or an end of line.
pub open spec fn is_space(b: u8) -> bool {
    b == 32 || (9 <= b && b <= 13)
}

/// The index of the first `b` in `s` from `i` on; the length of `s` where
/// there is none.
pub open spec fn find_from(s: Seq<u8>, b: u8, i: int) -> int
    decreases s.len() - i,
{
    if i < 0 || i >= s.len() {
        s.len() as int
    } else if s[i] == b {
        i
    } else {
        find_from(s, b, i + 1)
    }
}

/// The index of the first byte of `s` from `i` on that is no blank.
pub open spec fn trim_start(s: Seq<u8>, i: int) -> int
    decreases s.len() - i,
{
    if 0 <= i < s.len() && is_space(s[i]) {
        trim_start(s, i + 1)
    } else {
        i
    }
}

/// The index behind the last byte of `s` before `j` that is no blank, not
/// going below `from`.
pub open spec fn trim_end(s: Seq<u8>, from: int, j: int) -> int
    decreases j,
{
    if 0 <= from < j <= s.len() && is_space(s[j - 1]) {
        trim_end(s, from, j - 1)
    } else {
        j
    }
}

/// `s` without the blanks at its beginning and at its end.
pub open spec fn trimmed(s: Seq<u8>) -> Seq<u8> {
    s.subrange(trim_start(s, 0), trim_end(s, trim_start(s, 0), s.len() as int))
}

/// Where `find_from` points: at a `b`, or behind the end, with no `b`
/// between `i` and there.
pub proof fn lemma_find_from(s: Seq<u8>, b: u8, i: int)
    requires
        0 <= i <= s.len(),
    ensures
        i <= find_from(s, b, i) <= s.len(),
        find_from(s, b, i) < s.len() ==> s[find_from(s, b, i)] == b,
        forall|k: int| i <= k < find_from(s, b, i) ==> s[k] != b,
    decreases s.len() - i,
{
    if i < s.len() && s[i] != b {
        lemma_find_from(s, b, i + 1);
    }
}

/// The index of the first `b` in `bytes` from `from` on.
pub fn find(bytes: &[u8], b: u8, from: usize) -> (at: usize)
    requires
        from <= bytes@.len(),
    ensures
        at == find_from(bytes@, b, from as int),
        from <= at <= bytes@.len(),
{
    let mut i: usize = from;
    while i < bytes.len() && bytes[i] != b
        invariant
            from <= i <= bytes@.len(),
            find_from(bytes@, b, from as int) == find_from(bytes@, b, i as int),
        decreases bytes@.len() - i,
    {
        i += 1;
    }
    i
}

/// Whether `b` is a blank.
pub fn blank(b: u8) -> (r: bool)
    ensures
        r == is_space(b),
{
    b == 32 || (9 <= b && b <= 13)
}

/// `bytes` without the blanks at its beginning and at its end.
pub fn trim(bytes: &[u8]) -> (inner: &[u8])
    ensures
        inner@ == trimmed(bytes@),
{
    let mut a: usize = 0;
    while a < bytes.len() && blank(bytes[a])
        invariant
            a <= bytes@.len(),
            trim_start(bytes@, 0) == trim_start(bytes@, a as int),
        decreases bytes@.len() - a,
    {
        a += 1;
    }
    let mut b: usize = bytes.len();
    while a < b && blank(bytes[b - 1])
        invariant
            a <= b <= bytes@.len(),
            trim_end(bytes@, a as int, bytes@.len() as int) == trim_end(bytes@, a as int, b as int),
        decreases b,
    {
        b -= 1;
    }
    slice_subrange(bytes, a, b)
}

/// Ten to the power of `n`.
pub open spec fn pow10(n: nat) -> int
    decreases n,
{
    if n == 0 {
        1
    } else {
        10 * pow10((n - 1) as nat)
    }
}

/// Every byte of `s` is a decimal digit.
pub open spec fn all_digits(s: Seq<u8>) -> bool {
    forall|i: int| 0 <= i < s.len() ==> is_digit(#[trigger] s[i])
}

/// The number that the digits `s` write.
pub open spec fn number(s: Seq<u8>) -> int
    decreases s.len(),
{
    if s.len() == 0 {
        0
    } else {
        10 * number(s.drop_last()) + (s.last() - 48)
    }
}

/// The number that the digits `frac` write behind the decimal point, in
/// units of one in ten to the `places`: digits beyond `places` are cut off.
pub open spec fn fraction(frac: Seq<u8>, places: nat) -> int {
    if frac.len() >= places {
        number(frac.take(places as int))
    } else {
        number(frac) * pow10((places - frac.len()) as nat)
    }
}

/// `s` begins with a sign.
pub open spec fn signed(s: Seq<u8>) -> bool {
    s.len() > 0 && (s[0] == 43 || s[0] == 45)
}

/// The digits of `s` before the decimal point, and those behind it. `s` has
/// no sign.
pub open spec fn parts(s: Seq<u8>) -> (Seq<u8>, Seq<u8>) {
    let dot = find_from(s, 46, 0);
    (
        s.take(dot),
        if dot < s.len() {
            s.skip(dot + 1)
        } else {
            Seq::<u8>::empty()
        },
    )
}

/// The number that `s` writes, in units of one in ten to the `places`.
///
/// A number is written as a sign, which may be missing, digits, and a
/// decimal point with more digits, which may be missing too; there is at
/// least one digit. `None` where `s` is not written so, and where the number
/// is beyond `limit` either way.
pub open spec fn decimal(s: Seq<u8>, places: nat, limit: int) -> Option<int> {
    let body = if signed(s) {
        s.skip(1)
    } else {
        s
    };
    let (whole, frac) = parts(body);
    let value = number(whole) * pow10(places) + fraction(frac, places);
    if whole.len() + frac.len() == 0 || !all_digits(whole) || !all_digits(frac) || value > limit {
        None
    } else if signed(s) && s[0] == 45 {
        Some(-value)
    } else {
        Some(value)
    }
}

/// Digits write a number that is not negative and grows with them.
pub proof fn lemma_number_grows(s: Seq<u8>, k: int)
    requires
        all_digits(s),
        0 <= k <= s.len(),
    ensures
        0 <= number(s.take(k)) <= number(s),
    decreases s.len(),
{
    if k == s.len() {
        assert(s.take(k) =~= s);
        if s.len() > 0 {
            lemma_number_grows(s.drop_last(), k - 1);
            assert(is_digit(s[s.len() - 1]));
        }
    } else {
        assert(all_digits(s.drop_last()));
        lemma_number_grows(s.drop_last(), k);
        assert(s.drop_last().take(k) =~= s.take(k));
        lemma_number_grows(s.drop_last(), s.len() - 1);
        assert(is_digit(s[s.len() - 1]));
    }
}

/// The powers of ten up to the sixth.
pub proof fn lemma_pow10(n: nat)
    requires
        n <= 6,
    ensures
        1 <= pow10(n) <= 1_000_000,
        n == 3 ==> pow10(n) == 1000,
        n == 6 ==> pow10(n) == 1_000_000,
{
    reveal_with_fuel(pow10, 8);
}

/// Reads the digits of `bytes` from `from` on, as far as they go and as
/// long as the number they write is at most `limit`. Returns the index
/// behind the last digit read and the number.
fn read_whole(bytes: &[u8], from: usize, limit: i64) -> (r: (usize, i64))
    requires
        from <= bytes@.len(),
        0 <= limit <= THETA_MAX,
    ensures
        from <= r.0 <= bytes@.len(),
        all_digits(bytes@.subrange(from as int, r.0 as int)),
        r.1 == number(bytes@.subrange(from as int, r.0 as int)),
        0 <= r.1,
        r.1 <= limit ==> (r.0 == bytes@.len() || !is_digit(bytes@[r.0 as int])),
{
    let mut i: usize = from;
    let mut value: i64 = 0;
    proof {
        assert(bytes@.subrange(from as int, i as int) =~= Seq::<u8>::empty());
    }
    while i < bytes.len() && 48 <= bytes[i] && bytes[i] <= 57 && value <= limit
        invariant
            from <= i <= bytes@.len(),
            0 <= limit <= THETA_MAX,
            all_digits(bytes@.subrange(from as int, i as int)),
            value == number(bytes@.subrange(from as int, i as int)),
            0 <= value <= 10 * limit + 9,
        decreases bytes@.len() - i,
    {
        let d: i64 = (bytes[i] - 48) as i64;
        proof {
            let next = bytes@.subrange(from as int, i + 1);
            assert(next.drop_last() =~= bytes@.subrange(from as int, i as int));
            assert(next.last() == bytes@[i as int]);
        }
        value = value * 10 + d;
        i += 1;
    }
    (i, value)
}

/// Reads the number that `field` writes, in units of one in ten to the
/// `places`.
pub fn parse_decimal(field: &[u8], places: usize, limit: i64) -> (r: Option<i64>)
    requires
        places <= 6,
        0 <= limit <= THETA_MAX,
    ensures
        match r {
            Some(v) => decimal(field@, places as nat, limit as int) == Some(v as int),
            None => decimal(field@, places as nat, limit as int).is_none(),
        },
{
    let negative: bool = field.len() > 0 && field[0] == 45;
    let start: usize = if field.len() > 0 && (field[0] == 43 || field[0] == 45) {
        1
    } else {
        0
    };
    let body = slice_subrange(field, start, field.len());
    let ghost whole = parts(body@).0;
    let ghost frac = parts(body@).1;
    proof {
        assert(body@ =~= if signed(field@) {
            field@.skip(1)
        } else {
            field@
        });
        lemma_find_from(body@, 46, 0);
        lemma_pow10(places as nat);
    }
    let n: usize = body.len();
    let (dot, value) = read_whole(body, 0, limit);
    let ghost read = body@.subrange(0, dot as int);
    proof {
        // The digits read are the beginning of the whole part.
        let d = find_from(body@, 46, 0);
        if d < dot {
            assert(read[d] == body@[d]);
            assert(is_digit(read[d]));
        }
        assert(whole.take(dot as int) =~= read);
        if all_digits(whole) {
            lemma_number_grows(whole, dot as int);
        }
    }
    if value > limit {
        proof {
            if all_digits(whole) && all_digits(frac) {
                assert(number(whole) * pow10(places as nat) >= number(whole)) by (nonlinear_arith)
                    requires
                        number(whole) >= 0,
                        pow10(places as nat) >= 1,
                ;
                lemma_fraction(frac, places as nat);
            }
        }
        return None;
    }
    if dot < n && body[dot] != 46 {
        proof {
            let d = find_from(body@, 46, 0);
            assert(d > dot);
            assert(whole[dot as int] == body@[dot as int]);
        }
        return None;
    }
    proof {
        assert(dot == find_from(body@, 46, 0));
        assert(whole =~= read);
    }
    let mut scaled: i64 = 0;
    let mut taken: usize = 0;
    let mut j: usize = if dot < n {
        dot + 1
    } else {
        n
    };
    let first: usize = j;
    proof {
        assert(frac =~= body@.subrange(first as int, n as int));
        assert(frac.take(0) =~= Seq::<u8>::empty());
    }
    while j < n && 48 <= body[j] && body[j] <= 57
        invariant
            first <= j <= n,
            n == body@.len(),
            places <= 6,
            frac == body@.subrange(first as int, n as int),
            all_digits(frac.take(j - first)),
            taken <= places,
            taken <= j - first,
            taken < places ==> taken == j - first,
            scaled == number(frac.take(taken as int)),
            0 <= scaled < pow10(taken as nat),
        decreases n - j,
    {
        proof {
            lemma_pow10(taken as nat);
            assert(frac[j - first] == body@[j as int]);
            assert forall|i: int| 0 <= i < j + 1 - first implies is_digit(
                #[trigger] frac.take(j + 1 - first)[i],
            ) by {
                if i < j - first {
                    assert(frac.take(j + 1 - first)[i] == frac.take(j - first)[i]);
                }
            }
        }
        if taken < places {
            proof {
                assert(frac.take(taken + 1).drop_last() =~= frac.take(taken as int));
                assert(frac.take(taken + 1).last() == body@[j as int]);
            }
            scaled = scaled * 10 + (body[j] - 48) as i64;
            taken += 1;
        }
        j += 1;
    }
    if j < n {
        proof {
            assert(frac[j - first] == body@[j as int]);
        }
        return None;
    }
    proof {
        assert(frac.take(j - first) =~= frac);
    }
    if dot + (n - first) == 0 {
        return None;
    }
    let ghost digits = taken;
    let ghost read_fraction = scaled;
    proof {
        assert(pow10(0) == 1);
        assert(pow10((taken - digits) as nat) == 1);
        assert(scaled == read_fraction * pow10((taken - digits) as nat)) by (nonlinear_arith)
            requires
                scaled == read_fraction,
                pow10((taken - digits) as nat) == 1,
        ;
        assert(frac.take(frac.len() as int) =~= frac);
    }
    while taken < places
        invariant
            digits <= taken <= places <= 6,
            digits < places ==> digits == frac.len(),
            digits == places ==> frac.len() >= places,
            read_fraction == number(frac.take(digits as int)),
            scaled == read_fraction * pow10((taken - digits) as nat),
            0 <= scaled < pow10(taken as nat),
        decreases places - taken,
    {
        proof {
            lemma_pow10(taken as nat);
            assert(read_fraction * pow10((taken + 1 - digits) as nat) == 10 * (read_fraction
                * pow10((taken - digits) as nat))) by (nonlinear_arith)
                requires
                    pow10((taken + 1 - digits) as nat) == 10 * pow10((taken - digits) as nat),
            ;
        }
        scaled = scaled * 10;
        taken += 1;
    }
    proof {
        assert(scaled == fraction(frac, places as nat));
        lemma_product_limit(value as int, limit as int, pow10(places as nat));
    }
    let mut scale: i64 = 1;
    let mut k: usize = 0;
    while k < places
        invariant
            k <= places <= 6,
            scale == pow10(k as nat),
        decreases places - k,
    {
        proof {
            lemma_pow10(k as nat);
        }
        scale = scale * 10;
        k += 1;
    }
    let total: i64 = value * scale + scaled;
    if total > limit {
        None
    } else if negative {
        Some(-total)
    } else {
        Some(total)
    }
}

/// The digits behind the decimal point write a number that is not negative.
pub proof fn lemma_fraction(frac: Seq<u8>, places: nat)
    requires
        all_digits(frac),
        places <= 6,
    ensures
        0 <= fraction(frac, places),
{
    lemma_pow10(places);
    if frac.len() >= places {
        lemma_number_grows(frac, places as int);
    } else {
        lemma_number_grows(frac, frac.len() as int);
        lemma_pow10((places - frac.len()) as nat);
        assert(number(frac) * pow10((places - frac.len()) as nat) >= 0) by (nonlinear_arith)
            requires
                number(frac) >= 0,
                pow10((places - frac.len()) as nat) >= 1,
        ;
    }
}

/// A number within the limit, scaled by up to a million, is within a
/// million times the limit.
proof fn lemma_product_limit(value: int, limit: int, scale: int)
    requires
        0 <= value <= limit <= THETA_MAX,
        1 <= scale <= 1_000_000,
    ensures
        0 <= value * scale <= 1_000_000_000_000_000_000,
{
    assert(0 <= value * scale <= 1_000_000_000_000_000_000) by (nonlinear_arith)
        requires
            0 <= value <= 1_000_000_000_000,
            1 <= scale <= 1_000_000,
    ;
}

/// The pose that `line` writes: three numbers with commas between them,
/// the position in metres and the heading in radians, each with blanks
/// around it or none. The position is read to the millimetre and the heading
/// to the microradian. `None` where `line` is not written so: where it has
/// more or fewer than three fields, where a field is no number, and where
/// the position is beyond `COORD_MAX` or the heading beyond `THETA_MAX`.
pub open spec fn sample_of(line: Seq<u8>) -> Option<Sample> {
    let a = find_from(line, 44, 0);
    let b = find_from(line, 44, a + 1);
    let c = find_from(line, 44, b + 1);
    if a < line.len() && b < line.len() && c >= line.len() {
        match (
            decimal(trimmed(line.subrange(0, a)), 3, COORD_MAX as int),
            decimal(trimmed(line.subrange(a + 1, b)), 3, COORD_MAX as int),
            decimal(trimmed(line.subrange(b + 1, line.len() as int)), 6, THETA_MAX as int),
        ) {
            (Some(x), Some(y), Some(theta)) => Some(
                Sample { x: x as i64, y: y as i64, theta: theta as i64 },
            ),
            _ => None,
        }
    } else {
        None
    }
}

/// The poses that the lines of `text` write, from byte `pos` on. A line
/// that writes no pose is passed over.
pub open spec fn samples_from(text: Seq<u8>, pos: int) -> Seq<Sample>
    decreases text.len() - pos,
{
    if pos < 0 || pos >= text.len() {
        Seq::<Sample>::empty()
    } else {
        let end = find_from(text, 10, pos);
        let rest = if pos <= end < text.len() {
            samples_from(text, end + 1)
        } else {
            Seq::<Sample>::empty()
        };
        match sample_of(text.subrange(pos, end)) {
            Some(sample) => seq![sample] + rest,
            None => rest,
        }
    }
}

/// Reads the pose that `line` writes.
pub fn parse_line(line: &[u8]) -> (r: Option<Sample>)
    ensures
        r == sample_of(line@),
        r matches Some(sample) ==> sample.wf() && -THETA_MAX <= sample.theta <= THETA_MAX,
{
    let n: usize = line.len();
    let a: usize = find(line, 44, 0);
    if a >= n {
        return None;
    }
    let b: usize = find(line, 44, a + 1);
    if b >= n {
        return None;
    }
    let c: usize = find(line, 44, b + 1);
    if c < n {
        return None;
    }
    let x = parse_decimal(trim(slice_subrange(line, 0, a)), 3, COORD_MAX);
    let y = parse_decimal(trim(slice_subrange(line, a + 1, b)), 3, COORD_MAX);
    let theta = parse_decimal(trim(slice_subrange(line, b + 1, n)), 6, THETA_MAX);
    proof {
        lemma_decimal_range(trimmed(line@.subrange(0, a as int)), 3, COORD_MAX as int);
        lemma_decimal_range(trimmed(line@.subrange(a + 1, b as int)), 3, COORD_MAX as int);
        lemma_decimal_range(trimmed(line@.subrange(b + 1, n as int)), 6, THETA_MAX as int);
    }
    match (x, y, theta) {
        (Some(x), Some(y), Some(theta)) => Some(Sample { x, y, theta }),
        _ => None,
    }
}

/// A number that is read is within the limit either way.
pub proof fn lemma_decimal_range(s: Seq<u8>, places: nat, limit: int)
    requires
        places <= 6,
    ensures
        decimal(s, places, limit) matches Some(v) ==> -limit <= v <= limit,
{
    let body = if signed(s) {
        s.skip(1)
    } else {
        s
    };
    let (whole, frac) = parts(body);
    if all_digits(whole) && all_digits(frac) {
        lemma_number_grows(whole, whole.len() as int);
        lemma_fraction(frac, places);
        lemma_pow10(places);
        assert(number(whole) * pow10(places) >= 0) by (nonlinear_arith)
            requires
                number(whole) >= 0,
                pow10(places) >= 1,
        ;
    }
}

/// Reads the pose that a line of a path file writes.
pub fn parse_isometry2(s: &str) -> (r: Option<Sample>)
    ensures
        r == sample_of(s.spec_bytes()),
        r matches Some(sample) ==> sample.wf(),
{
    parse_line(s.as_bytes())
}

/// Reads the poses that the lines of a path file write, in order. Lines
/// that write no pose are passed over.
pub fn parse_path(text: &str) -> (samples: Vec<Sample>)
    ensures
        samples@ == samples_from(text.spec_bytes(), 0),
        forall|i: int| 0 <= i < samples@.len() ==> (#[trigger] samples@[i]).wf(),
{
    let bytes = text.as_bytes();
    let mut samples: Vec<Sample> = Vec::new();
    let mut pos: usize = 0;
    while pos < bytes.len()
        invariant
            bytes@ == text.spec_bytes(),
            samples_from(bytes@, 0) == samples@ + samples_from(bytes@, pos as int),
            forall|i: int| 0 <= i < samples@.len() ==> (#[trigger] samples@[i]).wf(),
        decreases bytes@.len() - pos,
    {
        let end: usize = find(bytes, 10, pos);
        let ghost before = samples@;
        match parse_line(slice_subrange(bytes, pos, end)) {
            Some(sample) => {
                samples.push(sample);
                proof {
                    assert(samples@ =~= before + seq![sample]);
                    assert(samples@ + samples_from(bytes@, end + 1) =~= before + (seq![sample]
                        + samples_from(bytes@, end + 1)));
                }
            },
            None => {},
        }
        if end >= bytes.len() {
            proof {
                assert(samples_from(bytes@, end + 1) =~= Seq::<Sample>::empty());
                assert(samples@ + samples_from(bytes@, end + 1) =~= samples@);
            }
            return samples;
        }
        pos = end + 1;
    }
    proof {
        assert(samples@ + samples_from(bytes@, pos as int) =~= samples@);
    }
    samples
}

/// The ending of the name of a path file: `.path`.
pub open spec fn ending() -> Seq<u8> {
    seq![46u8, 112u8, 97u8, 116u8, 104u8]
}

/// The name of the path that the file `file` holds: the name of the file
/// without its ending. `None` where the file has another ending, and so
/// holds no path.
pub open spec fn named(file: Seq<u8>) -> Option<Seq<u8>> {
    if file.len() >= 5 && file.skip(file.len() - 5) == ending() {
        Some(file.take(file.len() - 5))
    } else {
        None
    }
}

/// The name of the file that holds the path `name`.
pub open spec fn file_of(name: Seq<u8>) -> Seq<u8> {
    name + ending()
}

/// The file of a path holds that path, whatever its name.
pub proof fn lemma_file_is_named(name: Seq<u8>)
    ensures
        named(file_of(name)) == Some(name),
{
    let file = file_of(name);
    assert(file.skip(file.len() - 5) =~= ending());
    assert(file.take(file.len() - 5) =~= name);
}

/// The name of the path that the file `file` holds.
pub fn path_name(file: &[u8]) -> (name: Option<&[u8]>)
    ensures
        match name {
            Some(n) => named(file@) == Some(n@),
            None => named(file@).is_none(),
        },
{
    let n: usize = file.len();
    if n < 5 {
        return None;
    }
    let m: usize = n - 5;
    if file[m] == 46 && file[m + 1] == 112 && file[m + 2] == 97 && file[m + 3] == 116 && file[m + 4]
        == 104 {
        proof {
            assert(file@.skip(m as int) =~= ending());
        }
        let name = slice_subrange(file, 0, m);
        proof {
            assert(name@ =~= file@.take(m as int));
        }
        Some(name)
    } else {
        proof {
            let tail = file@.skip(m as int);
            assert(tail[0] == file@[m as int]);
            assert(tail[1] == file@[m + 1]);
            assert(tail[2] == file@[m + 2]);
            assert(tail[3] == file@[m + 3]);
            assert(tail[4] == file@[m + 4]);
        }
        None
    }
}

/// The name of the file that holds the path `name`.
pub fn file_name(name: &[u8]) -> (file: Vec<u8>)
    ensures
        file@ == file_of(name@),
        named(file@) == Some(name@),
{
    let mut file: Vec<u8> = Vec::new();
    let mut i: usize = 0;
    while i < name.len()
        invariant
            i <= name@.len(),
            file@ == name@.take(i as int),
        decreases name@.len() - i,
    {
        file.push(name[i]);
        proof {
            assert(file@ =~= name@.take(i + 1));
        }
        i += 1;
    }
    file.push(46);
    file.push(112);
    file.push(97);
    file.push(116);
    file.push(104);
    proof {
        assert(name@.take(name@.len() as int) =~= name@);
        assert(file@ =~= file_of(name@));
        lemma_file_is_named(name@);
    }
    file
}

} // verus!
