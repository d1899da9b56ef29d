//! Writing the lines of a path file.
use super::{
    all_digits, decimal, find_from, fraction, is_digit, is_space, lemma_find_from, lemma_pow10, number,
    parts, pow10, sample_of, samples_from, signed, trim_end, trim_start, trimmed, THETA_MAX,
};
use crate::geometry::COORD_MAX;
use crate::task::record::Sample;
use vstd::prelude::*;

verus! {

/// The digits that write `n`, without zeros in front.
pub open spec fn digits_of(n: nat) -> Seq<u8>
    decreases n,
{
    if n < 10 {
        seq![(48 + n) as u8]
    } else {
        digits_of(n / 10).push((48 + n % 10) as u8)
    }
}

/// The last `places` digits of `n`, with zeros in front where `n` has fewer.
pub open spec fn fixed_digits(n: nat, places: nat) -> Seq<u8>
    decreases places,
{
    if places == 0 {
        Seq::<u8>::empty()
    } else {
        fixed_digits(n / 10, (places - 1) as nat).push((48 + n % 10) as u8)
    }
}

/// The digits of `n` are digits, and they write `n`.
pub proof fn lemma_digits_of(n: nat)
    ensures
        digits_of(n).len() >= 1,
        all_digits(digits_of(n)),
        number(digits_of(n)) == n,
    decreases n,
{
    if n < 10 {
        let s = seq![(48 + n) as u8];
        assert(s.drop_last() =~= Seq::<u8>::empty());
        assert(number(s.drop_last()) == 0);
        assert(s.last() == (48 + n) as u8);
    } else {
        lemma_digits_of(n / 10);
        let s = digits_of(n);
        assert(s.drop_last() =~= digits_of(n / 10));
        assert(s.last() == (48 + n % 10) as u8);
        assert forall|i: int| 0 <= i < s.len() implies is_digit(#[trigger] s[i]) by {
            if i < s.len() - 1 {
                assert(s[i] == digits_of(n / 10)[i]);
            }
        }
    }
}

/// The last `places` digits of `n` are digits, and they write what is left
/// of `n` when the digits before them are taken away.
pub proof fn lemma_fixed_digits(n: nat, places: nat)
    ensures
        fixed_digits(n, places).len() == places,
        all_digits(fixed_digits(n, places)),
        number(fixed_digits(n, places)) == n % (pow10(places) as nat),
        pow10(places) >= 1,
    decreases places,
{
    if places == 0 {
        assert(pow10(0) == 1);
    } else {
        let before = (places - 1) as nat;
        lemma_fixed_digits(n / 10, before);
        let s = fixed_digits(n, places);
        assert(s.drop_last() =~= fixed_digits(n / 10, before));
        assert(s.last() == (48 + n % 10) as u8);
        assert forall|i: int| 0 <= i < s.len() implies is_digit(#[trigger] s[i]) by {
            if i < s.len() - 1 {
                assert(s[i] == fixed_digits(n / 10, before)[i]);
            }
        }
        let p = pow10(before);
        assert(pow10(places) == 10 * p);
        // n % (10 p) == 10 * ((n / 10) % p) + n % 10
        assert(n % ((10 * p) as nat) == 10 * ((n / 10) % (p as nat)) + n % 10) by {
            lemma_mod_ten_times(n as int, p);
        }
    }
}

/// The last digits of a number, one digit at a time.
pub proof fn lemma_mod_ten_times(n: int, p: int)
    requires
        0 <= n,
        1 <= p,
    ensures
        n % (10 * p) == 10 * ((n / 10) % p) + n % 10,
{
    let q = n / 10;
    let r = n % 10;
    let a = q / p;
    let b = q % p;
    assert(q == p * a + b && 0 <= b < p) by {
        vstd::arithmetic::div_mod::lemma_fundamental_div_mod(q, p);
        vstd::arithmetic::div_mod::lemma_mod_bound(q, p);
    }
    assert(n == 10 * q + r && 0 <= r < 10);
    assert(n == (10 * p) * a + (10 * b + r)) by (nonlinear_arith)
        requires
            n == 10 * q + r,
            q == p * a + b,
    ;
    assert(0 <= 10 * b + r < 10 * p);
    vstd::arithmetic::div_mod::lemma_fundamental_div_mod_converse(n, 10 * p, a, 10 * b + r);
}

/// How `v` is written, in units of one in ten to the `places`: a minus
/// sign where it is negative, the digits before the decimal point, the
/// point, and `places` digits behind it.
pub open spec fn written(v: int, places: nat) -> Seq<u8> {
    let size = if v < 0 {
        (-v) as nat
    } else {
        v as nat
    };
    let scale = pow10(places) as nat;
    let digits = digits_of(size / scale) + seq![46u8] + fixed_digits(size % scale, places);
    if v < 0 {
        seq![45u8] + digits
    } else {
        digits
    }
}

/// How a pose is written: its position in metres to three places and its
/// heading in radians to six, with commas between them.
pub open spec fn fields_of(sample: Sample) -> Seq<u8> {
    written(sample.x as int, 3) + seq![44u8] + written(sample.y as int, 3) + seq![44u8] + written(
        sample.theta as int,
        6,
    )
}

/// A line of a path file: a pose as it is written, and an end of line.
pub open spec fn line_of(sample: Sample) -> Seq<u8> {
    fields_of(sample) + seq![10u8]
}

/// A path file: the lines of its poses.
pub open spec fn text_of(samples: Seq<Sample>) -> Seq<u8>
    decreases samples.len(),
{
    if samples.len() == 0 {
        Seq::<u8>::empty()
    } else {
        text_of(samples.drop_last()) + line_of(samples.last())
    }
}

/// The first `b` in `s` is at `k`, where there is one at `k` and none
/// before.
pub proof fn lemma_found_at(s: Seq<u8>, b: u8, i: int, k: int)
    requires
        0 <= i <= k <= s.len(),
        k < s.len() ==> s[k] == b,
        forall|j: int| i <= j < k ==> s[j] != b,
    ensures
        find_from(s, b, i) == k,
{
    lemma_find_from(s, b, i);
}

/// What is written holds a sign, digits and a decimal point, in that order,
/// and nothing else.
pub proof fn lemma_written_shape(v: int, places: nat)
    ensures
        written(v, places).len() >= 2,
        forall|i: int|
            0 <= i < written(v, places).len() ==> {
                let b = #[trigger] written(v, places)[i];
                is_digit(b) || b == 46 || (b == 45 && i == 0 && v < 0)
            },
{
    let size = if v < 0 {
        (-v) as nat
    } else {
        v as nat
    };
    lemma_fixed_digits(0, places);
    let scale = pow10(places) as nat;
    lemma_digits_of(size / scale);
    lemma_fixed_digits(size % scale, places);
}

/// What is written is read back as it was: the number `v`, where it is
/// within the limit.
pub proof fn lemma_written_is_read(v: int, places: nat, limit: int)
    requires
        -limit <= v <= limit,
        places <= 6,
    ensures
        decimal(written(v, places), places, limit) == Some(v),
{
    let size = if v < 0 {
        (-v) as nat
    } else {
        v as nat
    };
    lemma_fixed_digits(0, places);
    let scale = pow10(places) as nat;
    let whole = digits_of(size / scale);
    let frac = fixed_digits(size % scale, places);
    lemma_digits_of(size / scale);
    lemma_fixed_digits(size % scale, places);
    let s = written(v, places);
    let body = whole + seq![46u8] + frac;
    assert(is_digit(whole[0]));
    if v < 0 {
        assert(s[0] == 45);
        assert(s.skip(1) =~= body);
    } else {
        assert(s[0] == whole[0]);
        assert(!signed(s));
    }
    assert(body[whole.len() as int] == 46);
    assert forall|j: int| 0 <= j < whole.len() implies body[j] != 46 by {
        assert(body[j] == whole[j]);
        assert(is_digit(whole[j]));
    }
    lemma_found_at(body, 46, 0, whole.len() as int);
    assert(body.take(whole.len() as int) =~= whole);
    assert(body.skip(whole.len() as int + 1) =~= frac);
    assert(parts(body) == (whole, frac));
    assert(frac.take(places as int) =~= frac);
    assert(fraction(frac, places) == number(frac));
    assert((size % scale) % scale == size % scale) by {
        vstd::arithmetic::div_mod::lemma_mod_twice(size as int, scale as int);
    }
    assert(size == scale * (size / scale) + size % scale) by {
        vstd::arithmetic::div_mod::lemma_fundamental_div_mod(size as int, scale as int);
    }
    let q = (size / scale) as int;
    let r = (size % scale) as int;
    let w = number(whole);
    let f = fraction(frac, places);
    let t = pow10(places);
    assert(w * t + f == size) by (nonlinear_arith)
        requires
            w == q,
            t == scale,
            f == r,
            size == scale * q + r,
    ;
}

/// Writes the digits of `n` behind `out`.
pub fn push_digits(out: &mut Vec<u8>, n: u64)
    ensures
        final(out)@ == old(out)@ + digits_of(n as nat),
    decreases n,
{
    if n >= 10 {
        push_digits(out, n / 10);
    }
    out.push(48 + (n % 10) as u8);
    proof {
        if n < 10 {
            assert(final(out)@ =~= old(out)@ + digits_of(n as nat));
        } else {
            assert(final(out)@ =~= old(out)@ + digits_of(n as nat));
        }
    }
}

/// Writes the last `places` digits of `n` behind `out`.
pub fn push_fixed_digits(out: &mut Vec<u8>, n: u64, places: usize)
    ensures
        final(out)@ == old(out)@ + fixed_digits(n as nat, places as nat),
    decreases places,
{
    if places > 0 {
        push_fixed_digits(out, n / 10, places - 1);
        out.push(48 + (n % 10) as u8);
    }
    proof {
        assert(final(out)@ =~= old(out)@ + fixed_digits(n as nat, places as nat));
    }
}

/// Writes `v` behind `out`, in units of one in ten to the `places`.
pub fn push_decimal(out: &mut Vec<u8>, v: i64, places: usize)
    requires
        places <= 6,
        -THETA_MAX <= v <= THETA_MAX,
    ensures
        final(out)@ == old(out)@ + written(v as int, places as nat),
{
    let mut scale: u64 = 1;
    let mut k: usize = 0;
    while k < places
        invariant
            k <= places <= 6,
            scale == pow10(k as nat),
        decreases places - k,
    {
        proof {
            lemma_pow10(k as nat);
        }
        scale = scale * 10;
        k += 1;
    }
    proof {
        lemma_pow10(places as nat);
    }
    let size: u64 = if v < 0 {
        (-v) as u64
    } else {
        v as u64
    };
    if v < 0 {
        out.push(45);
    }
    push_digits(out, size / scale);
    out.push(46);
    push_fixed_digits(out, size % scale, places);
    proof {
        assert(final(out)@ =~= old(out)@ + written(v as int, places as nat));
    }
}

/// What is written has no blank at either end, so that trimming it
/// changes nothing.
pub proof fn lemma_written_is_trimmed(v: int, places: nat)
    ensures
        trimmed(written(v, places)) == written(v, places),
        trimmed(written(v, places) + seq![10u8]) == written(v, places),
{
    lemma_written_shape(v, places);
    let s = written(v, places);
    let n = s.len() as int;
    assert(!is_space(s[0]));
    assert(!is_space(s[n - 1]));
    assert(trim_start(s, 0) == 0);
    assert(trim_end(s, 0, n) == n);
    assert(s.subrange(0, n) =~= s);
    let t = s + seq![10u8];
    assert(t[0] == s[0]);
    assert(t[n] == 10);
    assert(t[n - 1] == s[n - 1]);
    assert(trim_start(t, 0) == 0);
    assert(trim_end(t, 0, n + 1) == trim_end(t, 0, n));
    assert(trim_end(t, 0, n) == n);
    assert(t.subrange(0, n) =~= s);
}

/// What is written holds no comma and no end of line.
pub proof fn lemma_written_is_one_field(v: int, places: nat)
    ensures
        forall|j: int| 0 <= j < written(v, places).len() ==> written(v, places)[j] != 44,
        forall|j: int| 0 <= j < written(v, places).len() ==> written(v, places)[j] != 10,
{
    lemma_written_shape(v, places);
}

/// A line of three fields that are read as numbers is read as the pose of
/// those numbers.
proof fn lemma_fields_are_read(
    line: Seq<u8>,
    first: Seq<u8>,
    second: Seq<u8>,
    third: Seq<u8>,
    sample: Sample,
)
    requires
        line =~= first + seq![44u8] + second + seq![44u8] + third,
        forall|j: int| 0 <= j < first.len() ==> first[j] != 44,
        forall|j: int| 0 <= j < second.len() ==> second[j] != 44,
        forall|j: int| 0 <= j < third.len() ==> third[j] != 44,
        decimal(trimmed(first), 3, COORD_MAX as int) == Some(sample.x as int),
        decimal(trimmed(second), 3, COORD_MAX as int) == Some(sample.y as int),
        decimal(trimmed(third), 6, THETA_MAX as int) == Some(sample.theta as int),
    ensures
        sample_of(line) == Some(sample),
{
    lemma_three_fields(line, first, second, third);
}

/// A pose that is written is read back as it was, with the end of line
/// behind it and without.
pub proof fn lemma_line_is_read(sample: Sample)
    requires
        sample.wf(),
        -THETA_MAX <= sample.theta <= THETA_MAX,
    ensures
        sample_of(line_of(sample)) == Some(sample),
        sample_of(fields_of(sample)) == Some(sample),
{
    let wx = written(sample.x as int, 3);
    let wy = written(sample.y as int, 3);
    let wt = written(sample.theta as int, 6);
    lemma_written_is_one_field(sample.x as int, 3);
    lemma_written_is_one_field(sample.y as int, 3);
    lemma_written_is_one_field(sample.theta as int, 6);
    lemma_written_is_trimmed(sample.x as int, 3);
    lemma_written_is_trimmed(sample.y as int, 3);
    lemma_written_is_trimmed(sample.theta as int, 6);
    lemma_written_is_read(sample.x as int, 3, COORD_MAX as int);
    lemma_written_is_read(sample.y as int, 3, COORD_MAX as int);
    lemma_written_is_read(sample.theta as int, 6, THETA_MAX as int);
    lemma_fields_are_read(fields_of(sample), wx, wy, wt, sample);
    let third = wt + seq![10u8];
    assert forall|j: int| 0 <= j < third.len() implies third[j] != 44 by {
        if j < wt.len() {
            assert(third[j] == wt[j]);
        }
    }
    lemma_fields_are_read(line_of(sample), wx, wy, third, sample);
}

/// A line that is written holds one end of line, its last byte, and is read
/// as one pose.
pub proof fn lemma_line_alone(sample: Sample)
    requires
        sample.wf(),
        -THETA_MAX <= sample.theta <= THETA_MAX,
    ensures
        samples_from(line_of(sample), 0) == seq![sample],
{
    let wx = written(sample.x as int, 3);
    let wy = written(sample.y as int, 3);
    let wt = written(sample.theta as int, 6);
    let line = line_of(sample);
    let fields = fields_of(sample);
    let m = fields.len() as int;
    lemma_written_is_one_field(sample.x as int, 3);
    lemma_written_is_one_field(sample.y as int, 3);
    lemma_written_is_one_field(sample.theta as int, 6);
    let a = wx.len() as int;
    let b = a + 1 + wy.len();
    assert forall|j: int| 0 <= j < m implies line[j] != 10 by {
        assert(line[j] == fields[j]);
        if j < a {
            assert(fields[j] == wx[j]);
        } else if a < j < b {
            assert(fields[j] == wy[j - a - 1]);
        } else if b < j {
            assert(fields[j] == wt[j - b - 1]);
        }
    }
    assert(line[m] == 10);
    lemma_found_at(line, 10, 0, m);
    assert(line.subrange(0, m) =~= fields);
    lemma_line_is_read(sample);
    assert(samples_from(line, m + 1) =~= Seq::<Sample>::empty());
    assert(seq![sample] + Seq::<Sample>::empty() =~= seq![sample]);
}

/// Where the commas of a line are: behind its first field and behind its
/// second.
proof fn lemma_three_fields(line: Seq<u8>, first: Seq<u8>, second: Seq<u8>, third: Seq<u8>)
    requires
        line =~= first + seq![44u8] + second + seq![44u8] + third,
        forall|j: int| 0 <= j < first.len() ==> first[j] != 44,
        forall|j: int| 0 <= j < second.len() ==> second[j] != 44,
        forall|j: int| 0 <= j < third.len() ==> third[j] != 44,
    ensures
        find_from(line, 44, 0) == first.len(),
        find_from(line, 44, first.len() as int + 1) == first.len() + 1 + second.len(),
        find_from(line, 44, first.len() as int + second.len() + 2) == line.len(),
        line.subrange(0, first.len() as int) == first,
        line.subrange(first.len() as int + 1, first.len() as int + 1 + second.len()) == second,
        line.subrange(first.len() as int + second.len() + 2, line.len() as int) == third,
{
    let a = first.len() as int;
    let b = a + 1 + second.len();
    let n = line.len() as int;
    assert forall|j: int| 0 <= j < a implies line[j] != 44 by {
        assert(line[j] == first[j]);
    }
    assert(line[a] == 44);
    lemma_found_at(line, 44, 0, a);
    assert forall|j: int| a + 1 <= j < b implies line[j] != 44 by {
        assert(line[j] == second[j - a - 1]);
    }
    assert(line[b] == 44);
    lemma_found_at(line, 44, a + 1, b);
    assert forall|j: int| b + 1 <= j < n implies line[j] != 44 by {
        assert(line[j] == third[j - b - 1]);
    }
    lemma_found_at(line, 44, b + 1, n);
    assert(line.subrange(0, a) =~= first);
    assert(line.subrange(a + 1, b) =~= second);
    assert(line.subrange(b + 1, n) =~= third);
}

/// Writes a pose as a line of a path file: `x,y,theta` and an end of line,
/// with the position in metres to three places and the heading in radians
/// to six. The line is read back as the same pose.
pub fn write_line(sample: &Sample) -> (line: Vec<u8>)
    requires
        sample.wf(),
        -THETA_MAX <= sample.theta <= THETA_MAX,
    ensures
        line@ == line_of(*sample),
        sample_of(line@) == Some(*sample),
{
    let mut line: Vec<u8> = Vec::new();
    push_decimal(&mut line, sample.x, 3);
    line.push(44);
    push_decimal(&mut line, sample.y, 3);
    line.push(44);
    push_decimal(&mut line, sample.theta, 6);
    line.push(10);
    proof {
        assert(line@ =~= line_of(*sample));
        lemma_line_is_read(*sample);
    }
    line
}

/// Every pose of `samples` can be written: its position is in range, and
/// its heading within `THETA_MAX`.
pub open spec fn writable(samples: Seq<Sample>) -> bool {
    forall|i: int|
        0 <= i < samples.len() ==> (#[trigger] samples[i]).wf() && -THETA_MAX <= samples[i].theta
            <= THETA_MAX
}

/// What is read from `tail` is read from it also where it stands behind
/// `head`.
pub proof fn lemma_samples_behind(head: Seq<u8>, tail: Seq<u8>, pos: int)
    requires
        0 <= pos,
    ensures
        samples_from(head + tail, head.len() + pos) == samples_from(tail, pos),
    decreases tail.len() - pos,
{
    let text = head + tail;
    let h = head.len() as int;
    if pos < tail.len() {
        let end = find_from(tail, 10, pos);
        lemma_find_from(tail, 10, pos);
        assert forall|j: int| h + pos <= j < h + end implies text[j] != 10 by {
            assert(text[j] == tail[j - h]);
        }
        if end < tail.len() {
            assert(text[h + end] == tail[end]);
        }
        lemma_found_at(text, 10, h + pos, h + end);
        assert(text.subrange(h + pos, h + end) =~= tail.subrange(pos, end));
        if end < tail.len() {
            lemma_samples_behind(head, tail, end + 1);
        }
    }
}

/// What is read from a text that ends with a line, and from another text
/// behind it, is what is read from the one and then from the other.
pub proof fn lemma_samples_joined(head: Seq<u8>, tail: Seq<u8>, pos: int)
    requires
        0 <= pos <= head.len(),
        head.len() == 0 || head.last() == 10,
    ensures
        samples_from(head + tail, pos) == samples_from(head, pos) + samples_from(tail, 0),
    decreases head.len() - pos,
{
    let text = head + tail;
    let h = head.len() as int;
    if pos == h {
        lemma_samples_behind(head, tail, 0);
        assert(samples_from(head, pos) =~= Seq::<Sample>::empty());
        assert(samples_from(head, pos) + samples_from(tail, 0) =~= samples_from(tail, 0));
    } else {
        let end = find_from(head, 10, pos);
        lemma_find_from(head, 10, pos);
        assert(end < h) by {
            if end >= h {
                assert(head[h - 1] != 10);
            }
        }
        assert forall|j: int| pos <= j < end implies text[j] != 10 by {
            assert(text[j] == head[j]);
        }
        assert(text[end] == head[end]);
        lemma_found_at(text, 10, pos, end);
        assert(text.subrange(pos, end) =~= head.subrange(pos, end));
        lemma_samples_joined(head, tail, end + 1);
        let rest = samples_from(head, end + 1);
        match sample_of(head.subrange(pos, end)) {
            Some(sample) => {
                assert((seq![sample] + rest) + samples_from(tail, 0) =~= seq![sample] + (rest
                    + samples_from(tail, 0)));
            },
            None => {},
        }
    }
}

/// A path file that is written is read back as the poses it was written
/// from.
pub proof fn lemma_text_is_read(samples: Seq<Sample>)
    requires
        writable(samples),
    ensures
        samples_from(text_of(samples), 0) == samples,
        text_of(samples).len() == 0 || text_of(samples).last() == 10,
    decreases samples.len(),
{
    if samples.len() == 0 {
        assert(samples_from(text_of(samples), 0) =~= samples);
    } else {
        let front = samples.drop_last();
        let last = samples.last();
        assert(writable(front)) by {
            assert forall|i: int| 0 <= i < front.len() implies (#[trigger] front[i]).wf()
                && -THETA_MAX <= front[i].theta <= THETA_MAX by {
                assert(front[i] == samples[i]);
            }
        }
        lemma_text_is_read(front);
        lemma_samples_joined(text_of(front), line_of(last), 0);
        lemma_line_alone(last);
        assert(front + seq![last] =~= samples);
    }
}

/// Writes a path file: each pose on a line of its own. The file is read
/// back as the same poses.
pub fn write_path(samples: &[Sample]) -> (text: Vec<u8>)
    requires
        writable(samples@),
    ensures
        text@ == text_of(samples@),
        samples_from(text@, 0) == samples@,
{
    let mut text: Vec<u8> = Vec::new();
    let mut i: usize = 0;
    proof {
        assert(samples@.take(0) =~= Seq::<Sample>::empty());
    }
    while i < samples.len()
        invariant
            i <= samples@.len(),
            writable(samples@),
            text@ == text_of(samples@.take(i as int)),
        decreases samples@.len() - i,
    {
        let mut line = write_line(&samples[i]);
        let ghost before = text@;
        text.append(&mut line);
        proof {
            assert(samples@.take(i + 1).drop_last() =~= samples@.take(i as int));
            assert(samples@.take(i + 1).last() == samples@[i as int]);
        }
        i += 1;
    }
    proof {
        assert(samples@.take(i as int) =~= samples@);
        lemma_text_is_read(samples@);
    }
    text
}

} // verus!
