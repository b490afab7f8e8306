//! A span of time, displayed the way paces and elapsed times are written:
//! `h:mm:ss`, `m:ss` or `s`, with tenths of a second when asked for.
use vstd::prelude::*;

verus! {

pub const NANOS_PER_SEC: u32 = 1_000_000_000;

pub const SECONDS_IN_MINUTE: u64 = 60;

pub const SECONDS_IN_HOUR: u64 = 3600;

/// A non-negative span of time: whole seconds and the nanoseconds beyond.
#[derive(Clone, Copy, Debug, PartialEq, Eq)]
pub struct Duration {
    pub secs: u64,
    pub nanos: u32,
}

impl View for Duration {
    type V = int;

    /// The span in nanoseconds.
    open spec fn view(&self) -> int {
        self.secs * NANOS_PER_SEC + self.nanos
    }
}

/// The digit `d` as a character.
pub open spec fn digit_char(d: int) -> char {
    if d == 0 { '0' }
    else if d == 1 { '1' }
    else if d == 2 { '2' }
    else if d == 3 { '3' }
    else if d == 4 { '4' }
    else if d == 5 { '5' }
    else if d == 6 { '6' }
    else if d == 7 { '7' }
    else if d == 8 { '8' }
    else { '9' }
}

/// The decimal digits of `n`, without leading zeros.
pub open spec fn decimal(n: nat) -> Seq<char>
    decreases n,
{
    if n < 10 {
        seq![digit_char(n as int)]
    } else {
        decimal(n / 10).push(digit_char((n % 10) as int))
    }
}

/// `n`, below a hundred, in at least two digits.
pub open spec fn two_digits(n: nat) -> Seq<char> {
    if n < 10 {
        seq!['0', digit_char(n as int)]
    } else {
        decimal(n)
    }
}

/// The text of a span of `secs` seconds and `tenths` tenths, before padding.
pub open spec fn duration_text(secs: nat, tenths: nat, precision: nat) -> Seq<char> {
    let hours = secs / 3600;
    let minutes = secs / 60 % 60;
    let seconds = secs % 60;
    let whole = if hours > 0 {
        decimal(hours) + seq![':'] + two_digits(minutes) + seq![':'] + two_digits(seconds)
    } else if minutes > 0 {
        decimal(minutes) + seq![':'] + two_digits(seconds)
    } else {
        decimal(seconds)
    };
    if tenths > 0 || precision > 0 {
        whole + seq!['.'] + decimal(tenths)
    } else {
        whole
    }
}

/// `s` right-aligned in a field of `width` characters.
pub open spec fn padded(s: Seq<char>, width: nat) -> Seq<char> {
    if s.len() < width {
        Seq::new((width - s.len()) as nat, |i: int| ' ') + s
    } else {
        s
    }
}

/// Relies on `String`'s `FromIterator<char>`: the string holds the characters
/// in order.
#[verifier::external_body]
pub(crate) fn string_from_chars(chars: Vec<char>) -> (r: String)
    ensures
        r@ == chars@,
{
    chars.into_iter().collect()
}

fn digit(d: u64) -> (c: char)
    requires
        d < 10,
    ensures
        c == digit_char(d as int),
{
    if d == 0 { '0' }
    else if d == 1 { '1' }
    else if d == 2 { '2' }
    else if d == 3 { '3' }
    else if d == 4 { '4' }
    else if d == 5 { '5' }
    else if d == 6 { '6' }
    else if d == 7 { '7' }
    else if d == 8 { '8' }
    else { '9' }
}

pub(crate) fn push_decimal(out: &mut Vec<char>, n: u64)
    ensures
        final(out)@ == old(out)@ + decimal(n as nat),
    decreases n,
{
    if n >= 10 {
        push_decimal(out, n / 10);
        out.push(digit(n % 10));
    } else {
        out.push(digit(n));
    }
}

pub(crate) fn push_two_digits(out: &mut Vec<char>, n: u64)
    ensures
        final(out)@ == old(out)@ + two_digits(n as nat),
{
    if n < 10 {
        out.push('0');
        out.push(digit(n));
    } else {
        push_decimal(out, n);
    }
}

impl Duration {
    /// The span is in normal form: fewer nanoseconds than make a second.
    pub open spec fn wf(&self) -> bool {
        self.nanos < NANOS_PER_SEC
    }

    /// `secs` seconds and `nanos` nanoseconds; whole seconds in `nanos`
    /// carry over into the seconds.
    pub fn new(secs: u64, nanos: u32) -> (r: Duration)
        requires
            secs + nanos / NANOS_PER_SEC <= u64::MAX,
        ensures
            r.wf(),
            r.secs == secs + nanos / NANOS_PER_SEC,
            r.nanos == nanos % NANOS_PER_SEC,
            r@ == secs * NANOS_PER_SEC + nanos,
    {
        Duration { secs: secs + (nanos / NANOS_PER_SEC) as u64, nanos: nanos % NANOS_PER_SEC }
    }

    /// `mins` minutes and `secs` seconds.
    pub fn new_min_sec(mins: u64, secs: u8) -> (r: Duration)
        requires
            mins * 60 + secs <= u64::MAX,
        ensures
            r.wf(),
            r.secs == mins * 60 + secs,
            r.nanos == 0,
    {
        Self::new_min_sec_tenths(mins, secs, 0)
    }

    /// `mins` minutes, `secs` seconds and `tenths` tenths of a second.
    pub fn new_min_sec_tenths(mins: u64, secs: u8, tenths: u8) -> (r: Duration)
        requires
            tenths <= 42,
            mins * 60 + secs + tenths / 10 <= u64::MAX,
        ensures
            r.wf(),
            r@ == (mins * 60 + secs) * NANOS_PER_SEC + tenths * 100_000_000,
    {
        assert(tenths * 100_000_000 / 1_000_000_000 == tenths / 10) by (nonlinear_arith)
            requires
                0 <= tenths <= 42,
        ;
        Self::new(mins * SECONDS_IN_MINUTE + secs as u64, tenths as u32 * 100_000_000)
    }

    /// A span of `total` nanoseconds.
    pub fn from_nanos(total: u128) -> (r: Duration)
        requires
            total / NANOS_PER_SEC as u128 <= u64::MAX,
        ensures
            r.wf(),
            r@ == total,
    {
        Duration {
            secs: (total / NANOS_PER_SEC as u128) as u64,
            nanos: (total % NANOS_PER_SEC as u128) as u32,
        }
    }

    /// The span in nanoseconds.
    pub fn as_nanos(&self) -> (r: u128)
        ensures
            r == self@,
    {
        assert(self.secs * 1_000_000_000 <= 0xFFFF_FFFF_FFFF_FFFF * 1_000_000_000) by (nonlinear_arith)
            requires
                self.secs <= 0xFFFF_FFFF_FFFF_FFFF,
        ;
        self.secs as u128 * NANOS_PER_SEC as u128 + self.nanos as u128
    }

    /// Whole seconds of the span.
    pub fn as_secs(&self) -> (r: u64)
        ensures
            r == self.secs,
    {
        self.secs
    }

    /// The text of the span right-aligned in `width` characters: `h:mm:ss`
    /// when it reaches an hour, `m:ss` when it reaches a minute, else `s`;
    /// followed by `.` and the tenth of a second when that is not zero or
    /// `precision` is.
    pub fn to_string_with(&self, width: usize, precision: usize) -> (r: String)
        requires
            self.wf(),
        ensures
            r@ == padded(
                duration_text(self.secs as nat, (self.nanos / 100_000_000) as nat, precision as nat),
                width as nat,
            ),
    {
        let all_secs = self.secs;
        let hours = all_secs / SECONDS_IN_HOUR;
        let minutes = all_secs / SECONDS_IN_MINUTE % SECONDS_IN_MINUTE;
        let seconds = all_secs % SECONDS_IN_MINUTE;
        let tenths = (self.nanos / 100_000_000) as u64;
        let mut text: Vec<char> = Vec::new();
        if hours > 0 {
            push_decimal(&mut text, hours);
            text.push(':');
            push_two_digits(&mut text, minutes);
            text.push(':');
            push_two_digits(&mut text, seconds);
        } else if minutes > 0 {
            push_decimal(&mut text, minutes);
            text.push(':');
            push_two_digits(&mut text, seconds);
        } else {
            push_decimal(&mut text, seconds);
        }
        if tenths > 0 || precision > 0 {
            text.push('.');
            push_decimal(&mut text, tenths);
        }
        let ghost body = text@;
        assert(body =~= duration_text(self.secs as nat, tenths as nat, precision as nat));
        let mut out: Vec<char> = Vec::new();
        let len = text.len();
        if len < width {
            let mut k: usize = 0;
            while k < width - len
                invariant
                    len < width,
                    k <= width - len,
                    out@ == Seq::new(k as nat, |i: int| ' '),
                decreases width - len - k,
            {
                out.push(' ');
                k = k + 1;
                assert(out@ =~= Seq::new(k as nat, |i: int| ' '));
            }
        }
        let mut k: usize = 0;
        let ghost pad = out@;
        while k < len
            invariant
                len == text@.len(),
                text@ == body,
                k <= len,
                out@ == pad + body.subrange(0, k as int),
            decreases len - k,
        {
            out.push(text[k]);
            k = k + 1;
            assert(out@ =~= pad + body.subrange(0, k as int));
        }
        assert(body.subrange(0, len as int) =~= body);
        string_from_chars(out)
    }
}

/// The sum of the spans in nanoseconds.
pub open spec fn total_nanos(ds: Seq<Duration>) -> int
    decreases ds.len(),
{
    if ds.len() == 0 {
        0
    } else {
        total_nanos(ds.drop_last()) + ds.last()@
    }
}

/// The mean of `ds`, rounded down to the nanosecond, or none for no spans.
/// The sum must stay within 128 bits of nanoseconds.
pub fn average(ds: &Vec<Duration>) -> (r: Option<Duration>)
    requires
        forall|i: int| 0 <= i < ds@.len() ==> (#[trigger] ds@[i]).wf(),
        total_nanos(ds@) <= u128::MAX,
    ensures
        ds@.len() == 0 <==> r is None,
        r matches Some(d) ==> d.wf() && d@ == total_nanos(ds@) / ds@.len() as int,
{
    if ds.len() == 0 {
        return None;
    }
    let mut total: u128 = 0;
    let mut k: usize = 0;
    while k < ds.len()
        invariant
            k <= ds@.len(),
            total == total_nanos(ds@.subrange(0, k as int)),
            total_nanos(ds@) <= u128::MAX,
        decreases ds@.len() - k,
    {
        proof {
            assert(ds@.subrange(0, k + 1).drop_last() =~= ds@.subrange(0, k as int));
            lemma_total_nanos_prefix(ds@, k + 1);
        }
        total = total + ds[k].as_nanos();
        k = k + 1;
    }
    proof {
        assert(ds@.subrange(0, ds@.len() as int) =~= ds@);
    }
    let mean = total / ds.len() as u128;
    proof {
        let n = ds@.len() as int;
        lemma_total_nanos_bound(ds@);
        vstd::arithmetic::div_mod::lemma_div_is_ordered(total as int, n * MAX_SPAN_NANOS, n);
        vstd::arithmetic::div_mod::lemma_div_by_multiple(MAX_SPAN_NANOS as int, n);
        assert(n * MAX_SPAN_NANOS == MAX_SPAN_NANOS * n) by (nonlinear_arith);
        vstd::arithmetic::div_mod::lemma_div_is_ordered(mean as int, MAX_SPAN_NANOS as int, 1_000_000_000);

    }
    Some(Duration::from_nanos(mean))
}

/// The longest span that a `Duration` in normal form holds, in nanoseconds.
pub const MAX_SPAN_NANOS: u128 = 18_446_744_073_709_551_615_999_999_999;

proof fn lemma_total_nanos_bound(ds: Seq<Duration>)
    requires
        forall|i: int| 0 <= i < ds.len() ==> (#[trigger] ds[i]).wf(),
    ensures
        total_nanos(ds) <= ds.len() * MAX_SPAN_NANOS,
    decreases ds.len(),
{
    if ds.len() > 0 {
        assert forall|i: int| 0 <= i < ds.drop_last().len() implies (#[trigger] ds.drop_last()[i]).wf() by {
            assert(ds.drop_last()[i] == ds[i]);
        }
        lemma_total_nanos_bound(ds.drop_last());
        assert(ds[ds.len() - 1].wf());
        assert(ds.last().secs * 1_000_000_000 <= 0xFFFF_FFFF_FFFF_FFFF * 1_000_000_000) by (nonlinear_arith)
            requires
                ds.last().secs <= 0xFFFF_FFFF_FFFF_FFFF,
        ;
        assert((ds.len() - 1) * MAX_SPAN_NANOS + MAX_SPAN_NANOS == ds.len() * MAX_SPAN_NANOS) by (nonlinear_arith);
    }
}

proof fn lemma_total_nanos_prefix(ds: Seq<Duration>, k: int)
    requires
        0 <= k <= ds.len(),
    ensures
        0 <= total_nanos(ds.subrange(0, k)) <= total_nanos(ds),
    decreases ds.len(),
{
    if k < ds.len() {
        assert(ds.drop_last().subrange(0, k) =~= ds.subrange(0, k));
        lemma_total_nanos_prefix(ds.drop_last(), k);
    } else {
        assert(ds.subrange(0, k) =~= ds);
        lemma_total_nanos_nonnegative(ds);
    }
}

proof fn lemma_total_nanos_nonnegative(ds: Seq<Duration>)
    ensures
        total_nanos(ds) >= 0,
    decreases ds.len(),
{
    if ds.len() > 0 {
        lemma_total_nanos_nonnegative(ds.drop_last());
    }
}

} // verus!
