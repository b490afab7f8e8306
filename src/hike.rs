//! Transitions between consecutive hikes of a multi-part event: the time from
//! the end of one hike to the start of the next.
use vstd::prelude::*;
use crate::duration::{decimal, two_digits, push_decimal, push_two_digits, string_from_chars};

verus! {

/// A hike whose recorded end is replaced: it lasted `duration_ms`
/// milliseconds from its first sample. `hike_index` counts from zero.
#[derive(Clone, Copy, Debug, PartialEq, Eq)]
pub struct DurationOverride {
    pub hike_index: u8,
    pub duration_ms: i64,
}

/// The first override in `ds` for hike `i`.
pub open spec fn override_for(ds: Seq<DurationOverride>, i: u8) -> Option<DurationOverride>
    decreases ds.len(),
{
    if ds.len() == 0 {
        None
    } else if ds[0].hike_index == i {
        Some(ds[0])
    } else {
        override_for(ds.drop_first(), i)
    }
}

/// The end of hike `i`, which started at `start`, as the first override for it
/// gives it; none when no override names it.
pub fn alternate_stop(start: i64, durations: &Vec<DurationOverride>, i: u8) -> (r: Option<i64>)
    requires
        match override_for(durations@, i) {
            Some(d) => i64::MIN <= start + d.duration_ms <= i64::MAX,
            None => true,
        },
    ensures
        r == match override_for(durations@, i) {
            Some(d) => Some((start + d.duration_ms) as i64),
            None => None,
        },
{
    let mut k: usize = 0;
    assert(durations@.subrange(0, durations@.len() as int) =~= durations@);
    while k < durations.len()
        invariant
            k <= durations@.len(),
            override_for(durations@, i) == override_for(durations@.subrange(k as int, durations@.len() as int), i),
            match override_for(durations@, i) {
                Some(d) => i64::MIN <= start + d.duration_ms <= i64::MAX,
                None => true,
            },
        decreases durations@.len() - k,
    {
        let ghost rest = durations@.subrange(k as int, durations@.len() as int);
        assert(rest.drop_first() =~= durations@.subrange(k + 1, durations@.len() as int));
        assert(rest[0] == durations@[k as int]);
        if durations[k].hike_index == i {
            assert(override_for(durations@, i) == Some(durations@[k as int]));
            return Some(start + durations[k].duration_ms);
        }
        k = k + 1;
    }
    None
}

/// For each hike after the first, the milliseconds from the end of the hike
/// before it to its start; each hike is given as its start and end.
pub fn transitions(hikes: &Vec<(i64, i64)>) -> (r: Vec<i128>)
    ensures
        r@.len() == if hikes@.len() == 0 { 0 } else { hikes@.len() - 1 },
        forall|k: int| 0 <= k < r@.len() ==> r@[k] == hikes@[k + 1].0 - hikes@[k].1,
{
    let mut r: Vec<i128> = Vec::new();
    let mut k: usize = 1;
    while k < hikes.len()
        invariant
            1 <= k,
            hikes@.len() == 0 ==> k == 1,
            hikes@.len() > 0 ==> k <= hikes@.len(),
            r@.len() == k - 1,
            forall|q: int| 0 <= q < r@.len() ==> r@[q] == hikes@[q + 1].0 - hikes@[q].1,
        decreases hikes@.len() - k,
    {
        r.push(hikes[k].0 as i128 - hikes[k - 1].1 as i128);
        k = k + 1;
    }
    r
}

/// The part `n` of a clock text, with a minus sign when the span is negative
/// and the part is not zero.
pub open spec fn signed_part(n: nat, negative: bool, two: bool) -> Seq<char> {
    if negative && n > 0 {
        seq!['-'] + decimal(n)
    } else if two {
        two_digits(n)
    } else {
        decimal(n)
    }
}

/// A span of `secs` whole seconds as `h:mm:ss`. Hours, minutes and seconds
/// each keep the sign of the span, as truncating division gives them.
pub open spec fn clock_text_of(secs: int) -> Seq<char> {
    let a = if secs < 0 { -secs } else { secs };
    let negative = secs < 0;
    signed_part((a / 3600) as nat, negative, false) + seq![':'] + signed_part(
        (a % 3600 / 60) as nat,
        negative,
        true,
    ) + seq![':'] + signed_part((a % 60) as nat, negative, true)
}

fn push_signed_part(out: &mut Vec<char>, n: u64, negative: bool, two: bool)
    ensures
        final(out)@ == old(out)@ + signed_part(n as nat, negative, two),
{
    let ghost before = out@;
    if negative && n > 0 {
        out.push('-');
        push_decimal(out, n);
        assert(out@ =~= before + (seq!['-'] + decimal(n as nat)));
    } else if two {
        push_two_digits(out, n);
    } else {
        push_decimal(out, n);
    }
}

/// The text of a span of `secs` whole seconds as `h:mm:ss`.
pub fn clock_text(secs: i64) -> (r: String)
    ensures
        r@ == clock_text_of(secs as int),
{
    let negative = secs < 0;
    let a: u64 = if negative { (-(secs as i128)) as u64 } else { secs as u64 };
    let mut out: Vec<char> = Vec::new();
    push_signed_part(&mut out, a / 3600, negative, false);
    out.push(':');
    push_signed_part(&mut out, a % 3600 / 60, negative, true);
    out.push(':');
    push_signed_part(&mut out, a % 60, negative, true);
    assert(out@ =~= clock_text_of(secs as int));
    string_from_chars(out)
}

} // verus!
