use vstd::prelude::*;
use vstd::slice::slice_subrange;

verus! {

pub const NEWLINE: u8 = 10;

pub const EQUALS: u8 = 61;

pub const UNIT_M: u8 = 109;

pub const UNIT_S: u8 = 115;

pub open spec fn is_ascii_digit(b: u8) -> bool {
    48 <= b && b <= 57
}

/// `needle` occurs in `hay` starting at position `i`.
pub open spec fn contains_at(hay: Seq<u8>, i: int, needle: Seq<u8>) -> bool {
    &&& 0 <= i
    &&& i + needle.len() <= hay.len()
    &&& hay.subrange(i, i + needle.len()) == needle
}

/// `needle` occurs somewhere in `hay` as a contiguous run of bytes.
pub open spec fn contains_seq(hay: Seq<u8>, needle: Seq<u8>) -> bool {
    exists|i: int| contains_at(hay, i, needle)
}

/// `raw[s..e]` is one whole line of `raw`: bounded by the start of the text,
/// newline bytes, or the end of the text, and holding no newline itself.
pub open spec fn is_line(raw: Seq<u8>, s: int, e: int) -> bool {
    &&& 0 <= s <= e <= raw.len()
    &&& (s == 0 || raw[s - 1] == NEWLINE)
    &&& (e == raw.len() || raw[e] == NEWLINE)
    &&& forall|k: int| s <= k < e ==> raw[k] != NEWLINE
}

/// Within `line`, an equals sign at `eq` is followed by one or more ASCII
/// digits and then the unit `ms` starting at `j`.
pub open spec fn sample_at(line: Seq<u8>, eq: int, j: int) -> bool {
    &&& 0 <= eq
    &&& eq + 2 <= j
    &&& j + 2 <= line.len()
    &&& line[eq] == EQUALS
    &&& forall|k: int| eq < k < j ==> is_ascii_digit(line[k])
    &&& line[j] == UNIT_M
    &&& line[j + 1] == UNIT_S
}

/// The number a run of ASCII digits denotes, read in decimal.
pub open spec fn digits_val(ds: Seq<u8>) -> nat
    decreases ds.len(),
{
    if ds.len() == 0 {
        0
    } else {
        digits_val(ds.drop_last()) * 10 + (ds.last() - 48) as nat
    }
}

/// The millisecond count of the sample whose digits run from `eq + 1` to `j`.
pub open spec fn sample_val(line: Seq<u8>, eq: int, j: int) -> nat {
    digits_val(line.subrange(eq + 1, j))
}

/// Saturate a mathematical sample to the widest value the executable code
/// carries.
pub open spec fn clamp_u64(v: nat) -> u64 {
    if v <= u64::MAX {
        v as u64
    } else {
        u64::MAX
    }
}

/// One millisecond sample of `raw` attributable to the target `addr`: it sits
/// at `eq`/`j` of the line `raw[s..e]`, and that line contains the target
/// address, so the sample is not a reading for some other host.
pub open spec fn attributed_sample(
    raw: Seq<u8>,
    addr: Seq<u8>,
    s: int,
    e: int,
    eq: int,
    j: int,
) -> bool {
    &&& is_line(raw, s, e)
    &&& contains_seq(raw.subrange(s, e), addr)
    &&& sample_at(raw.subrange(s, e), eq, j)
}

pub open spec fn has_attributed_sample(raw: Seq<u8>, addr: Seq<u8>) -> bool {
    exists|s: int, e: int, eq: int, j: int|
        #[trigger] attributed_sample(raw, addr, s, e, eq, j)
}

/// What `parse` returns: nothing when no sample is attributable to the
/// target, and otherwise the least attributable sample, saturated to `u64`.
pub open spec fn parse_post(raw: Seq<u8>, addr: Seq<u8>, r: Option<u64>) -> bool {
    match r {
        None => !has_attributed_sample(raw, addr),
        Some(w) => {
            &&& exists|s: int, e: int, eq: int, j: int|
                #[trigger] attributed_sample(raw, addr, s, e, eq, j)
                    && clamp_u64(sample_val(raw.subrange(s, e), eq, j)) == w
            &&& forall|s: int, e: int, eq: int, j: int|
                #[trigger] attributed_sample(raw, addr, s, e, eq, j)
                    ==> clamp_u64(sample_val(raw.subrange(s, e), eq, j)) >= w
        },
    }
}

/// Two lines that end at the same position start at the same position.
proof fn lemma_line_unique(raw: Seq<u8>, s1: int, e1: int, s2: int, e2: int)
    requires
        is_line(raw, s1, e1),
        is_line(raw, s2, e2),
        e1 == e2,
    ensures
        s1 == s2,
{
    if s1 < s2 {
        assert(raw[s2 - 1] == NEWLINE);
        assert(s1 <= s2 - 1 < e1);
        assert(raw[s2 - 1] != NEWLINE);
    } else if s2 < s1 {
        assert(raw[s1 - 1] == NEWLINE);
        assert(s2 <= s1 - 1 < e2);
        assert(raw[s1 - 1] != NEWLINE);
    }
}

/// `needle` occurs at `i` in `hay`.
fn match_at(hay: &[u8], needle: &[u8], i: usize) -> (r: bool)
    requires
        i + needle@.len() <= hay@.len(),
    ensures
        r == contains_at(hay@, i as int, needle@),
{
    let n = needle.len();
    let hlen = hay.len();
    let mut k: usize = 0;
    while k < n
        invariant
            n == needle@.len(),
            hlen == hay@.len(),
            i + n <= hlen,
            k <= n,
            forall|q: int| 0 <= q < k ==> hay@[i + q] == needle@[q],
        decreases n - k,
    {
        if hay[i + k] != needle[k] {
            proof {
                assert(hay@.subrange(i as int, i + needle@.len())[k as int] == hay@[i + k]);
            }
            return false;
        }
        k += 1;
    }
    proof {
        assert(hay@.subrange(i as int, i + needle@.len()) =~= needle@);
    }
    true
}

/// Whether `needle` occurs anywhere in `hay` as a contiguous run of bytes.
pub fn contains_subslice(hay: &[u8], needle: &[u8]) -> (r: bool)
    ensures
        r == contains_seq(hay@, needle@),
{
    if needle.len() > hay.len() {
        return false;
    }
    if needle.len() == 0 {
        proof {
            assert(hay@.subrange(0, 0) =~= needle@);
            assert(contains_at(hay@, 0, needle@));
        }
        return true;
    }
    let stop = hay.len() - needle.len() + 1;
    let mut i: usize = 0;
    while i < stop
        invariant
            0 < needle@.len() <= hay@.len(),
            stop == hay@.len() - needle@.len() + 1,
            stop <= hay@.len(),
            i <= stop,
            forall|p: int| 0 <= p < i ==> !contains_at(hay@, p, needle@),
        decreases stop - i,
    {
        if match_at(hay, needle, i) {
            return true;
        }
        i += 1;
    }
    false
}

proof fn lemma_digits_val_push(s: Seq<u8>, b: u8)
    requires
        is_ascii_digit(b),
    ensures
        digits_val(s.push(b)) == digits_val(s) * 10 + (b - 48),
{
    assert(s.push(b).drop_last() =~= s);
    assert(s.push(b).last() == b);
}

fn digit_byte(b: u8) -> (r: bool)
    ensures
        r == is_ascii_digit(b),
{
    48 <= b && b <= 57
}

/// The decimal value of the digit run `line[d..j]`, saturated to `u64`.
fn digits_to_ms(line: &[u8], d: usize, j: usize) -> (r: u64)
    requires
        d <= j <= line@.len(),
        forall|k: int| d <= k < j ==> is_ascii_digit(line@[k]),
    ensures
        r == clamp_u64(digits_val(line@.subrange(d as int, j as int))),
{
    let mut acc: u64 = 0;
    let mut k: usize = d;
    proof {
        assert(line@.subrange(d as int, d as int) =~= Seq::<u8>::empty());
    }
    while k < j
        invariant
            d <= k <= j <= line@.len(),
            forall|q: int| d <= q < j ==> is_ascii_digit(line@[q]),
            acc == clamp_u64(digits_val(line@.subrange(d as int, k as int))),
        decreases j - k,
    {
        let dig = (line[k] - 48) as u64;
        proof {
            assert(line@.subrange(d as int, k as int + 1) =~= line@.subrange(
                d as int,
                k as int,
            ).push(line@[k as int]));
            lemma_digits_val_push(line@.subrange(d as int, k as int), line@[k as int]);
        }
        let ghost v = digits_val(line@.subrange(d as int, k as int));
        let ghost v2 = digits_val(line@.subrange(d as int, k as int + 1));
        if acc <= (u64::MAX - dig) / 10 {
            proof {
                assert(acc * 10 + dig <= u64::MAX) by (nonlinear_arith)
                    requires
                        acc <= (u64::MAX - dig) / 10,
                        dig <= 9,
                ;
                assert((u64::MAX - dig) / 10 < u64::MAX) by (nonlinear_arith)
                    requires
                        dig <= 9,
                ;
                assert(v <= u64::MAX);
                assert(v2 == acc * 10 + dig);
            }
            acc = acc * 10 + dig;
        } else {
            proof {
                if v <= u64::MAX {
                    assert(v * 10 + dig > u64::MAX) by (nonlinear_arith)
                        requires
                            v > (u64::MAX - dig) / 10,
                            dig <= 9,
                    ;
                } else {
                    assert(v * 10 + dig > u64::MAX) by (nonlinear_arith)
                        requires
                            v > u64::MAX,
                    ;
                }
                assert(v2 > u64::MAX);
            }
            acc = u64::MAX;
        }
        k += 1;
    }
    acc
}

/// The scan of one line up to position `bound`: `best` is the least sample
/// whose unit starts before `bound`, saturated, or `None` when there is none.
spec fn line_scan_post(line: Seq<u8>, bound: int, best: Option<u64>) -> bool {
    match best {
        None => forall|eq: int, j: int| j < bound ==> !#[trigger] sample_at(line, eq, j),
        Some(w) => {
            &&& exists|eq: int, j: int|
                j < bound && #[trigger] sample_at(line, eq, j) && clamp_u64(
                    sample_val(line, eq, j),
                ) == w
            &&& forall|eq: int, j: int|
                j < bound && #[trigger] sample_at(line, eq, j) ==> clamp_u64(
                    sample_val(line, eq, j),
                ) >= w
        },
    }
}

/// The least `=<digits>ms` sample on one line, saturated; `None` when the
/// line holds none.
fn line_min_sample(line: &[u8]) -> (r: Option<u64>)
    ensures
        line_scan_post(line@, line@.len() as int, r),
{
    let len = line.len();
    let mut best: Option<u64> = None;
    let mut j: usize = 0;
    while j < len
        invariant
            len == line@.len(),
            j <= len,
            line_scan_post(line@, j as int, best),
        decreases len - j,
    {
        let head_ok = j + 1 < len && line[j] == UNIT_M && line[j + 1] == UNIT_S && j >= 2
            && digit_byte(line[j - 1]);
        if head_ok {
            let mut d: usize = j - 1;
            while d > 0 && digit_byte(line[d - 1])
                invariant
                    2 <= j,
                    d <= j - 1,
                    j < len == line@.len(),
                    forall|q: int| d <= q < j ==> is_ascii_digit(line@[q]),
                decreases d,
            {
                d -= 1;
            }
            if d > 0 && line[d - 1] == EQUALS {
                let v = digits_to_ms(line, d, j);
                proof {
                    assert(sample_at(line@, d as int - 1, j as int));
                    assert forall|eq: int| #[trigger] sample_at(line@, eq, j as int) implies eq
                        == d as int - 1 by {
                        if eq < d as int - 1 {
                            assert(is_ascii_digit(line@[d as int - 1]));
                        } else if eq > d as int - 1 {
                            assert(is_ascii_digit(line@[eq]));
                        }
                    }
                    assert(sample_val(line@, d as int - 1, j as int) == digits_val(
                        line@.subrange(d as int, j as int),
                    ));
                }
                best = match best {
                    None => Some(v),
                    Some(b) => if v < b {
                        Some(v)
                    } else {
                        Some(b)
                    },
                };
            } else {
                proof {
                    assert forall|eq: int| !#[trigger] sample_at(line@, eq, j as int) by {
                        if sample_at(line@, eq, j as int) {
                            if eq < d as int - 1 {
                                assert(is_ascii_digit(line@[d as int - 1]));
                            } else if eq > d as int - 1 {
                                assert(is_ascii_digit(line@[eq]));
                            }
                        }
                    }
                }
            }
        } else {
            proof {
                assert forall|eq: int| !#[trigger] sample_at(line@, eq, j as int) by {
                    if sample_at(line@, eq, j as int) {
                        assert(is_ascii_digit(line@[j as int - 1]));
                    }
                }
            }
        }
        j += 1;
    }
    best
}

/// The scan of the whole text up to `bound`: `best` is the least attributed
/// sample on the lines that end before `bound`, or `None` when there is none.
spec fn bounded_scan_post(raw: Seq<u8>, addr: Seq<u8>, bound: int, best: Option<u64>) -> bool {
    match best {
        None => forall|s: int, e: int, eq: int, j: int|
            e < bound ==> !#[trigger] attributed_sample(raw, addr, s, e, eq, j),
        Some(w) => {
            &&& exists|s: int, e: int, eq: int, j: int|
                e < bound && #[trigger] attributed_sample(raw, addr, s, e, eq, j) && clamp_u64(
                    sample_val(raw.subrange(s, e), eq, j),
                ) == w
            &&& forall|s: int, e: int, eq: int, j: int|
                e < bound && #[trigger] attributed_sample(raw, addr, s, e, eq, j) ==> clamp_u64(
                    sample_val(raw.subrange(s, e), eq, j),
                ) >= w
        },
    }
}

/// Fold the samples of the line `raw[ls..le]` into the running minimum.
fn absorb_line(best: Option<u64>, address: &[u8], raw: &[u8], ls: usize, le: usize) -> (r: Option<
    u64,
>)
    requires
        ls <= le <= raw@.len(),
        is_line(raw@, ls as int, le as int),
        bounded_scan_post(raw@, address@, ls as int, best),
    ensures
        bounded_scan_post(raw@, address@, le as int + 1, r),
{
    let line = slice_subrange(raw, ls, le);
    let mut result = best;
    let referenced = contains_subslice(line, address);
    let ghost mut line_best: Option<u64> = None;
    if referenced {
        match line_min_sample(line) {
            Some(v) => {
                proof {
                    line_best = Some(v);
                }
                result =
                match best {
                    None => Some(v),
                    Some(b) => if v < b {
                        Some(v)
                    } else {
                        Some(b)
                    },
                };
            },
            None => {
            },
        }
    }
    proof {
        // Every line that ends inside `[ls, le]` is this very line.
        assert forall|s: int, e: int, eq: int, j: int|
            e < le as int + 1 && #[trigger] attributed_sample(raw@, address@, s, e, eq, j) implies (
        e < ls as int || (s == ls as int && e == le as int)) by {
            if ls as int <= e {
                if e < le as int {
                    assert(raw@[e] == NEWLINE);
                    assert(raw@[e] != NEWLINE);
                }
                lemma_line_unique(raw@, s, e, ls as int, le as int);
            }
        }
        if referenced && line_best is Some {
            let v = line_best->Some_0;
            let (eq0, j0) = choose|eq: int, j: int|
                j < line@.len() as int && #[trigger] sample_at(line@, eq, j) && clamp_u64(
                    sample_val(line@, eq, j),
                ) == v;
            assert(attributed_sample(raw@, address@, ls as int, le as int, eq0, j0));
        } else {
            // No sample of this line is attributable to the target.
            assert forall|eq: int, j: int| !(#[trigger] sample_at(line@, eq, j) && contains_seq(
                line@,
                address@,
            )) by {
                if sample_at(line@, eq, j) && contains_seq(line@, address@) {
                    assert(referenced);
                    assert(j < line@.len() as int);
                    assert(line_best is None);
                }
            }
        }
    }
    result
}

/// Extract the latency of a probe's raw output, attributed to `address`:
/// the least `=<digits>ms` sample on the lines that contain the target
/// address as a substring, in whole milliseconds (saturated to `u64`), or
/// `None` when no line mentions the target or none carries such a sample.
pub fn parse(address: &[u8], raw: &[u8]) -> (r: Option<u64>)
    ensures
        parse_post(raw@, address@, r),
{
    let len = raw.len();
    let mut best: Option<u64> = None;
    let mut line_start: usize = 0;
    let mut i: usize = 0;
    while i < len
        invariant
            len == raw@.len(),
            line_start <= i <= len,
            line_start == 0 || raw@[line_start as int - 1] == NEWLINE,
            forall|k: int| line_start <= k < i ==> raw@[k] != NEWLINE,
            bounded_scan_post(raw@, address@, line_start as int, best),
        decreases len - i,
    {
        if raw[i] == NEWLINE {
            best = absorb_line(best, address, raw, line_start, i);
            line_start = i + 1;
        }
        i += 1;
    }
    best = absorb_line(best, address, raw, line_start, len);
    proof {
        assert forall|s: int, e: int, eq: int, j: int|
            #[trigger] attributed_sample(raw@, address@, s, e, eq, j) implies e < raw@.len() as int
            + 1 by {
        }
    }
    best
}

/// A raw output none of whose lines mentions the target yields no sample,
/// whatever the lines otherwise hold.
pub proof fn lemma_no_reference_no_sample(raw: Seq<u8>, addr: Seq<u8>)
    requires
        forall|s: int, e: int| #[trigger] is_line(raw, s, e) ==> !contains_seq(
            raw.subrange(s, e),
            addr,
        ),
    ensures
        !has_attributed_sample(raw, addr),
{
    if has_attributed_sample(raw, addr) {
        let (s, e, eq, j) = choose|s: int, e: int, eq: int, j: int|
            #[trigger] attributed_sample(raw, addr, s, e, eq, j);
        assert(is_line(raw, s, e));
    }
}

/// A raw output none of whose lines mentions the target parses to absent:
/// not zero and not an error, the normal outcome for an unreachable host.
pub proof fn lemma_no_reference_parses_absent(raw: Seq<u8>, addr: Seq<u8>, r: Option<u64>)
    requires
        forall|s: int, e: int| #[trigger] is_line(raw, s, e) ==> !contains_seq(
            raw.subrange(s, e),
            addr,
        ),
        parse_post(raw, addr, r),
    ensures
        r is None,
{
    lemma_no_reference_no_sample(raw, addr);
    if r is Some {
        let (s, e, eq, j) = choose|s: int, e: int, eq: int, j: int|
            #[trigger] attributed_sample(raw, addr, s, e, eq, j) && clamp_u64(
                sample_val(raw.subrange(s, e), eq, j),
            ) == r->Some_0;
        assert(has_attributed_sample(raw, addr));
    }
}

/// When exactly one sample is attributable to the target, `parse` returns
/// exactly that sample's millisecond count.
pub proof fn lemma_single_sample_value(
    raw: Seq<u8>,
    addr: Seq<u8>,
    s: int,
    e: int,
    eq: int,
    j: int,
    r: Option<u64>,
)
    requires
        attributed_sample(raw, addr, s, e, eq, j),
        forall|s2: int, e2: int, eq2: int, j2: int|
            #[trigger] attributed_sample(raw, addr, s2, e2, eq2, j2) ==> s2 == s && e2 == e && eq2
                == eq && j2 == j,
        parse_post(raw, addr, r),
    ensures
        r == Some(clamp_u64(sample_val(raw.subrange(s, e), eq, j))),
{
    assert(has_attributed_sample(raw, addr));
    let w = r->Some_0;
    let (s2, e2, eq2, j2) = choose|s2: int, e2: int, eq2: int, j2: int|
        #[trigger] attributed_sample(raw, addr, s2, e2, eq2, j2) && clamp_u64(
            sample_val(raw.subrange(s2, e2), eq2, j2),
        ) == w;
}

/// The contract of `parse` admits exactly one result for a given input, so
/// parsing is a pure function of the text and the target: two runs on the
/// same input return the same value.
pub proof fn lemma_parse_deterministic(
    raw: Seq<u8>,
    addr: Seq<u8>,
    r1: Option<u64>,
    r2: Option<u64>,
)
    requires
        parse_post(raw, addr, r1),
        parse_post(raw, addr, r2),
    ensures
        r1 == r2,
{
    match (r1, r2) {
        (Some(w1), Some(w2)) => {
            let (s1, e1, eq1, j1) = choose|s: int, e: int, eq: int, j: int|
                #[trigger] attributed_sample(raw, addr, s, e, eq, j) && clamp_u64(
                    sample_val(raw.subrange(s, e), eq, j),
                ) == w1;
            let (s2, e2, eq2, j2) = choose|s: int, e: int, eq: int, j: int|
                #[trigger] attributed_sample(raw, addr, s, e, eq, j) && clamp_u64(
                    sample_val(raw.subrange(s, e), eq, j),
                ) == w2;
            assert(w1 >= w2 && w2 >= w1);
        },
        (Some(w1), None) => {
            let (s1, e1, eq1, j1) = choose|s: int, e: int, eq: int, j: int|
                #[trigger] attributed_sample(raw, addr, s, e, eq, j) && clamp_u64(
                    sample_val(raw.subrange(s, e), eq, j),
                ) == w1;
            assert(has_attributed_sample(raw, addr));
        },
        (None, Some(w2)) => {
            let (s2, e2, eq2, j2) = choose|s: int, e: int, eq: int, j: int|
                #[trigger] attributed_sample(raw, addr, s, e, eq, j) && clamp_u64(
                    sample_val(raw.subrange(s, e), eq, j),
                ) == w2;
            assert(has_attributed_sample(raw, addr));
        },
        (None, None) => {
        },
    }
}

} // verus!
