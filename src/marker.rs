//! Recognition of the progress markers that the encoder writes into its
//! diagnostic stream: `Duration: H:M:S` for the length of the input and
//! `time=H:M:S` for the position reached so far.
use vstd::prelude::*;
use vstd::std_specs::iter::IteratorSpec;

verus! {

/// An ASCII decimal digit.
pub open spec fn is_digit(c: char) -> bool {
    '0' <= c && c <= '9'
}

/// The value of one decimal digit.
pub open spec fn digit_value(c: char) -> nat {
    (c as nat - '0' as nat) as nat
}

/// The value of a run of decimal digits, most significant first.
pub open spec fn digits_value(s: Seq<char>) -> nat
    decreases s.len(),
{
    if s.len() == 0 {
        0
    } else {
        10 * digits_value(s.drop_last()) + digit_value(s.last())
    }
}

/// Where the run of digits that starts at `i` ends (`i` itself when there is none).
pub open spec fn run_end(s: Seq<char>, i: int) -> int
    decreases s.len() - i,
{
    if 0 <= i < s.len() && is_digit(s[i]) {
        run_end(s, i + 1)
    } else {
        i
    }
}

/// A clock `H:M:S` read at `i`: three non-empty runs of digits joined by
/// colons, each run taken whole. Gives the three values.
pub open spec fn clock_at(s: Seq<char>, i: int) -> Option<(nat, nat, nat)> {
    let e1 = run_end(s, i);
    let e2 = run_end(s, e1 + 1);
    let e3 = run_end(s, e2 + 1);
    if i < e1 && e1 < s.len() && s[e1] == ':' && e1 + 1 < e2 && e2 < s.len() && s[e2] == ':'
        && e2 + 1 < e3 {
        Some(
            (
                digits_value(s.subrange(i, e1)),
                digits_value(s.subrange(e1 + 1, e2)),
                digits_value(s.subrange(e2 + 1, e3)),
            ),
        )
    } else {
        None
    }
}

/// `tag` stands at `p`, directly followed by a clock.
pub open spec fn marker_at(s: Seq<char>, tag: Seq<char>, p: int) -> Option<(nat, nat, nat)> {
    if 0 <= p && p + tag.len() <= s.len() && s.subrange(p, p + tag.len()) == tag {
        clock_at(s, p + tag.len())
    } else {
        None
    }
}

/// The leftmost marker `tag H:M:S` of `s` at or after `p`.
pub open spec fn first_marker(s: Seq<char>, tag: Seq<char>, p: int) -> Option<(nat, nat, nat)>
    decreases s.len() - p,
{
    if p < 0 || p >= s.len() {
        None
    } else if marker_at(s, tag, p) is Some {
        marker_at(s, tag, p)
    } else {
        first_marker(s, tag, p + 1)
    }
}

/// Seconds in `H:M:S`.
pub open spec fn clock_seconds(c: (nat, nat, nat)) -> nat {
    c.0 * 3600 + c.1 * 60 + c.2
}

/// The seconds of a clock, where there is one and the count fits in a `u64`.
pub open spec fn seconds_of(c: Option<(nat, nat, nat)>) -> Option<u64> {
    match c {
        Some(c) => if clock_seconds(c) <= u64::MAX {
            Some(clock_seconds(c) as u64)
        } else {
            None
        },
        None => None,
    }
}

/// The tag in front of the total duration.
pub open spec fn duration_tag() -> Seq<char> {
    seq!['D', 'u', 'r', 'a', 't', 'i', 'o', 'n', ':', ' ']
}

/// The tag in front of the position reached.
pub open spec fn time_tag() -> Seq<char> {
    seq!['t', 'i', 'm', 'e', '=']
}

/// The total duration, in seconds, that a line announces.
pub open spec fn line_total(line: Seq<char>) -> Option<u64> {
    seconds_of(first_marker(line, duration_tag(), 0))
}

/// The position, in seconds, that a line announces.
pub open spec fn line_position(line: Seq<char>) -> Option<u64> {
    seconds_of(first_marker(line, time_tag(), 0))
}

/// What one line of diagnostic text says about progress.
pub struct LineMarkers {
    pub total: Option<u64>,
    pub position: Option<u64>,
}

/// The characters of `s`, in order.
pub fn chars_of(s: &str) -> (v: Vec<char>)
    ensures
        v@ == s@,
{
    broadcast use vstd::string::group_string_axioms;

    let mut it = s.chars();
    let mut v: Vec<char> = Vec::new();
    loop
        invariant
            it.obeys_prophetic_iter_laws(),
            v@ + it.remaining() == s@,
            it.decrease() is Some,
        ensures
            v@ == s@,
        decreases it.decrease()->0,
    {
        match it.next() {
            Some(c) => {
                v.push(c);
                assert(v@ + it.remaining() =~= s@);
            },
            None => {
                assert(v@ =~= s@);
                break ;
            },
        }
    }
    v
}


proof fn lemma_run_end_bounds(s: Seq<char>, i: int)
    requires
        0 <= i <= s.len(),
    ensures
        i <= run_end(s, i) <= s.len(),
        forall|k: int| i <= k < run_end(s, i) ==> is_digit(#[trigger] s[k]),
        run_end(s, i) < s.len() ==> !is_digit(s[run_end(s, i)]),
    decreases s.len() - i,
{
    if i < s.len() && is_digit(s[i]) {
        lemma_run_end_bounds(s, i + 1);
    }
}

/// A prefix of a run of digits is worth no more than the whole run.
proof fn lemma_prefix_value_le(s: Seq<char>, n: int)
    requires
        0 <= n <= s.len(),
    ensures
        digits_value(s.subrange(0, n)) <= digits_value(s),
    decreases s.len(),
{
    if n == s.len() {
        assert(s.subrange(0, n) =~= s);
    } else {
        assert(s.subrange(0, n) =~= s.drop_last().subrange(0, n));
        lemma_prefix_value_le(s.drop_last(), n);
    }
}

fn is_digit_char(c: char) -> (r: bool)
    ensures
        r == is_digit(c),
{
    '0' <= c && c <= '9'
}

fn run_end_of(s: &Vec<char>, i: usize) -> (e: usize)
    requires
        i <= s@.len(),
    ensures
        e == run_end(s@, i as int),
{
    let mut j: usize = i;
    while j < s.len() && is_digit_char(s[j])
        invariant
            i <= j <= s@.len(),
            run_end(s@, i as int) == run_end(s@, j as int),
        decreases s@.len() - j,
    {
        j = j + 1;
    }
    j
}

/// The value of the digits `s[from..to]`, or `None` where it exceeds a `u64`.
fn digits_to_u64(s: &Vec<char>, from: usize, to: usize) -> (r: Option<u64>)
    requires
        from <= to <= s@.len(),
        forall|k: int| from <= k < to ==> is_digit(#[trigger] s@[k]),
    ensures
        r == (if digits_value(s@.subrange(from as int, to as int)) <= u64::MAX {
            Some(digits_value(s@.subrange(from as int, to as int)) as u64)
        } else {
            None
        }),
{
    let mut acc: u64 = 0;
    let mut k: usize = from;
    assert(s@.subrange(from as int, from as int) =~= Seq::<char>::empty());
    while k < to
        invariant
            from <= k <= to <= s@.len(),
            forall|j: int| from <= j < to ==> is_digit(#[trigger] s@[j]),
            acc == digits_value(s@.subrange(from as int, k as int)),
        decreases to - k,
    {
        let ghost whole = s@.subrange(from as int, to as int);
        let ghost next = s@.subrange(from as int, k + 1);
        assert(next.drop_last() =~= s@.subrange(from as int, k as int));
        assert(next =~= whole.subrange(0, k + 1 - from));
        assert(is_digit(s@[k as int]));
        let d = (s[k] as u32 - '0' as u32) as u64;
        assert(d == digit_value(s@[k as int]));
        proof {
            lemma_prefix_value_le(whole, k + 1 - from);
        }
        match acc.checked_mul(10) {
            Some(t) => match t.checked_add(d) {
                Some(v) => {
                    acc = v;
                },
                None => {
                    return None;
                },
            },
            None => {
                return None;
            },
        }
        k = k + 1;
    }
    assert(s@.subrange(from as int, to as int) =~= s@.subrange(from as int, k as int));
    Some(acc)
}

/// Whether `tag` stands in `s` at `p`.
fn tag_at(s: &Vec<char>, tag: &Vec<char>, p: usize) -> (r: bool)
    requires
        p <= s@.len(),
    ensures
        r == (p + tag@.len() <= s@.len() && s@.subrange(p as int, p + tag@.len()) == tag@),
{
    if tag.len() > s.len() - p {
        return false;
    }
    let mut k: usize = 0;
    while k < tag.len()
        invariant
            p + tag@.len() <= s@.len() <= usize::MAX,
            k <= tag@.len(),
            forall|j: int| 0 <= j < k ==> s@[p + j] == tag@[j],
        decreases tag@.len() - k,
    {
        if s[p + k] != tag[k] {
            assert(s@.subrange(p as int, p + tag@.len())[k as int] != tag@[k as int]);
            return false;
        }
        k = k + 1;
    }
    assert(s@.subrange(p as int, p + tag@.len()) =~= tag@);
    true
}

/// Reads the clock at `i`: `None` where there is none, else its seconds
/// (`None` inside where they do not fit in a `u64`).
fn clock_seconds_at(s: &Vec<char>, i: usize) -> (r: Option<Option<u64>>)
    requires
        i <= s@.len(),
    ensures
        r is Some <==> clock_at(s@, i as int) is Some,
        r is Some ==> r->0 == seconds_of(clock_at(s@, i as int)),
{
    let e1 = run_end_of(s, i);
    proof {
        lemma_run_end_bounds(s@, i as int);
    }
    if !(i < e1 && e1 < s.len() && s[e1] == ':') {
        return None;
    }
    let e2 = run_end_of(s, e1 + 1);
    proof {
        lemma_run_end_bounds(s@, e1 + 1);
    }
    if !(e1 + 1 < e2 && e2 < s.len() && s[e2] == ':') {
        return None;
    }
    let e3 = run_end_of(s, e2 + 1);
    proof {
        lemma_run_end_bounds(s@, e2 + 1);
    }
    if !(e2 + 1 < e3) {
        return None;
    }
    let ghost c = clock_at(s@, i as int)->0;
    let h = digits_to_u64(s, i, e1);
    let m = digits_to_u64(s, e1 + 1, e2);
    let sec = digits_to_u64(s, e2 + 1, e3);
    assert(clock_seconds(c) >= c.0 && clock_seconds(c) >= c.1 && clock_seconds(c) >= c.2)
        by (nonlinear_arith)
        requires
            clock_seconds(c) == c.0 * 3600 + c.1 * 60 + c.2,
    ;
    let secs = match (h, m, sec) {
        (Some(h), Some(m), Some(sec)) => {
            assert(h as nat * 3600 + m as nat * 60 + sec as nat == clock_seconds(c));
            match h.checked_mul(3600) {
                Some(hs) => match m.checked_mul(60) {
                    Some(ms) => match hs.checked_add(ms) {
                        Some(t) => t.checked_add(sec),
                        None => None,
                    },
                    None => None,
                },
                None => None,
            }
        },
        _ => None,
    };
    Some(secs)
}

/// The seconds of the leftmost marker `tag H:M:S` in `s`.
fn first_marker_seconds(s: &Vec<char>, tag: &Vec<char>) -> (r: Option<u64>)
    ensures
        r == seconds_of(first_marker(s@, tag@, 0)),
{
    let mut p: usize = 0;
    while p < s.len()
        invariant
            p <= s@.len(),
            first_marker(s@, tag@, 0) == first_marker(s@, tag@, p as int),
        decreases s@.len() - p,
    {
        if tag_at(s, tag, p) {
            if let Some(secs) = clock_seconds_at(s, p + tag.len()) {
                return secs;
            }
        }
        p = p + 1;
    }
    None
}

/// Reads the progress markers of one line of diagnostic text: the leftmost
/// `Duration: H:M:S` gives the total and the leftmost `time=H:M:S` the
/// position, both in seconds. A line without a marker, or whose marker does not
/// fit in a `u64` once counted in seconds, gives `None` for it.
pub fn parse_line(line: &str) -> (r: LineMarkers)
    ensures
        r.total == line_total(line@),
        r.position == line_position(line@),
{
    let chars = chars_of(line);
    let duration: Vec<char> = vec!['D', 'u', 'r', 'a', 't', 'i', 'o', 'n', ':', ' '];
    let time: Vec<char> = vec!['t', 'i', 'm', 'e', '='];
    assert(duration@ =~= duration_tag());
    assert(time@ =~= time_tag());
    LineMarkers {
        total: first_marker_seconds(&chars, &duration),
        position: first_marker_seconds(&chars, &time),
    }
}

proof fn lemma_run_end_is(s: Seq<char>, i: int, j: int)
    requires
        0 <= i <= j <= s.len(),
        forall|k: int| i <= k < j ==> is_digit(#[trigger] s[k]),
        j == s.len() || !is_digit(s[j]),
    ensures
        run_end(s, i) == j,
    decreases j - i,
{
    if i < j {
        lemma_run_end_is(s, i + 1, j);
    }
}

/// Digits only, at least one.
pub open spec fn is_number(s: Seq<char>) -> bool {
    s.len() > 0 && forall|k: int| 0 <= k < s.len() ==> is_digit(#[trigger] s[k])
}

/// The line `Duration: H:M:S`.
pub open spec fn duration_line(h: Seq<char>, m: Seq<char>, s: Seq<char>) -> Seq<char> {
    duration_tag() + h + seq![':'] + m + seq![':'] + s
}

/// A line `Duration: H:M:S` announces `H*3600 + M*60 + S` seconds, for every
/// three runs of digits whose count fits in a `u64`.
pub proof fn lemma_duration_seconds(h: Seq<char>, m: Seq<char>, s: Seq<char>)
    requires
        is_number(h),
        is_number(m),
        is_number(s),
        digits_value(h) * 3600 + digits_value(m) * 60 + digits_value(s) <= u64::MAX,
    ensures
        line_total(duration_line(h, m, s)) == Some(
            (digits_value(h) * 3600 + digits_value(m) * 60 + digits_value(s)) as u64,
        ),
{
    let line = duration_line(h, m, s);
    let t = duration_tag();
    let a = t.len() as int;
    let e1 = a + h.len();
    let e2 = e1 + 1 + m.len();
    let e3 = e2 + 1 + s.len();
    assert(line.len() == e3);
    assert(line.subrange(0, a) =~= t);
    assert(line.subrange(a, e1) =~= h);
    assert(line.subrange(e1 + 1, e2) =~= m);
    assert(line.subrange(e2 + 1, e3) =~= s);
    assert(line[e1] == ':');
    assert(line[e2] == ':');
    assert forall|k: int| a <= k < e1 implies is_digit(#[trigger] line[k]) by {
        assert(line[k] == h[k - a]);
    }
    assert forall|k: int| e1 + 1 <= k < e2 implies is_digit(#[trigger] line[k]) by {
        assert(line[k] == m[k - e1 - 1]);
    }
    assert forall|k: int| e2 + 1 <= k < e3 implies is_digit(#[trigger] line[k]) by {
        assert(line[k] == s[k - e2 - 1]);
    }
    lemma_run_end_is(line, a, e1);
    lemma_run_end_is(line, e1 + 1, e2);
    lemma_run_end_is(line, e2 + 1, e3);
    assert(marker_at(line, t, 0) == Some((digits_value(h), digits_value(m), digits_value(s))));
}

} // verus!
