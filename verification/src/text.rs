//! Character-level helpers shared by pattern parsing and path resolution:
//! splitting a path on `/` separators and reading decimal unsigned integers.

use vstd::prelude::*;
use vstd::string::StrSliceExecFns;

verus! {

/// Length of the longest prefix of `s` that contains no `stop` character.
pub open spec fn scan_to(s: Seq<char>, stop: char) -> int
    decreases s.len(),
{
    if s.len() == 0 {
        0
    } else if s[0] == stop {
        0
    } else {
        1 + scan_to(s.drop_first(), stop)
    }
}

pub proof fn lemma_scan_to(s: Seq<char>, stop: char)
    ensures
        0 <= scan_to(s, stop) <= s.len(),
        forall|j: int| 0 <= j < scan_to(s, stop) ==> s[j] != stop,
        scan_to(s, stop) < s.len() ==> s[scan_to(s, stop)] == stop,
    decreases s.len(),
{
    if s.len() != 0 && s[0] != stop {
        lemma_scan_to(s.drop_first(), stop);
        assert forall|j: int| 0 <= j < scan_to(s, stop) implies s[j] != stop by {
            if j > 0 {
                assert(s.drop_first()[j - 1] != stop);
            }
        }
    }
}

/// The first `stop`-free run has length `k` exactly when the first `k`
/// characters avoid `stop` and the run is ended by `stop` or the end of `s`.
pub proof fn lemma_scan_to_is(s: Seq<char>, stop: char, k: int)
    requires
        0 <= k <= s.len(),
        forall|j: int| 0 <= j < k ==> s[j] != stop,
        k < s.len() ==> s[k] == stop,
    ensures
        scan_to(s, stop) == k,
    decreases s.len(),
{
    if s.len() != 0 && s[0] != stop {
        assert(k >= 1);
        lemma_scan_to_is(s.drop_first(), stop, k - 1);
    }
}

/// The `/`-separated segments of `s`: maximal non-empty runs of characters
/// other than `/`. Leading, trailing and repeated separators contribute no
/// segment, so a trailing slash names the same sequence as none.
pub open spec fn split_segs(s: Seq<char>) -> Seq<Seq<char>>
    decreases s.len(),
    via split_segs_decreases
{
    if s.len() == 0 {
        Seq::empty()
    } else if s[0] == '/' {
        split_segs(s.drop_first())
    } else {
        seq![s.take(scan_to(s, '/'))] + split_segs(s.skip(scan_to(s, '/')))
    }
}

#[via_fn]
proof fn split_segs_decreases(s: Seq<char>) {
    if s.len() != 0 && s[0] != '/' {
        lemma_scan_to(s, '/');
    }
}

pub proof fn lemma_split_segs_nonempty(s: Seq<char>)
    ensures
        forall|k: int| 0 <= k < split_segs(s).len() ==> split_segs(s)[k].len() > 0,
    decreases s.len(),
{
    if s.len() != 0 {
        if s[0] == '/' {
            lemma_split_segs_nonempty(s.drop_first());
            assert(split_segs(s) == split_segs(s.drop_first()));
            assert forall|k: int| 0 <= k < split_segs(s).len() implies split_segs(s)[k].len()
                > 0 by {
                assert(split_segs(s.drop_first())[k].len() > 0);
            }
        } else {
            lemma_scan_to(s, '/');
            lemma_split_segs_nonempty(s.skip(scan_to(s, '/')));
            let rest = split_segs(s.skip(scan_to(s, '/')));
            let head = s.take(scan_to(s, '/'));
            assert(split_segs(s) == seq![head] + rest);
            assert(head.len() == scan_to(s, '/') >= 1);
            assert forall|k: int| 0 <= k < split_segs(s).len() implies split_segs(s)[k].len()
                > 0 by {
                if k == 0 {
                    assert(split_segs(s)[0] == head);
                } else {
                    assert(split_segs(s)[k] == rest[k - 1]);
                }
            }
        }
    }
}

/// A separator at the front contributes nothing.
proof fn lemma_split_skip_sep(s: Seq<char>, i: int)
    requires
        0 <= i < s.len(),
        s[i] == '/',
    ensures
        split_segs(s.skip(i)) == split_segs(s.skip(i + 1)),
{
    assert(s.skip(i).drop_first() =~= s.skip(i + 1));
    assert(s.skip(i)[0] == '/');
}

/// A full run `[i, j)` of non-separator characters is the next segment.
proof fn lemma_split_run(s: Seq<char>, i: int, j: int)
    requires
        0 <= i < j <= s.len(),
        forall|k: int| i <= k < j ==> s[k] != '/',
        j < s.len() ==> s[j] == '/',
    ensures
        split_segs(s.skip(i)) == seq![s.subrange(i, j)] + split_segs(s.skip(j)),
{
    let t = s.skip(i);
    assert forall|k: int| 0 <= k < j - i implies t[k] != '/' by {
        assert(t[k] == s[k + i]);
    }
    lemma_scan_to_is(t, '/', j - i);
    assert(t[0] == s[i]);
    assert(t.take(j - i) =~= s.subrange(i, j));
    assert(t.skip(j - i) =~= s.skip(j));
}

/// Split `s` into its `/`-separated segments.
pub fn split_path(s: &str) -> (r: Vec<String>)
    ensures
        r@.map_values(|t: String| t@) =~= split_segs(s@),
{
    let n = s.unicode_len();
    let mut out: Vec<String> = Vec::new();
    let mut i: usize = 0;
    proof {
        assert(s@.skip(0) =~= s@);
        assert(out@.map_values(|t: String| t@) =~= Seq::<Seq<char>>::empty());
    }
    while i < n
        invariant
            i <= n,
            n == s@.len(),
            out@.map_values(|t: String| t@) + split_segs(s@.skip(i as int)) =~= split_segs(s@),
        decreases n - i,
    {
        if s.get_char(i) == '/' {
            proof {
                lemma_split_skip_sep(s@, i as int);
            }
            i = i + 1;
        } else {
            let start = i;
            let mut j = i + 1;
            while j < n && s.get_char(j) != '/'
                invariant
                    start < j <= n,
                    n == s@.len(),
                    forall|k: int| start <= k < j ==> s@[k] != '/',
                decreases n - j,
            {
                j = j + 1;
            }
            let seg = s.substring_char(start, j).to_owned();
            proof {
                lemma_split_run(s@, start as int, j as int);
                assert(out@.push(seg).map_values(|t: String| t@) =~= out@.map_values(
                    |t: String| t@,
                ).push(seg@));
            }
            out.push(seg);
            i = j;
        }
    }
    proof {
        assert(s@.skip(n as int) =~= Seq::<char>::empty());
    }
    out
}

/// A decimal digit.
pub open spec fn is_digit(c: char) -> bool {
    48 <= c as u32 <= 57
}

/// Numeric value of a digit character.
pub open spec fn digit_val(c: char) -> int {
    c as u32 - 48
}

pub open spec fn all_digits(s: Seq<char>) -> bool {
    forall|i: int| 0 <= i < s.len() ==> is_digit(s[i])
}

/// The unsigned value denoted by a digit sequence, most significant first.
pub open spec fn uint_of(s: Seq<char>) -> int
    decreases s.len(),
{
    if s.len() == 0 {
        0
    } else {
        uint_of(s.drop_last()) * 10 + digit_val(s.last())
    }
}

/// `s` denotes an unsigned integer that fits in `usize`: at least one digit,
/// only digits, value within range.
pub open spec fn is_uint_str(s: Seq<char>) -> bool {
    s.len() > 0 && all_digits(s) && uint_of(s) <= usize::MAX
}

pub proof fn lemma_uint_of_nonneg(s: Seq<char>)
    requires
        all_digits(s),
    ensures
        uint_of(s) >= 0,
    decreases s.len(),
{
    if s.len() > 0 {
        assert(all_digits(s.drop_last()));
        lemma_uint_of_nonneg(s.drop_last());
    }
}

/// Appending digits never decreases the denoted value.
pub proof fn lemma_uint_of_prefix(s: Seq<char>, a: int, b: int)
    requires
        0 <= a <= b <= s.len(),
        all_digits(s.take(b)),
    ensures
        uint_of(s.take(a)) <= uint_of(s.take(b)),
    decreases b - a,
{
    if a < b {
        let t = s.take(a + 1);
        assert(t.drop_last() =~= s.take(a));
        assert(all_digits(s.take(a)));
        lemma_uint_of_nonneg(s.take(a));
        assert(uint_of(t) == uint_of(s.take(a)) * 10 + digit_val(t.last()));
        assert(uint_of(s.take(a)) * 10 >= uint_of(s.take(a))) by (nonlinear_arith)
            requires
                uint_of(s.take(a)) >= 0,
        ;
        assert(is_digit(t.last()));
        lemma_uint_of_prefix(s, a + 1, b);
    }
}

/// Parse a decimal `usize`. Returns the denoted value exactly when `s` is a
/// well-formed in-range digit string, and nothing otherwise.
pub fn parse_usize(s: &str) -> (r: Option<usize>)
    ensures
        r == if is_uint_str(s@) {
            Some(uint_of(s@) as usize)
        } else {
            None::<usize>
        },
{
    let n = s.unicode_len();
    if n == 0 {
        return None;
    }
    let mut acc: usize = 0;
    let mut i: usize = 0;
    while i < n
        invariant
            i <= n,
            n == s@.len(),
            n > 0,
            all_digits(s@.take(i as int)),
            acc == uint_of(s@.take(i as int)),
        decreases n - i,
    {
        let c = s.get_char(i);
        let cu = c as u32;
        if cu < 48 || cu > 57 {
            return None;
        }
        let d = (cu - 48) as usize;
        if acc > (usize::MAX - d) / 10 {
            proof {
                if all_digits(s@) {
                    assert(s@.take(i as int + 1).drop_last() =~= s@.take(i as int));
                    assert(s@.take(i as int + 1).last() == s@[i as int]);
                    assert(uint_of(s@.take(i as int + 1)) == acc * 10 + d);
                    assert(acc >= (usize::MAX - d) / 10 + 1);
                    assert(((usize::MAX - d) / 10 + 1) * 10 > usize::MAX - d) by (nonlinear_arith);
                    assert(acc * 10 >= ((usize::MAX - d) / 10 + 1) * 10) by (nonlinear_arith)
                        requires
                            acc >= (usize::MAX - d) / 10 + 1,
                    ;
                    lemma_uint_of_prefix(s@, i as int + 1, n as int);
                    assert(s@.take(n as int) =~= s@);
                    assert(uint_of(s@) > usize::MAX);
                }
            }
            return None;
        }
        proof {
            assert(s@.take(i as int + 1).drop_last() =~= s@.take(i as int));
            assert(s@.take(i as int + 1).last() == s@[i as int]);
            assert(acc * 10 + d <= usize::MAX) by (nonlinear_arith)
                requires
                    acc <= (usize::MAX - d) / 10,
                    d <= 9,
            ;
        }
        acc = acc * 10 + d;
        i = i + 1;
    }
    proof {
        assert(s@.take(n as int) =~= s@);
    }
    Some(acc)
}

} // verus!
