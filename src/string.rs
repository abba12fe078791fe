//! C-style string routines on character slices. A NUL ends the text where
//! the routine says so; elsewhere the whole slice counts.
use vstd::prelude::*;

verus! {

/// Code of `c` with ASCII upper case letters taken to lower case.
pub open spec fn ascii_lower(c: char) -> int {
    if 65 <= c as u32 <= 90 {
        c as u32 + 32
    } else {
        c as u32 as int
    }
}

/// Code of `c` with ASCII lower case letters taken to upper case.
pub open spec fn ascii_upper(c: char) -> int {
    if 97 <= c as u32 <= 122 {
        c as u32 - 32
    } else {
        c as u32 as int
    }
}

/// Length of the text: the position of the first NUL, or the slice length.
pub open spec fn text_len(s: Seq<char>, n: int) -> bool {
    &&& 0 <= n <= s.len()
    &&& (n == s.len() || s[n] == '\0')
    &&& forall|j: int| 0 <= j < n ==> #[trigger] s[j] != '\0'
}

/// Length of the text in `s`: the position of its first NUL, or its length.
pub fn strlen(s: &[char]) -> (r: usize)
    ensures
        text_len(s@, r as int),
{
    let mut len: usize = 0;
    while len < s.len() && s[len] != '\0'
        invariant
            0 <= len <= s@.len(),
            forall|j: int| 0 <= j < len ==> #[trigger] s@[j] != '\0',
        decreases s@.len() - len,
    {
        len = len + 1;
    }
    len
}

/// `s1` with at most `count` characters of `src` written from position `at`
/// on, stopping at the end of `s1`.
pub open spec fn written(s1: Seq<char>, src: Seq<char>, at: int, count: int) -> Seq<char> {
    Seq::new(
        s1.len(),
        |k: int|
            if at <= k && k - at < count && k - at < src.len() {
                src[k - at]
            } else {
                s1[k]
            },
    )
}

fn write_from(s1: &mut [char], src: &[char], at: usize, count: usize)
    requires
        at <= old(s1)@.len(),
    ensures
        final(s1)@ == written(old(s1)@, src@, at as int, count as int),
{
    let mut i: usize = at;
    let mut j: usize = 0;
    while j < count && j < src.len() && i < s1.len()
        invariant
            i == at + j,
            j <= src@.len(),
            j <= count,
            at <= i <= s1@.len(),
            s1@.len() == old(s1)@.len(),
            forall|k: int|
                0 <= k < s1@.len() ==> #[trigger] s1@[k] == if at <= k < i {
                    src@[k - at]
                } else {
                    old(s1)@[k]
                },
        decreases s1@.len() - i,
    {
        s1[i] = src[j];
        i = i + 1;
        j = j + 1;
    }
    assert(s1@ =~= written(old(s1)@, src@, at as int, count as int));
}

/// Appends `s2` after the text in `s1`, as far as `s1` has room; returns
/// `s1`.
pub fn strcat<'a>(s1: &'a mut [char], s2: &[char]) -> (r: &'a mut [char])
    ensures
        exists|n: int| text_len(old(s1)@, n) && r@ == written(old(s1)@, s2@, n, s2@.len() as int),
        final(s1)@ == final(r)@,
{
    let n = strlen(s1);
    write_from(s1, s2, n, s2.len());
    s1
}

/// Appends at most `len` characters of `s2` after the text in `s1`, as far
/// as `s1` has room; returns `s1`.
pub fn strncat<'a>(s1: &'a mut [char], s2: &[char], len: usize) -> (r: &'a mut [char])
    ensures
        exists|n: int| text_len(old(s1)@, n) && r@ == written(old(s1)@, s2@, n, len as int),
        final(s1)@ == final(r)@,
{
    let n = strlen(s1);
    write_from(s1, s2, n, len);
    s1
}

/// Copies `s2` to the front of `s1` as far as it fits, then a NUL if there
/// is room; returns `s1`.
pub fn strcpy<'a>(s1: &'a mut [char], s2: &[char]) -> (r: &'a mut [char])
    ensures
        ({
            let m = if s2@.len() < old(s1)@.len() { s2@.len() as int } else { old(s1)@.len() as int };
            let w = written(old(s1)@, s2@, 0, m);
            r@ == if m < old(s1)@.len() { w.update(m, '\0') } else { w }
        }),
        final(s1)@ == final(r)@,
{
    let m = if s2.len() < s1.len() {
        s2.len()
    } else {
        s1.len()
    };
    write_from(s1, s2, 0, m);
    if m < s1.len() {
        s1[m] = '\0';
    }
    s1
}

/// Copies at most `len` characters of `s2` to the front of `s1`, then pads
/// with NULs up to `len` characters, all within `s1`; returns `s1`.
pub fn strncpy<'a>(s1: &'a mut [char], s2: &[char], len: usize) -> (r: &'a mut [char])
    ensures
        r@.len() == old(s1)@.len(),
        forall|k: int|
            0 <= k < r@.len() ==> #[trigger] r@[k] == if k < len && k < s2@.len() {
                s2@[k]
            } else if k < len {
                '\0'
            } else {
                old(s1)@[k]
            },
        final(s1)@ == final(r)@,
{
    let mut i: usize = 0;
    while i < len && i < s2.len() && i < s1.len()
        invariant
            0 <= i <= s1@.len(),
            i <= len,
            i <= s2@.len(),
            s1@.len() == old(s1)@.len(),
            forall|k: int| 0 <= k < s1@.len() ==> #[trigger] s1@[k] == if k < i { s2@[k] } else { old(s1)@[k] },
        decreases s1@.len() - i,
    {
        s1[i] = s2[i];
        i = i + 1;
    }
    let copied = i;
    while i < len && i < s1.len()
        invariant
            copied <= i <= s1@.len(),
            i <= len,
            copied == len || copied == s2@.len() || copied == s1@.len(),
            copied <= s2@.len(),
            copied <= len,
            s1@.len() == old(s1)@.len(),
            forall|k: int|
                0 <= k < s1@.len() ==> #[trigger] s1@[k] == if k < copied {
                    s2@[k]
                } else if k < i {
                    '\0'
                } else {
                    old(s1)@[k]
                },
        decreases s1@.len() - i,
    {
        s1[i] = '\0';
        i = i + 1;
    }
    s1
}

/// Code sequence of a character sequence.
pub open spec fn codes(s: Seq<char>) -> Seq<int> {
    Seq::new(s.len(), |i: int| s[i] as u32 as int)
}

/// Lower-cased code sequence of a character sequence.
pub open spec fn lower_codes(s: Seq<char>) -> Seq<int> {
    Seq::new(s.len(), |i: int| ascii_lower(s[i]))
}

/// Three-way comparison of code sequences `a` and `b` over at most `limit`
/// positions: at the first position below `limit` where they differ, the
/// difference of the codes; if none and both run on to `limit`, 0; else the
/// difference of the lengths.
pub open spec fn cmp_result(a: Seq<int>, b: Seq<int>, limit: int, r: int) -> bool {
    let m = if a.len() < b.len() { a.len() as int } else { b.len() as int };
    let stop = if limit < m { limit } else { m };
    if exists|i: int| 0 <= i < stop && a[i] != b[i] {
        exists|i: int|
            0 <= i < stop && a[i] != b[i] && (forall|j: int| 0 <= j < i ==> a[j] == b[j]) && r == a[i] - b[i]
    } else if stop < limit {
        r == a.len() - b.len()
    } else {
        r == 0
    }
}

fn compare_codes(s1: &[char], s2: &[char], limit: usize, fold: bool) -> (r: i32)
    requires
        s1@.len() <= i32::MAX,
        s2@.len() <= i32::MAX,
    ensures
        cmp_result(
            if fold { lower_codes(s1@) } else { codes(s1@) },
            if fold { lower_codes(s2@) } else { codes(s2@) },
            limit as int,
            r as int,
        ),
{
    let ghost a = if fold { lower_codes(s1@) } else { codes(s1@) };
    let ghost b = if fold { lower_codes(s2@) } else { codes(s2@) };
    let mut i: usize = 0;
    while i < limit && i < s1.len() && i < s2.len()
        invariant
            0 <= i <= s1@.len(),
            i <= s2@.len(),
            i <= limit,
            s1@.len() <= i32::MAX,
            s2@.len() <= i32::MAX,
            a == (if fold { lower_codes(s1@) } else { codes(s1@) }),
            b == (if fold { lower_codes(s2@) } else { codes(s2@) }),
            forall|j: int| 0 <= j < i ==> a[j] == b[j],
        decreases s1@.len() - i,
    {
        proof {
            vstd::utf8::char_is_scalar(s1@[i as int]);
            vstd::utf8::char_is_scalar(s2@[i as int]);
        }
        let c1: u32 = if fold {
            lower_code(s1[i])
        } else {
            s1[i] as u32
        };
        let c2: u32 = if fold {
            lower_code(s2[i])
        } else {
            s2[i] as u32
        };
        assert(a[i as int] == c1 && b[i as int] == c2);
        if c1 != c2 {
            proof {
                let m = if a.len() < b.len() { a.len() as int } else { b.len() as int };
                let stop = if (limit as int) < m { limit as int } else { m };
                assert(0 <= i < stop && a[i as int] != b[i as int] && (forall|j: int| 0 <= j < i ==> a[j] == b[j]));
            }
            return c1 as i32 - c2 as i32;
        }
        i = i + 1;
    }
    proof {
        let m = if a.len() < b.len() { a.len() as int } else { b.len() as int };
        let stop = if (limit as int) < m { limit as int } else { m };
        assert(stop == i);
        assert(!exists|k: int| 0 <= k < stop && a[k] != b[k]);
    }
    if i < limit {
        s1.len() as i32 - s2.len() as i32
    } else {
        0
    }
}

fn lower_code(c: char) -> (r: u32)
    ensures
        r == ascii_lower(c),
        r <= 0x10FFFF,
{
    let code = c as u32;
    if 65 <= code && code <= 90 {
        code + 32
    } else {
        code
    }
}

/// Compares `s1` and `s2`: the code difference at the first position where
/// they differ, else the difference of their lengths.
pub fn strcmp(s1: &[char], s2: &[char]) -> (r: i32)
    requires
        s1@.len() <= i32::MAX,
        s2@.len() <= i32::MAX,
    ensures
        cmp_result(codes(s1@), codes(s2@), i32::MAX as int + 1, r as int),
{
    let r = compare_codes(s1, s2, 0x8000_0000, false);
    r
}

/// `strcmp` with ASCII letters compared without regard to case.
pub fn strcasecmp(s1: &[char], s2: &[char]) -> (r: i32)
    requires
        s1@.len() <= i32::MAX,
        s2@.len() <= i32::MAX,
    ensures
        cmp_result(lower_codes(s1@), lower_codes(s2@), i32::MAX as int + 1, r as int),
{
    compare_codes(s1, s2, 0x8000_0000, true)
}

/// `strcmp` over at most the first `len` positions; 0 when those agree and
/// both slices reach that far.
pub fn strncmp(s1: &[char], s2: &[char], len: usize) -> (r: i32)
    requires
        s1@.len() <= i32::MAX,
        s2@.len() <= i32::MAX,
    ensures
        cmp_result(codes(s1@), codes(s2@), len as int, r as int),
{
    compare_codes(s1, s2, len, false)
}

/// `strncmp` with ASCII letters compared without regard to case.
pub fn strcasencmp(s1: &[char], s2: &[char], len: usize) -> (r: i32)
    requires
        s1@.len() <= i32::MAX,
        s2@.len() <= i32::MAX,
    ensures
        cmp_result(lower_codes(s1@), lower_codes(s2@), len as int, r as int),
{
    compare_codes(s1, s2, len, true)
}

/// Upper-cases the ASCII letters of the text in `s`; returns `s`.
pub fn strupr(s: &mut [char]) -> (r: &mut [char])
    ensures
        r@.len() == old(s)@.len(),
        exists|n: int|
            text_len(old(s)@, n) && forall|k: int|
                0 <= k < r@.len() ==> (#[trigger] r@[k]) as u32 as int == if k < n {
                    ascii_upper(old(s)@[k])
                } else {
                    old(s)@[k] as u32 as int
                },
        final(s)@ == final(r)@,
{
    let mut i: usize = 0;
    while i < s.len() && s[i] != '\0'
        invariant
            0 <= i <= s@.len(),
            s@.len() == old(s)@.len(),
            forall|j: int| 0 <= j < i ==> #[trigger] old(s)@[j] != '\0',
            forall|k: int|
                0 <= k < s@.len() ==> (#[trigger] s@[k]) as u32 as int == if k < i {
                    ascii_upper(old(s)@[k])
                } else {
                    old(s)@[k] as u32 as int
                },
            forall|k: int| i <= k < s@.len() ==> #[trigger] s@[k] == old(s)@[k],
        decreases s@.len() - i,
    {
        let c = s[i];
        let code = c as u32;
        if 97 <= code && code <= 122 {
            let up = char_of(code - 32);
            s[i] = up;
        }
        i = i + 1;
    }
    assert(text_len(old(s)@, i as int));
    s
}

/// Lower-cases the ASCII letters of the text in `s`; returns `s`.
pub fn strlwr(s: &mut [char]) -> (r: &mut [char])
    ensures
        r@.len() == old(s)@.len(),
        exists|n: int|
            text_len(old(s)@, n) && forall|k: int|
                0 <= k < r@.len() ==> (#[trigger] r@[k]) as u32 as int == if k < n {
                    ascii_lower(old(s)@[k])
                } else {
                    old(s)@[k] as u32 as int
                },
        final(s)@ == final(r)@,
{
    let mut i: usize = 0;
    while i < s.len() && s[i] != '\0'
        invariant
            0 <= i <= s@.len(),
            s@.len() == old(s)@.len(),
            forall|j: int| 0 <= j < i ==> #[trigger] old(s)@[j] != '\0',
            forall|k: int|
                0 <= k < s@.len() ==> (#[trigger] s@[k]) as u32 as int == if k < i {
                    ascii_lower(old(s)@[k])
                } else {
                    old(s)@[k] as u32 as int
                },
            forall|k: int| i <= k < s@.len() ==> #[trigger] s@[k] == old(s)@[k],
        decreases s@.len() - i,
    {
        let c = s[i];
        let code = c as u32;
        if 65 <= code && code <= 90 {
            let low = char_of(code + 32);
            s[i] = low;
        }
        i = i + 1;
    }
    assert(text_len(old(s)@, i as int));
    s
}

/// The ASCII character with code `code`.
fn char_of(code: u32) -> (r: char)
    requires
        code < 128,
    ensures
        r as u32 == code,
{
    let b = code as u8;
    b as char
}

/// Position of the first `ch` in `s`, or -1.
pub fn strchr(s: &[char], ch: char) -> (r: i32)
    requires
        s@.len() <= i32::MAX,
    ensures
        r == -1 ==> forall|j: int| 0 <= j < s@.len() ==> s@[j] != ch,
        r != -1 ==> 0 <= r < s@.len() && s@[r as int] == ch && forall|j: int| 0 <= j < r ==> s@[j] != ch,
{
    let mut i: usize = 0;
    while i < s.len()
        invariant
            0 <= i <= s@.len(),
            s@.len() <= i32::MAX,
            forall|j: int| 0 <= j < i ==> s@[j] != ch,
        decreases s@.len() - i,
    {
        if s[i] == ch {
            return i as i32;
        }
        i = i + 1;
    }
    -1
}

/// Position of the last `ch` in `s`, or -1.
pub fn strrchr(s: &[char], ch: char) -> (r: i32)
    requires
        s@.len() <= i32::MAX,
    ensures
        r == -1 ==> forall|j: int| 0 <= j < s@.len() ==> s@[j] != ch,
        r != -1 ==> 0 <= r < s@.len() && s@[r as int] == ch && forall|j: int| r < j < s@.len() ==> s@[j] != ch,
{
    let mut i: i32 = s.len() as i32 - 1;
    while i >= 0
        invariant
            -1 <= i < s@.len(),
            forall|j: int| i < j < s@.len() ==> s@[j] != ch,
        decreases i + 1,
    {
        if s[i as usize] == ch {
            return i;
        }
        i = i - 1;
    }
    -1
}

/// `sub` occurs in `s` at position `i`.
pub open spec fn occurs_at(s: Seq<char>, sub: Seq<char>, i: int) -> bool {
    0 <= i && i + sub.len() <= s.len() && s.subrange(i, i + sub.len()) == sub
}

fn matches_at(s: &[char], sub: &[char], i: usize) -> (r: bool)
    requires
        i + sub@.len() <= s@.len(),
    ensures
        r == occurs_at(s@, sub@, i as int),
{
    let n = s.len();
    let mut j: usize = 0;
    while j < sub.len() && s[i + j] == sub[j]
        invariant
            n == s@.len(),
            0 <= j <= sub@.len(),
            i + sub@.len() <= s@.len(),
            forall|k: int| 0 <= k < j ==> s@[i + k] == sub@[k],
        decreases sub@.len() - j,
    {
        j = j + 1;
    }
    if j == sub.len() {
        assert(s@.subrange(i as int, i + sub@.len()) =~= sub@);
        true
    } else {
        assert(s@.subrange(i as int, i + sub@.len())[j as int] != sub@[j as int]);
        false
    }
}

/// Position of the first occurrence of `substr` in `s`, or -1; 0 for an
/// empty `substr`. A non-empty `substr` must not be longer than `s`.
pub fn strstr(s: &[char], substr: &[char]) -> (r: i32)
    requires
        s@.len() <= i32::MAX,
        substr@.len() == 0 || substr@.len() <= s@.len(),
    ensures
        substr@.len() == 0 ==> r == 0,
        substr@.len() > 0 && r == -1 ==> forall|i: int| !occurs_at(s@, substr@, i),
        substr@.len() > 0 && r != -1 ==> occurs_at(s@, substr@, r as int) && forall|i: int|
            0 <= i < r ==> !occurs_at(s@, substr@, i),
{
    if substr.len() == 0 {
        return 0;
    }
    let mut i: usize = 0;
    while i <= s.len() - substr.len()
        invariant
            0 <= i <= s@.len() - substr@.len() + 1,
            0 < substr@.len() <= s@.len(),
            s@.len() <= i32::MAX,
            forall|k: int| 0 <= k < i ==> !occurs_at(s@, substr@, k),
        decreases s@.len() - substr@.len() + 1 - i,
    {
        if matches_at(s, substr, i) {
            return i as i32;
        }
        i = i + 1;
    }
    assert forall|k: int| !occurs_at(s@, substr@, k) by {
        if 0 <= k < i {
        }
    }
    -1
}

/// Position of the last occurrence of `substr` in `s`, or -1; the length of
/// `s` for an empty `substr`. A non-empty `substr` must not be longer than
/// `s`.
pub fn strrstr(s: &[char], substr: &[char]) -> (r: i32)
    requires
        s@.len() <= i32::MAX,
        substr@.len() == 0 || substr@.len() <= s@.len(),
    ensures
        substr@.len() == 0 ==> r == s@.len(),
        substr@.len() > 0 && r == -1 ==> forall|i: int| !occurs_at(s@, substr@, i),
        substr@.len() > 0 && r != -1 ==> occurs_at(s@, substr@, r as int) && forall|i: int|
            r < i ==> !occurs_at(s@, substr@, i),
{
    if substr.len() == 0 {
        return s.len() as i32;
    }
    let mut i: usize = s.len() - substr.len();
    loop
        invariant
            0 <= i <= s@.len() - substr@.len(),
            0 < substr@.len() <= s@.len(),
            s@.len() <= i32::MAX,
            forall|k: int| i < k ==> !occurs_at(s@, substr@, k),
        ensures
            forall|k: int| !occurs_at(s@, substr@, k),
        decreases i,
    {
        if matches_at(s, substr, i) {
            return i as i32;
        }
        if i == 0 {
            break;
        }
        i = i - 1;
    }
    -1
}

/// Reverses `s` in place; returns `s`. An empty slice has no last position
/// to start from.
pub fn strrev(s: &mut [char]) -> (r: &mut [char])
    requires
        old(s)@.len() > 0,
    ensures
        r@ == old(s)@.reverse(),
        final(s)@ == final(r)@,
{
    let n = s.len();
    let mut i: usize = 0;
    let mut j: usize = n - 1;
    while i < j
        invariant
            s@.len() == n,
            n > 0,
            i + j == n - 1,
            j < n,
            i <= n,
            forall|k: int|
                0 <= k < n ==> #[trigger] s@[k] == if k < i || k > j {
                    old(s)@[n - 1 - k]
                } else {
                    old(s)@[k]
                },
        decreases n - i,
    {
        let temp = s[i];
        let other = s[j];
        s[i] = other;
        s[j] = temp;
        i = i + 1;
        j = j - 1;
    }
    assert(s@ =~= old(s)@.reverse());
    s
}

} // verus!
