//! Strict decimal parsers for the textual money, date and tag formats.
use vstd::prelude::*;

verus! {

/// `c` is an ASCII decimal digit.
pub open spec fn is_digit_char(c: char) -> bool {
    48 <= c as u32 <= 57
}

/// Numeric value of a single digit character.
pub open spec fn digit_val(c: char) -> int
    recommends
        is_digit_char(c),
{
    c as u32 - 48
}

/// Every character of `s` is an ASCII decimal digit.
pub open spec fn all_digits(s: Seq<char>) -> bool {
    forall|i: int| 0 <= i < s.len() ==> is_digit_char(#[trigger] s[i])
}

/// Numeric value of a digit string, most significant digit first.
pub open spec fn dec_val(s: Seq<char>) -> int
    decreases s.len(),
{
    if s.len() == 0 {
        0
    } else {
        10 * dec_val(s.drop_last()) + digit_val(s.last())
    }
}

pub proof fn lemma_dec_val_nonneg(s: Seq<char>)
    requires
        all_digits(s),
    ensures
        dec_val(s) >= 0,
    decreases s.len(),
{
    if s.len() > 0 {
        assert(all_digits(s.drop_last()));
        lemma_dec_val_nonneg(s.drop_last());
    }
}

/// The value of a digit string never shrinks as digits are appended.
pub proof fn lemma_dec_val_prefix_le(s: Seq<char>, j: int)
    requires
        all_digits(s),
        0 <= j <= s.len(),
    ensures
        dec_val(s.take(j)) <= dec_val(s),
    decreases s.len(),
{
    if j == s.len() {
        assert(s.take(j) =~= s);
    } else {
        assert(all_digits(s.drop_last()));
        assert(s.take(j) =~= s.drop_last().take(j));
        lemma_dec_val_prefix_le(s.drop_last(), j);
        lemma_dec_val_nonneg(s.drop_last());
    }
}

/// Integer types the decimal parsers can produce.
pub trait Number: Sized {
    /// The largest value of the type.
    spec fn num_max() -> int;

    /// The mathematical value held.
    spec fn num_val(&self) -> int;

    fn num_zero() -> (z: Self)
        ensures
            z.num_val() == 0,
            Self::num_max() >= 0,
    ;

    /// `10 * self + d`, or `None` past `num_max`.
    fn num_push_digit(&self, d: u8) -> (r: Option<Self>)
        requires
            0 <= d < 10,
            self.num_val() >= 0,
        ensures
            match r {
                Some(v) => 10 * self.num_val() + d <= Self::num_max() && v.num_val() == 10
                    * self.num_val() + d,
                None => 10 * self.num_val() + d > Self::num_max(),
            },
    ;
}

impl Number for u8 {
    open spec fn num_max() -> int {
        u8::MAX as int
    }

    open spec fn num_val(&self) -> int {
        *self as int
    }

    fn num_zero() -> (z: Self) {
        0
    }

    fn num_push_digit(&self, d: u8) -> (r: Option<Self>) {
        match self.checked_mul(10) {
            Some(m) => m.checked_add(d),
            None => None,
        }
    }
}

impl Number for u16 {
    open spec fn num_max() -> int {
        u16::MAX as int
    }

    open spec fn num_val(&self) -> int {
        *self as int
    }

    fn num_zero() -> (z: Self) {
        0
    }

    fn num_push_digit(&self, d: u8) -> (r: Option<Self>) {
        match self.checked_mul(10) {
            Some(m) => m.checked_add(d as u16),
            None => None,
        }
    }
}

impl Number for u32 {
    open spec fn num_max() -> int {
        u32::MAX as int
    }

    open spec fn num_val(&self) -> int {
        *self as int
    }

    fn num_zero() -> (z: Self) {
        0
    }

    fn num_push_digit(&self, d: u8) -> (r: Option<Self>) {
        match self.checked_mul(10) {
            Some(m) => m.checked_add(d as u32),
            None => None,
        }
    }
}

impl Number for u64 {
    open spec fn num_max() -> int {
        u64::MAX as int
    }

    open spec fn num_val(&self) -> int {
        *self as int
    }

    fn num_zero() -> (z: Self) {
        0
    }

    fn num_push_digit(&self, d: u8) -> (r: Option<Self>) {
        match self.checked_mul(10) {
            Some(m) => m.checked_add(d as u64),
            None => None,
        }
    }
}

impl Number for usize {
    open spec fn num_max() -> int {
        usize::MAX as int
    }

    open spec fn num_val(&self) -> int {
        *self as int
    }

    fn num_zero() -> (z: Self) {
        0
    }

    fn num_push_digit(&self, d: u8) -> (r: Option<Self>) {
        match self.checked_mul(10) {
            Some(m) => m.checked_add(d as usize),
            None => None,
        }
    }
}

impl Number for i64 {
    open spec fn num_max() -> int {
        i64::MAX as int
    }

    open spec fn num_val(&self) -> int {
        *self as int
    }

    fn num_zero() -> (z: Self) {
        0
    }

    fn num_push_digit(&self, d: u8) -> (r: Option<Self>) {
        match self.checked_mul(10) {
            Some(m) => m.checked_add(d as i64),
            None => None,
        }
    }
}

/// Every character is a digit.
fn has_only_numbers(s: &str) -> (r: bool)
    ensures
        r == all_digits(s@),
{
    let n = s.unicode_len();
    let mut i: usize = 0;
    while i < n
        invariant
            i <= n,
            n == s@.len(),
            forall|k: int| 0 <= k < i ==> is_digit_char(#[trigger] s@[k]),
        decreases n - i,
    {
        let c = s.get_char(i);
        let cu = c as u32;
        if cu < 48 || cu > 57 {
            return false;
        }
        i = i + 1;
    }
    true
}

/// Accumulate the value of an all-digit string; `None` past the type's range.
fn parse_digits<T: Number>(s: &str) -> (r: Option<T>)
    requires
        all_digits(s@),
    ensures
        match r {
            Some(v) => dec_val(s@) <= T::num_max() && v.num_val() == dec_val(s@),
            None => dec_val(s@) > T::num_max(),
        },
{
    let n = s.unicode_len();
    let mut acc = T::num_zero();
    let mut i: usize = 0;
    proof {
        assert(s@.take(0) =~= Seq::<char>::empty());
    }
    while i < n
        invariant
            i <= n,
            n == s@.len(),
            all_digits(s@),
            acc.num_val() == dec_val(s@.take(i as int)),
            0 <= acc.num_val() <= T::num_max(),
        decreases n - i,
    {
        let c = s.get_char(i);
        let cu = c as u32;
        let d: u8 = (cu - 48) as u8;
        proof {
            assert(s@.take(i + 1).drop_last() =~= s@.take(i as int));
            assert(s@.take(i + 1).last() == s@[i as int]);
        }
        match acc.num_push_digit(d) {
            Some(next) => {
                acc = next;
            },
            None => {
                proof {
                    lemma_dec_val_prefix_le(s@, i + 1);
                }
                return None;
            },
        }
        proof {
            assert(all_digits(s@.take(i + 1)));
            lemma_dec_val_nonneg(s@.take(i + 1));
        }
        i = i + 1;
    }
    proof {
        assert(s@.take(n as int) =~= s@);
    }
    Some(acc)
}

/// Occurrences of `c` in `s`.
pub open spec fn count_char(s: Seq<char>, c: char) -> int
    decreases s.len(),
{
    if s.len() == 0 {
        0
    } else {
        count_char(s.drop_last(), c) + if s.last() == c {
            1int
        } else {
            0int
        }
    }
}

/// Index of the first occurrence of `c` in `s`, or `s.len()` if there is none.
pub open spec fn first_ix(s: Seq<char>, c: char) -> int
    decreases s.len(),
{
    if s.len() == 0 {
        0
    } else if s[0] == c {
        0
    } else {
        1 + first_ix(s.skip(1), c)
    }
}

pub proof fn lemma_count_zero(s: Seq<char>, c: char)
    ensures
        (count_char(s, c) == 0) == (forall|k: int| 0 <= k < s.len() ==> s[k] != c),
        count_char(s, c) >= 0,
    decreases s.len(),
{
    if s.len() > 0 {
        lemma_count_zero(s.drop_last(), c);
        if count_char(s, c) == 0 {
            assert forall|k: int| 0 <= k < s.len() implies s[k] != c by {
                if k < s.len() - 1 {
                    assert(s[k] == s.drop_last()[k]);
                }
            }
        }
    }
}

pub proof fn lemma_count_concat(s: Seq<char>, t: Seq<char>, c: char)
    ensures
        count_char(s + t, c) == count_char(s, c) + count_char(t, c),
    decreases t.len(),
{
    if t.len() == 0 {
        assert(s + t =~= s);
    } else {
        assert((s + t).drop_last() =~= s + t.drop_last());
        assert((s + t).last() == t.last());
        lemma_count_concat(s, t.drop_last(), c);
    }
}

pub proof fn lemma_first_ix_bounds(s: Seq<char>, c: char)
    ensures
        0 <= first_ix(s, c) <= s.len(),
        first_ix(s, c) < s.len() ==> s[first_ix(s, c)] == c,
        forall|k: int| 0 <= k < first_ix(s, c) ==> s[k] != c,
    decreases s.len(),
{
    if s.len() > 0 && s[0] != c {
        lemma_first_ix_bounds(s.skip(1), c);
        assert forall|k: int| 0 <= k < first_ix(s, c) implies s[k] != c by {
            if k > 0 {
                assert(s.skip(1)[k - 1] == s[k]);
            }
        }
    }
}

pub proof fn lemma_first_ix_is(s: Seq<char>, c: char, i: int)
    requires
        0 <= i < s.len(),
        s[i] == c,
        forall|k: int| 0 <= k < i ==> s[k] != c,
    ensures
        first_ix(s, c) == i,
    decreases i,
{
    if i > 0 {
        assert(forall|k: int| 0 <= k < i - 1 ==> s.skip(1)[k] != c);
        lemma_first_ix_is(s.skip(1), c, i - 1);
    }
}

/// Count of `c` in `s`, and the positions of its first two occurrences
/// (`s.len()` standing in where there is none).
pub(crate) fn scan_for(s: &str, c: char) -> (r: (usize, usize, usize))
    ensures
        r.0 == count_char(s@, c),
        r.0 == 0 ==> r.1 == s@.len(),
        r.0 >= 1 ==> r.1 < s@.len() && s@[r.1 as int] == c && (forall|k: int|
            0 <= k < r.1 ==> s@[k] != c),
        r.0 <= 1 ==> r.2 == s@.len(),
        r.0 >= 2 ==> r.1 < r.2 < s@.len() && s@[r.2 as int] == c && (forall|k: int|
            r.1 < k < r.2 ==> s@[k] != c),
{
    let n = s.unicode_len();
    let mut cnt: usize = 0;
    let mut first: usize = n;
    let mut second: usize = n;
    let mut i: usize = 0;
    proof {
        assert(s@.take(0) =~= Seq::<char>::empty());
    }
    while i < n
        invariant
            n == s@.len(),
            i <= n,
            cnt <= i,
            cnt == count_char(s@.take(i as int), c),
            cnt == 0 ==> first == n,
            cnt >= 1 ==> first < i && s@[first as int] == c && (forall|k: int|
                0 <= k < first ==> s@[k] != c),
            cnt <= 1 ==> second == n,
            cnt >= 2 ==> first < second < i && s@[second as int] == c && (forall|k: int|
                first < k < second ==> s@[k] != c),
        decreases n - i,
    {
        let ch = s.get_char(i);
        proof {
            assert(s@.take(i + 1).drop_last() =~= s@.take(i as int));
            assert(s@.take(i + 1).last() == s@[i as int]);
            lemma_count_zero(s@.take(i as int), c);
        }
        if ch == c {
            if cnt == 0 {
                first = i;
                proof {
                    assert forall|k: int| 0 <= k < i implies s@[k] != c by {
                        assert(s@.take(i as int)[k] == s@[k]);
                    }
                }
            } else if cnt == 1 {
                second = i;
                proof {
                    // the single occurrence so far is at `first`
                    assert(s@.take(i as int) =~= s@.take(first + 1) + s@.subrange(
                        first + 1,
                        i as int,
                    ));
                    lemma_count_concat(s@.take(first + 1), s@.subrange(first + 1, i as int), c);
                    assert(s@.take(first + 1).drop_last() =~= s@.take(first as int));
                    lemma_count_zero(s@.take(first as int), c);
                    lemma_count_zero(s@.subrange(first + 1, i as int), c);
                    assert forall|k: int| first < k < i implies s@[k] != c by {
                        assert(s@.subrange(first + 1, i as int)[k - first - 1] == s@[k]);
                    }
                }
            }
            cnt = cnt + 1;
        }
        i = i + 1;
    }
    proof {
        assert(s@.take(n as int) =~= s@);
    }
    (cnt, first, second)
}

/// The shape `fixed_width` accepts: exactly `width` digits whose value fits.
pub open spec fn fixed_ok(s: Seq<char>, width: int, max: int) -> bool {
    all_digits(s) && s.len() == width && dec_val(s) <= max
}

/// The shape `unfixed_width` accepts: one or more digits, no leading zero
/// (unless the string is exactly one digit), value within range.
pub open spec fn unfixed_ok(s: Seq<char>, max: int) -> bool {
    all_digits(s) && s.len() >= 1 && (s.len() >= 2 ==> s[0] != '0') && dec_val(s) <= max
}

/// Parse exactly `width` digits; leading zeros are allowed.
pub fn fixed_width<T: Number>(s: &str, width: usize) -> (r: Option<T>)
    requires
        width >= 1,
    ensures
        match r {
            Some(v) => fixed_ok(s@, width as int, T::num_max()) && v.num_val() == dec_val(s@),
            None => !fixed_ok(s@, width as int, T::num_max()),
        },
{
    if !has_only_numbers(s) {
        return None;
    }
    if s.unicode_len() != width {
        return None;
    }
    parse_digits(s)
}

/// Parse one or more digits; leading zeros are rejected.
pub fn unfixed_width<T: Number>(s: &str) -> (r: Option<T>)
    ensures
        match r {
            Some(v) => unfixed_ok(s@, T::num_max()) && v.num_val() == dec_val(s@),
            None => !unfixed_ok(s@, T::num_max()),
        },
{
    if !has_only_numbers(s) {
        return None;
    }
    let n = s.unicode_len();
    if n == 0 {
        return None;
    }
    if n >= 2 {
        if s.get_char(0) == '0' {
            return None;
        }
    }
    parse_digits(s)
}

} // verus!
