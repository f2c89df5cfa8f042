use vstd::prelude::*;

verus! {

/// Whether `c` is a white-space character in the Unicode sense (the set that
/// `char::is_whitespace` recognises).
pub open spec fn is_space(c: char) -> bool {
    ('\u{9}' <= c && c <= '\u{d}') || c == ' ' || c == '\u{85}' || c == '\u{a0}'
        || c == '\u{1680}' || ('\u{2000}' <= c && c <= '\u{200a}') || c == '\u{2028}'
        || c == '\u{2029}' || c == '\u{202f}' || c == '\u{205f}' || c == '\u{3000}'
}

pub fn char_is_space(c: char) -> (r: bool)
    ensures
        r == is_space(c),
{
    ('\u{9}' <= c && c <= '\u{d}') || c == ' ' || c == '\u{85}' || c == '\u{a0}'
        || c == '\u{1680}' || ('\u{2000}' <= c && c <= '\u{200a}') || c == '\u{2028}'
        || c == '\u{2029}' || c == '\u{202f}' || c == '\u{205f}' || c == '\u{3000}'
}

} // verus!

verus! {

/// `p` stands in `s` starting at index `i`.
pub open spec fn occurs_at(s: Seq<char>, p: Seq<char>, i: int) -> bool {
    0 <= i && i + p.len() <= s.len() && s.subrange(i, i + p.len()) == p
}

/// The first index, at or after `i`, where `p` stands in `s`.
pub open spec fn find_from(s: Seq<char>, p: Seq<char>, i: int) -> Option<int>
    decreases s.len() + 1 - i,
{
    if i < 0 || i + p.len() > s.len() {
        None
    } else if occurs_at(s, p, i) {
        Some(i)
    } else {
        find_from(s, p, i + 1)
    }
}

pub proof fn lemma_find_from(s: Seq<char>, p: Seq<char>, i: int)
    requires
        0 <= i,
    ensures
        find_from(s, p, i) matches Some(j) ==> i <= j && occurs_at(s, p, j) && forall|k: int|
            i <= k < j ==> !occurs_at(s, p, k),
        find_from(s, p, i) is None ==> forall|k: int| i <= k ==> !occurs_at(s, p, k),
    decreases s.len() + 1 - i,
{
    if i + p.len() <= s.len() && !occurs_at(s, p, i) {
        lemma_find_from(s, p, i + 1);
    }
}

/// `s` cut at each occurrence of `p`, left to right (as `str::split` does).
pub open spec fn split_on(s: Seq<char>, p: Seq<char>) -> Seq<Seq<char>>
    decreases s.len() via split_on_decreases
{
    if p.len() == 0 {
        seq![s]
    } else {
        match find_from(s, p, 0) {
            Some(j) => seq![s.subrange(0, j)] + split_on(s.subrange(j + p.len(), s.len() as int), p),
            None => seq![s],
        }
    }
}

#[via_fn]
proof fn split_on_decreases(s: Seq<char>, p: Seq<char>) {
    lemma_find_from(s, p, 0);
}

pub proof fn lemma_split_on_len(s: Seq<char>, p: Seq<char>)
    ensures
        split_on(s, p).len() >= 1,
    decreases s.len(),
{
    if p.len() > 0 {
        lemma_find_from(s, p, 0);
        if let Some(j) = find_from(s, p, 0) {
            lemma_split_on_len(s.subrange(j + p.len(), s.len() as int), p);
        }
    }
}

/// Whether `p` stands in `s` at `i`.
pub fn occurs_at_exec(s: &Vec<char>, p: &Vec<char>, i: usize) -> (r: bool)
    requires
        i + p.len() <= s.len(),
    ensures
        r == occurs_at(s@, p@, i as int),
{
    let mut k: usize = 0;
    while k < p.len()
        invariant
            i + p.len() <= s.len(),
            k <= p.len(),
            forall|m: int| 0 <= m < k ==> s@[i + m] == p@[m],
        decreases p.len() - k,
    {
        if s[i + k] != p[k] {
            assert(s@.subrange(i as int, i + p.len())[k as int] != p@[k as int]);
            return false;
        }
        k += 1;
    }
    assert(s@.subrange(i as int, i + p.len()) =~= p@);
    true
}

/// The first index at which `p` stands in `s`.
pub fn find(s: &Vec<char>, p: &Vec<char>) -> (r: Option<usize>)
    ensures
        match r {
            Some(j) => find_from(s@, p@, 0) == Some(j as int),
            None => find_from(s@, p@, 0) is None,
        },
{
    if p.len() > s.len() {
        return None;
    }
    let last: usize = s.len() - p.len();
    let mut i: usize = 0;
    while i <= last
        invariant
            i <= last + 1,
            last + p.len() == s.len(),
            find_from(s@, p@, 0) == find_from(s@, p@, i as int),
        decreases last + 1 - i,
    {
        if occurs_at_exec(s, p, i) {
            return Some(i);
        }
        if i == last {
            return None;
        }
        i += 1;
    }
    None
}

/// A copy of `s[lo..hi]`.
pub fn slice(s: &Vec<char>, lo: usize, hi: usize) -> (r: Vec<char>)
    requires
        lo <= hi <= s.len(),
    ensures
        r@ == s@.subrange(lo as int, hi as int),
{
    let mut r: Vec<char> = Vec::new();
    let mut k: usize = lo;
    while k < hi
        invariant
            lo <= k <= hi <= s.len(),
            r@ == s@.subrange(lo as int, k as int),
        decreases hi - k,
    {
        r.push(s[k]);
        k += 1;
        assert(r@ =~= s@.subrange(lo as int, k as int));
    }
    r
}

/// The characters of `s`.
pub fn chars_of(s: &str) -> (r: Vec<char>)
    ensures
        r@ == s@,
{
    let n = s.unicode_len();
    let mut r: Vec<char> = Vec::new();
    let mut k: usize = 0;
    while k < n
        invariant
            n == s@.len(),
            k <= n,
            r@ == s@.subrange(0, k as int),
        decreases n - k,
    {
        r.push(s.get_char(k));
        k += 1;
        assert(r@ =~= s@.subrange(0, k as int));
    }
    assert(r@ =~= s@);
    r
}

} // verus!

verus! {

/// `s` without its leading white space.
pub open spec fn trim_start(s: Seq<char>) -> Seq<char>
    decreases s.len(),
{
    if s.len() > 0 && is_space(s[0]) {
        trim_start(s.drop_first())
    } else {
        s
    }
}

/// `s` without its trailing white space.
pub open spec fn trim_end(s: Seq<char>) -> Seq<char>
    decreases s.len(),
{
    if s.len() > 0 && is_space(s.last()) {
        trim_end(s.drop_last())
    } else {
        s
    }
}

/// `s` without white space at either end (as `str::trim` gives it).
pub open spec fn trim(s: Seq<char>) -> Seq<char> {
    trim_end(trim_start(s))
}

/// A copy of `s` without white space at either end.
pub fn trimmed(s: &Vec<char>) -> (r: Vec<char>)
    ensures
        r@ == trim(s@),
{
    let n = s.len();
    let mut lo: usize = 0;
    assert(s@.subrange(0, n as int) =~= s@);
    while lo < n && char_is_space(s[lo])
        invariant
            lo <= n == s.len(),
            trim_start(s@) == trim_start(s@.subrange(lo as int, n as int)),
        decreases n - lo,
    {
        assert(s@.subrange(lo as int, n as int).drop_first() =~= s@.subrange(lo + 1, n as int));
        lo += 1;
    }
    assert(trim_start(s@) == s@.subrange(lo as int, n as int));
    let mut hi: usize = n;
    while hi > lo && char_is_space(s[hi - 1])
        invariant
            lo <= hi <= n == s.len(),
            trim(s@) == trim_end(s@.subrange(lo as int, hi as int)),
        decreases hi,
    {
        assert(s@.subrange(lo as int, hi as int).drop_last() =~= s@.subrange(lo as int, hi - 1));
        hi -= 1;
    }
    slice(s, lo, hi)
}

pub open spec fn is_digit(c: char) -> bool {
    '0' <= c && c <= '9'
}

pub open spec fn digit_value(c: char) -> int {
    c as u32 - '0' as u32
}

/// One or more decimal digits.
pub open spec fn all_digits(s: Seq<char>) -> bool {
    s.len() > 0 && forall|i: int| 0 <= i < s.len() ==> is_digit(#[trigger] s[i])
}

/// The number that the digits `s` write in base ten.
pub open spec fn digits_value(s: Seq<char>) -> int
    decreases s.len(),
{
    if s.len() == 0 {
        0
    } else {
        10 * digits_value(s.drop_last()) + digit_value(s.last())
    }
}

/// The integer that `s` writes: an optional sign, then one or more digits, and
/// nothing else (the text that `str::parse` accepts for integers).
pub open spec fn signed_value(s: Seq<char>) -> Option<int> {
    if s.len() > 0 && (s[0] == '-' || s[0] == '+') {
        if all_digits(s.drop_first()) {
            if s[0] == '-' {
                Some(-digits_value(s.drop_first()))
            } else {
                Some(digits_value(s.drop_first()))
            }
        } else {
            None
        }
    } else if all_digits(s) {
        Some(digits_value(s))
    } else {
        None
    }
}

/// The value that `s` writes, as a number that fits an `i32`; 0 where `s` writes
/// no such number.
pub open spec fn i32_or_zero(s: Seq<char>) -> int {
    match signed_value(s) {
        Some(v) => if i32::MIN <= v <= i32::MAX {
            v
        } else {
            0
        },
        None => 0,
    }
}

/// The value of `s` where it writes a whole number without a minus sign, that is
/// where an unsigned parse succeeds.
pub open spec fn unsigned_value(s: Seq<char>) -> Option<int> {
    if s.len() > 0 && s[0] == '-' {
        None
    } else {
        signed_value(s)
    }
}

pub proof fn lemma_digits_value_nonneg(s: Seq<char>)
    requires
        forall|i: int| 0 <= i < s.len() ==> is_digit(#[trigger] s[i]),
    ensures
        digits_value(s) >= 0,
    decreases s.len(),
{
    if s.len() > 0 {
        lemma_digits_value_nonneg(s.drop_last());
        assert(is_digit(s[s.len() - 1]));
    }
}

/// A longer run of digits writes a number no smaller than its prefix.
pub proof fn lemma_digits_value_prefix(s: Seq<char>, k: int)
    requires
        forall|i: int| 0 <= i < s.len() ==> is_digit(#[trigger] s[i]),
        0 <= k <= s.len(),
    ensures
        digits_value(s) >= digits_value(s.subrange(0, k)),
    decreases s.len(),
{
    if k < s.len() {
        lemma_digits_value_nonneg(s.drop_last());
        assert(is_digit(s[s.len() - 1]));
        lemma_digits_value_prefix(s.drop_last(), k);
        assert(s.drop_last().subrange(0, k) =~= s.subrange(0, k));
    } else {
        assert(s.subrange(0, k) =~= s);
    }
}

/// Reads `s` as an `i32` the way `str::parse` does.
pub fn parse_i32(s: &Vec<char>) -> (r: Option<i32>)
    ensures
        match r {
            Some(v) => signed_value(s@) == Some(v as int),
            None => !(signed_value(s@) matches Some(v) && i32::MIN <= v <= i32::MAX),
        },
{
    let n = s.len();
    if n == 0 {
        return None;
    }
    let neg = s[0] == '-';
    let start: usize = if s[0] == '-' || s[0] == '+' { 1 } else { 0 };
    if start == n {
        return None;
    }
    let ghost digits = s@.subrange(start as int, n as int);
    assert(start == 1 ==> digits =~= s@.drop_first());
    assert(start == 0 ==> digits =~= s@);
    let mut acc: i64 = 0;
    let mut k: usize = start;
    while k < n
        invariant
            start <= k <= n == s.len(),
            start < n,
            start <= 1,
            digits == s@.subrange(start as int, n as int),
            start == 1 ==> digits == s@.drop_first() && (s@[0] == '-' || s@[0] == '+'),
            start == 0 ==> digits == s@ && !(s@[0] == '-' || s@[0] == '+'),
            neg == (s@[0] == '-'),
            forall|i: int| start <= i < k ==> is_digit(#[trigger] s@[i]),
            acc == digits_value(s@.subrange(start as int, k as int)),
            0 <= acc <= 0x8000_0000,
        decreases n - k,
    {
        let c = s[k];
        if !('0' <= c && c <= '9') {
            assert(!is_digit(digits[k - start]));
            assert(!all_digits(digits));
            assert(signed_value(s@) is None);
            return None;
        }
        let d = (c as u32 - '0' as u32) as i64;
        assert(s@.subrange(start as int, k + 1).drop_last() =~= s@.subrange(start as int, k as int));
        acc = acc * 10 + d;
        k += 1;
        if acc > 0x8000_0000 {
            proof {
                if all_digits(digits) {
                    assert(s@.subrange(start as int, k as int) =~= digits.subrange(0, k - start));
                    lemma_digits_value_prefix(digits, k - start);
                }
            }
            return None;
        }
    }
    assert(s@.subrange(start as int, k as int) =~= digits);
    if neg {
        Some((-acc) as i32)
    } else if acc <= 0x7fff_ffff {
        Some(acc as i32)
    } else {
        None
    }
}

/// Reads `s` as a `u32` the way `str::parse` does; `None` also for a value that
/// is not below `bound`.
pub fn parse_below(s: &Vec<char>, bound: u32) -> (r: Option<u32>)
    requires
        bound <= 0x7fff_ffff,
    ensures
        match r {
            Some(v) => unsigned_value(s@) == Some(v as int) && v < bound,
            None => !(unsigned_value(s@) matches Some(v) && v < bound),
        },
{
    if s.len() > 0 && s[0] == '-' {
        return None;
    }
    proof {
        if s@.len() > 0 && s@[0] == '+' && all_digits(s@.drop_first()) {
            lemma_digits_value_nonneg(s@.drop_first());
        } else if all_digits(s@) {
            lemma_digits_value_nonneg(s@);
        }
    }
    match parse_i32(s) {
        Some(v) => {
            if 0 <= v && (v as u32) < bound {
                Some(v as u32)
            } else {
                None
            }
        },
        None => {
            proof {
                if let Some(v) = signed_value(s@) {
                    if v >= 0 && v < bound {
                        assert(false);
                    }
                }
            }
            None
        },
    }
}

} // verus!

verus! {

pub open spec fn digit_char(d: int) -> char {
    seq!['0', '1', '2', '3', '4', '5', '6', '7', '8', '9'][d]
}

/// The base-ten digits of `n`, without leading zeros.
pub open spec fn decimal(n: nat) -> Seq<char>
    decreases n,
{
    if n < 10 {
        seq![digit_char(n as int)]
    } else {
        decimal(n / 10).push(digit_char((n % 10) as int))
    }
}

/// `n` written in base ten, with a minus sign where it is negative.
pub open spec fn int_text(n: int) -> Seq<char> {
    if n < 0 {
        seq!['-'] + decimal((-n) as nat)
    } else {
        decimal(n as nat)
    }
}

pub proof fn lemma_digit_char(d: int)
    requires
        0 <= d < 10,
    ensures
        is_digit(digit_char(d)),
        digit_value(digit_char(d)) == d,
{
    let t = seq!['0', '1', '2', '3', '4', '5', '6', '7', '8', '9'];
    assert(t[0] == '0' && t[1] == '1' && t[2] == '2' && t[3] == '3' && t[4] == '4');
    assert(t[5] == '5' && t[6] == '6' && t[7] == '7' && t[8] == '8' && t[9] == '9');
}

pub proof fn lemma_decimal(n: nat)
    ensures
        all_digits(decimal(n)),
        digits_value(decimal(n)) == n,
    decreases n,
{
    if n < 10 {
        lemma_digit_char(n as int);
        assert(decimal(n).drop_last() =~= Seq::<char>::empty());
        assert(digits_value(Seq::<char>::empty()) == 0);
        assert(digits_value(decimal(n)) == 10 * digits_value(decimal(n).drop_last())
            + digit_value(decimal(n).last()));
    } else {
        lemma_decimal(n / 10);
        lemma_digit_char((n % 10) as int);
        assert(decimal(n).drop_last() =~= decimal(n / 10));
        assert(decimal(n).last() == digit_char((n % 10) as int));
        assert(n == 10 * (n / 10) + n % 10) by (nonlinear_arith);
        assert(digits_value(decimal(n)) == 10 * digits_value(decimal(n).drop_last())
            + digit_value(decimal(n).last()));
        let d = decimal(n);
        assert forall|i: int| 0 <= i < d.len() implies is_digit(#[trigger] d[i]) by {
            if i < d.len() - 1 {
                assert(d[i] == decimal(n / 10)[i]);
            }
        }
    }
}

/// Reading back what `int_text` writes gives the number again.
pub proof fn lemma_int_text(n: int)
    ensures
        signed_value(int_text(n)) == Some(n),
{
    if n < 0 {
        lemma_decimal((-n) as nat);
        let t = int_text(n);
        assert(t.drop_first() =~= decimal((-n) as nat));
    } else {
        lemma_decimal(n as nat);
        let t = decimal(n as nat);
        assert(t[0] != '-' && t[0] != '+') by {
            assert(is_digit(t[0]));
        }
    }
}

/// Appends one digit to `out`.
fn push_digit(out: &mut String, d: u64)
    requires
        d < 10,
    ensures
        final(out)@ == old(out)@.push(digit_char(d as int)),
{
    let all = "0123456789";
    proof {
        reveal_strlit("0123456789");
    }
    assert(all@ =~= seq!['0', '1', '2', '3', '4', '5', '6', '7', '8', '9']);
    let one = all.substring_char(d as usize, d as usize + 1);
    assert(one@ =~= seq![digit_char(d as int)]);
    out.append(one);
    assert(final(out)@ =~= old(out)@.push(digit_char(d as int)));
}

/// Appends the digits of `n` to `out`.
pub fn push_decimal(out: &mut String, n: u64)
    ensures
        final(out)@ == old(out)@ + decimal(n as nat),
    decreases n,
{
    if n >= 10 {
        push_decimal(out, n / 10);
    }
    push_digit(out, n % 10);
    assert(final(out)@ =~= old(out)@ + decimal(n as nat));
}

/// Appends `n` in base ten to `out`.
pub fn push_int(out: &mut String, n: i64)
    requires
        n > i64::MIN,
    ensures
        final(out)@ == old(out)@ + int_text(n as int),
{
    if n < 0 {
        out.append("-");
        proof {
            reveal_strlit("-");
        }
        push_decimal(out, (-n) as u64);
    } else {
        push_decimal(out, n as u64);
    }
    assert(final(out)@ =~= old(out)@ + int_text(n as int));
}

} // verus!

verus! {

/// What comes before the first `p` in `s` (all of `s` where `p` is absent).
pub fn before_first(s: &Vec<char>, p: &Vec<char>) -> (r: Vec<char>)
    requires
        p.len() > 0,
    ensures
        r@ == split_on(s@, p@)[0],
{
    proof {
        lemma_find_from(s@, p@, 0);
    }
    match find(s, p) {
        Some(j) => slice(s, 0, j),
        None => slice(s, 0, s.len()),
    }
}

/// The two parts of `s` around `p`, where `p` stands in `s` exactly once.
pub fn split_pair(s: &Vec<char>, p: &Vec<char>) -> (r: Option<(Vec<char>, Vec<char>)>)
    requires
        p.len() > 0,
    ensures
        r is Some <==> split_on(s@, p@).len() == 2,
        r matches Some((a, b)) ==> a@ == split_on(s@, p@)[0] && b@ == split_on(s@, p@)[1],
{
    proof {
        lemma_find_from(s@, p@, 0);
    }
    match find(s, p) {
        None => {
            assert(s@.subrange(0, s@.len() as int) =~= s@);
            None
        },
        Some(j) => {
            assert(occurs_at(s@, p@, j as int));
            assert(j + p@.len() <= s@.len());
            assert(j + p.len() <= s.len());
            let rest = slice(s, j + p.len(), s.len());
            assert(split_on(s@, p@) == seq![s@.subrange(0, j as int)] + split_on(rest@, p@));
            proof {
                lemma_find_from(rest@, p@, 0);
            }
            match find(&rest, p) {
                None => {
                    assert(split_on(rest@, p@) == seq![rest@]);
                    Some((slice(s, 0, j), rest))
                },
                Some(k) => {
                    proof {
                        lemma_split_on_len(
                            rest@.subrange(k + p.len(), rest@.len() as int),
                            p@,
                        );
                        assert(occurs_at(rest@, p@, k as int));
                        assert(split_on(rest@, p@).len() == 1 + split_on(
                            rest@.subrange(k + p.len(), rest@.len() as int),
                            p@,
                        ).len());
                    }
                    None
                },
            }
        },
    }
}

} // verus!

verus! {

/// The first piece of a split is where `s` begins.
pub proof fn lemma_split_first(s: Seq<char>, p: Seq<char>)
    ensures
        split_on(s, p)[0].len() <= s.len(),
        split_on(s, p)[0] == s.subrange(0, split_on(s, p)[0].len() as int),
{
    if p.len() > 0 {
        lemma_find_from(s, p, 0);
    }
    assert(s.subrange(0, s.len() as int) =~= s);
}

/// `s` cut at each occurrence of `p`.
pub fn split_all(s: &Vec<char>, p: &Vec<char>) -> (r: Vec<Vec<char>>)
    requires
        p.len() > 0,
    ensures
        r.len() == split_on(s@, p@).len(),
        forall|i: int| 0 <= i < r.len() ==> (#[trigger] r[i])@ == split_on(s@, p@)[i],
{
    let mut out: Vec<Vec<char>> = Vec::new();
    let mut pos: usize = 0;
    let ghost done: Seq<Seq<char>> = Seq::empty();
    assert(s@.subrange(0, s@.len() as int) =~= s@);
    assert(done + split_on(s@, p@) =~= split_on(s@, p@));
    loop
        invariant_except_break
            pos <= s.len(),
            p.len() > 0,
            split_on(s@, p@) == done + split_on(s@.subrange(pos as int, s@.len() as int), p@),
            out.len() == done.len(),
            forall|i: int| 0 <= i < out.len() ==> (#[trigger] out[i])@ == done[i],
        ensures
            split_on(s@, p@) == done,
            out.len() == done.len(),
            forall|i: int| 0 <= i < out.len() ==> (#[trigger] out[i])@ == done[i],
        decreases s.len() - pos,
    {
        let rest = slice(s, pos, s.len());
        proof {
            lemma_find_from(rest@, p@, 0);
        }
        match find(&rest, p) {
            Some(j) => {
                assert(occurs_at(rest@, p@, j as int));
                assert(j + p.len() <= rest.len());
                let piece = slice(&rest, 0, j);
                let ghost old_done = done;
                out.push(piece);
                proof {
                    done = done.push(rest@.subrange(0, j as int));
                    assert(rest@.subrange(j + p.len(), rest@.len() as int) =~= s@.subrange(
                        pos + j + p.len(),
                        s@.len() as int,
                    ));
                    assert(old_done + (seq![rest@.subrange(0, j as int)] + split_on(
                        s@.subrange(pos + j + p.len(), s@.len() as int),
                        p@,
                    )) =~= done + split_on(s@.subrange(pos + j + p.len(), s@.len() as int), p@));
                    assert forall|i: int| 0 <= i < out.len() implies (#[trigger] out[i])@
                        == done[i] by {
                        if i < old_done.len() {
                            assert(done[i] == old_done[i]);
                        }
                    }
                }
                pos = pos + j + p.len();
            },
            None => {
                let ghost old_done = done;
                out.push(rest);
                proof {
                    done = done.push(rest@);
                    assert(old_done + seq![rest@] =~= done);
                    assert forall|i: int| 0 <= i < out.len() implies (#[trigger] out[i])@
                        == done[i] by {
                        if i < old_done.len() {
                            assert(done[i] == old_done[i]);
                        }
                    }
                }
                break ;
            },
        }
    }
    out
}

/// Whether `a` and `b` hold the same characters.
pub fn same_chars(a: &Vec<char>, b: &Vec<char>) -> (r: bool)
    ensures
        r == (a@ == b@),
{
    if a.len() != b.len() {
        return false;
    }
    let mut k: usize = 0;
    while k < a.len()
        invariant
            a.len() == b.len(),
            k <= a.len(),
            forall|m: int| 0 <= m < k ==> a@[m] == b@[m],
        decreases a.len() - k,
    {
        if a[k] != b[k] {
            return false;
        }
        k += 1;
    }
    assert(a@ =~= b@);
    true
}

} // verus!

verus! {

/// `p` found at `k` with no occurrence before it (from `i` on) is what `find_from`
/// reports.
pub proof fn lemma_find_at(s: Seq<char>, p: Seq<char>, i: int, k: int)
    requires
        0 <= i <= k,
        occurs_at(s, p, k),
        forall|j: int| i <= j < k ==> !occurs_at(s, p, j),
    ensures
        find_from(s, p, i) == Some(k),
    decreases k - i,
{
    if i < k {
        lemma_find_at(s, p, i + 1, k);
    }
}

/// Where `p` does not stand in `s` at all, `find_from` finds nothing.
pub proof fn lemma_find_none(s: Seq<char>, p: Seq<char>, i: int)
    requires
        0 <= i,
        forall|j: int| i <= j ==> !occurs_at(s, p, j),
    ensures
        find_from(s, p, i) is None,
    decreases s.len() + 1 - i,
{
    if i + p.len() <= s.len() {
        lemma_find_none(s, p, i + 1);
    }
}

/// Splitting `a`, `p`, `b` on `p`, where `p` first stands after `a`.
pub proof fn lemma_split_cons(a: Seq<char>, p: Seq<char>, b: Seq<char>)
    requires
        p.len() > 0,
        forall|j: int| 0 <= j < a.len() ==> !occurs_at(a + p + b, p, j),
    ensures
        split_on(a + p + b, p) == seq![a] + split_on(b, p),
{
    let s = a + p + b;
    assert(s.subrange(a.len() as int, (a.len() + p.len()) as int) =~= p);
    lemma_find_at(s, p, 0, a.len() as int);
    assert(s.subrange(0, a.len() as int) =~= a);
    assert(s.subrange((a.len() + p.len()) as int, s.len() as int) =~= b);
}

/// Splitting on `p` leaves `a` whole where `p` does not stand in it.
pub proof fn lemma_split_whole(a: Seq<char>, p: Seq<char>)
    requires
        p.len() > 0,
        forall|j: int| 0 <= j ==> !occurs_at(a, p, j),
    ensures
        split_on(a, p) == seq![a],
{
    lemma_find_none(a, p, 0);
}

/// Each character of `int_text(n)` is a digit or a minus sign.
pub proof fn lemma_int_text_chars(n: int)
    ensures
        forall|i: int| 0 <= i < int_text(n).len() ==> is_digit(#[trigger] int_text(n)[i])
            || int_text(n)[i] == '-',
{
    if n < 0 {
        lemma_decimal((-n) as nat);
        let t = int_text(n);
        assert forall|i: int| 0 <= i < t.len() implies is_digit(#[trigger] t[i]) || t[i] == '-' by {
            if i > 0 {
                assert(t[i] == decimal((-n) as nat)[i - 1]);
            }
        }
    } else {
        lemma_decimal(n as nat);
    }
}

} // verus!

verus! {

/// `q` stands nowhere in `s`.
pub open spec fn absent(s: Seq<char>, q: Seq<char>) -> bool {
    forall|j: int| !occurs_at(s, q, j)
}

/// What is absent from `s` is absent from each part of it.
pub proof fn lemma_absent_subrange(s: Seq<char>, q: Seq<char>, lo: int, hi: int)
    requires
        absent(s, q),
        0 <= lo <= hi <= s.len(),
    ensures
        absent(s.subrange(lo, hi), q),
{
    let t = s.subrange(lo, hi);
    assert forall|j: int| !occurs_at(t, q, j) by {
        if occurs_at(t, q, j) {
            assert(t.subrange(j, j + q.len()) =~= s.subrange(lo + j, lo + j + q.len()));
            assert(occurs_at(s, q, lo + j));
        }
    }
}

/// What is absent from `s` is absent from each piece of a split of it.
pub proof fn lemma_absent_pieces(s: Seq<char>, p: Seq<char>, q: Seq<char>)
    requires
        absent(s, q),
    ensures
        forall|i: int| 0 <= i < split_on(s, p).len() ==> absent(#[trigger] split_on(s, p)[i], q),
    decreases s.len(),
{
    if p.len() > 0 {
        lemma_find_from(s, p, 0);
        if let Some(j) = find_from(s, p, 0) {
            let rest = s.subrange(j + p.len(), s.len() as int);
            lemma_absent_subrange(s, q, 0, j);
            lemma_absent_subrange(s, q, j + p.len(), s.len() as int);
            lemma_absent_pieces(rest, p, q);
            assert forall|i: int| 0 <= i < split_on(s, p).len() implies absent(
                #[trigger] split_on(s, p)[i],
                q,
            ) by {
                if i > 0 {
                    assert(split_on(s, p)[i] == split_on(rest, p)[i - 1]);
                }
            }
        }
    }
}

/// What is absent from `s` is absent from `s` trimmed.
pub proof fn lemma_absent_trim(s: Seq<char>, q: Seq<char>)
    requires
        absent(s, q),
    ensures
        absent(trim(s), q),
{
    lemma_trim_start_is_suffix(s);
    let a = trim_start(s);
    lemma_absent_subrange(s, q, s.len() - a.len(), s.len() as int);
    lemma_trim_end_is_prefix(a);
    lemma_absent_subrange(a, q, 0, trim_end(a).len() as int);
}

pub proof fn lemma_trim_start_is_suffix(s: Seq<char>)
    ensures
        trim_start(s).len() <= s.len(),
        trim_start(s) == s.subrange(s.len() - trim_start(s).len(), s.len() as int),
    decreases s.len(),
{
    if s.len() > 0 && is_space(s[0]) {
        lemma_trim_start_is_suffix(s.drop_first());
        assert(s.drop_first().subrange(
            s.drop_first().len() - trim_start(s).len(),
            s.drop_first().len() as int,
        ) =~= s.subrange(s.len() - trim_start(s).len(), s.len() as int));
    } else {
        assert(s.subrange(0, s.len() as int) =~= s);
    }
}

pub proof fn lemma_trim_end_is_prefix(s: Seq<char>)
    ensures
        trim_end(s).len() <= s.len(),
        trim_end(s) == s.subrange(0, trim_end(s).len() as int),
    decreases s.len(),
{
    if s.len() > 0 && is_space(s.last()) {
        lemma_trim_end_is_prefix(s.drop_last());
        assert(s.drop_last().subrange(0, trim_end(s).len() as int) =~= s.subrange(
            0,
            trim_end(s).len() as int,
        ));
    } else {
        assert(s.subrange(0, s.len() as int) =~= s);
    }
}

} // verus!

verus! {

/// No occurrence of `p` in `a + p` starts inside `a` and runs past its end.
pub open spec fn ends_clear_of(a: Seq<char>, p: Seq<char>) -> bool {
    forall|j: int| 0 <= j < a.len() && occurs_at(a + p, p, j) ==> j + p.len() <= a.len()
}

/// Splitting `a`, `p`, `x` on `p` gives the pieces of `a` and then those of `x`.
pub proof fn lemma_split_join(a: Seq<char>, p: Seq<char>, x: Seq<char>)
    requires
        p.len() > 0,
        ends_clear_of(a, p),
    ensures
        split_on(a + p + x, p) == split_on(a, p) + split_on(x, p),
    decreases a.len(),
{
    let s = a + p + x;
    let ap = a + p;
    assert forall|j: int| 0 <= j < a.len() implies occurs_at(s, p, j) == occurs_at(a, p, j) by {
        if j + p.len() <= a.len() {
            assert(s.subrange(j, j + p.len()) =~= a.subrange(j, j + p.len()));
        } else {
            assert(s.subrange(j, j + p.len()) =~= ap.subrange(j, j + p.len()));
            if occurs_at(s, p, j) {
                assert(occurs_at(ap, p, j));
            }
        }
    }
    lemma_find_from(a, p, 0);
    match find_from(a, p, 0) {
        Some(j) => {
            lemma_find_at(s, p, 0, j);
            let a2 = a.subrange(j + p.len(), a.len() as int);
            assert forall|k: int| 0 <= k < a2.len() && occurs_at(a2 + p, p, k) implies k + p.len()
                <= a2.len() by {
                assert((a2 + p).subrange(k, k + p.len()) =~= ap.subrange(
                    j + p.len() + k,
                    j + p.len() + k + p.len(),
                ));
                assert(occurs_at(ap, p, j + p.len() + k));
            }
            lemma_split_join(a2, p, x);
            assert(s.subrange(j + p.len(), s.len() as int) =~= a2 + p + x);
            assert(s.subrange(0, j) =~= a.subrange(0, j));
            assert(split_on(s, p) =~= split_on(a, p) + split_on(x, p));
        },
        None => {
            assert(s.subrange(a.len() as int, (a.len() + p.len()) as int) =~= p);
            lemma_find_at(s, p, 0, a.len() as int);
            assert(s.subrange(0, a.len() as int) =~= a);
            assert(s.subrange((a.len() + p.len()) as int, s.len() as int) =~= x);
            assert(split_on(s, p) =~= split_on(a, p) + split_on(x, p));
        },
    }
}

} // verus!
