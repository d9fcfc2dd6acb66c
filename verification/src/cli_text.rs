//! Reading numbers out of command-line text.
use vstd::prelude::*;

verus! {

/// An ASCII decimal digit.
pub open spec fn is_digit(c: char) -> bool {
    '0' <= c && c <= '9'
}

/// The value of an ASCII digit.
pub open spec fn digit_value(c: char) -> nat {
    (c as nat - '0' as nat) as nat
}

/// The value of a run of digits, most significant first.
pub open spec fn digits_value(s: Seq<char>) -> nat
    decreases s.len(),
{
    if s.len() == 0 {
        0
    } else {
        digits_value(s.drop_last()) * 10 + digit_value(s.last())
    }
}

/// Every character is a digit.
pub open spec fn all_digits(s: Seq<char>) -> bool {
    forall|i: int| 0 <= i < s.len() ==> is_digit(#[trigger] s[i])
}

/// An unsigned 32-bit number as `u32` parsing reads it: an optional `+`, then
/// at least one digit, nothing else, and a value that fits.
pub open spec fn spec_parse_u32(s: Seq<char>) -> Option<u32> {
    let d = if s.len() > 0 && s[0] == '+' {
        s.drop_first()
    } else {
        s
    };
    if d.len() > 0 && all_digits(d) && digits_value(d) <= u32::MAX {
        Some(digits_value(d) as u32)
    } else {
        None
    }
}

/// Position of the first `c` in `s`.
pub open spec fn first_index_of(s: Seq<char>, c: char) -> Option<int> {
    if exists|i: int| 0 <= i < s.len() && s[i] == c {
        Some(choose|i: int| 0 <= i < s.len() && s[i] == c && forall|j: int| 0 <= j < i ==> s[j] != c)
    } else {
        None
    }
}

/// The characters of a string.
pub fn chars_of(s: &str) -> (r: Vec<char>)
    ensures
        r@ == s@,
{
    let n = s.unicode_len();
    let mut out: Vec<char> = Vec::new();
    let mut i: usize = 0;
    while i < n
        invariant
            n == s@.len(),
            i <= n,
            out@ == s@.take(i as int),
        decreases n - i,
    {
        out.push(s.get_char(i));
        i = i + 1;
        assert(out@ =~= s@.take(i as int));
    }
    assert(s@.take(n as int) =~= s@);
    out
}

/// Whether two character runs are equal.
pub fn chars_eq(a: &Vec<char>, b: &Vec<char>) -> (r: bool)
    ensures
        r == (a@ == b@),
{
    if a.len() != b.len() {
        return false;
    }
    let mut i: usize = 0;
    while i < a.len()
        invariant
            a@.len() == b@.len(),
            i <= a@.len(),
            forall|j: int| 0 <= j < i ==> a@[j] == b@[j],
        decreases a@.len() - i,
    {
        if a[i] != b[i] {
            return false;
        }
        i = i + 1;
    }
    assert(a@ =~= b@);
    true
}

/// Whether a character run spells the given word.
pub fn is_word(a: &Vec<char>, w: &str) -> (r: bool)
    ensures
        r == (a@ == w@),
{
    let b = chars_of(w);
    chars_eq(a, &b)
}

/// Index of the first `c` in `v`.
pub fn find_char(v: &Vec<char>, c: char) -> (r: Option<usize>)
    ensures
        r matches Some(i) ==> i < v@.len() && v@[i as int] == c && forall|j: int| 0 <= j < i ==> v@[j] != c,
        r is None ==> forall|j: int| 0 <= j < v@.len() ==> v@[j] != c,
        r matches Some(i) ==> first_index_of(v@, c) == Some(i as int),
        r is None ==> first_index_of(v@, c) is None,
{
    let mut i: usize = 0;
    while i < v.len()
        invariant
            i <= v@.len(),
            forall|j: int| 0 <= j < i ==> v@[j] != c,
        decreases v@.len() - i,
    {
        if v[i] == c {
            proof {
                let w = choose|k: int| 0 <= k < v@.len() && v@[k] == c && forall|j: int| 0 <= j < k ==> v@[j] != c;
                assert(w == i) by {
                    if w < i {
                        assert(v@[w] != c);
                    }
                    if w > i {
                        assert(v@[i as int] != c);
                    }
                }
            }
            return Some(i);
        }
        i = i + 1;
    }
    None
}

proof fn lemma_digits_push(s: Seq<char>, c: char)
    ensures
        digits_value(s.push(c)) == digits_value(s) * 10 + digit_value(c),
{
    assert(s.push(c).drop_last() =~= s);
}

/// Parse an unsigned 32-bit number as `u32` parsing does.
pub fn parse_u32(v: &Vec<char>) -> (r: Option<u32>)
    ensures
        r == spec_parse_u32(v@),
{
    let start: usize = if v.len() > 0 && v[0] == '+' {
        1
    } else {
        0
    };
    let ghost d = if v@.len() > 0 && v@[0] == '+' {
        v@.drop_first()
    } else {
        v@
    };
    assert(d =~= v@.skip(start as int));
    if start >= v.len() {
        return None;
    }
    let mut acc: u64 = 0;
    let mut i: usize = start;
    while i < v.len()
        invariant
            start <= i <= v@.len(),
            d == v@.skip(start as int),
            d == (if v@.len() > 0 && v@[0] == '+' {
                v@.drop_first()
            } else {
                v@
            }),
            all_digits(v@.subrange(start as int, i as int)),
            acc == digits_value(v@.subrange(start as int, i as int)),
            acc <= u32::MAX,
        decreases v@.len() - i,
    {
        let c = v[i];
        if !('0' <= c && c <= '9') {
            assert(!all_digits(d)) by {
                assert(d[i - start] == c);
                assert(!is_digit(d[i - start]));
            }
            assert(spec_parse_u32(v@) is None);
            return None;
        }
        proof {
            assert(v@.subrange(start as int, i + 1) =~= v@.subrange(start as int, i as int).push(c));
            lemma_digits_push(v@.subrange(start as int, i as int), c);
        }
        let dv = (c as u32 - '0' as u32) as u64;
        acc = acc * 10 + dv;
        if acc > u32::MAX as u64 {
            proof {
                lemma_digits_prefix_le(d, (i + 1 - start) as int);
                assert(v@.subrange(start as int, i + 1) =~= d.take((i + 1 - start) as int));
                assert(all_digits(d) ==> digits_value(d) > u32::MAX);
                assert(spec_parse_u32(v@) is None);
            }
            return None;
        }
        i = i + 1;
    }
    assert(v@.subrange(start as int, v@.len() as int) =~= d);
    Some(acc as u32)
}

/// A prefix of a run of digits is worth no more than the run.
pub proof fn lemma_digits_prefix_le(s: Seq<char>, k: int)
    requires
        0 <= k <= s.len(),
    ensures
        all_digits(s) ==> digits_value(s.take(k)) <= digits_value(s),
    decreases s.len() - k,
{
    if k < s.len() {
        lemma_digits_prefix_le(s, k + 1);
        assert(s.take(k + 1) =~= s.take(k).push(s[k]));
        lemma_digits_push(s.take(k), s[k]);
    } else {
        assert(s.take(k) =~= s);
    }
}

/// An ASCII letter.
pub open spec fn is_alpha(c: char) -> bool {
    ('a' <= c && c <= 'z') || ('A' <= c && c <= 'Z')
}

/// Position of the first letter, or the length.
#[verifier::opaque]
pub open spec fn first_alpha(s: Seq<char>) -> int {
    if exists|i: int| 0 <= i < s.len() && is_alpha(s[i]) {
        choose|i: int| 0 <= i < s.len() && is_alpha(s[i]) && forall|j: int| 0 <= j < i ==> !is_alpha(s[j])
    } else {
        s.len() as int
    }
}

/// A decimal number without exponent, the way floating-point parsing reads
/// one: an optional sign, digits with at most one point, at least one digit.
/// Gives the sign and the digits before and after the point.
pub open spec fn spec_decimal_parts(s: Seq<char>) -> Option<(bool, Seq<char>, Seq<char>)> {
    let signed = s.len() > 0 && (s[0] == '+' || s[0] == '-');
    let neg = s.len() > 0 && s[0] == '-';
    let b = if signed {
        s.drop_first()
    } else {
        s
    };
    match first_index_of(b, '.') {
        None => if b.len() > 0 && all_digits(b) {
            Some((neg, b, Seq::empty()))
        } else {
            None
        },
        Some(p) => {
            let ip = b.take(p);
            let fp = b.skip(p + 1);
            if all_digits(ip) && all_digits(fp) && ip.len() + fp.len() > 0 {
                Some((neg, ip, fp))
            } else {
                None
            }
        },
    }
}

/// `10^k`.
pub open spec fn pow10(k: nat) -> nat
    decreases k,
{
    if k == 0 {
        1
    } else {
        10 * pow10((k - 1) as nat)
    }
}

/// Position of the first letter in `v`, or its length.
pub fn letter_position(v: &Vec<char>) -> (r: usize)
    ensures
        r as int == first_alpha(v@),
        r <= v@.len(),
{
    reveal(first_alpha);
    let mut i: usize = 0;
    while i < v.len()
        invariant
            i <= v@.len(),
            forall|j: int| 0 <= j < i ==> !is_alpha(v@[j]),
        decreases v@.len() - i,
    {
        let c = v[i];
        if ('a' <= c && c <= 'z') || ('A' <= c && c <= 'Z') {
            proof {
                reveal(first_alpha);
                let w = choose|k: int| 0 <= k < v@.len() && is_alpha(v@[k]) && forall|j: int| 0 <= j < k ==> !is_alpha(v@[j]);
                assert(w == i) by {
                    if w < i {
                        assert(!is_alpha(v@[w]));
                    }
                    if w > i {
                        assert(is_alpha(v@[i as int]));
                    }
                }
            }
            return i;
        }
        i = i + 1;
    }
    i
}

/// Value of a run of digits below `10^26`, or `None` when it is a non-digit
/// run or larger.
fn small_digits(v: &Vec<char>, from: usize, to: usize) -> (r: Option<u128>)
    requires
        from <= to <= v@.len(),
    ensures
        r matches Some(x) ==> all_digits(v@.subrange(from as int, to as int)) && x == digits_value(
            v@.subrange(from as int, to as int),
        ) && x < pow10(26),
        r is None ==> !all_digits(v@.subrange(from as int, to as int)) || digits_value(
            v@.subrange(from as int, to as int),
        ) >= pow10(26),
{
    let ghost d = v@.subrange(from as int, to as int);
    let mut acc: u128 = 0;
    let mut i: usize = from;
    assert(pow10(26) == 100_000_000_000_000_000_000_000_000) by {
        reveal_with_fuel(pow10, 27);
    }
    while i < to
        invariant
            from <= i <= to <= v@.len(),
            d == v@.subrange(from as int, to as int),
            pow10(26) == 100_000_000_000_000_000_000_000_000,
            all_digits(v@.subrange(from as int, i as int)),
            acc == digits_value(v@.subrange(from as int, i as int)),
            acc < pow10(26),
        decreases to - i,
    {
        let c = v[i];
        if !('0' <= c && c <= '9') {
            assert(!all_digits(d)) by {
                assert(d[i - from] == c);
            }
            return None;
        }
        proof {
            assert(v@.subrange(from as int, i + 1) =~= v@.subrange(from as int, i as int).push(c));
            lemma_digits_push(v@.subrange(from as int, i as int), c);
        }
        let dv = (c as u32 - '0' as u32) as u128;
        acc = acc * 10 + dv;
        if acc >= 100_000_000_000_000_000_000_000_000 {
            proof {
                lemma_digits_prefix_le(d, (i + 1 - from) as int);
                assert(v@.subrange(from as int, i + 1) =~= d.take((i + 1 - from) as int));
            }
            return None;
        }
        i = i + 1;
    }
    Some(acc)
}

/// A copy of `v[from..to]`.
pub fn slice_chars(v: &Vec<char>, from: usize, to: usize) -> (r: Vec<char>)
    requires
        from <= to <= v@.len(),
    ensures
        r@ == v@.subrange(from as int, to as int),
{
    let mut out: Vec<char> = Vec::new();
    let mut i: usize = from;
    while i < to
        invariant
            from <= i <= to <= v@.len(),
            out@ == v@.subrange(from as int, i as int),
        decreases to - i,
    {
        out.push(v[i]);
        i = i + 1;
        assert(out@ =~= v@.subrange(from as int, i as int));
    }
    out
}

fn is_all_digits(v: &Vec<char>) -> (r: bool)
    ensures
        r == all_digits(v@),
{
    let mut i: usize = 0;
    while i < v.len()
        invariant
            i <= v@.len(),
            forall|j: int| 0 <= j < i ==> is_digit(#[trigger] v@[j]),
        decreases v@.len() - i,
    {
        let c = v[i];
        if !('0' <= c && c <= '9') {
            assert(!is_digit(v@[i as int]));
            return false;
        }
        i = i + 1;
    }
    true
}

/// The sign and digit runs of a decimal number in `v`, as `spec_decimal_parts`.
pub fn decimal_parts(v: &Vec<char>) -> (r: Option<(bool, Vec<char>, Vec<char>)>)
    ensures
        match r {
            Some((neg, ip, fp)) => spec_decimal_parts(v@) == Some((neg, ip@, fp@)),
            None => spec_decimal_parts(v@) is None,
        },
{
    let signed = v.len() > 0 && (v[0] == '+' || v[0] == '-');
    let neg = v.len() > 0 && v[0] == '-';
    let b = if signed {
        slice_chars(v, 1, v.len())
    } else {
        slice_chars(v, 0, v.len())
    };
    assert(signed ==> b@ =~= v@.drop_first());
    assert(!signed ==> b@ =~= v@);
    match find_char(&b, '.') {
        None => {
            if b.len() > 0 && is_all_digits(&b) {
                let empty: Vec<char> = Vec::new();
                assert(empty@ =~= Seq::<char>::empty());
                Some((neg, b, empty))
            } else {
                None
            }
        },
        Some(p) => {
            let ip = slice_chars(&b, 0, p);
            let fp = slice_chars(&b, p + 1, b.len());
            assert(ip@ =~= b@.take(p as int));
            assert(fp@ =~= b@.skip(p + 1));
            if is_all_digits(&ip) && is_all_digits(&fp) && ip.len() + fp.len() > 0 {
                Some((neg, ip, fp))
            } else {
                None
            }
        },
    }
}

/// `10^k` for `k <= 38`.
pub fn pow10_u128(k: u32) -> (r: u128)
    requires
        k <= 38,
    ensures
        r == pow10(k as nat),
{
    let mut r: u128 = 1;
    let mut i: u32 = 0;
    proof {
        lemma_pow10_38();
        lemma_pow10_mono(0, 38);
    }
    while i < k
        invariant
            i <= k <= 38,
            r == pow10(i as nat),
            r <= pow10(38),
            pow10(38) == 100_000_000_000_000_000_000_000_000_000_000_000_000,
        decreases k - i,
    {
        proof {
            lemma_pow10_mono(i as nat + 1, 38);
        }
        assert(pow10(i as nat + 1) == 10 * pow10(i as nat));
        r = r * 10;
        i = i + 1;
    }
    r
}

proof fn lemma_pow10_mono(a: nat, b: nat)
    requires
        a <= b,
    ensures
        pow10(a) <= pow10(b),
        pow10(a) >= 1,
    decreases b,
{
    if b > a {
        lemma_pow10_mono(a, (b - 1) as nat);
    } else if a > 0 {
        lemma_pow10_mono((a - 1) as nat, (a - 1) as nat);
    }
}

/// A digit run below `10^26`, as `small_digits` over the whole vector.
pub fn small_digits_of(v: &Vec<char>) -> (r: Option<u128>)
    ensures
        r matches Some(x) ==> all_digits(v@) && x == digits_value(v@) && x < pow10(26),
        r is None ==> !all_digits(v@) || digits_value(v@) >= pow10(26),
{
    assert(v@.subrange(0, v@.len() as int) =~= v@);
    small_digits(v, 0, v.len())
}

/// `10^k` grows with `k` and is never zero.
pub proof fn lemma_pow10_mono_pub(a: nat, b: nat)
    requires
        a <= b,
    ensures
        pow10(a) <= pow10(b),
        pow10(a) >= 1,
{
    lemma_pow10_mono(a, b);
}

/// `10^12` and `10^26`.
pub proof fn lemma_pow10_facts()
    ensures
        pow10(12) == 1_000_000_000_000,
        pow10(26) == 100_000_000_000_000_000_000_000_000,
{
    reveal_with_fuel(pow10, 27);
}

proof fn lemma_pow10_38()
    ensures
        pow10(38) == 100_000_000_000_000_000_000_000_000_000_000_000_000,
        pow10(26) == 100_000_000_000_000_000_000_000_000,
{
    reveal_with_fuel(pow10, 39);
}


/// A path's text as compared: a leading `\\?\` dropped, every `/` made `\`.
pub open spec fn strip_path(s: Seq<char>) -> Seq<char> {
    let t = if s.len() >= 4 && s.take(4) == seq!['\\', '\\', '?', '\\'] {
        s.skip(4)
    } else {
        s
    };
    t.map_values(|c: char| if c == '/' { '\\' } else { c })
}

/// `path` is `root` or lies below it: after stripping, equal texts, or the
/// path starts with the root and then a separator.
pub open spec fn spec_path_under(path: Seq<char>, root: Seq<char>) -> bool {
    let p = strip_path(path);
    let r = strip_path(root);
    p == r || (p.len() >= r.len() + 1 && p.take((r.len() + 1) as int) == r.push('\\'))
}

fn strip_chars(v: &Vec<char>) -> (r: Vec<char>)
    ensures
        r@ == strip_path(v@),
{
    let skip: usize = if v.len() >= 4 && v[0] == '\\' && v[1] == '\\' && v[2] == '?' && v[3] == '\\' {
        4
    } else {
        0
    };
    proof {
        if v@.len() >= 4 {
            assert(v@.take(4) =~= seq![v@[0], v@[1], v@[2], v@[3]]);
        }
    }
    let ghost t = if skip == 4 {
        v@.skip(4)
    } else {
        v@
    };
    let mut out: Vec<char> = Vec::new();
    let mut i: usize = skip;
    while i < v.len()
        invariant
            skip <= i <= v@.len(),
            t == v@.skip(skip as int),
            out@ == t.take((i - skip) as int).map_values(|c: char| if c == '/' { '\\' } else { c }),
        decreases v@.len() - i,
    {
        let c = v[i];
        out.push(if c == '/' { '\\' } else { c });
        i = i + 1;
        assert(out@ =~= t.take((i - skip) as int).map_values(|c: char| if c == '/' { '\\' } else { c }));
    }
    assert(t.take((v@.len() - skip) as int) =~= t);
    proof {
        if skip == 0 {
            assert(v@.skip(0) =~= v@);
        }
    }
    out
}

/// Whether `path` is `root` or lies below it, compared as text.
pub fn path_under(path: &str, root: &str) -> (r: bool)
    ensures
        r == spec_path_under(path@, root@),
{
    let p = strip_chars(&chars_of(path));
    let r = strip_chars(&chars_of(root));
    if chars_eq(&p, &r) {
        return true;
    }
    if p.len() <= r.len() {
        return false;
    }
    let mut i: usize = 0;
    while i < r.len()
        invariant
            i <= r@.len(),
            p@.len() >= r@.len() + 1,
            p@ != r@,
            p@ == strip_path(path@),
            r@ == strip_path(root@),
            forall|k: int| 0 <= k < i ==> p@[k] == r@[k],
        decreases r@.len() - i,
    {
        if p[i] != r[i] {
            assert(p@.take((r@.len() + 1) as int)[i as int] != r@.push('\\')[i as int]);
            return false;
        }
        i = i + 1;
    }
    let ok = p[r.len()] == '\\';
    if ok {
        assert(p@.take((r@.len() + 1) as int) =~= r@.push('\\'));
    } else {
        assert(p@.take((r@.len() + 1) as int)[r@.len() as int] != r@.push('\\')[r@.len() as int]);
    }
    ok
}

} // verus!
