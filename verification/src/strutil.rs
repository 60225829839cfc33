//! Character-sequence utilities shared by the document codec, the query
//! builders and the value-display logic.

use vstd::prelude::*;
use vstd::std_specs::iter::IteratorSpec;

verus! {

/// The characters of `s`, in order, as a vector, walked off `str::chars`.
pub fn str_chars(s: &str) -> (r: Vec<char>)
    ensures
        r@ == s@,
{
    broadcast use vstd::string::axiom_spec_iter, vstd::string::next_postcondition;

    let mut it = s.chars();
    let mut out: Vec<char> = Vec::new();
    proof {
        assert(out@ + it.remaining() =~= s@);
    }
    loop
        invariant
            it.obeys_prophetic_iter_laws(),
            it.decrease() is Some,
            out@ + it.remaining() == s@,
        decreases it.decrease()->0,
    {
        match it.next() {
            Some(ch) => {
                out.push(ch);
                proof {
                    assert(out@ + it.remaining() =~= s@);
                }
            },
            None => {
                proof {
                    assert(it.remaining().len() == 0);
                    assert(out@ =~= s@);
                }
                return out;
            },
        }
    }
}

/// Relies on `String: FromIterator<char>` (`Iterator::collect`): the string
/// holding exactly the characters of `v`, in order.
#[verifier::external_body]
pub fn chars_string(v: &Vec<char>) -> (r: String)
    ensures
        r@ == v@,
{
    v.iter().collect()
}

/// Appends `src[a..b]` to `dst`.
pub fn push_range(dst: &mut Vec<char>, src: &Vec<char>, a: usize, b: usize)
    requires
        a <= b <= src@.len(),
    ensures
        final(dst)@ == old(dst)@ + src@.subrange(a as int, b as int),
{
    let mut i: usize = a;
    while i < b
        invariant
            a <= i <= b <= src@.len(),
            dst@ == old(dst)@ + src@.subrange(a as int, i as int),
        decreases b - i,
    {
        dst.push(src[i]);
        proof {
            assert(dst@ =~= old(dst)@ + src@.subrange(a as int, i + 1));
        }
        i = i + 1;
    }
}

/// Appends every character of `src` to `dst`.
pub fn push_str_chars(dst: &mut Vec<char>, src: &str)
    ensures
        final(dst)@ == old(dst)@ + src@,
{
    let chars = str_chars(src);
    let n = chars.len();
    push_range(dst, &chars, 0, n);
    proof {
        assert(chars@.subrange(0, chars@.len() as int) =~= chars@);
    }
}

/// Does `needle` occur as a contiguous run inside `hay`?
pub open spec fn contains_seq(hay: Seq<char>, needle: Seq<char>) -> bool {
    exists|i: int|
        0 <= i && i + needle.len() <= hay.len() && #[trigger] hay.subrange(i, i + needle.len())
            == needle
}

/// Compares `hay[at .. at + needle.len()]` with `needle`.
pub(crate) fn matches_at(hay: &Vec<char>, needle: &Vec<char>, at: usize) -> (r: bool)
    requires
        at + needle@.len() <= hay@.len(),
    ensures
        r == (hay@.subrange(at as int, at + needle@.len()) == needle@),
{
    let n = needle.len();
    let hn = hay.len();
    let mut j: usize = 0;
    while j < n
        invariant
            0 <= j <= n,
            n == needle@.len(),
            hn == hay@.len(),
            at + n <= hay@.len(),
            forall|k: int| 0 <= k < j ==> hay@[at + k] == needle@[k],
        decreases n - j,
    {
        if hay[at + j] != needle[j] {
            proof {
                assert(hay@.subrange(at as int, at + needle@.len())[j as int] != needle@[j as int]);
            }
            return false;
        }
        j = j + 1;
    }
    proof {
        assert(hay@.subrange(at as int, at + needle@.len()) =~= needle@);
    }
    true
}

/// Substring search: does `needle` occur anywhere in `hay`?
pub fn str_contains(hay: &str, needle: &str) -> (r: bool)
    ensures
        r == contains_seq(hay@, needle@),
{
    let h = str_chars(hay);
    let n = str_chars(needle);
    if n.len() == 0 {
        proof {
            assert(hay@.subrange(0, 0 + needle@.len() as int) =~= needle@);
            assert(contains_seq(hay@, needle@));
        }
        return true;
    }
    if n.len() > h.len() {
        return false;
    }
    let hn = h.len();
    let last = h.len() - n.len();
    let mut i: usize = 0;
    while i <= last
        invariant
            h@ == hay@,
            n@ == needle@,
            1 <= n@.len() <= h@.len(),
            hn == h@.len(),
            last == h@.len() - n@.len(),
            0 <= i <= last + 1,
            forall|k: int|
                0 <= k < i ==> #[trigger] hay@.subrange(k, k + needle@.len()) != needle@,
        decreases last + 1 - i,
    {
        if matches_at(&h, &n, i) {
            return true;
        }
        i = i + 1;
    }
    false
}

/// Every occurrence of `pat` in `t` replaced by `val`, scanning left to
/// right; the empty pattern replaces nothing.
pub open spec fn replace_all(t: Seq<char>, pat: Seq<char>, val: Seq<char>) -> Seq<char>
    decreases t.len(),
{
    if pat.len() == 0 {
        t
    } else if t.len() < pat.len() {
        t
    } else if t.take(pat.len() as int) == pat {
        val + replace_all(t.skip(pat.len() as int), pat, val)
    } else {
        seq![t[0]] + replace_all(t.drop_first(), pat, val)
    }
}

/// Replaces every occurrence of `pat` in `t` by `val`, scanning left to
/// right.
pub fn replace_chars(t: &Vec<char>, pat: &Vec<char>, val: &Vec<char>) -> (r: Vec<char>)
    ensures
        r@ == replace_all(t@, pat@, val@),
{
    let n = t.len();
    let plen = pat.len();
    let vlen = val.len();
    if plen == 0 {
        let mut copy: Vec<char> = Vec::new();
        push_range(&mut copy, t, 0, n);
        proof {
            assert(t@.subrange(0, t@.len() as int) =~= t@);
            assert(copy@ =~= replace_all(t@, pat@, val@));
        }
        return copy;
    }
    let mut out: Vec<char> = Vec::new();
    let mut i: usize = 0;
    proof {
        assert(t@.skip(0) =~= t@);
    }
    while i < n
        invariant
            n == t@.len(),
            plen == pat@.len(),
            vlen == val@.len(),
            plen >= 1,
            0 <= i <= n,
            replace_all(t@, pat@, val@) == out@ + replace_all(t@.skip(i as int), pat@, val@),
        decreases n - i,
    {
        let can = plen <= n - i;
        let matched = if can {
            matches_at(t, pat, i)
        } else {
            false
        };
        if matched {
            push_range(&mut out, val, 0, vlen);
            proof {
                assert(val@.subrange(0, val@.len() as int) =~= val@);
                assert(t@.skip(i as int).take(plen as int) =~= t@.subrange(i as int, i + plen));
                assert(t@.skip(i as int).skip(plen as int) =~= t@.skip(i + plen));
                assert(replace_all(t@.skip(i as int), pat@, val@) == val@ + replace_all(
                    t@.skip(i + plen),
                    pat@,
                    val@,
                ));
                assert(out@ + replace_all(t@.skip(i + plen), pat@, val@) =~= replace_all(
                    t@,
                    pat@,
                    val@,
                ));
            }
            i = i + plen;
        } else {
            out.push(t[i]);
            proof {
                if plen <= n - i {
                    assert(t@.skip(i as int).take(plen as int) =~= t@.subrange(
                        i as int,
                        i + plen,
                    ));
                } else {
                    assert(t@.skip(i as int) =~= seq![t@[i as int]] + t@.skip(i + 1));
                }
                assert(t@.skip(i as int)[0] == t@[i as int]);
                assert(t@.skip(i as int).drop_first() =~= t@.skip(i + 1));
                assert(replace_all(t@.skip(i as int), pat@, val@) == seq![t@[i as int]]
                    + replace_all(t@.skip(i + 1), pat@, val@));
                assert(out@ + replace_all(t@.skip(i + 1), pat@, val@) =~= replace_all(
                    t@,
                    pat@,
                    val@,
                ));
            }
            i = i + 1;
        }
    }
    proof {
        assert(t@.skip(n as int) =~= Seq::<char>::empty());
        assert(out@ =~= out@ + replace_all(Seq::<char>::empty(), pat@, val@));
    }
    out
}

/// The decimal digit characters of `n`, most significant first.
pub open spec fn dec_digits(n: nat) -> Seq<char>
    decreases n,
{
    if n < 10 {
        seq![digit_char(n)]
    } else {
        dec_digits(n / 10).push(digit_char(n % 10))
    }
}

/// The character for one decimal digit.
pub open spec fn digit_char(d: nat) -> char {
    if d == 0 {
        '0'
    } else if d == 1 {
        '1'
    } else if d == 2 {
        '2'
    } else if d == 3 {
        '3'
    } else if d == 4 {
        '4'
    } else if d == 5 {
        '5'
    } else if d == 6 {
        '6'
    } else if d == 7 {
        '7'
    } else if d == 8 {
        '8'
    } else {
        '9'
    }
}

fn digit_char_exec(d: u64) -> (r: char)
    requires
        d < 10,
    ensures
        r == digit_char(d as nat),
{
    if d == 0 {
        '0'
    } else if d == 1 {
        '1'
    } else if d == 2 {
        '2'
    } else if d == 3 {
        '3'
    } else if d == 4 {
        '4'
    } else if d == 5 {
        '5'
    } else if d == 6 {
        '6'
    } else if d == 7 {
        '7'
    } else if d == 8 {
        '8'
    } else {
        '9'
    }
}

/// The decimal digits of `n`, as characters.
pub fn u64_dec_chars(n: u64) -> (r: Vec<char>)
    ensures
        r@ == dec_digits(n as nat),
    decreases n,
{
    if n < 10 {
        let mut v: Vec<char> = Vec::new();
        v.push(digit_char_exec(n));
        proof {
            assert(v@ =~= seq![digit_char(n as nat)]);
        }
        v
    } else {
        let mut v = u64_dec_chars(n / 10);
        v.push(digit_char_exec(n % 10));
        v
    }
}

/// The decimal rendering of `n` as a string.
pub fn u64_to_string(n: u64) -> (r: String)
    ensures
        r@ == dec_digits(n as nat),
{
    let v = u64_dec_chars(n);
    chars_string(&v)
}

/// The character for one hexadecimal digit, lowercase.
pub open spec fn hex_char(d: nat) -> char {
    if d < 10 {
        digit_char(d)
    } else if d == 10 {
        'a'
    } else if d == 11 {
        'b'
    } else if d == 12 {
        'c'
    } else if d == 13 {
        'd'
    } else if d == 14 {
        'e'
    } else {
        'f'
    }
}

fn hex_char_exec(d: u8) -> (r: char)
    requires
        d < 16,
    ensures
        r == hex_char(d as nat),
{
    if d < 10 {
        digit_char_exec(d as u64)
    } else if d == 10 {
        'a'
    } else if d == 11 {
        'b'
    } else if d == 12 {
        'c'
    } else if d == 13 {
        'd'
    } else if d == 14 {
        'e'
    } else {
        'f'
    }
}

/// The low `k` hexadecimal digits of `n`, most significant first, with
/// leading zeros kept.
pub open spec fn hex_digits(n: nat, k: nat) -> Seq<char>
    decreases k,
{
    if k == 0 {
        Seq::empty()
    } else {
        hex_digits(n / 16, (k - 1) as nat).push(hex_char(n % 16))
    }
}

/// Sixteen to the `k`-th power.
pub open spec fn pow16(k: nat) -> nat
    decreases k,
{
    if k == 0 {
        1
    } else {
        16 * pow16((k - 1) as nat)
    }
}

/// `pow16` is positive and grows monotonically.
pub proof fn lemma_pow16_mono(a: nat, b: nat)
    requires
        a <= b,
    ensures
        0 < pow16(a) <= pow16(b),
    decreases b,
{
    if b > 0 {
        if a == b {
            lemma_pow16_mono(0, (b - 1) as nat);
        } else {
            lemma_pow16_mono(a, (b - 1) as nat);
        }
    }
}

/// The value of thirty-two hexadecimal digits is every `u128`.
pub proof fn lemma_pow16_32()
    ensures
        pow16(32) == 0x100000000000000000000000000000000,
{
    assert(pow16(0) == 0x1);
    assert(pow16(1) == 0x10);
        assert(pow16(2) == 0x100);
        assert(pow16(3) == 0x1000);
        assert(pow16(4) == 0x10000);
        assert(pow16(5) == 0x100000);
        assert(pow16(6) == 0x1000000);
        assert(pow16(7) == 0x10000000);
        assert(pow16(8) == 0x100000000);
        assert(pow16(9) == 0x1000000000);
        assert(pow16(10) == 0x10000000000);
        assert(pow16(11) == 0x100000000000);
        assert(pow16(12) == 0x1000000000000);
        assert(pow16(13) == 0x10000000000000);
        assert(pow16(14) == 0x100000000000000);
        assert(pow16(15) == 0x1000000000000000);
        assert(pow16(16) == 0x10000000000000000);
        assert(pow16(17) == 0x100000000000000000);
        assert(pow16(18) == 0x1000000000000000000);
        assert(pow16(19) == 0x10000000000000000000);
        assert(pow16(20) == 0x100000000000000000000);
        assert(pow16(21) == 0x1000000000000000000000);
        assert(pow16(22) == 0x10000000000000000000000);
        assert(pow16(23) == 0x100000000000000000000000);
        assert(pow16(24) == 0x1000000000000000000000000);
        assert(pow16(25) == 0x10000000000000000000000000);
        assert(pow16(26) == 0x100000000000000000000000000);
        assert(pow16(27) == 0x1000000000000000000000000000);
        assert(pow16(28) == 0x10000000000000000000000000000);
        assert(pow16(29) == 0x100000000000000000000000000000);
        assert(pow16(30) == 0x1000000000000000000000000000000);
        assert(pow16(31) == 0x10000000000000000000000000000000);
        assert(pow16(32) == 0x100000000000000000000000000000000);
}

/// `hex_digits` yields exactly `k` characters.
pub proof fn lemma_hex_digits_len(n: nat, k: nat)
    ensures
        hex_digits(n, k).len() == k,
    decreases k,
{
    if k > 0 {
        lemma_hex_digits_len(n / 16, (k - 1) as nat);
    }
}

/// The low `k` hexadecimal digits of `n`, as characters.
pub fn u128_hex_chars(n: u128, k: usize) -> (r: Vec<char>)
    ensures
        r@ == hex_digits(n as nat, k as nat),
        r@.len() == k,
    decreases k,
{
    if k == 0 {
        let v: Vec<char> = Vec::new();
        proof {
            assert(v@ =~= hex_digits(n as nat, 0));
        }
        v
    } else {
        let mut v = u128_hex_chars(n / 16, k - 1);
        v.push(hex_char_exec((n % 16) as u8));
        v
    }
}

/// The decimal rendering of a signed value: a minus sign for negatives,
/// then the digits of the magnitude.
pub open spec fn int_dec_digits(n: int) -> Seq<char> {
    if n < 0 {
        seq!['-'] + dec_digits((-n) as nat)
    } else {
        dec_digits(n as nat)
    }
}

/// The decimal rendering of `n` as a string, with a leading `-` if negative.
pub fn i64_to_string(n: i64) -> (r: String)
    ensures
        r@ == int_dec_digits(n as int),
{
    if n >= 0 {
        u64_to_string(n as u64)
    } else {
        let mag: u64 = if n == i64::MIN {
            9223372036854775808u64
        } else {
            (-n) as u64
        };
        let mut v: Vec<char> = Vec::new();
        v.push('-');
        let digits = u64_dec_chars(mag);
        let dn = digits.len();
        push_range(&mut v, &digits, 0, dn);
        proof {
            assert(digits@.subrange(0, digits@.len() as int) =~= digits@);
            assert(v@ =~= seq!['-'] + dec_digits((-(n as int)) as nat));
        }
        chars_string(&v)
    }
}

} // verus!
