//! Canonical chunk naming: the chunk with index `i` of file `f` is stored
//! under the id `f` + "_chunk_" + `i` written in decimal.

use vstd::prelude::*;
use vstd::string::*;

verus! {

/// The decimal digit character for a value in 0..=9.
pub open spec fn spec_digit_char(d: int) -> char {
    if d == 0 {
        '0'
    } else if d == 1 {
        '1'
    } else if d == 2 {
        '2'
    } else if d == 3 {
        '3'
    } else if d == 4 {
        '4'
    } else if d == 5 {
        '5'
    } else if d == 6 {
        '6'
    } else if d == 7 {
        '7'
    } else if d == 8 {
        '8'
    } else {
        '9'
    }
}

/// The decimal digits of `n`, most significant first; no leading zeros,
/// and `0` is written "0".
pub open spec fn spec_decimal(n: int) -> Seq<char>
    decreases n,
{
    if n < 10 {
        seq![spec_digit_char(n)]
    } else {
        spec_decimal(n / 10).push(spec_digit_char(n % 10))
    }
}

/// Digit characters of a digit list read least-significant-first, reversed
/// into the printed order.
spec fn rev_digit_chars(ds: Seq<u64>) -> Seq<char>
    decreases ds.len(),
{
    if ds.len() == 0 {
        Seq::empty()
    } else {
        seq![spec_digit_char(ds.last() as int)] + rev_digit_chars(ds.drop_last())
    }
}

proof fn lemma_rev_digit_chars(ds: Seq<u64>)
    ensures
        rev_digit_chars(ds).len() == ds.len(),
        forall|i: int|
            0 <= i < ds.len() ==> rev_digit_chars(ds)[i] == spec_digit_char(
                ds[ds.len() - 1 - i] as int,
            ),
    decreases ds.len(),
{
    if ds.len() > 0 {
        lemma_rev_digit_chars(ds.drop_last());
    }
}

/// The single-character string for one decimal digit.
fn digit_str(d: u64) -> (r: &'static str)
    requires
        d < 10,
    ensures
        r@ == seq![spec_digit_char(d as int)],
{
    let r: &'static str = match d {
        0 => "0",
        1 => "1",
        2 => "2",
        3 => "3",
        4 => "4",
        5 => "5",
        6 => "6",
        7 => "7",
        8 => "8",
        _ => "9",
    };
    proof {
        reveal_strlit("0");
        reveal_strlit("1");
        reveal_strlit("2");
        reveal_strlit("3");
        reveal_strlit("4");
        reveal_strlit("5");
        reveal_strlit("6");
        reveal_strlit("7");
        reveal_strlit("8");
        reveal_strlit("9");
        assert(r@ =~= seq![spec_digit_char(d as int)]);
    }
    r
}

/// Writes `n` in decimal.
pub fn u64_to_decimal(n: u64) -> (r: String)
    ensures
        r@ == spec_decimal(n as int),
{
    let mut s = String::new();
    if n == 0 {
        s.append(digit_str(0));
        proof {
            assert(s@ =~= spec_decimal(0));
        }
        return s;
    }
    let mut digits: Vec<u64> = Vec::new();
    let mut m: u64 = n;
    proof {
        assert(spec_decimal(n as int) =~= spec_decimal(m as int) + rev_digit_chars(digits@));
    }
    while m > 0
        invariant
            forall|i: int| 0 <= i < digits@.len() ==> digits@[i] < 10,
            m > 0 ==> spec_decimal(n as int) == spec_decimal(m as int) + rev_digit_chars(digits@),
            m == 0 ==> spec_decimal(n as int) == rev_digit_chars(digits@),
        decreases m,
    {
        let d: u64 = m % 10;
        proof {
            let ghost old_digits = digits@;
            assert(old_digits.push(d).drop_last() =~= old_digits);
            assert(rev_digit_chars(old_digits.push(d)) == seq![spec_digit_char(d as int)]
                + rev_digit_chars(old_digits));
            if m >= 10 {
                assert(spec_decimal(m as int) == spec_decimal(m as int / 10).push(
                    spec_digit_char(m as int % 10),
                ));
                assert(spec_decimal(m as int / 10).push(spec_digit_char(d as int))
                    + rev_digit_chars(old_digits) =~= spec_decimal(m as int / 10) + (seq![
                    spec_digit_char(d as int),
                ] + rev_digit_chars(old_digits)));
            } else {
                assert(spec_decimal(m as int) == seq![spec_digit_char(d as int)]);
            }
        }
        digits.push(d);
        m = m / 10;
    }
    let ghost rc = rev_digit_chars(digits@);
    proof {
        lemma_rev_digit_chars(digits@);
    }
    let mut j: usize = digits.len();
    proof {
        assert(s@ =~= rc.subrange(0, (digits@.len() - j) as int));
    }
    while j > 0
        invariant
            j <= digits@.len(),
            rc == rev_digit_chars(digits@),
            rc.len() == digits@.len(),
            forall|i: int| 0 <= i < digits@.len() ==> digits@[i] < 10,
            forall|i: int|
                0 <= i < digits@.len() ==> rc[i] == spec_digit_char(
                    digits@[digits@.len() - 1 - i] as int,
                ),
            s@ == rc.subrange(0, (digits@.len() - j) as int),
            spec_decimal(n as int) == rc,
        decreases j,
    {
        j = j - 1;
        let ghost pre = s@;
        s.append(digit_str(digits[j]));
        proof {
            assert(s@ =~= rc.subrange(0, (digits@.len() - j) as int));
        }
    }
    proof {
        assert(s@ =~= rc);
    }
    s
}

/// The canonical chunk id: file name, the separator "_chunk_", the index in
/// decimal.
pub open spec fn spec_chunk_id(file: Seq<char>, index: int) -> Seq<char> {
    file + "_chunk_"@ + spec_decimal(index)
}

/// Builds the canonical chunk id for the given file name and chunk index.
pub fn chunk_id_for(file: &str, index: u64) -> (r: String)
    ensures
        r@ == spec_chunk_id(file@, index as int),
{
    let mut s = file.to_owned();
    s.append("_chunk_");
    let d = u64_to_decimal(index);
    s.append(d.as_str());
    s
}

/// The ten decimal digit characters.
pub open spec fn is_digit_char(c: char) -> bool {
    c == '0' || c == '1' || c == '2' || c == '3' || c == '4' || c == '5' || c == '6' || c == '7'
        || c == '8' || c == '9'
}

/// A decimal rendering is non-empty and all digits.
pub proof fn lemma_decimal_digits(n: int)
    requires
        n >= 0,
    ensures
        spec_decimal(n).len() >= 1,
        forall|i: int| 0 <= i < spec_decimal(n).len() ==> is_digit_char(#[trigger] spec_decimal(n)[i]),
    decreases n,
{
    if n >= 10 {
        lemma_decimal_digits(n / 10);
        assert forall|i: int| 0 <= i < spec_decimal(n).len() implies is_digit_char(
            #[trigger] spec_decimal(n)[i],
        ) by {
            if i < spec_decimal(n / 10).len() {
                assert(spec_decimal(n)[i] == spec_decimal(n / 10)[i]);
            }
        }
    }
}

/// Two equal decimal renderings come from the same number.
pub proof fn lemma_decimal_injective(n1: int, n2: int)
    requires
        n1 >= 0,
        n2 >= 0,
        spec_decimal(n1) == spec_decimal(n2),
    ensures
        n1 == n2,
    decreases n1,
{
    lemma_decimal_digits(n1);
    lemma_decimal_digits(n2);
    if n1 < 10 && n2 < 10 {
        assert(spec_decimal(n1) == seq![spec_digit_char(n1)]);
        assert(spec_decimal(n2) == seq![spec_digit_char(n2)]);
        assert(seq![spec_digit_char(n1)][0] == spec_digit_char(n1));
        assert(seq![spec_digit_char(n2)][0] == spec_digit_char(n2));
        assert(spec_digit_char(n1) == spec_digit_char(n2));
        if n1 != n2 {
            assert(spec_digit_char(n1) != spec_digit_char(n2));
        }
    } else if n1 < 10 {
        lemma_decimal_digits(n2 / 10);
        assert(spec_decimal(n2).len() >= 2);
    } else if n2 < 10 {
        lemma_decimal_digits(n1 / 10);
        assert(spec_decimal(n1).len() >= 2);
    } else {
        assert(spec_decimal(n1) == spec_decimal(n1 / 10).push(spec_digit_char(n1 % 10)));
        assert(spec_decimal(n2) == spec_decimal(n2 / 10).push(spec_digit_char(n2 % 10)));
        assert(spec_decimal(n1).last() == spec_digit_char(n1 % 10));
        assert(spec_decimal(n2).last() == spec_digit_char(n2 % 10));
        assert(spec_digit_char(n1 % 10) == spec_digit_char(n2 % 10));
        assert(0 <= n1 % 10 < 10 && 0 <= n2 % 10 < 10);
        assert(n1 % 10 == n2 % 10);
        assert(spec_decimal(n1).drop_last() =~= spec_decimal(n1 / 10));
        assert(spec_decimal(n2).drop_last() =~= spec_decimal(n2 / 10));
        lemma_decimal_injective(n1 / 10, n2 / 10);
        assert(n1 == 10 * (n1 / 10) + n1 % 10);
        assert(n2 == 10 * (n2 / 10) + n2 % 10);
    }
}

/// A chunk id cannot decompose with two different file-name lengths: the
/// separator of the longer decomposition would have to sit inside the
/// digits or the separator of the shorter one.
proof fn lemma_chunk_id_align(f1: Seq<char>, i1: int, f2: Seq<char>, i2: int)
    requires
        i1 >= 0,
        i2 >= 0,
        spec_chunk_id(f1, i1) == spec_chunk_id(f2, i2),
    ensures
        f1.len() >= f2.len(),
{
    if f1.len() < f2.len() {
        reveal_strlit("_chunk_");
        let sep = "_chunk_"@;
        let s = spec_chunk_id(f1, i1);
        let d1 = spec_decimal(i1);
        let d2 = spec_decimal(i2);
        let a1 = f1.len() as int;
        let a2 = f2.len() as int;
        lemma_decimal_digits(i1);
        lemma_decimal_digits(i2);
        assert(sep.len() == 7);
        assert(s.len() == a1 + 7 + d1.len());
        assert(s.len() == a2 + 7 + d2.len());
        assert forall|x: int| 0 <= x < 7 implies s[a1 + x] == sep[x] by {
            assert(s[a1 + x] == (f1 + sep)[a1 + x]);
        }
        assert forall|x: int| 0 <= x < 7 implies s[a2 + x] == sep[x] by {
            assert(spec_chunk_id(f2, i2)[a2 + x] == (f2 + sep)[a2 + x]);
        }
        assert forall|x: int| a1 + 7 <= x < s.len() implies is_digit_char(s[x]) by {
            assert(s[x] == d1[x - (a1 + 7)]);
        }
        assert(!is_digit_char('_'));
        assert(!is_digit_char('c'));
        assert(s[a2] == sep[0]);
        assert(sep[0] == '_');
        if a2 >= a1 + 7 {
            assert(is_digit_char(s[a2]));
        } else {
            let d = a2 - a1;
            assert(s[a2] == sep[d]);
            if d == 6 {
                assert(s[a2 + 1] == sep[1]);
                assert(sep[1] == 'c');
                assert(a2 + 1 == a1 + 7);
                assert(a2 + 1 < s.len());
                assert(is_digit_char(s[a2 + 1]));
            } else {
                assert(1 <= d < 6);
                assert(sep[d] != '_');
            }
        }
    }
}

/// Two equal canonical chunk ids name the same file and the same index.
pub proof fn lemma_chunk_id_injective(f1: Seq<char>, i1: int, f2: Seq<char>, i2: int)
    requires
        i1 >= 0,
        i2 >= 0,
        spec_chunk_id(f1, i1) == spec_chunk_id(f2, i2),
    ensures
        f1 == f2,
        i1 == i2,
{
    reveal_strlit("_chunk_");
    let sep = "_chunk_"@;
    let s = spec_chunk_id(f1, i1);
    let d1 = spec_decimal(i1);
    let d2 = spec_decimal(i2);
    let a1 = f1.len() as int;
    let a2 = f2.len() as int;
    lemma_decimal_digits(i1);
    lemma_decimal_digits(i2);
    lemma_chunk_id_align(f1, i1, f2, i2);
    lemma_chunk_id_align(f2, i2, f1, i1);
    assert(a1 == a2);
    assert(f1 =~= s.subrange(0, a1));
    assert(f2 =~= s.subrange(0, a2));
    assert(d1 =~= s.subrange(a1 + 7, s.len() as int));
    assert(d2 =~= s.subrange(a2 + 7, s.len() as int));
    lemma_decimal_injective(i1, i2);
}

/// `p` is an initial segment of `s`.
pub open spec fn is_prefix(p: Seq<char>, s: Seq<char>) -> bool {
    p.len() <= s.len() && s.subrange(0, p.len() as int) == p
}

/// The prefix every chunk id of `file` starts with.
pub open spec fn spec_chunk_prefix(file: Seq<char>) -> Seq<char> {
    file + "_chunk_"@
}

/// Every canonical chunk id of a file starts with that file's chunk prefix.
pub proof fn lemma_chunk_id_has_prefix(file: Seq<char>, i: int)
    ensures
        is_prefix(spec_chunk_prefix(file), spec_chunk_id(file, i)),
{
    assert(spec_chunk_id(file, i).subrange(0, spec_chunk_prefix(file).len() as int)
        =~= spec_chunk_prefix(file));
}

/// The name recorded when `file` collides with an existing entry: file,
/// "-", and the collision counter in decimal.
pub open spec fn spec_suffixed_name(file: Seq<char>, k: int) -> Seq<char> {
    file + "-"@ + spec_decimal(k)
}

/// Two equal collision-suffixed names of one file carry the same counter.
pub proof fn lemma_suffixed_name_injective(file: Seq<char>, k1: int, k2: int)
    requires
        k1 >= 0,
        k2 >= 0,
        spec_suffixed_name(file, k1) == spec_suffixed_name(file, k2),
    ensures
        k1 == k2,
{
    reveal_strlit("-");
    let s = spec_suffixed_name(file, k1);
    let a = file.len() as int;
    lemma_decimal_digits(k1);
    lemma_decimal_digits(k2);
    assert(spec_decimal(k1) =~= s.subrange(a + 1, s.len() as int));
    assert(spec_decimal(k2) =~= s.subrange(a + 1, s.len() as int));
    lemma_decimal_injective(k1, k2);
}

/// Builds the collision-suffixed file name `file`-`k`.
pub fn suffixed_name(file: &str, k: u64) -> (r: String)
    ensures
        r@ == spec_suffixed_name(file@, k as int),
{
    let mut s = file.to_owned();
    s.append("-");
    let d = u64_to_decimal(k);
    s.append(d.as_str());
    s
}

} // verus!
