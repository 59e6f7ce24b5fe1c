use vstd::prelude::*;

verus! {

// ---------------------------------------------------------------------------
// Decimal numerals
// ---------------------------------------------------------------------------

/// ASCII decimal digit.
pub open spec fn is_digit(c: u8) -> bool {
    48 <= c && c <= 57
}

pub open spec fn all_digits(s: Seq<u8>) -> bool {
    forall|i: int| 0 <= i < s.len() ==> is_digit(#[trigger] s[i])
}

/// The value of a digit string read in base 10 (0 for the empty string).
pub open spec fn numeral_value(s: Seq<u8>) -> int
    decreases s.len(),
{
    if s.len() == 0 {
        0
    } else {
        numeral_value(s.drop_last()) * 10 + (s.last() - 48)
    }
}

/// A non-empty digit string whose value fits in a byte.
pub open spec fn is_u8_numeral(s: Seq<u8>) -> bool {
    s.len() > 0 && all_digits(s) && numeral_value(s) <= 255
}

pub proof fn lemma_all_digits_prefix(s: Seq<u8>, n: int)
    requires
        all_digits(s),
        0 <= n <= s.len(),
    ensures
        all_digits(s.subrange(0, n)),
{
    assert forall|j: int| 0 <= j < n implies is_digit(#[trigger] s.subrange(0, n)[j]) by {
        assert(s.subrange(0, n)[j] == s[j]);
    }
}

pub proof fn lemma_all_digits_extend(s: Seq<u8>, i: int)
    requires
        0 <= i < s.len(),
        all_digits(s.subrange(0, i)),
        is_digit(s[i]),
    ensures
        all_digits(s.subrange(0, i + 1)),
{
    assert forall|j: int| 0 <= j < i + 1 implies is_digit(#[trigger] s.subrange(0, i + 1)[j]) by {
        if j < i {
            assert(s.subrange(0, i)[j] == s[j]);
        }
        assert(s.subrange(0, i + 1)[j] == s[j]);
    }
}

pub proof fn lemma_numeral_value_nonneg(s: Seq<u8>)
    requires
        all_digits(s),
    ensures
        numeral_value(s) >= 0,
    decreases s.len(),
{
    if s.len() > 0 {
        assert forall|j: int| 0 <= j < s.drop_last().len()
            implies is_digit(#[trigger] s.drop_last()[j]) by {
            assert(s.drop_last()[j] == s[j]);
        }
        lemma_numeral_value_nonneg(s.drop_last());
    }
}

/// Appending digits never shrinks the value of a digit string.
pub proof fn lemma_numeral_prefix_le(s: Seq<u8>, n: int)
    requires
        all_digits(s),
        0 <= n <= s.len(),
    ensures
        numeral_value(s.subrange(0, n)) <= numeral_value(s),
    decreases s.len() - n,
{
    if n == s.len() {
        assert(s.subrange(0, n) =~= s);
    } else {
        let p = s.subrange(0, n);
        let q = s.subrange(0, n + 1);
        assert(q.drop_last() =~= p);
        assert(q.last() == s[n]);
        lemma_all_digits_prefix(s, n);
        lemma_numeral_value_nonneg(p);
        assert(numeral_value(q) == numeral_value(p) * 10 + (s[n] - 48));
        lemma_numeral_prefix_le(s, n + 1);
    }
}

/// Parses a base-10 byte value: at least one digit, digits only, value at
/// most 255. Leading zeros are accepted.
#[verifier::loop_isolation(false)]
pub fn parse_u8(s: &Vec<u8>) -> (r: Option<u8>)
    ensures
        match r {
            Some(v) => is_u8_numeral(s@) && v as int == numeral_value(s@),
            None => !is_u8_numeral(s@),
        },
{
    if s.len() == 0 {
        return None;
    }
    let mut acc: u32 = 0;
    let mut i: usize = 0;
    while i < s.len()
        invariant
            0 <= i <= s@.len(),
            all_digits(s@.subrange(0, i as int)),
            acc as int == numeral_value(s@.subrange(0, i as int)),
            acc <= 255,
        decreases s@.len() - i,
    {
        let c = s[i];
        if c < 48 || c > 57 {
            assert(!is_digit(s@[i as int]));
            return None;
        }
        proof {
            lemma_all_digits_extend(s@, i as int);
            assert(s@.subrange(0, i as int + 1).drop_last() =~= s@.subrange(0, i as int));
            assert(s@.subrange(0, i as int + 1).last() == s@[i as int]);
        }
        let d = (c - 48) as u32;
        let next = acc * 10 + d;
        assert(next as int == numeral_value(s@.subrange(0, i as int + 1)));
        if next > 255 {
            proof {
                if all_digits(s@) {
                    lemma_numeral_prefix_le(s@, i as int + 1);
                }
            }
            return None;
        }
        acc = next;
        i += 1;
    }
    proof {
        assert(s@.subrange(0, i as int) =~= s@);
    }
    Some(acc as u8)
}

// ---------------------------------------------------------------------------
// Signed numerals (for province and state ids)
// ---------------------------------------------------------------------------

/// The digit string of a possibly `-`-signed numeral.
pub open spec fn digits_part(s: Seq<u8>) -> Seq<u8> {
    if s.len() > 0 && s[0] == 45 {
        s.drop_first()
    } else {
        s
    }
}

/// A decimal numeral, optionally preceded by `-`, whose magnitude fits in
/// `i64::MAX`.
pub open spec fn is_i64_numeral(s: Seq<u8>) -> bool {
    &&& digits_part(s).len() > 0
    &&& all_digits(digits_part(s))
    &&& numeral_value(digits_part(s)) <= 0x7fff_ffff_ffff_ffff
}

pub open spec fn i64_numeral_value(s: Seq<u8>) -> int {
    if s.len() > 0 && s[0] == 45 {
        -numeral_value(digits_part(s))
    } else {
        numeral_value(digits_part(s))
    }
}

/// Parses a base-10 signed 64-bit value (magnitude at most `i64::MAX`).
#[verifier::loop_isolation(false)]
pub fn parse_i64(s: &Vec<u8>) -> (r: Option<i64>)
    ensures
        match r {
            Some(v) => is_i64_numeral(s@) && v as int == i64_numeral_value(s@),
            None => !is_i64_numeral(s@),
        },
{
    let neg = s.len() > 0 && s[0] == 45;
    let start: usize = if neg { 1 } else { 0 };
    let ghost d = digits_part(s@);
    proof {
        assert(d =~= s@.subrange(start as int, s@.len() as int));
    }
    if s.len() == start {
        return None;
    }
    let mut acc: u64 = 0;
    let mut i: usize = start;
    while i < s.len()
        invariant
            start <= i <= s@.len(),
            all_digits(d.subrange(0, i - start)),
            acc as int == numeral_value(d.subrange(0, i - start)),
            acc <= 0x7fff_ffff_ffff_ffff,
        decreases s@.len() - i,
    {
        let c = s[i];
        proof {
            assert(d[i - start] == s@[i as int]);
        }
        if c < 48 || c > 57 {
            assert(!is_digit(d[i - start]));
            return None;
        }
        proof {
            lemma_all_digits_extend(d, i - start);
            assert(d.subrange(0, i - start + 1).drop_last() =~= d.subrange(0, i - start));
            assert(d.subrange(0, i - start + 1).last() == d[i - start]);
        }
        let dd = (c - 48) as u64;
        if acc > 922337203685477580 || (acc == 922337203685477580 && dd > 7) {
            proof {
                assert(numeral_value(d.subrange(0, i - start + 1)) > 0x7fff_ffff_ffff_ffff);
                if all_digits(d) {
                    lemma_numeral_prefix_le(d, i - start + 1);
                }
            }
            return None;
        }
        let next = acc * 10 + dd;
        assert(next as int == numeral_value(d.subrange(0, i - start + 1)));
        acc = next;
        i += 1;
    }
    proof {
        assert(d.subrange(0, i - start) =~= d);
    }
    if neg {
        Some(-(acc as i64))
    } else {
        Some(acc as i64)
    }
}

// ---------------------------------------------------------------------------
// Byte-string equality, search, trim, subranges
// ---------------------------------------------------------------------------

pub fn bytes_eq(a: &Vec<u8>, b: &Vec<u8>) -> (r: bool)
    ensures
        r == (a@ == b@),
{
    if a.len() != b.len() {
        return false;
    }
    let mut i: usize = 0;
    #[verifier::loop_isolation(false)]
    while i < a.len()
        invariant
            0 <= i <= a@.len(),
            a@.len() == b@.len(),
            forall|j: int| 0 <= j < i ==> a@[j] == b@[j],
        decreases a@.len() - i,
    {
        if a[i] != b[i] {
            return false;
        }
        i += 1;
    }
    proof {
        assert(a@ =~= b@);
    }
    true
}

/// Index of the first occurrence of `c` in `s`, or -1 if absent.
pub open spec fn find_idx(s: Seq<u8>, c: u8) -> int
    decreases s.len(),
{
    if s.len() == 0 {
        -1
    } else if s[0] == c {
        0
    } else if find_idx(s.drop_first(), c) < 0 {
        -1
    } else {
        find_idx(s.drop_first(), c) + 1
    }
}

pub proof fn lemma_find_idx(s: Seq<u8>, c: u8)
    ensures
        find_idx(s, c) >= 0 ==> 0 <= find_idx(s, c) < s.len() && s[find_idx(s, c)] == c
            && (forall|j: int| 0 <= j < find_idx(s, c) ==> #[trigger] s[j] != c),
        find_idx(s, c) < 0 ==> forall|j: int| 0 <= j < s.len() ==> #[trigger] s[j] != c,
    decreases s.len(),
{
    if s.len() > 0 && s[0] != c {
        lemma_find_idx(s.drop_first(), c);
        assert forall|j: int| 1 <= j < s.len() implies s.drop_first()[j - 1] == s[j] by {}
    }
}

/// Index of the last occurrence of `c` in `s`, or -1 if absent.
pub open spec fn rfind_idx(s: Seq<u8>, c: u8) -> int
    decreases s.len(),
{
    if s.len() == 0 {
        -1
    } else if s.last() == c {
        s.len() - 1
    } else {
        rfind_idx(s.drop_last(), c)
    }
}

pub proof fn lemma_rfind_idx(s: Seq<u8>, c: u8)
    ensures
        rfind_idx(s, c) >= 0 ==> 0 <= rfind_idx(s, c) < s.len() && s[rfind_idx(s, c)] == c
            && (forall|j: int| rfind_idx(s, c) < j < s.len() ==> #[trigger] s[j] != c),
        rfind_idx(s, c) < 0 ==> forall|j: int| 0 <= j < s.len() ==> #[trigger] s[j] != c,
    decreases s.len(),
{
    if s.len() > 0 && s.last() != c {
        lemma_rfind_idx(s.drop_last(), c);
        assert forall|j: int| 0 <= j < s.len() - 1 implies s.drop_last()[j] == s[j] by {}
    }
}

#[verifier::loop_isolation(false)]
pub fn find_byte(s: &Vec<u8>, c: u8) -> (r: Option<usize>)
    ensures
        match r {
            Some(i) => find_idx(s@, c) == i as int,
            None => find_idx(s@, c) < 0,
        },
{
    let mut i: usize = 0;
    while i < s.len()
        invariant
            0 <= i <= s@.len(),
            forall|j: int| 0 <= j < i ==> #[trigger] s@[j] != c,
        decreases s@.len() - i,
    {
        if s[i] == c {
            proof {
                lemma_find_idx(s@, c);
            }
            return Some(i);
        }
        i += 1;
    }
    proof {
        lemma_find_idx(s@, c);
    }
    None
}

#[verifier::loop_isolation(false)]
pub fn rfind_byte(s: &Vec<u8>, c: u8) -> (r: Option<usize>)
    ensures
        match r {
            Some(i) => rfind_idx(s@, c) == i as int,
            None => rfind_idx(s@, c) < 0,
        },
{
    let mut i: usize = s.len();
    while i > 0
        invariant
            0 <= i <= s@.len(),
            forall|j: int| i <= j < s@.len() ==> #[trigger] s@[j] != c,
        decreases i,
    {
        i -= 1;
        if s[i] == c {
            proof {
                lemma_rfind_idx(s@, c);
            }
            return Some(i);
        }
    }
    proof {
        lemma_rfind_idx(s@, c);
    }
    None
}

/// A copy of `s[a..b]`.
#[verifier::loop_isolation(false)]
pub fn sub_bytes(s: &Vec<u8>, a: usize, b: usize) -> (r: Vec<u8>)
    requires
        a <= b <= s@.len(),
    ensures
        r@ == s@.subrange(a as int, b as int),
{
    let mut r: Vec<u8> = Vec::new();
    let mut i: usize = a;
    while i < b
        invariant
            a <= i <= b,
            r@ =~= s@.subrange(a as int, i as int),
        decreases b - i,
    {
        r.push(s[i]);
        proof {
            assert(r@ =~= s@.subrange(a as int, i as int + 1));
        }
        i += 1;
    }
    proof {
        assert(r@ =~= s@.subrange(a as int, b as int));
    }
    r
}

/// A copy of a byte string.
#[verifier::loop_isolation(false)]
pub fn clone_bytes(s: &Vec<u8>) -> (r: Vec<u8>)
    ensures
        r@ == s@,
{
    let mut r: Vec<u8> = Vec::new();
    let mut i: usize = 0;
    while i < s.len()
        invariant
            0 <= i <= s@.len(),
            r@ =~= s@.subrange(0, i as int),
        decreases s@.len() - i,
    {
        r.push(s[i]);
        proof {
            assert(r@ =~= s@.subrange(0, i as int + 1));
        }
        i += 1;
    }
    proof {
        assert(r@ =~= s@);
    }
    r
}

/// ASCII whitespace, as `char::is_whitespace` classifies ASCII.
pub open spec fn is_space(c: u8) -> bool {
    c == 32 || (9 <= c && c <= 13)
}

pub open spec fn trim_front(s: Seq<u8>) -> Seq<u8>
    decreases s.len(),
{
    if s.len() > 0 && is_space(s[0]) {
        trim_front(s.drop_first())
    } else {
        s
    }
}

pub open spec fn trim_back(s: Seq<u8>) -> Seq<u8>
    decreases s.len(),
{
    if s.len() > 0 && is_space(s.last()) {
        trim_back(s.drop_last())
    } else {
        s
    }
}

/// `s` with leading and trailing ASCII whitespace removed.
pub open spec fn trim_spec(s: Seq<u8>) -> Seq<u8> {
    trim_back(trim_front(s))
}

pub fn is_space_byte(c: u8) -> (r: bool)
    ensures
        r == is_space(c),
{
    c == 32 || (9 <= c && c <= 13)
}

#[verifier::loop_isolation(false)]
pub fn trim_bytes(s: &Vec<u8>) -> (r: Vec<u8>)
    ensures
        r@ == trim_spec(s@),
{
    proof {
        assert(s@.subrange(0, s@.len() as int) =~= s@);
    }
    let mut a: usize = 0;
    while a < s.len() && is_space_byte(s[a])
        invariant
            0 <= a <= s@.len(),
            trim_front(s@) == trim_front(s@.subrange(a as int, s@.len() as int)),
        decreases s@.len() - a,
    {
        proof {
            let rest = s@.subrange(a as int, s@.len() as int);
            assert(rest[0] == s@[a as int]);
            assert(rest.drop_first() =~= s@.subrange(a as int + 1, s@.len() as int));
        }
        a += 1;
    }
    proof {
        let rest = s@.subrange(a as int, s@.len() as int);
        if a < s@.len() {
            assert(rest[0] == s@[a as int]);
        }
        assert(trim_front(s@) == rest);
    }
    let mut b: usize = s.len();
    while b > a && is_space_byte(s[b - 1])
        invariant
            a <= b <= s@.len(),
            trim_front(s@) == s@.subrange(a as int, s@.len() as int),
            trim_back(s@.subrange(a as int, s@.len() as int))
                == trim_back(s@.subrange(a as int, b as int)),
        decreases b,
    {
        proof {
            let cur = s@.subrange(a as int, b as int);
            assert(cur.last() == s@[b - 1]);
            assert(cur.drop_last() =~= s@.subrange(a as int, b as int - 1));
        }
        b -= 1;
    }
    proof {
        let cur = s@.subrange(a as int, b as int);
        if b > a {
            assert(cur.last() == s@[b - 1]);
        }
        assert(trim_back(cur) == cur);
    }
    sub_bytes(s, a, b)
}

// ---------------------------------------------------------------------------
// Splitting on a separator byte
// ---------------------------------------------------------------------------

/// The fields of `s` split on `sep`; always at least one field, and empty
/// fields are kept, as `str::split` keeps them.
pub open spec fn split_on(s: Seq<u8>, sep: u8) -> Seq<Seq<u8>>
    decreases s.len(),
{
    if s.len() == 0 {
        seq![Seq::<u8>::empty()]
    } else if s[0] == sep {
        seq![Seq::<u8>::empty()] + split_on(s.drop_first(), sep)
    } else {
        let rest = split_on(s.drop_first(), sep);
        seq![seq![s[0]] + rest[0]] + rest.subrange(1, rest.len() as int)
    }
}

pub proof fn lemma_split_on_nonempty(s: Seq<u8>, sep: u8)
    ensures
        split_on(s, sep).len() >= 1,
    decreases s.len(),
{
    if s.len() > 0 {
        lemma_split_on_nonempty(s.drop_first(), sep);
    }
}

/// `ss` with `c` prepended to its first field.
pub open spec fn with_first_extended(c: Seq<u8>, ss: Seq<Seq<u8>>) -> Seq<Seq<u8>> {
    seq![c + ss[0]] + ss.subrange(1, ss.len() as int)
}

pub open spec fn views_of(ls: Seq<Vec<u8>>) -> Seq<Seq<u8>> {
    ls.map_values(|l: Vec<u8>| l@)
}

#[verifier::loop_isolation(false)]
pub fn split_bytes(s: &Vec<u8>, sep: u8) -> (r: Vec<Vec<u8>>)
    ensures
        views_of(r@) == split_on(s@, sep),
{
    let mut r: Vec<Vec<u8>> = Vec::new();
    let mut cur: Vec<u8> = Vec::new();
    let mut i: usize = 0;
    proof {
        lemma_split_on_nonempty(s@, sep);
        assert(s@.subrange(0, s@.len() as int) =~= s@);
        assert(views_of(r@) + with_first_extended(cur@, split_on(s@, sep))
            =~~= split_on(s@, sep));
    }
    while i < s.len()
        invariant
            0 <= i <= s@.len(),
            split_on(s@, sep) == views_of(r@)
                + with_first_extended(cur@, split_on(s@.subrange(i as int, s@.len() as int), sep)),
        decreases s@.len() - i,
    {
        let ghost rest = s@.subrange(i as int, s@.len() as int);
        let ghost rest1 = s@.subrange(i as int + 1, s@.len() as int);
        proof {
            assert(rest[0] == s@[i as int]);
            assert(rest.drop_first() =~= rest1);
            lemma_split_on_nonempty(rest1, sep);
        }
        if s[i] == sep {
            proof {
                assert(split_on(rest, sep) == seq![Seq::<u8>::empty()] + split_on(rest1, sep));
                assert(with_first_extended(cur@, split_on(rest, sep))
                    =~= seq![cur@] + split_on(rest1, sep));
                assert(with_first_extended(Seq::<u8>::empty(), split_on(rest1, sep))
                    =~= split_on(rest1, sep));
                assert(views_of(r@.push(cur)) =~= views_of(r@) + seq![cur@]);
            }
            r.push(cur);
            cur = Vec::new();
            proof {
                assert(views_of(r@) + with_first_extended(cur@, split_on(rest1, sep))
                    =~= split_on(s@, sep));
            }
        } else {
            let c = s[i];
            proof {
                let srest = split_on(rest1, sep);
                assert(split_on(rest, sep)
                    == seq![seq![s@[i as int]] + srest[0]] + srest.subrange(1, srest.len() as int));
                assert(with_first_extended(cur@, split_on(rest, sep))
                    =~= with_first_extended(cur@.push(c), srest)) by {
                    assert((seq![seq![s@[i as int]] + srest[0]]
                        + srest.subrange(1, srest.len() as int)).subrange(
                            1,
                            split_on(rest, sep).len() as int,
                        ) =~= srest.subrange(1, srest.len() as int));
                    assert(cur@ + (seq![s@[i as int]] + srest[0]) =~= cur@.push(c) + srest[0]);
                }
            }
            cur.push(c);
        }
        i += 1;
    }
    proof {
        let rest = s@.subrange(i as int, s@.len() as int);
        assert(rest =~= Seq::<u8>::empty());
        assert(split_on(rest, sep) == seq![Seq::<u8>::empty()]);
        assert(with_first_extended(cur@, split_on(rest, sep)) =~= seq![cur@]);
        assert(views_of(r@.push(cur)) =~= views_of(r@) + seq![cur@]);
    }
    r.push(cur);
    proof {
        assert(views_of(r@) =~= split_on(s@, sep));
    }
    r
}

} // verus!
