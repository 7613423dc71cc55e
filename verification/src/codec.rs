use vstd::prelude::*;
use vstd::slice::{slice_subrange, slice_to_vec};

verus! {

// ASCII bytes the key-path grammar is built from.
pub const COLON: u8 = 0x3a;
pub const AT_SIGN: u8 = 0x40;

// ---------------------------------------------------------------------------
// Decimal numerals
// ---------------------------------------------------------------------------

pub open spec fn is_dec_digit(c: u8) -> bool {
    0x30 <= c && c <= 0x39
}

pub open spec fn all_dec_digits(s: Seq<u8>) -> bool {
    forall|i: int| 0 <= i < s.len() ==> is_dec_digit(#[trigger] s[i])
}

/// The numeric value of a digit string, most significant digit first.
pub open spec fn dec_val(s: Seq<u8>) -> int
    decreases s.len(),
{
    if s.len() == 0 {
        0
    } else {
        dec_val(s.drop_last()) * 10 + (s.last() - 0x30)
    }
}

/// The canonical decimal rendering of `n`: no leading zeroes, at least one digit.
pub open spec fn dec_of(n: nat) -> Seq<u8>
    decreases n,
{
    if n < 10 {
        seq![(0x30 + n) as u8]
    } else {
        dec_of(n / 10).push((0x30 + n % 10) as u8)
    }
}

pub proof fn lemma_dec_of_digits(n: nat)
    ensures
        all_dec_digits(dec_of(n)),
        dec_of(n).len() >= 1,
    decreases n,
{
    if n >= 10 {
        lemma_dec_of_digits(n / 10);
    }
}

/// Rendering and evaluation are mutually inverse on the rendering's range.
pub proof fn lemma_dec_roundtrip(n: nat)
    ensures
        dec_val(dec_of(n)) == n,
    decreases n,
{
    if n < 10 {
        let d = (0x30 + n) as u8;
        let s = seq![d];
        assert(dec_of(n) == s);
        assert(s.len() == 1);
        assert(s.drop_last() =~= Seq::<u8>::empty());
        assert(dec_val(s.drop_last()) == 0);
        assert(s.last() == d);
        assert(dec_val(s) == dec_val(s.drop_last()) * 10 + (s.last() - 0x30));
        assert(d - 0x30 == n);
    } else {
        lemma_dec_roundtrip(n / 10);
        assert(dec_of(n).drop_last() =~= dec_of(n / 10));
        assert(dec_of(n).last() == (0x30 + n % 10) as u8);
        assert(dec_val(dec_of(n)) == (n / 10) * 10 + ((0x30 + n % 10) as u8 - 0x30));
    }
}

/// A digit string's value only grows when digits are appended to it.
pub proof fn lemma_dec_val_prefix_le(s: Seq<u8>, i: int)
    requires
        all_dec_digits(s),
        0 <= i <= s.len(),
    ensures
        dec_val(s.subrange(0, i)) <= dec_val(s),
    decreases s.len() - i,
{
    if i < s.len() {
        lemma_dec_val_prefix_le(s, i + 1);
        let p = s.subrange(0, i);
        let q = s.subrange(0, i + 1);
        assert(q.drop_last() =~= p);
        assert(dec_val(p) >= 0) by {
            lemma_dec_val_nonneg(p);
        }
    } else {
        assert(s.subrange(0, i) =~= s);
    }
}

pub proof fn lemma_dec_val_nonneg(s: Seq<u8>)
    requires
        all_dec_digits(s),
    ensures
        dec_val(s) >= 0,
    decreases s.len(),
{
    if s.len() > 0 {
        lemma_dec_val_nonneg(s.drop_last());
    }
}

/// Renders `n` in decimal, most significant digit first.
pub fn u64_to_dec(n: u64) -> (r: Vec<u8>)
    ensures
        r@ == dec_of(n as nat),
{
    let mut digits: Vec<u8> = Vec::new();
    let mut m: u64 = n;
    digits.push(0x30 + (m % 10) as u8);
    proof {
        assert(digits@ =~= seq![(0x30 + (n as nat) % 10) as u8]);
        if n < 10 {
            assert(dec_of(n as nat) =~= digits@.reverse());
        } else {
            assert(dec_of(n as nat) =~= dec_of((n as nat) / 10) + digits@.reverse());
        }
    }
    m = m / 10;
    while m > 0
        invariant
            m > 0 ==> dec_of(n as nat) =~= dec_of(m as nat) + digits@.reverse(),
            m == 0 ==> dec_of(n as nat) =~= digits@.reverse(),
        decreases m,
    {
        let ghost pre = digits@;
        let ghost m0 = m as nat;
        digits.push(0x30 + (m % 10) as u8);
        proof {
            assert(digits@.reverse() =~= seq![(0x30 + m0 % 10) as u8] + pre.reverse());
        }
        m = m / 10;
        proof {
            if m == 0 {
                assert(dec_of(m0) =~= seq![(0x30 + m0) as u8]);
                assert((0x30 + m0) as u8 == (0x30 + m0 % 10) as u8);
                assert(dec_of(n as nat) =~= digits@.reverse());
            } else {
                assert(dec_of(m0) =~= dec_of(m0 / 10).push((0x30 + m0 % 10) as u8));
                assert(dec_of(m0 / 10) + digits@.reverse() =~= dec_of(m0) + pre.reverse());
                assert(dec_of(n as nat) =~= dec_of(m as nat) + digits@.reverse());
            }
        }
    }
    let mut r: Vec<u8> = Vec::new();
    let mut i: usize = digits.len();
    while i > 0
        invariant
            i <= digits@.len(),
            r@.len() + i == digits@.len(),
            forall|j: int| 0 <= j < r@.len() ==> r@[j] == digits@[digits@.len() - 1 - j],
        decreases i,
    {
        i = i - 1;
        r.push(digits[i]);
    }
    proof {
        assert(r@ =~= digits@.reverse());
    }
    r
}

/// Parses a decimal numeral. Returns the value exactly when the input is a
/// nonempty digit string whose value fits in a `u64`.
pub fn parse_dec(s: &[u8]) -> (r: Option<u64>)
    ensures
        r is Some <==> (s@.len() > 0 && all_dec_digits(s@) && dec_val(s@) <= u64::MAX),
        r matches Some(v) ==> v == dec_val(s@),
{
    if s.len() == 0 {
        return None;
    }
    let mut acc: u64 = 0;
    let mut i: usize = 0;
    while i < s.len()
        invariant
            0 < s@.len(),
            i <= s@.len(),
            all_dec_digits(s@.subrange(0, i as int)),
            acc == dec_val(s@.subrange(0, i as int)),
        decreases s@.len() - i,
    {
        let c = s[i];
        if c < 0x30 || c > 0x39 {
            assert(!is_dec_digit(s@[i as int]));
            return None;
        }
        let d: u64 = (c - 0x30) as u64;
        let wide: u128 = acc as u128 * 10 + d as u128;
        let ghost pre = s@.subrange(0, i as int);
        let ghost cur = s@.subrange(0, i as int + 1);
        proof {
            assert(cur.drop_last() =~= pre);
            assert(cur.last() == s@[i as int]);
            assert(forall|j: int| 0 <= j < cur.len() ==> is_dec_digit(#[trigger] cur[j]));
            assert(dec_val(cur) == wide);
        }
        if wide > u64::MAX as u128 {
            proof {
                if all_dec_digits(s@) {
                    lemma_dec_val_prefix_le(s@, i as int + 1);
                    assert(dec_val(s@) > u64::MAX);
                }
            }
            return None;
        }
        acc = wide as u64;
        i = i + 1;
    }
    proof {
        assert(s@.subrange(0, s@.len() as int) =~= s@);
    }
    Some(acc)
}

/// Byte-string equality.
pub fn bytes_eq(a: &[u8], b: &[u8]) -> (r: bool)
    ensures
        r == (a@ == b@),
{
    if a.len() != b.len() {
        return false;
    }
    let mut i: usize = 0;
    while i < a.len()
        invariant
            a@.len() == b@.len(),
            i <= a@.len(),
            forall|j: int| 0 <= j < i ==> a@[j] == b@[j],
        decreases a@.len() - i,
    {
        if a[i] != b[i] {
            return false;
        }
        i = i + 1;
    }
    proof {
        assert(a@ =~= b@);
    }
    true
}

pub open spec fn is_prefix_of(p: Seq<u8>, s: Seq<u8>) -> bool {
    p.len() <= s.len() && s.subrange(0, p.len() as int) == p
}

/// Whether `s` starts with `p`.
pub fn starts_with(s: &[u8], p: &[u8]) -> (r: bool)
    ensures
        r == is_prefix_of(p@, s@),
{
    if p.len() > s.len() {
        return false;
    }
    let mut i: usize = 0;
    while i < p.len()
        invariant
            p@.len() <= s@.len(),
            i <= p@.len(),
            forall|j: int| 0 <= j < i ==> s@[j] == p@[j],
        decreases p@.len() - i,
    {
        if s[i] != p[i] {
            assert(s@.subrange(0, p@.len() as int)[i as int] != p@[i as int]);
            return false;
        }
        i = i + 1;
    }
    proof {
        assert(s@.subrange(0, p@.len() as int) =~= p@);
    }
    true
}

// ---------------------------------------------------------------------------
// Key paths: `<user_id>::<key_name>@<version>`
// ---------------------------------------------------------------------------

/// The fully qualified historical locator of one stored version.
pub open spec fn path_of(user_id: Seq<u8>, key_name: Seq<u8>, version: u64) -> Seq<u8> {
    user_id + seq![COLON, COLON] + key_name + seq![AT_SIGN] + dec_of(version as nat)
}

/// Index of the last occurrence of `c` in `s`, or -1.
pub open spec fn rfind(s: Seq<u8>, c: u8) -> int
    decreases s.len(),
{
    if s.len() == 0 {
        -1
    } else if s.last() == c {
        s.len() - 1
    } else {
        rfind(s.drop_last(), c)
    }
}

pub proof fn lemma_rfind_at(s: Seq<u8>, c: u8, a: int)
    requires
        0 <= a < s.len(),
        s[a] == c,
        forall|j: int| a < j < s.len() ==> s[j] != c,
    ensures
        rfind(s, c) == a,
    decreases s.len(),
{
    if a < s.len() - 1 {
        assert(s.drop_last()[a] == c);
        lemma_rfind_at(s.drop_last(), c, a);
    }
}

pub proof fn lemma_rfind_none(s: Seq<u8>, c: u8)
    requires
        forall|j: int| 0 <= j < s.len() ==> s[j] != c,
    ensures
        rfind(s, c) == -1,
    decreases s.len(),
{
    if s.len() > 0 {
        lemma_rfind_none(s.drop_last(), c);
    }
}

/// Index of the first occurrence of the `::` separator in `s`, or -1.
pub open spec fn find_sep(s: Seq<u8>) -> int
    decreases s.len(),
{
    if s.len() < 2 {
        -1
    } else if s[0] == COLON && s[1] == COLON {
        0
    } else if find_sep(s.subrange(1, s.len() as int)) < 0 {
        -1
    } else {
        find_sep(s.subrange(1, s.len() as int)) + 1
    }
}

pub proof fn lemma_find_sep_at(s: Seq<u8>, k: int)
    requires
        0 <= k,
        k + 1 < s.len(),
        s[k] == COLON,
        s[k + 1] == COLON,
        forall|j: int| 0 <= j < k ==> !(#[trigger] s[j] == COLON && s[j + 1] == COLON),
    ensures
        find_sep(s) == k,
    decreases s.len(),
{
    if k == 0 {
    } else {
        let t = s.subrange(1, s.len() as int);
        assert(t[k - 1] == COLON && t[k] == COLON);
        assert(forall|j: int| 0 <= j < k - 1 ==> !(t[j] == COLON && #[trigger] t[j + 1] == COLON))
            by {
            assert(forall|j: int| 0 <= j < k - 1 ==> t[j] == s[j + 1] && #[trigger] t[j + 1]
                == s[j + 2]);
        }
        lemma_find_sep_at(t, k - 1);
    }
}

pub proof fn lemma_find_sep_none(s: Seq<u8>)
    requires
        forall|j: int| 0 <= j && j + 1 < s.len() ==> !(#[trigger] s[j] == COLON && s[j + 1] == COLON),
    ensures
        find_sep(s) == -1,
    decreases s.len(),
{
    if s.len() >= 2 {
        let t = s.subrange(1, s.len() as int);
        assert(forall|j: int| 0 <= j && j + 1 < t.len() ==> t[j] == s[j + 1] && #[trigger] t[j + 1]
            == s[j + 2]);
        lemma_find_sep_none(t);
    }
}

/// What parsing a key path yields: the owner, the key name, and the version.
pub open spec fn parse_path_spec(s: Seq<u8>) -> Option<(Seq<u8>, Seq<u8>, u64)> {
    let a = rfind(s, AT_SIGN);
    if a < 0 {
        None
    } else {
        let ver = s.subrange(a + 1, s.len() as int);
        if !(ver.len() > 0 && all_dec_digits(ver) && dec_val(ver) <= u64::MAX) {
            None
        } else {
            let head = s.subrange(0, a);
            let k = find_sep(head);
            if k < 0 {
                None
            } else {
                Some(
                    (
                        head.subrange(0, k),
                        head.subrange(k + 2, head.len() as int),
                        dec_val(ver) as u64,
                    ),
                )
            }
        }
    }
}

/// Builds the locator `<user_id>::<key_name>@<version>`.
pub fn build_key_path(user_id: &[u8], key_name: &[u8], version: u64) -> (r: Vec<u8>)
    ensures
        r@ == path_of(user_id@, key_name@, version),
{
    let mut r: Vec<u8> = Vec::new();
    r.extend_from_slice(user_id);
    r.push(COLON);
    r.push(COLON);
    r.extend_from_slice(key_name);
    r.push(AT_SIGN);
    let dec = u64_to_dec(version);
    r.extend_from_slice(dec.as_slice());
    proof {
        assert(r@ =~= path_of(user_id@, key_name@, version));
    }
    r
}

/// Resolves a key path: the substring after the last `@` is the version, and
/// the part before it splits as `<user_id>::<key_name>` at the first `::`.
pub fn parse_key_path(s: &[u8]) -> (r: Option<(Vec<u8>, Vec<u8>, u64)>)
    ensures
        r is Some <==> parse_path_spec(s@) is Some,
        r matches Some(p) ==> parse_path_spec(s@) matches Some(q) && p.0@ == q.0 && p.1@ == q.1
            && p.2 == q.2,
{
    let n = s.len();
    let mut i: usize = n;
    let mut at_idx: usize = 0;
    let mut found_at: bool = false;
    while i > 0 && !found_at
        invariant
            i <= n,
            n == s@.len(),
            !found_at ==> forall|j: int| i <= j < n ==> s@[j] != AT_SIGN,
            found_at ==> at_idx < n && s@[at_idx as int] == AT_SIGN && forall|j: int|
                at_idx < j < n ==> s@[j] != AT_SIGN,
        decreases i + (if found_at {
            0int
        } else {
            1int
        }),
    {
        i = i - 1;
        if s[i] == AT_SIGN {
            found_at = true;
            at_idx = i;
        }
    }
    if !found_at {
        proof {
            lemma_rfind_none(s@, AT_SIGN);
        }
        return None;
    }
    let a = at_idx;
    proof {
        lemma_rfind_at(s@, AT_SIGN, a as int);
    }
    let ver_part = slice_subrange(s, a + 1, n);
    let version = match parse_dec(ver_part) {
        Some(v) => v,
        None => {
            return None;
        },
    };
    let head = slice_subrange(s, 0, a);
    let mut k: usize = 0;
    let mut found: bool = false;
    while k + 1 < a && !found
        invariant
            k <= a,
            a < n,
            n == s@.len(),
            a == head@.len(),
            !found ==> forall|j: int| 0 <= j < k ==> !(#[trigger] head@[j] == COLON && head@[j + 1] == COLON),
            found ==> k + 1 < a && head@[k as int] == COLON && head@[k as int + 1] == COLON
                && forall|j: int|
                0 <= j < k ==> !(#[trigger] head@[j] == COLON && head@[j + 1] == COLON),
        decreases a - k + (if found {
            0int
        } else {
            1int
        }),
    {
        if head[k] == COLON && head[k + 1] == COLON {
            found = true;
        } else {
            k = k + 1;
        }
    }
    if !found {
        proof {
            lemma_find_sep_none(head@);
        }
        return None;
    }
    proof {
        lemma_find_sep_at(head@, k as int);
    }
    let user_id = slice_to_vec(slice_subrange(head, 0, k));
    let key_name = slice_to_vec(slice_subrange(head, k + 2, a));
    Some((user_id, key_name, version))
}

/// Round trip: a locator the store writes resolves back to the very triple it
/// was built from, for any owner free of `:` (user identities are hex).
pub proof fn lemma_path_roundtrip(user_id: Seq<u8>, key_name: Seq<u8>, version: u64)
    requires
        forall|j: int| 0 <= j < user_id.len() ==> user_id[j] != COLON,
    ensures
        parse_path_spec(path_of(user_id, key_name, version)) == Some(
            (user_id, key_name, version),
        ),
{
    let s = path_of(user_id, key_name, version);
    let u = user_id.len() as int;
    let k = key_name.len() as int;
    let dec = dec_of(version as nat);
    lemma_dec_of_digits(version as nat);
    lemma_dec_roundtrip(version as nat);
    let at = u + 2 + k;
    assert(s[at] == AT_SIGN);
    assert(forall|j: int| at < j < s.len() ==> #[trigger] s[j] == dec[j - (at + 1)]);
    assert(forall|j: int| at < j < s.len() ==> s[j] != AT_SIGN);
    lemma_rfind_at(s, AT_SIGN, at);
    let ver = s.subrange(at + 1, s.len() as int);
    assert(ver =~= dec);
    let head = s.subrange(0, at);
    assert(head[u] == COLON && head[u + 1] == COLON);
    assert(forall|j: int| 0 <= j < u ==> #[trigger] head[j] == user_id[j]);
    assert(forall|j: int| 0 <= j < u ==> !(#[trigger] head[j] == COLON && head[j + 1] == COLON));
    lemma_find_sep_at(head, u);
    assert(head.subrange(0, u) =~= user_id);
    assert(head.subrange(u + 2, head.len() as int) =~= key_name);
    assert(dec_val(ver) == version);
}

} // verus!
