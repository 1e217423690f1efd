//! Byte-string utilities shared by the port parser and the tunnel manager:
//! whitespace tokenizing, substring search, decimal parsing and rendering.

use vstd::prelude::*;

verus! {

/// ASCII whitespace, the separators recognized when a listing line is split
/// into fields.
pub open spec fn is_ws(b: u8) -> bool {
    b == 32 || b == 9 || b == 10 || b == 13 || b == 11 || b == 12
}

/// True when `b` is an ASCII decimal digit.
pub open spec fn is_digit(b: u8) -> bool {
    48 <= b <= 57
}

/// All bytes of `s` are decimal digits.
pub open spec fn all_digits(s: Seq<u8>) -> bool {
    forall|i: int| 0 <= i < s.len() ==> is_digit(#[trigger] s[i])
}

/// Numeric value of a digit string, most significant digit first.
pub open spec fn digits_val(s: Seq<u8>) -> int
    decreases s.len(),
{
    if s.len() == 0 {
        0
    } else {
        digits_val(s.drop_last()) * 10 + (s.last() - 48)
    }
}

/// What `str::parse::<u16>` returns on an ASCII byte string: an optional
/// leading `+`, then one or more digits whose value fits in sixteen bits.
pub open spec fn spec_parse_u16(s: Seq<u8>) -> Option<u16> {
    let t = if s.len() > 0 && s[0] == 43 {
        s.drop_first()
    } else {
        s
    };
    if t.len() > 0 && all_digits(t) && digits_val(t) <= 65535 {
        Some(digits_val(t) as u16)
    } else {
        None
    }
}

proof fn lemma_digits_val_nonneg(s: Seq<u8>)
    requires
        all_digits(s),
    ensures
        digits_val(s) >= 0,
    decreases s.len(),
{
    if s.len() > 0 {
        lemma_digits_val_nonneg(s.drop_last());
    }
}

/// Extending a digit string on the right never decreases its value.
proof fn lemma_digits_val_prefix_le(s: Seq<u8>, i: int)
    requires
        all_digits(s),
        0 <= i <= s.len(),
    ensures
        digits_val(s.take(i)) <= digits_val(s),
    decreases s.len() - i,
{
    if i < s.len() {
        lemma_digits_val_prefix_le(s, i + 1);
        assert(s.take(i + 1).drop_last() =~= s.take(i));
        assert(all_digits(s.take(i + 1)));
        lemma_digits_val_nonneg(s.take(i));
        assert(digits_val(s.take(i + 1)) == digits_val(s.take(i)) * 10 + (s[i] - 48));
    } else {
        assert(s.take(i) =~= s);
    }
}

/// Length of the maximal run of non-whitespace bytes at the front of `s`.
pub open spec fn token_len(s: Seq<u8>) -> int
    decreases s.len(),
{
    if s.len() == 0 || is_ws(s[0]) {
        0
    } else {
        1 + token_len(s.drop_first())
    }
}

pub proof fn lemma_token_len_bounds(s: Seq<u8>)
    ensures
        0 <= token_len(s) <= s.len(),
    decreases s.len(),
{
    if s.len() > 0 && !is_ws(s[0]) {
        lemma_token_len_bounds(s.drop_first());
    }
}

/// The fields of `s`: maximal runs of non-whitespace bytes, in order, as
/// `str::split_whitespace` yields them on ASCII text.
pub open spec fn spec_tokens(s: Seq<u8>) -> Seq<Seq<u8>>
    decreases s.len(),
    via spec_tokens_dec
{
    if s.len() == 0 {
        Seq::empty()
    } else if is_ws(s[0]) {
        spec_tokens(s.drop_first())
    } else {
        seq![s.take(token_len(s))] + spec_tokens(s.skip(token_len(s)))
    }
}

#[via_fn]
proof fn spec_tokens_dec(s: Seq<u8>) {
    if s.len() > 0 && !is_ws(s[0]) {
        lemma_token_len_bounds(s);
        lemma_token_len_bounds(s.drop_first());
        assert(token_len(s) == 1 + token_len(s.drop_first()));
        assert(s.skip(token_len(s)).len() < s.len());
    }
}

/// A run of `k` non-whitespace bytes ending at the end of `s` or at a
/// whitespace byte is exactly the front token.
proof fn lemma_token_len_exact(s: Seq<u8>, k: int)
    requires
        0 <= k <= s.len(),
        forall|j: int| 0 <= j < k ==> !is_ws(#[trigger] s[j]),
        k == s.len() || is_ws(s[k]),
    ensures
        token_len(s) == k,
    decreases k,
{
    if k == 0 {
    } else {
        assert(!is_ws(s[0]));
        lemma_token_len_exact(s.drop_first(), k - 1);
    }
}

/// Split `s` into its whitespace-separated fields.
pub fn tokenize(s: &[u8]) -> (r: Vec<Vec<u8>>)
    ensures
        r.deep_view() == spec_tokens(s@),
{
    let mut toks: Vec<Vec<u8>> = Vec::new();
    let mut i: usize = 0;
    proof {
        assert(s@.skip(0) =~= s@);
        assert(toks.deep_view() =~= Seq::<Seq<u8>>::empty());
        assert(toks.deep_view() + spec_tokens(s@.skip(0)) =~= spec_tokens(s@));
    }
    while i < s.len()
        invariant
            0 <= i <= s@.len(),
            spec_tokens(s@) == toks.deep_view() + spec_tokens(s@.skip(i as int)),
        decreases s@.len() - i,
    {
        if is_ws_byte(s[i]) {
            proof {
                assert(s@.skip(i as int)[0] == s@[i as int]);
                assert(s@.skip(i as int).drop_first() =~= s@.skip(i + 1));
            }
            i = i + 1;
        } else {
            let start: usize = i;
            let mut j: usize = i;
            while j < s.len() && !is_ws_byte(s[j])
                invariant
                    start <= j <= s@.len(),
                    forall|p: int| start <= p < j ==> !is_ws(#[trigger] s@[p]),
                decreases s@.len() - j,
            {
                j = j + 1;
            }
            let tok: Vec<u8> = slice_part_to_vec(s, start, j);
            let ghost done = toks.deep_view();
            let ghost rest = s@.skip(start as int);
            proof {
                assert(forall|p: int| 0 <= p < j - start ==> #[trigger] rest[p] == s@[start + p]);
                if j < s.len() {
                    assert(rest[j - start] == s@[j as int]);
                }
                lemma_token_len_exact(rest, j - start);
                assert(rest.take(j - start) =~= s@.subrange(start as int, j as int));
                assert(rest.skip(j - start) =~= s@.skip(j as int));
                assert(spec_tokens(rest) == seq![tok@] + spec_tokens(s@.skip(j as int)));
            }
            toks.push(tok);
            proof {
                assert(tok.deep_view() =~= tok@);
                assert(toks.deep_view() =~= done + seq![tok@]);
                assert((done + seq![tok@]) + spec_tokens(s@.skip(j as int))
                    =~= done + (seq![tok@] + spec_tokens(s@.skip(j as int))));
            }
            i = j;
        }
    }
    proof {
        assert(s@.skip(i as int) =~= Seq::<u8>::empty());
        assert(toks.deep_view() + Seq::<Seq<u8>>::empty() =~= toks.deep_view());
    }
    toks
}

/// Executable whitespace test, mirroring `is_ws`.
pub fn is_ws_byte(b: u8) -> (r: bool)
    ensures
        r == is_ws(b),
{
    b == 32 || b == 9 || b == 10 || b == 13 || b == 11 || b == 12
}

/// Copy of `s[from..to]` as an owned vector.
pub fn slice_part_to_vec(s: &[u8], from: usize, to: usize) -> (r: Vec<u8>)
    requires
        from <= to <= s@.len(),
    ensures
        r@ == s@.subrange(from as int, to as int),
{
    let mut v: Vec<u8> = Vec::new();
    let mut i: usize = from;
    while i < to
        invariant
            from <= i <= to <= s@.len(),
            v@ =~= s@.subrange(from as int, i as int),
        decreases to - i,
    {
        v.push(s[i]);
        proof {
            assert(v@ =~= s@.subrange(from as int, i + 1));
        }
        i = i + 1;
    }
    v
}

/// Parse an ASCII decimal `u16`, as `str::parse::<u16>` would.
pub fn parse_u16_bytes(s: &[u8]) -> (r: Option<u16>)
    ensures
        r == spec_parse_u16(s@),
{
    let start: usize = if s.len() > 0 && s[0] == 43 {
        1
    } else {
        0
    };
    let ghost t = if s@.len() > 0 && s@[0] == 43 {
        s@.drop_first()
    } else {
        s@
    };
    assert(t =~= s@.subrange(start as int, s@.len() as int));
    if s.len() == start {
        return None;
    }
    let mut acc: u32 = 0;
    let mut i: usize = start;
    while i < s.len()
        invariant
            start <= i <= s@.len(),
            t == (if s@.len() > 0 && s@[0] == 43 {
                s@.drop_first()
            } else {
                s@
            }),
            t =~= s@.subrange(start as int, s@.len() as int),
            all_digits(t.take(i - start)),
            acc == digits_val(t.take(i - start)),
            acc <= 65535,
        decreases s@.len() - i,
    {
        let b = s[i];
        proof {
            assert(t[i - start] == s@[i as int]);
        }
        if b < 48 || b > 57 {
            proof {
                assert(!is_digit(t[i - start]));
                assert(!all_digits(t));
            }
            return None;
        }
        proof {
            assert(t.take(i + 1 - start).drop_last() =~= t.take(i - start));
            assert(t.take(i + 1 - start).last() == t[i - start]);
            assert(digits_val(t.take(i + 1 - start)) == acc * 10 + (b - 48));
            assert(all_digits(t.take(i + 1 - start)));
        }
        let next: u32 = acc * 10 + (b - 48) as u32;
        if next > 65535 {
            proof {
                if all_digits(t) {
                    lemma_digits_val_prefix_le(t, i + 1 - start);
                    assert(digits_val(t) > 65535);
                }
            }
            return None;
        }
        acc = next;
        i = i + 1;
    }
    assert(t.take(i - start) =~= t);
    Some(acc as u16)
}

/// `n` occurs in `h` starting at index `i`.
pub open spec fn match_at(h: Seq<u8>, n: Seq<u8>, i: int) -> bool {
    0 <= i && i + n.len() <= h.len() && h.subrange(i, i + n.len()) == n
}

/// `n` occurs somewhere in `h`, as `str::contains` reports.
pub open spec fn spec_contains_sub(h: Seq<u8>, n: Seq<u8>) -> bool {
    exists|i: int| match_at(h, n, i)
}

/// Index of the first occurrence of `n` in `h`, as `str::find` reports.
pub open spec fn spec_find_sub(h: Seq<u8>, n: Seq<u8>) -> Option<int>
    decreases h.len(),
{
    if h.len() < n.len() {
        None
    } else if h.take(n.len() as int) == n {
        Some(0)
    } else if h.len() == 0 {
        None
    } else {
        match spec_find_sub(h.drop_first(), n) {
            Some(i) => Some(i + 1),
            None => None,
        }
    }
}

proof fn lemma_match_at_shift(h: Seq<u8>, n: Seq<u8>, i: int)
    requires
        h.len() > 0,
        0 <= i,
    ensures
        match_at(h.drop_first(), n, i) == match_at(h, n, i + 1),
{
    if i + 1 + n.len() <= h.len() {
        assert(h.drop_first().subrange(i, i + n.len()) =~= h.subrange(i + 1, i + 1 + n.len()));
    }
}

/// `spec_find_sub` returns exactly the least index at which `n` matches.
pub proof fn lemma_find_sub_some(h: Seq<u8>, n: Seq<u8>, k: int)
    requires
        match_at(h, n, k),
        forall|j: int| 0 <= j < k ==> !match_at(h, n, j),
    ensures
        spec_find_sub(h, n) == Some(k),
    decreases k,
{
    assert(h.subrange(k, k + n.len()) == n);
    if k == 0 {
        assert(h.take(n.len() as int) =~= h.subrange(0, n.len() as int));
    } else {
        assert(!match_at(h, n, 0));
        assert(h.take(n.len() as int) =~= h.subrange(0, n.len() as int));
        assert(h.take(n.len() as int) != n);
        assert(h.len() > 0);
        lemma_match_at_shift(h, n, k - 1);
        assert forall|j: int| 0 <= j < k - 1 implies !match_at(h.drop_first(), n, j) by {
            lemma_match_at_shift(h, n, j);
        }
        lemma_find_sub_some(h.drop_first(), n, k - 1);
    }
}

/// When `n` matches nowhere in `h`, `spec_find_sub` reports so.
pub proof fn lemma_find_sub_none(h: Seq<u8>, n: Seq<u8>)
    requires
        forall|i: int| !match_at(h, n, i),
    ensures
        spec_find_sub(h, n) is None,
    decreases h.len(),
{
    if h.len() >= n.len() {
        assert(h.take(n.len() as int) =~= h.subrange(0, n.len() as int));
        assert(!match_at(h, n, 0));
        if h.len() > 0 {
            assert forall|i: int| !match_at(h.drop_first(), n, i) by {
                if 0 <= i {
                    lemma_match_at_shift(h, n, i);
                }
            }
            lemma_find_sub_none(h.drop_first(), n);
        }
    }
}

/// Compare `h[i..i+n.len()]` with `n`.
fn bytes_match_at(h: &[u8], n: &[u8], i: usize) -> (r: bool)
    requires
        i + n@.len() <= h@.len(),
    ensures
        r == match_at(h@, n@, i as int),
{
    let hn: usize = h.len();
    let mut j: usize = 0;
    while j < n.len()
        invariant
            0 <= j <= n@.len(),
            hn == h@.len(),
            i + n@.len() <= h@.len(),
            forall|p: int| 0 <= p < j ==> h@[i + p] == #[trigger] n@[p],
        decreases n@.len() - j,
    {
        if h[i + j] != n[j] {
            proof {
                assert(h@.subrange(i as int, i + n@.len())[j as int] != n@[j as int]);
            }
            return false;
        }
        j = j + 1;
    }
    proof {
        assert(h@.subrange(i as int, i + n@.len()) =~= n@);
    }
    true
}

/// Index of the first occurrence of `n` in `h`, or `None`.
pub fn find_sub(h: &[u8], n: &[u8]) -> (r: Option<usize>)
    ensures
        match r {
            Some(k) => spec_find_sub(h@, n@) == Some(k as int) && match_at(h@, n@, k as int)
                && forall|j: int| 0 <= j < k ==> !match_at(h@, n@, j),
            None => spec_find_sub(h@, n@) is None && !spec_contains_sub(h@, n@),
        },
{
    if n.len() > h.len() {
        proof {
            lemma_find_sub_none(h@, n@);
        }
        return None;
    }
    if n.len() == 0 {
        proof {
            assert(h@.subrange(0, 0) =~= n@);
            assert(match_at(h@, n@, 0));
            lemma_find_sub_some(h@, n@, 0);
        }
        return Some(0);
    }
    let last: usize = h.len() - n.len();
    let mut i: usize = 0;
    while i <= last
        invariant
            h@.len() <= usize::MAX,
            1 <= n@.len() <= h@.len(),
            last == h@.len() - n@.len(),
            0 <= i <= last + 1,
            forall|j: int| 0 <= j < i ==> !match_at(h@, n@, j),
        decreases last + 1 - i,
    {
        if bytes_match_at(h, n, i) {
            proof {
                lemma_find_sub_some(h@, n@, i as int);
            }
            return Some(i);
        }
        i = i + 1;
    }
    proof {
        assert forall|j: int| !match_at(h@, n@, j) by {
            if 0 <= j && j + n@.len() <= h@.len() {
                assert(j <= last);
            }
        }
        lemma_find_sub_none(h@, n@);
    }
    None
}

/// Whether `n` occurs in `h`, as `str::contains` reports.
pub fn contains_sub(h: &[u8], n: &[u8]) -> (r: bool)
    ensures
        r == spec_contains_sub(h@, n@),
{
    match find_sub(h, n) {
        Some(_) => true,
        None => false,
    }
}

/// A non-empty all-digit string and its value; `None` otherwise.
pub open spec fn spec_parse_digits(t: Seq<u8>) -> Option<int> {
    if t.len() > 0 && all_digits(t) {
        Some(digits_val(t))
    } else {
        None
    }
}

/// What `str::parse::<u32>` returns on an ASCII byte string.
pub open spec fn spec_parse_u32(s: Seq<u8>) -> Option<u32> {
    let t = if s.len() > 0 && s[0] == 43 {
        s.drop_first()
    } else {
        s
    };
    match spec_parse_digits(t) {
        Some(v) => if v <= 0xffff_ffff {
            Some(v as u32)
        } else {
            None
        },
        None => None,
    }
}

/// What `str::parse::<i32>` returns on an ASCII byte string.
pub open spec fn spec_parse_i32(s: Seq<u8>) -> Option<i32> {
    if s.len() > 0 && s[0] == 45 {
        match spec_parse_digits(s.drop_first()) {
            Some(v) => if v <= 0x8000_0000 {
                Some((-v) as i32)
            } else {
                None
            },
            None => None,
        }
    } else {
        let t = if s.len() > 0 && s[0] == 43 {
            s.drop_first()
        } else {
            s
        };
        match spec_parse_digits(t) {
            Some(v) => if v <= 0x7fff_ffff {
                Some(v as i32)
            } else {
                None
            },
            None => None,
        }
    }
}

/// Parse the digit run `s[start..]`, refusing values above `bound`.
fn parse_digits_u64(s: &[u8], start: usize, bound: u64) -> (r: Option<u64>)
    requires
        start <= s@.len(),
        bound <= 0x1_0000_0000,
    ensures
        ({
            let t = s@.skip(start as int);
            match r {
                Some(v) => t.len() > 0 && all_digits(t) && digits_val(t) == v && v <= bound,
                None => !(t.len() > 0 && all_digits(t) && digits_val(t) <= bound),
            }
        }),
{
    let ghost t = s@.skip(start as int);
    if s.len() == start {
        return None;
    }
    let mut acc: u64 = 0;
    let mut i: usize = start;
    while i < s.len()
        invariant
            start <= i <= s@.len(),
            t == s@.skip(start as int),
            bound <= 0x1_0000_0000,
            all_digits(t.take(i - start)),
            acc == digits_val(t.take(i - start)),
            acc <= bound,
        decreases s@.len() - i,
    {
        let b = s[i];
        proof {
            assert(t[i - start] == s@[i as int]);
        }
        if b < 48 || b > 57 {
            proof {
                assert(!is_digit(t[i - start]));
                assert(!all_digits(t));
            }
            return None;
        }
        proof {
            assert(t.take(i + 1 - start).drop_last() =~= t.take(i - start));
            assert(t.take(i + 1 - start).last() == t[i - start]);
            assert(digits_val(t.take(i + 1 - start)) == acc * 10 + (b - 48));
            assert(all_digits(t.take(i + 1 - start)));
        }
        let next: u64 = acc * 10 + (b - 48) as u64;
        if next > bound {
            proof {
                if all_digits(t) {
                    lemma_digits_val_prefix_le(t, i + 1 - start);
                    assert(digits_val(t) > bound);
                }
            }
            return None;
        }
        acc = next;
        i = i + 1;
    }
    proof {
        assert(t.take(i - start) =~= t);
    }
    Some(acc)
}

/// Parse an ASCII decimal `u32`, as `str::parse::<u32>` would.
pub fn parse_u32_bytes(s: &[u8]) -> (r: Option<u32>)
    ensures
        r == spec_parse_u32(s@),
{
    let start: usize = if s.len() > 0 && s[0] == 43 {
        1
    } else {
        0
    };
    proof {
        assert(s@.skip(start as int) =~= (if s@.len() > 0 && s@[0] == 43 {
            s@.drop_first()
        } else {
            s@
        }));
    }
    match parse_digits_u64(s, start, 0xffff_ffff) {
        Some(v) => Some(v as u32),
        None => None,
    }
}

/// Parse an ASCII decimal `i32`, as `str::parse::<i32>` would.
pub fn parse_i32_bytes(s: &[u8]) -> (r: Option<i32>)
    ensures
        r == spec_parse_i32(s@),
{
    if s.len() > 0 && s[0] == 45 {
        proof {
            assert(s@.skip(1) =~= s@.drop_first());
        }
        match parse_digits_u64(s, 1, 0x8000_0000) {
            Some(v) => Some((-(v as i64)) as i32),
            None => None,
        }
    } else {
        let start: usize = if s.len() > 0 && s[0] == 43 {
            1
        } else {
            0
        };
        proof {
            assert(s@.skip(start as int) =~= (if s@.len() > 0 && s@[0] == 43 {
                s@.drop_first()
            } else {
                s@
            }));
        }
        match parse_digits_u64(s, start, 0x7fff_ffff) {
            Some(v) => Some(v as i32),
            None => None,
        }
    }
}

/// Decimal digits of a non-negative number, most significant first.
pub open spec fn spec_dec_u(v: int) -> Seq<u8>
    decreases v,
{
    if v < 10 {
        seq![(v + 48) as u8]
    } else {
        spec_dec_u(v / 10).push((v % 10 + 48) as u8)
    }
}

/// Decimal rendering of a possibly negative number, as `to_string` gives it.
pub open spec fn spec_dec_i(v: int) -> Seq<u8> {
    if v < 0 {
        seq![45u8] + spec_dec_u(-v)
    } else {
        spec_dec_u(v)
    }
}

/// Append the decimal digits of `v` to `out`.
fn push_dec_u32(v: u32, out: &mut Vec<u8>)
    ensures
        final(out)@ == old(out)@ + spec_dec_u(v as int),
    decreases v,
{
    if v < 10 {
        out.push((v as u8) + 48);
        proof {
            assert(old(out)@ + spec_dec_u(v as int) =~= old(out)@.push(((v as u8) + 48) as u8));
        }
    } else {
        let ghost pre = out@;
        push_dec_u32(v / 10, out);
        out.push((v % 10) as u8 + 48);
        proof {
            assert(pre + spec_dec_u(v as int) =~= (pre + spec_dec_u(v as int / 10)).push(
                (v as int % 10 + 48) as u8,
            ));
        }
    }
}

/// Decimal rendering of a `u16`, as `u16::to_string` gives it.
pub fn u16_to_dec(v: u16) -> (r: Vec<u8>)
    ensures
        r@ == spec_dec_u(v as int),
{
    let mut out: Vec<u8> = Vec::new();
    push_dec_u32(v as u32, &mut out);
    proof {
        assert(Seq::<u8>::empty() + spec_dec_u(v as int) =~= spec_dec_u(v as int));
    }
    out
}

/// Decimal rendering of an `i32`, as `i32::to_string` gives it.
pub fn i32_to_dec(v: i32) -> (r: Vec<u8>)
    ensures
        r@ == spec_dec_i(v as int),
{
    let mut out: Vec<u8> = Vec::new();
    if v < 0 {
        out.push(45);
        let mag: u32 = (-(v as i64)) as u32;
        let ghost pre = out@;
        push_dec_u32(mag, &mut out);
        proof {
            assert(pre =~= seq![45u8]);
            assert(out@ == seq![45u8] + spec_dec_u(mag as int));
        }
    } else {
        let ghost pre = out@;
        push_dec_u32(v as u32, &mut out);
        proof {
            assert(pre + spec_dec_u(v as int) =~= spec_dec_u(v as int));
        }
    }
    out
}

/// Index of the first line-feed byte in `s`, or the length of `s`.
pub open spec fn line_break(s: Seq<u8>) -> int
    decreases s.len(),
{
    if s.len() == 0 || s[0] == 10 {
        0
    } else {
        1 + line_break(s.drop_first())
    }
}

pub proof fn lemma_line_break_bounds(s: Seq<u8>)
    ensures
        0 <= line_break(s) <= s.len(),
    decreases s.len(),
{
    if s.len() > 0 && s[0] != 10 {
        lemma_line_break_bounds(s.drop_first());
    }
}

/// A run of `k` non-line-feed bytes ending at the end of `s` or at a
/// line feed is exactly the first line.
proof fn lemma_line_break_exact(s: Seq<u8>, k: int)
    requires
        0 <= k <= s.len(),
        forall|j: int| 0 <= j < k ==> #[trigger] s[j] != 10,
        k == s.len() || s[k] == 10,
    ensures
        line_break(s) == k,
    decreases k,
{
    if k > 0 {
        lemma_line_break_exact(s.drop_first(), k - 1);
    }
}

/// Drop one trailing carriage return, as `str::lines` does per line.
pub open spec fn strip_cr(l: Seq<u8>) -> Seq<u8> {
    if l.len() > 0 && l.last() == 13 {
        l.drop_last()
    } else {
        l
    }
}

/// The lines of `s`, split at line feeds with a trailing carriage return
/// removed from each and no empty line after a final line feed — the way
/// `str::lines` iterates.
pub open spec fn spec_lines(s: Seq<u8>) -> Seq<Seq<u8>>
    decreases s.len(),
    via spec_lines_dec
{
    if s.len() == 0 {
        Seq::empty()
    } else {
        let k = line_break(s);
        if k == s.len() {
            seq![strip_cr(s)]
        } else {
            seq![strip_cr(s.take(k))] + spec_lines(s.skip(k + 1))
        }
    }
}

#[via_fn]
proof fn spec_lines_dec(s: Seq<u8>) {
    if s.len() > 0 {
        lemma_line_break_bounds(s);
    }
}

/// Split `s` into its lines.
pub fn lines_of(s: &[u8]) -> (r: Vec<Vec<u8>>)
    ensures
        r.deep_view() == spec_lines(s@),
{
    let mut out: Vec<Vec<u8>> = Vec::new();
    let mut i: usize = 0;
    proof {
        assert(s@.skip(0) =~= s@);
        assert(out.deep_view() =~= Seq::<Seq<u8>>::empty());
        assert(out.deep_view() + spec_lines(s@.skip(0)) =~= spec_lines(s@));
    }
    while i < s.len()
        invariant
            0 <= i <= s@.len(),
            spec_lines(s@) == out.deep_view() + spec_lines(s@.skip(i as int)),
        decreases s@.len() - i,
    {
        let start: usize = i;
        let mut j: usize = i;
        while j < s.len() && s[j] != 10
            invariant
                start <= j <= s@.len(),
                forall|p: int| start <= p < j ==> #[trigger] s@[p] != 10,
            decreases s@.len() - j,
        {
            j = j + 1;
        }
        let end: usize = if j > start && s[j - 1] == 13 {
            j - 1
        } else {
            j
        };
        let line: Vec<u8> = slice_part_to_vec(s, start, end);
        let ghost done = out.deep_view();
        let ghost rest = s@.skip(start as int);
        proof {
            assert(forall|p: int| 0 <= p < j - start ==> #[trigger] rest[p] == s@[start + p]);
            if j < s.len() {
                assert(rest[j - start] == s@[j as int]);
            }
            lemma_line_break_exact(rest, j - start);
            assert(rest.take(j - start) =~= s@.subrange(start as int, j as int));
            assert(strip_cr(s@.subrange(start as int, j as int)) =~= s@.subrange(
                start as int,
                end as int,
            ));
            if j < s.len() {
                assert(rest.skip(j - start + 1) =~= s@.skip(j + 1));
                assert(spec_lines(rest) == seq![line@] + spec_lines(s@.skip(j + 1)));
            } else {
                assert(rest.take(j - start) =~= rest);
                assert(spec_lines(rest) == seq![line@]);
            }
        }
        out.push(line);
        proof {
            assert(line.deep_view() =~= line@);
            assert(out.deep_view() =~= done + seq![line@]);
            if j < s.len() {
                assert((done + seq![line@]) + spec_lines(s@.skip(j + 1)) =~= done + (seq![line@]
                    + spec_lines(s@.skip(j + 1))));
            } else {
                assert(spec_lines(s@.skip(s@.len() as int)) =~= Seq::<Seq<u8>>::empty());
                assert((done + seq![line@]) + Seq::<Seq<u8>>::empty() =~= done + seq![line@]);
                assert(done + seq![line@] =~= done + (seq![line@] + Seq::<Seq<u8>>::empty()));
            }
        }
        if j < s.len() {
            i = j + 1;
        } else {
            i = j;
            proof {
                assert(s@.skip(i as int) =~= Seq::<u8>::empty());
            }
        }
    }
    proof {
        assert(s@.skip(i as int) =~= Seq::<u8>::empty());
        assert(out.deep_view() + Seq::<Seq<u8>>::empty() =~= out.deep_view());
    }
    out
}

/// ASCII lower-casing of one byte.
pub open spec fn lower_byte(b: u8) -> u8 {
    if 65 <= b <= 90 {
        (b + 32) as u8
    } else {
        b
    }
}

/// ASCII lower-casing of a byte string.
pub open spec fn spec_lower(s: Seq<u8>) -> Seq<u8> {
    s.map_values(|b: u8| lower_byte(b))
}

/// Lower-case the ASCII letters of `s`.
pub fn lower_bytes(s: &[u8]) -> (r: Vec<u8>)
    ensures
        r@ == spec_lower(s@),
{
    let mut out: Vec<u8> = Vec::new();
    let mut i: usize = 0;
    while i < s.len()
        invariant
            0 <= i <= s@.len(),
            out@ =~= spec_lower(s@.take(i as int)),
        decreases s@.len() - i,
    {
        let b = s[i];
        if 65 <= b && b <= 90 {
            out.push(b + 32);
        } else {
            out.push(b);
        }
        proof {
            assert(s@.take(i + 1).drop_last() =~= s@.take(i as int));
            assert(spec_lower(s@.take(i + 1)) =~= spec_lower(s@.take(i as int)).push(
                lower_byte(s@[i as int]),
            ));
        }
        i = i + 1;
    }
    proof {
        assert(s@.take(i as int) =~= s@);
    }
    out
}

/// Byte-for-byte equality of two byte strings.
pub fn eq_bytes(a: &[u8], b: &[u8]) -> (r: bool)
    ensures
        r == (a@ == b@),
{
    if a.len() != b.len() {
        return false;
    }
    let mut i: usize = 0;
    while i < a.len()
        invariant
            0 <= i <= a@.len(),
            a@.len() == b@.len(),
            forall|p: int| 0 <= p < i ==> a@[p] == #[trigger] b@[p],
        decreases a@.len() - i,
    {
        if a[i] != b[i] {
            return false;
        }
        i = i + 1;
    }
    proof {
        assert(a@ =~= b@);
    }
    true
}


/// Index of the first occurrence of byte `b` in `h`, or `None`.
pub fn find_byte(h: &[u8], b: u8) -> (r: Option<usize>)
    ensures
        match r {
            Some(k) => spec_find_sub(h@, seq![b]) == Some(k as int) && 0 <= k < h@.len()
                && h@[k as int] == b && forall|p: int| 0 <= p < k ==> #[trigger] h@[p] != b,
            None => spec_find_sub(h@, seq![b]) is None && forall|p: int|
                0 <= p < h@.len() ==> #[trigger] h@[p] != b,
        },
{
    let mut n: Vec<u8> = Vec::new();
    n.push(b);
    proof {
        assert(n@ =~= seq![b]);
    }
    let r = find_sub(h, n.as_slice());
    proof {
        match r {
            Some(k) => {
                assert(match_at(h@, seq![b], k as int));
                assert(h@.subrange(k as int, k as int + 1)[0] == h@[k as int]);
                assert forall|p: int| 0 <= p < k implies #[trigger] h@[p] != b by {
                    assert(!match_at(h@, seq![b], p));
                    assert(h@.subrange(p, p + 1) =~= seq![h@[p]]);
                }
            },
            None => {
                assert forall|p: int| 0 <= p < h@.len() implies #[trigger] h@[p] != b by {
                    assert(!match_at(h@, seq![b], p));
                    assert(h@.subrange(p, p + 1) =~= seq![h@[p]]);
                }
            },
        }
    }
    r
}

/// Index of the last occurrence of byte `b` in `s`, or `None` when it
/// does not occur, as `str::rfind` reports.
pub open spec fn spec_rfind_byte(s: Seq<u8>, b: u8) -> Option<int>
    decreases s.len(),
{
    if s.len() == 0 {
        None
    } else if s.last() == b {
        Some(s.len() - 1)
    } else {
        spec_rfind_byte(s.drop_last(), b)
    }
}

/// `spec_rfind_byte` returns exactly the greatest index holding `b`.
pub proof fn lemma_rfind_byte_some(s: Seq<u8>, b: u8, k: int)
    requires
        0 <= k < s.len(),
        s[k] == b,
        forall|p: int| k < p < s.len() ==> #[trigger] s[p] != b,
    ensures
        spec_rfind_byte(s, b) == Some(k),
    decreases s.len(),
{
    if k == s.len() - 1 {
    } else {
        assert(s.last() != b);
        assert(forall|p: int| k < p < s.len() - 1 ==> #[trigger] s.drop_last()[p] == s[p]);
        lemma_rfind_byte_some(s.drop_last(), b, k);
    }
}

/// When `b` occurs nowhere in `s`, `spec_rfind_byte` reports so.
pub proof fn lemma_rfind_byte_none(s: Seq<u8>, b: u8)
    requires
        forall|p: int| 0 <= p < s.len() ==> #[trigger] s[p] != b,
    ensures
        spec_rfind_byte(s, b) is None,
    decreases s.len(),
{
    if s.len() > 0 {
        lemma_rfind_byte_none(s.drop_last(), b);
    }
}

/// Index of the last occurrence of byte `b` in `s`, or `None`.
pub fn rfind_byte(s: &[u8], b: u8) -> (r: Option<usize>)
    ensures
        match r {
            Some(k) => spec_rfind_byte(s@, b) == Some(k as int) && 0 <= k < s@.len()
                && s@[k as int] == b,
            None => spec_rfind_byte(s@, b) is None,
        },
{
    let mut i: usize = s.len();
    while i > 0
        invariant
            0 <= i <= s@.len(),
            forall|p: int| i <= p < s@.len() ==> #[trigger] s@[p] != b,
        decreases i,
    {
        i = i - 1;
        if s[i] == b {
            proof {
                lemma_rfind_byte_some(s@, b, i as int);
            }
            return Some(i);
        }
    }
    proof {
        lemma_rfind_byte_none(s@, b);
    }
    None
}


/// Count of leading whitespace bytes.
pub open spec fn ws_prefix_len(s: Seq<u8>) -> int
    decreases s.len(),
{
    if s.len() == 0 || !is_ws(s[0]) {
        0
    } else {
        1 + ws_prefix_len(s.drop_first())
    }
}

/// Count of trailing whitespace bytes.
pub open spec fn ws_suffix_len(s: Seq<u8>) -> int
    decreases s.len(),
{
    if s.len() == 0 || !is_ws(s.last()) {
        0
    } else {
        1 + ws_suffix_len(s.drop_last())
    }
}

/// What `str::trim` leaves of an ASCII byte string.
pub open spec fn spec_trim(s: Seq<u8>) -> Seq<u8> {
    if ws_prefix_len(s) == s.len() {
        Seq::empty()
    } else {
        s.subrange(ws_prefix_len(s), s.len() - ws_suffix_len(s))
    }
}

proof fn lemma_ws_prefix_exact(s: Seq<u8>, k: int)
    requires
        0 <= k <= s.len(),
        forall|j: int| 0 <= j < k ==> is_ws(#[trigger] s[j]),
        k == s.len() || !is_ws(s[k]),
    ensures
        ws_prefix_len(s) == k,
    decreases k,
{
    if k > 0 {
        lemma_ws_prefix_exact(s.drop_first(), k - 1);
    }
}

proof fn lemma_ws_suffix_exact(s: Seq<u8>, k: int)
    requires
        0 <= k <= s.len(),
        forall|j: int| s.len() - k <= j < s.len() ==> is_ws(#[trigger] s[j]),
        k == s.len() || !is_ws(s[s.len() - k - 1]),
    ensures
        ws_suffix_len(s) == k,
    decreases k,
{
    if k > 0 {
        assert(is_ws(s.last()));
        assert(forall|j: int|
            s.drop_last().len() - (k - 1) <= j < s.drop_last().len() ==> is_ws(
                #[trigger] s.drop_last()[j],
            ));
        lemma_ws_suffix_exact(s.drop_last(), k - 1);
    }
}

/// Strip leading and trailing ASCII whitespace, as `str::trim` does.
pub fn trim_bytes(s: &[u8]) -> (r: Vec<u8>)
    ensures
        r@ == spec_trim(s@),
{
    let n: usize = s.len();
    let mut i: usize = 0;
    while i < n && is_ws_byte(s[i])
        invariant
            0 <= i <= n,
            n == s@.len(),
            forall|j: int| 0 <= j < i ==> is_ws(#[trigger] s@[j]),
        decreases n - i,
    {
        i = i + 1;
    }
    proof {
        lemma_ws_prefix_exact(s@, i as int);
    }
    if i == n {
        let r: Vec<u8> = Vec::new();
        proof {
            assert(r@ =~= spec_trim(s@));
        }
        return r;
    }
    let mut e: usize = n;
    while e > i && is_ws_byte(s[e - 1])
        invariant
            i <= e <= n,
            n == s@.len(),
            i < n && !is_ws(s@[i as int]),
            forall|j: int| e <= j < n ==> is_ws(#[trigger] s@[j]),
        decreases e,
    {
        e = e - 1;
    }
    proof {
        assert(!is_ws(s@[e - 1]));
        lemma_ws_suffix_exact(s@, n - e);
    }
    slice_part_to_vec(s, i, e)
}

} // verus!
