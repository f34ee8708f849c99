use vstd::prelude::*;

verus! {

/// Size of one page of memory in bytes.
pub const PAGE_SIZE: u64 = 4096;

/// How many whole units of `d` cover `n`.
pub open spec fn ceil_div_spec(n: int, d: int) -> int {
    if n % d == 0 { n / d } else { n / d + 1 }
}

/// The least number of units of `d` that cover `n`.
pub fn ceil_div(n: u64, d: u64) -> (r: u64)
    requires
        d > 0,
    ensures
        r == ceil_div_spec(n as int, d as int),
        (r - 1) * d < n <= r * d,
{
    let q: u64 = n / d;
    let m: u64 = n % d;
    proof {
        vstd::arithmetic::div_mod::lemma_fundamental_div_mod(n as int, d as int);
        assert((q + 1) * d == q * d + d) by (nonlinear_arith);
        assert((q - 1) * d == q * d - d) by (nonlinear_arith);
        assert(d * q == q * d) by (nonlinear_arith);
        assert(m != 0 ==> q < n) by (nonlinear_arith)
            requires n == q * d + m, d > 0, q >= 0, m >= 0;
    }
    if m == 0 { q } else { q + 1 }
}

/// The greatest multiple of `a` that is not above `n`.
pub open spec fn align_down_spec(n: int, a: int) -> int {
    n - n % a
}

/// The least multiple of `a` that is not below `n`.
pub open spec fn align_up_spec(n: int, a: int) -> int {
    if n % a == 0 { n } else { n + (a - n % a) }
}

pub fn align_down(n: u64, a: u64) -> (r: u64)
    requires
        a > 0,
    ensures
        r == align_down_spec(n as int, a as int),
{
    let m: u64 = n % a;
    assert(m <= n) by (nonlinear_arith)
        requires m == n % a, a > 0;
    n - m
}

pub fn align_up(n: u64, a: u64) -> (r: u64)
    requires
        a > 0,
        align_up_spec(n as int, a as int) <= u64::MAX,
    ensures
        r == align_up_spec(n as int, a as int),
{
    let m: u64 = n % a;
    if m == 0 { n } else { n + (a - m) }
}

/// The bytes of `s` from `off` on, up to the first zero byte or the end.
pub open spec fn cstr_at(s: Seq<u8>, off: int) -> Seq<u8>
    decreases s.len() - off,
{
    if off < 0 || off >= s.len() || s[off] == 0 {
        Seq::empty()
    } else {
        seq![s[off]] + cstr_at(s, off + 1)
    }
}

/// Whether two byte strings are equal.
pub fn bytes_eq(a: &Vec<u8>, b: &Vec<u8>) -> (r: bool)
    ensures
        r == (a@ == b@),
{
    if a.len() != b.len() {
        return false;
    }
    let mut i: usize = 0;
    while i < a.len()
        invariant
            i <= a.len(),
            a.len() == b.len(),
            a@.take(i as int) == b@.take(i as int),
        decreases a.len() - i,
    {
        if a[i] != b[i] {
            assert(a@[i as int] != b@[i as int]);
            return false;
        }
        assert(a@.take(i + 1) == a@.take(i as int).push(a@[i as int]));
        assert(b@.take(i + 1) == b@.take(i as int).push(b@[i as int]));
        i = i + 1;
    }
    assert(a@.take(i as int) == a@);
    assert(b@.take(i as int) == b@);
    true
}

/// A copy of a byte string.
pub fn bytes_copy(a: &Vec<u8>) -> (r: Vec<u8>)
    ensures
        r@ == a@,
{
    let mut r: Vec<u8> = Vec::new();
    let mut i: usize = 0;
    while i < a.len()
        invariant
            i <= a.len(),
            r@ == a@.take(i as int),
        decreases a.len() - i,
    {
        assert(a@.take(i + 1) == a@.take(i as int).push(a@[i as int]));
        r.push(a[i]);
        i = i + 1;
    }
    assert(a@.take(i as int) == a@);
    r
}

/// Reads the zero-terminated byte string that starts at `off`.
pub fn read_cstr(s: &Vec<u8>, off: u64) -> (r: Vec<u8>)
    ensures
        r@ == cstr_at(s@, off as int),
{
    let mut r: Vec<u8> = Vec::new();
    if off >= s.len() as u64 {
        return r;
    }
    let mut i: usize = off as usize;
    while i < s.len() && s[i] != 0
        invariant
            off <= i <= s.len(),
            cstr_at(s@, off as int) == r@ + cstr_at(s@, i as int),
        decreases s.len() - i,
    {
        let b: u8 = s[i];
        assert(cstr_at(s@, i as int) == seq![b] + cstr_at(s@, i + 1));
        r.push(b);
        assert(cstr_at(s@, off as int) == r@ + cstr_at(s@, i + 1));
        i = i + 1;
    }
    assert(cstr_at(s@, i as int) == Seq::<u8>::empty());
    assert(r@ + Seq::<u8>::empty() == r@);
    r
}

/// The non-empty pieces of `s` from `i` on between separators, where `cur` is the piece begun
/// before `i`.
pub open spec fn pieces_from(s: Seq<u8>, sep: u8, i: int, cur: Seq<u8>) -> Seq<Seq<u8>>
    decreases s.len() - i,
{
    let done = if cur.len() > 0 { seq![cur] } else { Seq::empty() };
    if i < 0 || i >= s.len() {
        done
    } else if s[i] == sep {
        done + pieces_from(s, sep, i + 1, Seq::empty())
    } else {
        pieces_from(s, sep, i + 1, cur.push(s[i]))
    }
}

/// The non-empty pieces of `s` between separators, in order.
pub open spec fn split_nonempty_spec(s: Seq<u8>, sep: u8) -> Seq<Seq<u8>> {
    pieces_from(s, sep, 0, Seq::empty())
}

/// The contents of a list of byte strings.
pub open spec fn strings(v: Seq<Vec<u8>>) -> Seq<Seq<u8>> {
    Seq::new(v.len(), |i: int| v[i]@)
}

pub fn split_nonempty(s: &Vec<u8>, sep: u8) -> (r: Vec<Vec<u8>>)
    ensures
        strings(r@) == split_nonempty_spec(s@, sep),
{
    let mut out: Vec<Vec<u8>> = Vec::new();
    let mut cur: Vec<u8> = Vec::new();
    let mut i: usize = 0;
    assert(strings(out@) + pieces_from(s@, sep, 0, cur@) == split_nonempty_spec(s@, sep));
    while i < s.len()
        invariant
            i <= s@.len(),
            strings(out@) + pieces_from(s@, sep, i as int, cur@) == split_nonempty_spec(s@, sep),
        decreases s@.len() - i,
    {
        let ghost out0 = strings(out@);
        let ghost cur0 = cur@;
        let b: u8 = s[i];
        if b == sep {
            if cur.len() > 0 {
                let piece: Vec<u8> = cur;
                out.push(piece);
                assert(strings(out@) == out0.push(cur0));
                assert(out0 + (seq![cur0] + pieces_from(s@, sep, i + 1, Seq::empty()))
                    == out0.push(cur0) + pieces_from(s@, sep, i + 1, Seq::empty()));
            } else {
                assert(Seq::<Seq<u8>>::empty() + pieces_from(s@, sep, i + 1, Seq::empty())
                    == pieces_from(s@, sep, i + 1, Seq::empty()));
            }
            cur = Vec::new();
        } else {
            cur.push(b);
        }
        i = i + 1;
    }
    let ghost out0 = strings(out@);
    let ghost cur0 = cur@;
    if cur.len() > 0 {
        out.push(cur);
        assert(strings(out@) == out0.push(cur0));
        assert(out0 + seq![cur0] == out0.push(cur0));
    } else {
        assert(out0 + Seq::<Seq<u8>>::empty() == out0);
    }
    out
}

/// One more item of a filtered prefix.
pub proof fn lemma_filter_step<A>(s: Seq<A>, j: int, p: spec_fn(A) -> bool)
    requires
        0 <= j < s.len(),
    ensures
        s.take(j + 1).filter(p) == (if p(s[j]) { s.take(j).filter(p).push(s[j]) } else { s.take(j).filter(p) }),
{
    reveal(Seq::filter);
    assert(s.take(j + 1).drop_last() =~= s.take(j));
}

/// Whether bytes are a text. Calls `core::str::from_utf8`, which succeeds exactly on valid UTF-8.
#[verifier::external_body]
pub(crate) fn is_utf8(b: &Vec<u8>) -> (r: bool)
    ensures
        r == vstd::utf8::valid_utf8(b@),
{
    core::str::from_utf8(b).is_ok()
}

} // verus!
