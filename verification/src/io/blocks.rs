use vstd::prelude::*;
use crate::io::config;
use crate::io::config::{Conf, config_of, end_block, is_space, pieces, read_line, read_lines, split, trimmed};

verus! {

/// The pieces of a text between separators, joined by the separator again.
pub open spec fn joined(v: Seq<Seq<char>>, sep: char) -> Seq<char>
    decreases v.len(),
{
    if v.len() == 0 {
        Seq::empty()
    } else if v.len() == 1 {
        v[0]
    } else {
        joined(v.drop_last(), sep) + seq![sep] + v.last()
    }
}

pub open spec fn free_of(s: Seq<char>, c: char) -> bool {
    forall|i: int| 0 <= i < s.len() ==> #[trigger] s[i] != c
}

proof fn lemma_joined_front(a: Seq<char>, v: Seq<Seq<char>>, sep: char)
    requires
        v.len() > 0,
    ensures
        joined(seq![a] + v, sep) == a + seq![sep] + joined(v, sep),
    decreases v.len(),
{
    let w = seq![a] + v;
    assert(w.last() == v.last());
    assert(w.drop_last() =~= seq![a] + v.drop_last());
    if v.len() == 1 {
        reveal_with_fuel(joined, 2);
        assert(w.drop_last() =~= seq![a]);
        assert(joined(w.drop_last(), sep) == a);
        assert(joined(w, sep) =~= a + seq![sep] + v[0]);
    } else {
        lemma_joined_front(a, v.drop_last(), sep);
        assert(joined(w, sep) =~= a + seq![sep] + joined(v, sep));
    }
}

proof fn lemma_pieces(s: Seq<char>, sep: char, i: int, cur: Seq<char>)
    requires
        0 <= i <= s.len(),
        free_of(cur, sep),
    ensures
        pieces(s, sep, i, cur).len() > 0,
        joined(pieces(s, sep, i, cur), sep) == cur + s.skip(i),
        forall|k: int| 0 <= k < pieces(s, sep, i, cur).len() ==> free_of(#[trigger] pieces(s, sep, i, cur)[k], sep),
    decreases s.len() - i,
{
    if i == s.len() {
        assert(cur + s.skip(i) =~= cur);
    } else if s[i] == sep {
        lemma_pieces(s, sep, i + 1, Seq::empty());
        lemma_joined_front(cur, pieces(s, sep, i + 1, Seq::empty()), sep);
        assert(cur + seq![sep] + (Seq::<char>::empty() + s.skip(i + 1)) =~= cur + s.skip(i));
    } else {
        lemma_pieces(s, sep, i + 1, cur.push(s[i]));
        assert(cur.push(s[i]) + s.skip(i + 1) =~= cur + s.skip(i));
    }
}

/// Splitting a text loses nothing but the separators: no piece has one, and the pieces joined by it are
/// the text.
pub proof fn law_split(s: Seq<char>, sep: char)
    ensures
        split(s, sep).len() > 0,
        joined(split(s, sep), sep) == s,
        forall|k: int| 0 <= k < split(s, sep).len() ==> free_of(#[trigger] split(s, sep)[k], sep),
{
    lemma_pieces(s, sep, 0, Seq::empty());
    assert(Seq::<char>::empty() + s.skip(0) =~= s);
}

proof fn lemma_trim_front(s: Seq<char>)
    ensures
        exists|a: int| 0 <= a <= s.len() && #[trigger] s.skip(a) == config::trim_front(s)
            && (forall|i: int| 0 <= i < a ==> is_space(#[trigger] s[i])),
        config::trim_front(s).len() > 0 ==> !is_space(config::trim_front(s)[0]),
    decreases s.len(),
{
    if s.len() > 0 && is_space(s[0]) {
        let t = s.skip(1);
        lemma_trim_front(t);
        let a = choose|a: int| 0 <= a <= t.len() && #[trigger] t.skip(a) == config::trim_front(t)
            && (forall|i: int| 0 <= i < a ==> is_space(#[trigger] t[i]));
        assert(s.skip(a + 1) =~= t.skip(a));
        assert forall|i: int| 0 <= i < a + 1 implies is_space(#[trigger] s[i]) by {
            if i > 0 {
                assert(t[i - 1] == s[i]);
            }
        }
        assert(s.skip(a + 1) == config::trim_front(s));
    } else {
        assert(s.skip(0) =~= s);
    }
}

proof fn lemma_trim_back(s: Seq<char>)
    ensures
        exists|b: int| 0 <= b <= s.len() && #[trigger] s.take(b) == config::trim_back(s)
            && (forall|i: int| b <= i < s.len() ==> is_space(#[trigger] s[i])),
        config::trim_back(s).len() > 0 ==> !is_space(config::trim_back(s).last()),
    decreases s.len(),
{
    if s.len() > 0 && is_space(s.last()) {
        let t = s.drop_last();
        lemma_trim_back(t);
        let b = choose|b: int| 0 <= b <= t.len() && #[trigger] t.take(b) == config::trim_back(t)
            && (forall|i: int| b <= i < t.len() ==> is_space(#[trigger] t[i]));
        assert(s.take(b) =~= t.take(b));
        assert forall|i: int| b <= i < s.len() implies is_space(#[trigger] s[i]) by {
            if i < t.len() {
                assert(t[i] == s[i]);
            }
        }
        assert(s.take(b) == config::trim_back(s));
    } else {
        assert(s.take(s.len() as int) =~= s);
    }
}

/// Trimming a text cuts off nothing but white space at its ends, and all of it.
pub proof fn law_trimmed(s: Seq<char>)
    ensures
        exists|a: int, b: int| 0 <= a <= b <= s.len() && #[trigger] s.subrange(a, b) == trimmed(s)
            && (forall|i: int| 0 <= i < a || b <= i < s.len() ==> is_space(#[trigger] s[i])),
        trimmed(s).len() > 0 ==> !is_space(trimmed(s)[0]) && !is_space(trimmed(s).last()),
{
    lemma_trim_front(s);
    let t = config::trim_front(s);
    let a = choose|a: int| 0 <= a <= s.len() && #[trigger] s.skip(a) == t
        && (forall|i: int| 0 <= i < a ==> is_space(#[trigger] s[i]));
    lemma_trim_back(t);
    let b = choose|b: int| 0 <= b <= t.len() && #[trigger] t.take(b) == config::trim_back(t)
        && (forall|i: int| b <= i < t.len() ==> is_space(#[trigger] t[i]));
    assert(s.subrange(a, a + b) =~= t.take(b));
    assert forall|i: int| 0 <= i < a || a + b <= i < s.len() implies is_space(#[trigger] s[i]) by {
        if i >= a + b {
            assert(t[i - a] == s[i]);
        }
    }
    assert(s.subrange(a, a + b) == trimmed(s));
}

/// The white space characters, by their numbers.
pub open spec fn spaces() -> Seq<int> {
    seq![
        9, 10, 11, 12, 13, 32, 133, 160, 5760, 8192, 8193, 8194, 8195, 8196, 8197, 8198, 8199, 8200, 8201, 8202,
        8232, 8233, 8239, 8287, 12288,
    ]
}

pub proof fn law_white_space(c: char)
    ensures
        is_space(c) <==> spaces().contains(c as int),
{
    let s = spaces();
    let u = c as int;
    if is_space(c) {
        let i: int = if u <= 13 { u - 9 } else if u == 32 { 5 } else if u == 133 { 6 } else if u == 160 { 7 }
            else if u == 5760 { 8 } else if u <= 8202 { 9 + u - 8192 } else if u == 8232 { 20 } else if u == 8233 { 21 }
            else if u == 8239 { 22 } else if u == 8287 { 23 } else { 24 };
        assert(s[i] == u);
    }
    if s.contains(u) {
        let i = choose|i: int| 0 <= i < s.len() && s[i] == u;
        assert(is_space(c));
    }
}

/// The line says nothing: it is empty or a comment.
pub open spec fn silent(raw: Seq<char>) -> bool {
    trimmed(raw).len() == 0 || trimmed(raw)[0] == '#'
}

/// The line begins the block of a device stack.
pub open spec fn begins_stack(raw: Seq<char>) -> bool {
    trimmed(raw) == seq!['[', 'D', 'e', 'v', 'i', 'c', 'e', 'S', 't', 'a', 'c', 'k', ']']
}

/// The line begins the block of a driver description.
pub open spec fn begins_description(raw: Seq<char>) -> bool {
    trimmed(raw) == seq!['[', 'd', 'e', 's', 'c', 'r', 'i', 'p', 't', 'i', 'o', 'n', ']']
}

pub open spec fn begins(raw: Seq<char>) -> bool {
    begins_stack(raw) || begins_description(raw)
}

/// A line with something to say to its block.
pub open spec fn content(raw: Seq<char>) -> bool {
    !silent(raw) && !begins(raw)
}

/// The only `=` of the line is at `p`.
pub open spec fn equals_at(raw: Seq<char>, p: int) -> bool {
    0 <= p < raw.len() && raw[p] == '=' && forall|q: int| 0 <= q < raw.len() && q != p ==> #[trigger] raw[q] != '='
}

/// The line is `key = value`.
pub open spec fn sets(raw: Seq<char>, key: Seq<char>, value: Seq<char>) -> bool {
    content(raw) && exists|p: int| #[trigger] equals_at(raw, p) && trimmed(raw.take(p)) == key
        && trimmed(raw.skip(p + 1)) == value
}

/// The last line between `h` and `e` that gives the key gives it this value.
pub open spec fn says(lines: Seq<Seq<char>>, h: int, e: int, key: Seq<char>, value: Seq<char>) -> bool {
    exists|i: int| h < i < e && sets(#[trigger] lines[i], key, value)
        && forall|j: int, w: Seq<char>| i < j < e ==> !#[trigger] sets(lines[j], key, w)
}

/// No line between `h` and `e` gives the key.
pub open spec fn omits(lines: Seq<Seq<char>>, h: int, e: int, key: Seq<char>) -> bool {
    forall|j: int, w: Seq<char>| h < j < e ==> !#[trigger] sets(lines[j], key, w)
}

/// The description that begins in line `h` has the lines up to line `e`.
pub open spec fn describes(lines: Seq<Seq<char>>, h: int, e: int) -> bool {
    &&& 0 <= h < e <= lines.len() && begins_description(lines[h])
    &&& forall|i: int| h < i < e ==> !begins(#[trigger] lines[i])
}

/// How many descriptions begin in the first `n` lines.
pub open spec fn descriptions(lines: Seq<Seq<char>>, n: nat) -> nat
    decreases n,
{
    if n == 0 {
        0
    } else {
        descriptions(lines, (n - 1) as nat) + if begins_description(lines[n - 1]) { 1nat } else { 0 }
    }
}

pub open spec fn key_name() -> Seq<char> {
    seq!['n', 'a', 'm', 'e']
}

pub open spec fn key_path() -> Seq<char> {
    seq!['p', 'a', 't', 'h']
}

pub open spec fn key_boot() -> Seq<char> {
    seq!['b', 'o', 'o', 't', '_', 's', 't', 'a', 'r', 't']
}

pub open spec fn word_true() -> Seq<char> {
    seq!['t', 'r', 'u', 'e']
}

pub open spec fn word_false() -> Seq<char> {
    seq!['f', 'a', 'l', 's', 'e']
}

proof fn lemma_first_piece(s: Seq<char>, sep: char, i: int, cur: Seq<char>, p: int)
    requires
        0 <= i <= p <= s.len(),
        forall|q: int| i <= q < p ==> #[trigger] s[q] != sep,
        p < s.len() ==> s[p] == sep,
    ensures
        pieces(s, sep, i, cur) == if p < s.len() {
            seq![cur + s.subrange(i, p)] + pieces(s, sep, p + 1, Seq::empty())
        } else {
            seq![cur + s.subrange(i, p)]
        },
    decreases p - i,
{
    if i == p {
        assert(cur + s.subrange(i, p) =~= cur);
    } else {
        lemma_first_piece(s, sep, i + 1, cur.push(s[i]), p);
        assert(cur.push(s[i]) + s.subrange(i + 1, p) =~= cur + s.subrange(i, p));
    }
}

proof fn lemma_first(s: Seq<char>, c: char, i: int) -> (p: int)
    requires
        0 <= i <= s.len(),
    ensures
        i <= p <= s.len(),
        forall|q: int| i <= q < p ==> #[trigger] s[q] != c,
        p < s.len() ==> s[p] == c,
    decreases s.len() - i,
{
    if i < s.len() && s[i] != c {
        lemma_first(s, c, i + 1)
    } else {
        i
    }
}

/// A line has two parts exactly if it has one `=`, and these are what is before and behind it.
proof fn lemma_two_parts(raw: Seq<char>) -> (p: int)
    ensures
        split(raw, '=').len() == 2 <==> equals_at(raw, p),
        split(raw, '=').len() == 2 ==> split(raw, '=')[0] == raw.take(p) && split(raw, '=')[1] == raw.skip(p + 1),
        forall|q: int| #[trigger] equals_at(raw, q) ==> q == p,
{
    let p = lemma_first(raw, '=', 0);
    lemma_first_piece(raw, '=', 0, Seq::empty(), p);
    if p < raw.len() {
        let q = lemma_first(raw, '=', p + 1);
        lemma_first_piece(raw, '=', p + 1, Seq::empty(), q);
        if q < raw.len() {
            lemma_pieces(raw, '=', q + 1, Seq::empty());
            assert(raw[q] == '=');
        }
        assert(Seq::<char>::empty() + raw.subrange(0, p) =~= raw.take(p));
        if q == raw.len() {
            assert(Seq::<char>::empty() + raw.subrange(p + 1, q) =~= raw.skip(p + 1));
        }
    }
    assert forall|q: int| #[trigger] equals_at(raw, q) implies q == p by {
        if p < raw.len() && q != p {
            assert(raw[p] == '=');
        }
    }
    p
}

/// What a line of a description is taken for.
proof fn lemma_field(c: Conf, raw: Seq<char>)
    requires
        content(raw),
    ensures
        match config::field(c, raw) {
            Some(d) => {
                &&& d == (Conf { name: d.name, path: d.path, boot_start: d.boot_start, ..c })
                &&& (exists|v: Seq<char>| #[trigger] sets(raw, key_name(), v) && d.name == Some(v))
                    || d.name == c.name && forall|v: Seq<char>| !#[trigger] sets(raw, key_name(), v)
                &&& (exists|v: Seq<char>| #[trigger] sets(raw, key_path(), v) && d.path == Some(v))
                    || d.path == c.path && forall|v: Seq<char>| !#[trigger] sets(raw, key_path(), v)
                &&& {
                    ||| sets(raw, key_boot(), word_true()) && d.boot_start
                    ||| sets(raw, key_boot(), word_false()) && !d.boot_start
                    ||| d.boot_start == c.boot_start && forall|v: Seq<char>| !#[trigger] sets(raw, key_boot(), v)
                }
            },
            None => true,
        },
{
    let p = lemma_two_parts(raw);
    if let Some(d) = config::field(c, raw) {
        assert(equals_at(raw, p));
        let key = trimmed(raw.take(p));
        let value = trimmed(raw.skip(p + 1));
        assert(sets(raw, key, value));
        assert forall|k: Seq<char>, v: Seq<char>| #[trigger] sets(raw, k, v) implies k == key && v == value by {
            let q = choose|q: int| #[trigger] equals_at(raw, q) && trimmed(raw.take(q)) == k
                && trimmed(raw.skip(q + 1)) == v;
            assert(q == p);
        }
        assert(key_name().len() != key_boot().len() && key_path().len() != key_boot().len());
        assert(key_name()[0] != key_path()[0]);
        assert(word_true().len() != word_false().len());
    }
}

proof fn lemma_prefix(lines: Seq<Seq<char>>, m: nat, n: nat)
    requires
        m <= n,
        read_lines(lines, n) is Some,
    ensures
        read_lines(lines, m) is Some,
    decreases n,
{
    if m < n {
        lemma_prefix(lines, m, (n - 1) as nat);
    }
}

/// Outside of a description no name and no path wait, and outside of a stack no id does.
proof fn lemma_idle(lines: Seq<Seq<char>>, n: nat)
    requires
        read_lines(lines, n) is Some,
    ensures
        ({
            let c = read_lines(lines, n)->0;
            &&& !(c.in_block && c.in_description) ==> c.name is None && c.path is None
            &&& c.in_block && !c.in_description || c.cur_id is None
        }),
    decreases n,
{
    if n > 0 {
        lemma_idle(lines, (n - 1) as nat);
        let c = read_lines(lines, (n - 1) as nat)->0;
        let raw = lines[n - 1];
        lemma_headers_differ();
        if c.in_block && c.in_description && content(raw) {
            lemma_field(c, raw);
        }
    }
}

proof fn lemma_headers_differ()
    ensures
        config::stack_header() != config::description_header(),
{
    assert(config::stack_header()[1] == 'D');
    assert(config::description_header()[1] == 'd');
}

/// The block that the `n`-th line is in.
proof fn lemma_block(lines: Seq<Seq<char>>, n: nat)
    requires
        read_lines(lines, n) is Some,
        n <= lines.len(),
    ensures
        ({
            let c = read_lines(lines, n)->0;
            if c.in_block {
                exists|h: int| 0 <= h < n && begins(#[trigger] lines[h])
                    && begins_description(lines[h]) == c.in_description
                    && forall|i: int| h < i < n ==> !begins(#[trigger] lines[i])
            } else {
                forall|i: int| 0 <= i < n ==> !begins(#[trigger] lines[i])
            }
        }),
    decreases n,
{
    if n > 0 {
        lemma_block(lines, (n - 1) as nat);
        let c = read_lines(lines, (n - 1) as nat)->0;
        let raw = lines[n - 1];
        lemma_headers_differ();
        if !silent(raw) && begins(raw) {
            assert(begins(lines[n - 1]));
        } else {
            if silent(raw) && begins(raw) {
                assert(trimmed(raw)[0] == '[');
            }
            if content(raw) && c.in_block && c.in_description {
                lemma_field(c, raw);
            }
            if c.in_block {
                let h = choose|h: int| 0 <= h < n - 1 && begins(#[trigger] lines[h])
                    && begins_description(lines[h]) == c.in_description
                    && forall|i: int| h < i < n - 1 ==> !begins(#[trigger] lines[i]);
                assert(begins(lines[h]));
            }
        }
    }
}

proof fn lemma_still_says(lines: Seq<Seq<char>>, h: int, n: int, key: Seq<char>, v: Seq<char>)
    requires
        h + 1 < n,
        says(lines, h, n - 1, key, v),
        forall|w: Seq<char>| !#[trigger] sets(lines[n - 1], key, w),
    ensures
        says(lines, h, n, key, v),
{
    let i = choose|i: int| h < i < n - 1 && sets(#[trigger] lines[i], key, v)
        && forall|j: int, w: Seq<char>| i < j < n - 1 ==> !#[trigger] sets(lines[j], key, w);
    assert(sets(lines[i], key, v));
    assert forall|j: int, w: Seq<char>| i < j < n implies !#[trigger] sets(lines[j], key, w) by {}
}

/// What is known of a key when the lines between `h` and `n` have been read.
pub open spec fn told(lines: Seq<Seq<char>>, h: int, n: int, key: Seq<char>, v: Option<Seq<char>>) -> bool {
    match v {
        Some(t) => says(lines, h, n, key, t),
        None => omits(lines, h, n, key),
    }
}

proof fn lemma_told_next(
    lines: Seq<Seq<char>>, h: int, n: int, key: Seq<char>, v: Option<Seq<char>>, w: Option<Seq<char>>,
)
    requires
        h + 1 < n,
        told(lines, h, n - 1, key, v),
        ({
            ||| w is Some && sets(lines[n - 1], key, w->0)
            ||| w == v && forall|u: Seq<char>| !#[trigger] sets(lines[n - 1], key, u)
        }),
    ensures
        told(lines, h, n, key, w),
{
    if w is Some && sets(lines[n - 1], key, w->0) {
        assert(says(lines, h, n, key, w->0));
    } else if w is Some {
        lemma_still_says(lines, h, n, key, w->0);
    }
}

/// In the midst of a description.
proof fn lemma_described(lines: Seq<Seq<char>>, h: int, n: int)
    requires
        describes(lines, h, n),
        read_lines(lines, n as nat) is Some,
    ensures
        ({
            let c = read_lines(lines, n as nat)->0;
            &&& c.in_block && c.in_description
            &&& told(lines, h, n, key_name(), c.name)
            &&& told(lines, h, n, key_path(), c.path)
            &&& c.boot_start ==> says(lines, h, n, key_boot(), word_true())
            &&& !c.boot_start ==> omits(lines, h, n, key_boot()) || says(lines, h, n, key_boot(), word_false())
        }),
    decreases n,
{
    let c = read_lines(lines, (n - 1) as nat)->0;
    let d = read_lines(lines, n as nat)->0;
    let raw = lines[n - 1];
    lemma_headers_differ();
    if n == h + 1 {
        lemma_idle(lines, (n - 1) as nat);
        assert(trimmed(raw)[0] == '[');
    } else {
        lemma_described(lines, h, n - 1);
        assert(!begins(lines[n - 1]));
        if content(raw) {
            lemma_field(c, raw);
        }
        lemma_told_next(lines, h, n, key_name(), c.name, d.name);
        lemma_told_next(lines, h, n, key_path(), c.path, d.path);
        let o = if omits(lines, h, n - 1, key_boot()) {
            None
        } else if c.boot_start {
            Some(word_true())
        } else {
            Some(word_false())
        };
        if sets(raw, key_boot(), word_true()) && d.boot_start {
            lemma_told_next(lines, h, n, key_boot(), o, Some(word_true()));
        } else if sets(raw, key_boot(), word_false()) && !d.boot_start {
            lemma_told_next(lines, h, n, key_boot(), o, Some(word_false()));
        } else {
            lemma_told_next(lines, h, n, key_boot(), o, o);
            if c.boot_start && o is None {
                let i = choose|i: int| h < i < n - 1 && sets(#[trigger] lines[i], key_boot(), word_true());
                assert(false);
            }
        }
    }
}

/// Drivers that have been recorded stay as they are, in their order.
proof fn lemma_recorded_stay(lines: Seq<Seq<char>>, m: nat, n: nat)
    requires
        m <= n,
        read_lines(lines, n) is Some,
    ensures
        read_lines(lines, m) is Some,
        ({
            let c = read_lines(lines, m)->0;
            let d = read_lines(lines, n)->0;
            &&& c.drivers.len() <= d.drivers.len() && c.stacks.len() <= d.stacks.len()
            &&& forall|i: int| 0 <= i < c.drivers.len() ==> #[trigger] d.drivers[i] == c.drivers[i]
            &&& forall|i: int| 0 <= i < c.stacks.len() ==> #[trigger] d.stacks[i] == c.stacks[i]
        }),
    decreases n,
{
    if m < n {
        lemma_recorded_stay(lines, m, (n - 1) as nat);
        let c = read_lines(lines, (n - 1) as nat)->0;
        let raw = lines[n - 1];
        lemma_headers_differ();
        if content(raw) && c.in_block && c.in_description {
            lemma_field(c, raw);
        }
    }
}

proof fn lemma_driver_count(lines: Seq<Seq<char>>, n: nat)
    requires
        read_lines(lines, n) is Some,
    ensures
        ({
            let c = read_lines(lines, n)->0;
            c.drivers.len() + (if c.in_block && c.in_description { 1int } else { 0 }) == descriptions(lines, n)
        }),
    decreases n,
{
    if n > 0 {
        lemma_driver_count(lines, (n - 1) as nat);
        let c = read_lines(lines, (n - 1) as nat)->0;
        let raw = lines[n - 1];
        lemma_headers_differ();
        if begins(raw) {
            assert(trimmed(raw)[0] == '[');
        }
        if content(raw) && c.in_block && c.in_description {
            lemma_field(c, raw);
        }
    }
}

/// An accepted text gives a driver for each of its descriptions, in their order, with the name and the
/// path that the last such lines of the description give, and to be started at boot exactly if the last
/// line on that says `true`.
pub proof fn law_drivers_described(text: Seq<char>, h: int, e: int)
    requires
        config_of(text) is Some,
        describes(split(text, '\n'), h, e),
        e == split(text, '\n').len() || begins(split(text, '\n')[e]),
    ensures
        ({
            let lines = split(text, '\n');
            let drivers = config_of(text)->0.drivers;
            let d = descriptions(lines, h as nat) as int;
            &&& drivers.len() == descriptions(lines, lines.len())
            &&& d < drivers.len()
            &&& says(lines, h, e, key_name(), drivers[d].name)
            &&& says(lines, h, e, key_path(), drivers[d].path)
            &&& drivers[d].boot_start ==> says(lines, h, e, key_boot(), word_true())
            &&& !drivers[d].boot_start ==> omits(lines, h, e, key_boot())
                || says(lines, h, e, key_boot(), word_false())
        }),
{
    let lines = split(text, '\n');
    let n = lines.len();
    lemma_driver_count(lines, n);
    lemma_prefix(lines, e as nat, n);
    lemma_prefix(lines, h as nat, n);
    lemma_described(lines, h, e);
    lemma_driver_count(lines, e as nat);
    lemma_descriptions(lines, h, e);
    let c = read_lines(lines, e as nat)->0;
    if e < n {
        lemma_recorded_stay(lines, (e + 1) as nat, n);
        lemma_headers_differ();
        assert(trimmed(lines[e])[0] == '[');
    }
}

proof fn lemma_descriptions(lines: Seq<Seq<char>>, h: int, e: int)
    requires
        describes(lines, h, e),
    ensures
        descriptions(lines, e as nat) == descriptions(lines, h as nat) + 1,
    decreases e,
{
    if e > h + 1 {
        lemma_descriptions(lines, h, e - 1);
        assert(!begins(lines[e - 1]));
    }
}

/// Every line of a description of an accepted text that says something has one `=`, and what it gives
/// for `boot_start` is `true` or `false`.
pub proof fn law_description_lines(text: Seq<char>, h: int, i: int)
    requires
        config_of(text) is Some,
        describes(split(text, '\n'), h, i + 1),
        h < i,
        content(split(text, '\n')[i]),
    ensures
        exists|k: Seq<char>, v: Seq<char>| #[trigger] sets(split(text, '\n')[i], k, v),
        forall|v: Seq<char>| #[trigger] sets(split(text, '\n')[i], key_boot(), v)
            ==> v == word_true() || v == word_false(),
{
    let lines = split(text, '\n');
    let raw = lines[i];
    lemma_prefix(lines, (i + 1) as nat, lines.len());
    lemma_prefix(lines, i as nat, lines.len());
    assert(describes(lines, h, i));
    lemma_described(lines, h, i);
    let c = read_lines(lines, i as nat)->0;
    assert(config::field(c, raw) is Some);
    let p = lemma_two_parts(raw);
    assert(equals_at(raw, p));
    assert(sets(raw, trimmed(raw.take(p)), trimmed(raw.skip(p + 1))));
    assert forall|v: Seq<char>| #[trigger] sets(raw, key_boot(), v) implies v == word_true() || v == word_false() by {
        let q = choose|q: int| #[trigger] equals_at(raw, q) && trimmed(raw.take(q)) == key_boot()
            && trimmed(raw.skip(q + 1)) == v;
        assert(q == p);
        assert(key_name().len() != key_boot().len() && key_path().len() != key_boot().len());
    }
}

/// The device stack that begins in line `h` has the lines up to line `e`.
pub open spec fn lists(lines: Seq<Seq<char>>, h: int, e: int) -> bool {
    &&& 0 <= h < e <= lines.len() && begins_stack(lines[h])
    &&& forall|i: int| h < i < e ==> !begins(#[trigger] lines[i])
}

/// Line `i` is the first of its device stack that says something: the id.
pub open spec fn is_id(lines: Seq<Seq<char>>, i: int) -> bool {
    content(lines[i]) && exists|h: int| 0 <= h < i && begins_stack(#[trigger] lines[h])
        && forall|j: int| h < j < i ==> silent(#[trigger] lines[j])
}

/// How many of the first `n` lines are ids.
pub open spec fn ids(lines: Seq<Seq<char>>, n: nat) -> nat
    decreases n,
{
    if n == 0 { 0 } else { ids(lines, (n - 1) as nat) + if is_id(lines, n - 1) { 1nat } else { 0 } }
}

/// How many of the lines from `a` to `b` say something.
pub open spec fn contents(lines: Seq<Seq<char>>, a: int, b: int) -> nat
    decreases b - a,
{
    if b <= a { 0 } else { contents(lines, a, b - 1) + if content(lines[b - 1]) { 1nat } else { 0 } }
}

/// The names are what the lines from `a` to `b` say, in their order.
pub open spec fn names_are(lines: Seq<Seq<char>>, a: int, b: int, v: Seq<Seq<char>>) -> bool {
    &&& v.len() == contents(lines, a, b)
    &&& forall|i: int| a <= i < b && content(#[trigger] lines[i]) ==> v[contents(lines, a, i) as int] == trimmed(lines[i])
}

proof fn lemma_contents_grow(lines: Seq<Seq<char>>, a: int, i: int, b: int)
    requires
        a <= i < b,
        content(lines[i]),
    ensures
        contents(lines, a, i) < contents(lines, a, b),
    decreases b - i,
{
    if i + 1 < b {
        lemma_contents_grow(lines, a, i, b - 1);
    }
}

proof fn lemma_names_next(lines: Seq<Seq<char>>, a: int, b: int, v: Seq<Seq<char>>)
    requires
        a < b,
        names_are(lines, a, b - 1, v),
    ensures
        content(lines[b - 1]) ==> names_are(lines, a, b, v.push(trimmed(lines[b - 1]))),
        !content(lines[b - 1]) ==> names_are(lines, a, b, v),
{
    assert forall|i: int| a <= i < b - 1 && content(#[trigger] lines[i]) implies contents(lines, a, i) < v.len() by {
        lemma_contents_grow(lines, a, i, b - 1);
    }
}

/// In the midst of a device stack.
pub open spec fn listed(lines: Seq<Seq<char>>, h: int, n: int, c: Conf) -> bool {
    match c.cur_id {
        None => c.cur_drivers.len() == 0 && forall|i: int| h < i < n ==> silent(#[trigger] lines[i]),
        Some(id) => exists|i: int| h < i < n && content(#[trigger] lines[i]) && id == trimmed(lines[i])
            && (forall|j: int| h < j < i ==> silent(#[trigger] lines[j]))
            && names_are(lines, i + 1, n, c.cur_drivers),
    }
}

proof fn lemma_listed(lines: Seq<Seq<char>>, h: int, n: int)
    requires
        lists(lines, h, n),
        read_lines(lines, n as nat) is Some,
    ensures
        read_lines(lines, n as nat)->0.in_block,
        !read_lines(lines, n as nat)->0.in_description,
        listed(lines, h, n, read_lines(lines, n as nat)->0),
    decreases n,
{
    let c = read_lines(lines, (n - 1) as nat)->0;
    let d = read_lines(lines, n as nat)->0;
    let raw = lines[n - 1];
    lemma_headers_differ();
    if n == h + 1 {
        lemma_idle(lines, (n - 1) as nat);
        assert(trimmed(raw)[0] == '[');
        assert(read_line(c, raw) == Some(d));
        assert(d.cur_id is None);
    } else {
        lemma_listed(lines, h, n - 1);
        assert(!begins(lines[n - 1]));
        match c.cur_id {
            None => {
                if content(raw) {
                    assert(names_are(lines, n, n, d.cur_drivers));
                    assert(content(lines[n - 1]));
                } else {
                    assert forall|i: int| h < i < n implies silent(#[trigger] lines[i]) by {}
                }
            },
            Some(id) => {
                let i = choose|i: int| h < i < n - 1 && content(#[trigger] lines[i]) && id == trimmed(lines[i])
                    && (forall|j: int| h < j < i ==> silent(#[trigger] lines[j]))
                    && names_are(lines, i + 1, n - 1, c.cur_drivers);
                lemma_names_next(lines, i + 1, n, c.cur_drivers);
                assert(content(lines[i]));
                assert(names_are(lines, i + 1, n, d.cur_drivers));
            },
        }
    }
}

proof fn lemma_stack_count(lines: Seq<Seq<char>>, n: nat)
    requires
        read_lines(lines, n) is Some,
        n <= lines.len(),
    ensures
        ({
            let c = read_lines(lines, n)->0;
            c.stacks.len() + (if c.cur_id is Some { 1int } else { 0 }) == ids(lines, n)
        }),
    decreases n,
{
    if n > 0 {
        let m = (n - 1) as nat;
        lemma_stack_count(lines, m);
        lemma_idle(lines, m);
        lemma_block(lines, m);
        let c = read_lines(lines, m)->0;
        let raw = lines[n - 1];
        lemma_headers_differ();
        if begins(raw) {
            assert(trimmed(raw)[0] == '[');
        }
        if content(raw) && c.in_block && c.in_description {
            lemma_field(c, raw);
        }
        if content(raw) {
            if c.in_block {
                let h = choose|h: int| 0 <= h < m && begins(#[trigger] lines[h])
                    && begins_description(lines[h]) == c.in_description
                    && forall|i: int| h < i < m ==> !begins(#[trigger] lines[i]);
                if !c.in_description {
                    assert(lists(lines, h, m as int));
                    lemma_listed(lines, h, m as int);
                    if c.cur_id is None {
                        assert(begins_stack(lines[h]));
                        assert(is_id(lines, m as int));
                    }
                }
                if is_id(lines, m as int) {
                    let g = choose|g: int| 0 <= g < m && begins_stack(#[trigger] lines[g])
                        && forall|j: int| g < j < m ==> silent(#[trigger] lines[j]);
                    assert(begins(lines[g]) && begins(lines[h]));
                    if h > g {
                        assert(silent(lines[h]));
                        assert(trimmed(lines[h])[0] == '[');
                    }
                    assert(g == h);
                    if c.cur_id is Some {
                        let i = choose|i: int| h < i < m && content(#[trigger] lines[i]);
                        assert(silent(lines[i]));
                    }
                }
            } else if is_id(lines, m as int) {
                let g = choose|g: int| 0 <= g < m && begins_stack(#[trigger] lines[g])
                    && forall|j: int| g < j < m ==> silent(#[trigger] lines[j]);
                assert(begins(lines[g]));
            }
        }
    }
}

/// Of the lines of a device stack one is an id.
proof fn lemma_ids_block(lines: Seq<Seq<char>>, h: int, i: int, e: int)
    requires
        lists(lines, h, e),
        h < i < e,
        content(lines[i]),
        forall|j: int| h < j < i ==> silent(#[trigger] lines[j]),
    ensures
        ids(lines, e as nat) == ids(lines, i as nat) + 1,
    decreases e,
{
    if e == i + 1 {
        assert(begins_stack(lines[h]));
        assert(is_id(lines, i));
    } else {
        lemma_ids_block(lines, h, i, e - 1);
        if is_id(lines, e - 1) {
            let g = choose|g: int| 0 <= g < e - 1 && begins_stack(#[trigger] lines[g])
                && forall|j: int| g < j < e - 1 ==> silent(#[trigger] lines[j]);
            assert(begins(lines[g]));
            if g < i {
                assert(silent(lines[i]));
            }
        }
    }
}

/// An accepted text gives a device stack for each block of one that says something, in their order: the
/// first line that says something is the id, and the others are the names of its drivers, bottom first.
pub proof fn law_stacks_listed(text: Seq<char>, h: int, i: int, e: int)
    requires
        config_of(text) is Some,
        lists(split(text, '\n'), h, e),
        e == split(text, '\n').len() || begins(split(text, '\n')[e]),
        h < i < e,
        content(split(text, '\n')[i]),
        forall|j: int| h < j < i ==> silent(#[trigger] split(text, '\n')[j]),
    ensures
        ({
            let lines = split(text, '\n');
            let stacks = config_of(text)->0.stacks;
            let d = ids(lines, i as nat) as int;
            &&& stacks.len() == ids(lines, lines.len())
            &&& d < stacks.len()
            &&& stacks[d].match_id == trimmed(lines[i])
            &&& names_are(lines, i + 1, e, stacks[d].driver_names)
        }),
{
    let lines = split(text, '\n');
    let n = lines.len();
    lemma_stack_count(lines, n);
    lemma_idle(lines, n);
    lemma_prefix(lines, e as nat, n);
    lemma_listed(lines, h, e);
    lemma_stack_count(lines, e as nat);
    lemma_ids_block(lines, h, i, e);
    let c = read_lines(lines, e as nat)->0;
    assert(c.cur_id is Some) by {
        if c.cur_id is None {
            assert(silent(lines[i]));
        }
    }
    let k = choose|k: int| h < k < e && content(#[trigger] lines[k]) && c.cur_id->0 == trimmed(lines[k])
        && (forall|j: int| h < j < k ==> silent(#[trigger] lines[j]))
        && names_are(lines, k + 1, e, c.cur_drivers);
    assert(k == i) by {
        if k < i {
            assert(silent(lines[k]));
        } else if i < k {
            assert(silent(lines[i]));
        }
    }
    if e < n {
        lemma_recorded_stay(lines, (e + 1) as nat, n);
        lemma_headers_differ();
        assert(trimmed(lines[e])[0] == '[');
    }
}

/// The lines from `h` to `e` are a whole description.
pub open spec fn whole_description(lines: Seq<Seq<char>>, h: int, e: int) -> bool {
    describes(lines, h, e) && (e == lines.len() || begins(lines[e]))
}

/// Line `i` is the id of the device stack that begins in line `h`.
pub open spec fn id_of(lines: Seq<Seq<char>>, h: int, i: int) -> bool {
    &&& 0 <= h < i < lines.len() && begins_stack(lines[h]) && content(lines[i])
    &&& forall|j: int| h < j < i ==> silent(#[trigger] lines[j])
}

/// The line gives some key a value, and `boot_start` only `true` or `false`.
pub open spec fn good_line(raw: Seq<char>) -> bool {
    &&& exists|k: Seq<char>, v: Seq<char>| #[trigger] sets(raw, k, v)
    &&& forall|v: Seq<char>| #[trigger] sets(raw, key_boot(), v) ==> v == word_true() || v == word_false()
}

pub open spec fn names_a_driver(lines: Seq<Seq<char>>, h: int, e: int) -> bool {
    (exists|v: Seq<char>| #[trigger] says(lines, h, e, key_name(), v))
        && exists|v: Seq<char>| #[trigger] says(lines, h, e, key_path(), v)
}

/// Every description gives a name and a path, and only keys and values; no two give one name; and no two device
/// stacks have one id, but for `Root`.
pub open spec fn sound_text(lines: Seq<Seq<char>>) -> bool {
    &&& forall|h: int, e: int| #[trigger] whole_description(lines, h, e) ==> names_a_driver(lines, h, e)
    &&& forall|h: int, i: int| #[trigger] describes(lines, h, i) && i < lines.len() && content(lines[i])
        ==> good_line(lines[i])
    &&& forall|h: int, e: int, h2: int, e2: int, v: Seq<char>|
        #![trigger says(lines, h, e, key_name(), v), says(lines, h2, e2, key_name(), v)]
        whole_description(lines, h, e) && whole_description(lines, h2, e2) && h < h2
            && says(lines, h, e, key_name(), v) ==> !says(lines, h2, e2, key_name(), v)
    &&& forall|h: int, i: int, h2: int, i2: int| #[trigger] id_of(lines, h, i) && #[trigger] id_of(lines, h2, i2) && h < h2
        && trimmed(lines[i]) == trimmed(lines[i2]) ==> trimmed(lines[i]) == seq!['R', 'o', 'o', 't']
}

/// Each driver that has been recorded comes from a description that has ended.
proof fn lemma_driver_from(lines: Seq<Seq<char>>, n: nat, k: int)
    requires
        n <= lines.len(),
        read_lines(lines, n) is Some,
        0 <= k < read_lines(lines, n)->0.drivers.len(),
    ensures
        exists|h: int, e: int| e < n && #[trigger] whole_description(lines, h, e) && begins(lines[e])
            && says(lines, h, e, key_name(), read_lines(lines, n)->0.drivers[k].name),
    decreases n,
{
    if n > 0 {
        let m = (n - 1) as nat;
        let c = read_lines(lines, m)->0;
        let d = read_lines(lines, n)->0;
        let raw = lines[n - 1];
        lemma_headers_differ();
        if begins(raw) {
            assert(trimmed(raw)[0] == '[');
        }
        if content(raw) && c.in_block && c.in_description {
            lemma_field(c, raw);
        }
        if k < c.drivers.len() {
            lemma_driver_from(lines, m, k);
            lemma_recorded_stay(lines, m, n);
            let (h, e) = choose|h: int, e: int| e < m && #[trigger] whole_description(lines, h, e) && begins(lines[e])
                && says(lines, h, e, key_name(), c.drivers[k].name);
            assert(whole_description(lines, h, e));
        } else {
            lemma_block(lines, m);
            let h = choose|h: int| 0 <= h < m && begins(#[trigger] lines[h])
                && begins_description(lines[h]) == c.in_description
                && forall|i: int| h < i < m ==> !begins(#[trigger] lines[i]);
            assert(describes(lines, h, m as int));
            lemma_described(lines, h, m as int);
            assert(whole_description(lines, h, m as int));
        }
    }
}

/// Each device stack that has been recorded comes from a block that has ended.
proof fn lemma_stack_from(lines: Seq<Seq<char>>, n: nat, k: int)
    requires
        n <= lines.len(),
        read_lines(lines, n) is Some,
        0 <= k < read_lines(lines, n)->0.stacks.len(),
    ensures
        exists|h: int, i: int, e: int| i < e < n && #[trigger] id_of(lines, h, i) && begins(#[trigger] lines[e])
            && trimmed(lines[i]) == read_lines(lines, n)->0.stacks[k].match_id,
    decreases n,
{
    if n > 0 {
        let m = (n - 1) as nat;
        let c = read_lines(lines, m)->0;
        let raw = lines[n - 1];
        lemma_headers_differ();
        if begins(raw) {
            assert(trimmed(raw)[0] == '[');
        }
        if content(raw) && c.in_block && c.in_description {
            lemma_field(c, raw);
        }
        if k < c.stacks.len() {
            lemma_stack_from(lines, m, k);
            lemma_recorded_stay(lines, m, n);
            let (h, i, e) = choose|h: int, i: int, e: int| i < e < m && #[trigger] id_of(lines, h, i)
                && begins(#[trigger] lines[e]) && trimmed(lines[i]) == c.stacks[k].match_id;
            assert(id_of(lines, h, i) && begins(lines[e]));
        } else {
            lemma_block(lines, m);
            let h = choose|h: int| 0 <= h < m && begins(#[trigger] lines[h])
                && begins_description(lines[h]) == c.in_description
                && forall|i: int| h < i < m ==> !begins(#[trigger] lines[i]);
            assert(lists(lines, h, m as int));
            lemma_listed(lines, h, m as int);
            let i = choose|i: int| h < i < m && content(#[trigger] lines[i]) && c.cur_id->0 == trimmed(lines[i])
                && (forall|j: int| h < j < i ==> silent(#[trigger] lines[j]));
            assert(id_of(lines, h, i) && begins(lines[m as int]));
        }
    }
}

/// A block of a sound text can be recorded when it ends.
proof fn lemma_block_ends(lines: Seq<Seq<char>>, n: nat)
    requires
        sound_text(lines),
        n <= lines.len(),
        n == lines.len() || begins(lines[n as int]),
        read_lines(lines, n) is Some,
    ensures
        end_block(read_lines(lines, n)->0) is Some,
{
    let c = read_lines(lines, n)->0;
    if c.in_block {
        lemma_block(lines, n);
        let h = choose|h: int| 0 <= h < n && begins(#[trigger] lines[h])
            && begins_description(lines[h]) == c.in_description
            && forall|i: int| h < i < n ==> !begins(#[trigger] lines[i]);
        if c.in_description {
            assert(describes(lines, h, n as int));
            lemma_described(lines, h, n as int);
            assert(whole_description(lines, h, n as int));
            assert(names_a_driver(lines, h, n as int));
            let x = choose|v: Seq<char>| #[trigger] says(lines, h, n as int, key_name(), v);
            let y = choose|v: Seq<char>| #[trigger] says(lines, h, n as int, key_path(), v);
            assert(c.name is Some && c.path is Some);
            let name = c.name->0;
            if config::has_driver(c.drivers, name) {
                let k = choose|k: int| 0 <= k < c.drivers.len() && (#[trigger] c.drivers[k]).name == name;
                lemma_driver_from(lines, n, k);
                let (g, e) = choose|g: int, e: int| e < n && #[trigger] whole_description(lines, g, e) && begins(lines[e])
                    && says(lines, g, e, key_name(), name);
                assert(e <= h);
                assert(says(lines, g, e, key_name(), name) && says(lines, h, n as int, key_name(), name));
            }
        } else {
            assert(lists(lines, h, n as int));
            lemma_listed(lines, h, n as int);
            if let Some(id) = c.cur_id {
                if id != config::root_id() && config::has_stack(c.stacks, id) {
                    let k = choose|k: int| 0 <= k < c.stacks.len() && (#[trigger] c.stacks[k]).match_id == id;
                    lemma_stack_from(lines, n, k);
                    let (g, a, e) = choose|g: int, a: int, e: int| a < e < n && #[trigger] id_of(lines, g, a)
                        && begins(#[trigger] lines[e]) && trimmed(lines[a]) == id;
                    let i = choose|i: int| h < i < n && content(#[trigger] lines[i]) && id == trimmed(lines[i])
                        && (forall|j: int| h < j < i ==> silent(#[trigger] lines[j]));
                    assert(e <= h);
                    assert(id_of(lines, g, a) && id_of(lines, h, i));
                    assert(id =~= config::root_id());
                }
            }
        }
    }
}

proof fn lemma_sound_read(lines: Seq<Seq<char>>, n: nat)
    requires
        sound_text(lines),
        n <= lines.len(),
    ensures
        read_lines(lines, n) is Some,
    decreases n,
{
    if n > 0 {
        let m = (n - 1) as nat;
        lemma_sound_read(lines, m);
        let c = read_lines(lines, m)->0;
        let raw = lines[n - 1];
        lemma_headers_differ();
        if begins(raw) {
            assert(begins(lines[m as int]));
            lemma_block_ends(lines, m);
        } else if content(raw) && c.in_block && c.in_description {
            lemma_block(lines, m);
            let h = choose|h: int| 0 <= h < m && begins(#[trigger] lines[h])
                && begins_description(lines[h]) == c.in_description
                && forall|i: int| h < i < m ==> !begins(#[trigger] lines[i]);
            assert(describes(lines, h, m as int));
            assert(good_line(lines[m as int]));
            let p = lemma_two_parts(raw);
            let (k, v) = choose|k: Seq<char>, v: Seq<char>| #[trigger] sets(raw, k, v);
            assert(sets(raw, k, v));
            let q = choose|q: int| #[trigger] equals_at(raw, q) && trimmed(raw.take(q)) == k
                && trimmed(raw.skip(q + 1)) == v;
            assert(q == p);
            assert(split(raw, '=').len() == 2);
            if k == key_boot() {
                assert(sets(raw, key_boot(), v));
                assert(v == word_true() || v == word_false());
            }
            assert(config::field(c, raw) is Some);
        }
    }
}

/// A sound text is accepted: lines that say nothing, lines before the first block, and keys that mean nothing do no
/// harm.
pub proof fn law_sound_text_accepted(text: Seq<char>)
    requires
        sound_text(split(text, '\n')),
    ensures
        config_of(text) is Some,
{
    let lines = split(text, '\n');
    lemma_sound_read(lines, lines.len());
    lemma_block_ends(lines, lines.len());
}

/// In an accepted text no two drivers have one name, and no two device stacks one id, but for `Root`.
pub proof fn law_names_and_ids_differ(text: Seq<char>, i: int, j: int)
    requires
        config_of(text) is Some,
        0 <= i < j,
    ensures
        j < config_of(text)->0.drivers.len() ==> config_of(text)->0.drivers[i].name != config_of(text)->0.drivers[j].name,
        j < config_of(text)->0.stacks.len() && config_of(text)->0.stacks[i].match_id == config_of(text)->0.stacks[j].match_id
            ==> config_of(text)->0.stacks[i].match_id == seq!['R', 'o', 'o', 't'],
{
    config::law_config_distinct(text);
}

} // verus!
