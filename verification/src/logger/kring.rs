use vstd::prelude::*;
use crate::loader::elf;
use crate::util::is_utf8;

verus! {

pub const KRING_CAPACITY: usize = 65536;

/// How much of a message is shown.
pub const MAX_MSG_COPY: usize = 1024;

/// The last messages of the kernel. Each has its length in two bytes before it.
pub struct KernelRingBuf {
    pub buf: Vec<u8>,
    pub head: usize,
    pub len: usize,
}

/// The model of a `KernelRingBuf`: where it begins, and what is in it, oldest first.
#[verifier::ext_equal]
pub struct Ring {
    pub head: int,
    pub bytes: Seq<u8>,
}

impl View for KernelRingBuf {
    type V = Ring;

    open spec fn view(&self) -> Ring {
        Ring {
            head: self.head as int,
            bytes: Seq::new(self.len as nat, |i: int| self.buf@[(self.head + i) % (KRING_CAPACITY as int)]),
        }
    }
}

/// The two bytes before a message of a length.
pub open spec fn prefix(n: int) -> Seq<u8> {
    seq![(n % 256) as u8, (n / 256) as u8]
}

/// A buffer without its oldest message.
pub open spec fn drop_first(c: Seq<u8>) -> Seq<u8> {
    if c.len() < 2 {
        Seq::empty()
    } else {
        let total = 2 + elf::le16(c, 0);
        if total >= c.len() { Seq::empty() } else { c.skip(total) }
    }
}

impl Ring {
    /// Without its oldest message. What cannot hold one is emptied, and begins anew.
    pub open spec fn oldest_dropped(self) -> Ring {
        let rest = drop_first(self.bytes);
        Ring {
            head: if self.bytes.len() < 2 {
                0
            } else {
                (self.head + self.bytes.len() - rest.len()) % (KRING_CAPACITY as int)
            },
            bytes: rest,
        }
    }

    /// With enough of its oldest messages dropped to make room.
    pub open spec fn with_room(self, needed: int) -> Ring
        decreases self.bytes.len(),
    {
        if KRING_CAPACITY - self.bytes.len() >= needed || self.bytes.len() == 0 {
            self
        } else {
            self.oldest_dropped().with_room(needed)
        }
    }

    /// With a message added. One that does not fit at all is dropped.
    pub open spec fn pushed(self, s: Seq<u8>) -> Ring {
        if 2 + s.len() > KRING_CAPACITY {
            self
        } else {
            let r = self.with_room(2int + s.len());
            Ring { bytes: r.bytes + prefix(s.len() as int) + s, ..r }
        }
    }
}

/// A buffer with enough of its oldest messages dropped to make room.
pub open spec fn made_room(c: Seq<u8>, needed: int) -> Seq<u8>
    decreases c.len(),
{
    if KRING_CAPACITY - c.len() >= needed || c.len() == 0 { c } else { made_room(drop_first(c), needed) }
}

/// The messages in a buffer, oldest first.
pub open spec fn messages(c: Seq<u8>) -> Seq<Seq<u8>>
    decreases c.len(),
{
    if c.len() < 2 {
        Seq::empty()
    } else {
        let n = elf::le16(c, 0);
        if n > c.len() - 2 { Seq::empty() } else { seq![c.subrange(2, 2 + n)] + messages(c.skip(2 + n)) }
    }
}

/// A buffer holds whole messages and nothing else.
pub open spec fn whole(c: Seq<u8>) -> bool
    decreases c.len(),
{
    c.len() == 0 || (c.len() >= 2 && elf::le16(c, 0) <= c.len() - 2 && whole(c.skip(2 + elf::le16(c, 0))))
}

/// What is shown of a message: its beginning, if that is text.
pub open spec fn shown(m: Seq<u8>) -> Option<Seq<u8>> {
    let t = if m.len() <= MAX_MSG_COPY { m } else { m.take(MAX_MSG_COPY as int) };
    if vstd::utf8::valid_utf8(t) { Some(t) } else { None }
}

pub open spec fn all_shown(c: Seq<u8>) -> Seq<Seq<u8>>
    decreases c.len(),
{
    if c.len() < 2 {
        Seq::empty()
    } else {
        let n = elf::le16(c, 0);
        if n > c.len() - 2 {
            Seq::empty()
        } else {
            let rest = all_shown(c.skip(2 + n));
            match shown(c.subrange(2, 2 + n)) { Some(t) => seq![t] + rest, None => rest }
        }
    }
}

impl KernelRingBuf {
    pub open spec fn well_formed(self) -> bool {
        &&& self.buf@.len() == KRING_CAPACITY
        &&& self.head < KRING_CAPACITY
        &&& self.len <= KRING_CAPACITY
    }

    pub fn new() -> (r: KernelRingBuf)
        ensures
            r.well_formed(),
            r@ == (Ring { head: 0, bytes: Seq::empty() }),
    {
        let mut buf: Vec<u8> = Vec::new();
        while buf.len() < KRING_CAPACITY
            invariant
                buf@.len() <= KRING_CAPACITY,
            decreases KRING_CAPACITY - buf@.len(),
        {
            buf.push(0);
        }
        let r: KernelRingBuf = KernelRingBuf { buf, head: 0, len: 0 };
        assert(r@.bytes =~= Seq::empty());
        r
    }

    fn push_byte(&mut self, b: u8)
        requires
            old(self).well_formed(),
            old(self)@.bytes.len() < KRING_CAPACITY,
        ensures
            final(self).well_formed(),
            final(self)@ == (Ring { bytes: old(self)@.bytes.push(b), ..old(self)@ }),
    {
        let ghost v0 = self@.bytes;
        let tail: usize = (self.head + self.len) % KRING_CAPACITY;
        self.buf.set(tail, b);
        self.len = self.len + 1;
        assert(self@.bytes =~= v0.push(b));
    }

    fn read_byte(&self, offset: usize) -> (r: u8)
        requires
            self.well_formed(),
            offset < self@.bytes.len(),
        ensures
            r == self@.bytes[offset as int],
    {
        self.buf[(self.head + offset) % KRING_CAPACITY]
    }

    /// Drops the oldest message.
    fn drop_oldest(&mut self)
        requires
            old(self).well_formed(),
        ensures
            final(self).well_formed(),
            final(self)@ == old(self)@.oldest_dropped(),
    {
        let ghost v0 = self@.bytes;
        if self.len < 2 {
            self.head = 0;
            self.len = 0;
            assert(self@.bytes =~= Seq::empty());
            return;
        }
        let msg_len: usize = self.read_byte(0) as usize + 256 * (self.read_byte(1) as usize);
        let total: usize = 2 + msg_len;
        let advance: usize = if total < self.len { total } else { self.len };
        self.head = (self.head + advance) % KRING_CAPACITY;
        self.len = self.len - advance;
        assert(self@.bytes =~= v0.skip(advance as int));
        assert(total >= v0.len() ==> self@.bytes =~= Seq::empty());
    }

    /// Adds a message, at the cost of the oldest ones. One that does not fit at all changes nothing.
    pub fn push_str(&mut self, s: &Vec<u8>)
        requires
            old(self).well_formed(),
        ensures
            final(self).well_formed(),
            final(self)@ == old(self)@.pushed(s@),
    {
        let n: usize = s.len();
        if n > KRING_CAPACITY - 2 {
            return;
        }
        let needed: usize = 2 + n;
        while KRING_CAPACITY - self.len < needed
            invariant
                self.well_formed(),
                2 <= needed <= KRING_CAPACITY,
                old(self)@.with_room(needed as int) == self@.with_room(needed as int),
            decreases self@.bytes.len(),
        {
            self.drop_oldest();
        }
        let ghost c = self@;
        assert(c == old(self)@.with_room(needed as int));
        self.push_byte((n % 256) as u8);
        self.push_byte((n / 256) as u8);
        assert(self@.bytes =~= c.bytes + prefix(n as int));
        let mut i: usize = 0;
        assert(c.bytes + prefix(n as int) + s@.take(0) =~= self@.bytes);
        while i < n
            invariant
                self.well_formed(),
                i <= n,
                n == s@.len(),
                c.bytes.len() + 2 + n <= KRING_CAPACITY,
                self@ == (Ring { bytes: c.bytes + prefix(n as int) + s@.take(i as int), ..c }),
            decreases n - i,
        {
            self.push_byte(s[i]);
            assert(self@.bytes =~= c.bytes + prefix(n as int) + s@.take(i + 1));
            i = i + 1;
        }
        assert(s@.take(i as int) =~= s@);
    }

    /// All messages, oldest first, as far as they are shown.
    pub fn kring_log_for_each(&self) -> (r: Vec<Vec<u8>>)
        requires
            self.well_formed(),
        ensures
            crate::util::strings(r@) == all_shown(self@.bytes),
    {
        let mut out: Vec<Vec<u8>> = Vec::new();
        let mut pos: usize = 0;
        let ghost c = self@.bytes;
        assert(c.skip(0) =~= c);
        assert(crate::util::strings(out@) + all_shown(c) =~= all_shown(c));
        let mut going: bool = true;
        while going && self.len - pos >= 2
            invariant
                self.well_formed(),
                c == self@.bytes,
                pos <= self.len,
                going ==> crate::util::strings(out@) + all_shown(c.skip(pos as int)) == all_shown(c),
                !going ==> crate::util::strings(out@) == all_shown(c),
            decreases (self.len - pos) + (if going { 1int } else { 0int }),
        {
            let ghost d = c.skip(pos as int);
            let msg_len: usize = self.read_byte(pos) as usize + 256 * (self.read_byte(pos + 1) as usize);
            assert(d[0] == c[pos as int] && d[1] == c[pos + 1]);
            assert(msg_len == elf::le16(d, 0));
            if msg_len > self.len - pos - 2 {
                going = false;
                assert(crate::util::strings(out@) + Seq::empty() =~= crate::util::strings(out@));
            } else {
                let n: usize = if msg_len < MAX_MSG_COPY { msg_len } else { MAX_MSG_COPY };
                let t: Vec<u8> = self.read_bytes(pos + 2, n);
                let ghost m = d.subrange(2, 2 + msg_len);
                assert(c.subrange(pos + 2, pos + 2 + n) =~= (if m.len() <= MAX_MSG_COPY {
                    m
                } else {
                    m.take(MAX_MSG_COPY as int)
                }));
                let ghost before = crate::util::strings(out@);
                assert(d.skip(2 + msg_len) =~= c.skip(pos + 2 + msg_len));
                let ghost rest = all_shown(c.skip(pos + 2 + msg_len));
                if is_utf8(&t) {
                    let ghost tv = t@;
                    out.push(t);
                    assert(crate::util::strings(out@) =~= before.push(tv));
                    assert(before + (seq![tv] + rest) =~= before.push(tv) + rest);
                }
                pos = pos + 2 + msg_len;
            }
        }
        if going {
            assert(crate::util::strings(out@) + Seq::empty() =~= crate::util::strings(out@));
        }
        out
    }

    fn read_bytes(&self, from: usize, n: usize) -> (r: Vec<u8>)
        requires
            self.well_formed(),
            from + n <= self@.bytes.len(),
        ensures
            r@ == self@.bytes.subrange(from as int, from + n),
    {
        let mut t: Vec<u8> = Vec::new();
        let mut i: usize = 0;
        let ghost c = self@.bytes;
        while i < n
            invariant
                self.well_formed(),
                c == self@.bytes,
                from + n <= c.len(),
                i <= n,
                t@ == c.subrange(from as int, from + i),
            decreases n - i,
        {
            t.push(self.read_byte(from + i));
            assert(c.subrange(from as int, from + i + 1) =~= c.subrange(from as int, from + i).push(c[from + i]));
            i = i + 1;
        }
        t
    }
}

proof fn lemma_whole_drop(c: Seq<u8>)
    requires
        whole(c),
        c.len() > 0,
    ensures
        whole(drop_first(c)),
        drop_first(c).len() < c.len(),
        messages(c).len() > 0,
        messages(drop_first(c)) == messages(c).skip(1),
{
    let n = elf::le16(c, 0);
    let d = c.skip(2 + n);
    if 2 + n >= c.len() {
        assert(d =~= Seq::empty());
    }
    assert(drop_first(c) =~= d);
    assert((seq![c.subrange(2, 2 + n)] + messages(d)).skip(1) =~= messages(d));
}

/// How much room messages take.
pub open spec fn room_for(m: Seq<Seq<u8>>) -> int
    decreases m.len(),
{
    if m.len() == 0 { 0 } else { 2 + m[0].len() + room_for(m.skip(1)) }
}

/// Whole messages take all the room there is.
proof fn lemma_room(c: Seq<u8>)
    requires
        whole(c),
    ensures
        room_for(messages(c)) == c.len(),
    decreases c.len(),
{
    if c.len() > 0 {
        let n = elf::le16(c, 0);
        lemma_room(c.skip(2 + n));
        assert(messages(c).skip(1) =~= messages(c.skip(2 + n)));
        assert(messages(c)[0] == c.subrange(2, 2 + n));
    }
}

/// The messages that stay are the newest ones, and no more are dropped than have to be.
proof fn lemma_made_room(c: Seq<u8>, needed: int) -> (k: nat)
    requires
        whole(c),
        needed <= KRING_CAPACITY,
    ensures
        k <= messages(c).len(),
        whole(made_room(c, needed)),
        messages(made_room(c, needed)) == messages(c).skip(k as int),
        room_for(messages(c).skip(k as int)) + needed <= KRING_CAPACITY,
        forall|j: int| 0 <= j < k ==> room_for(#[trigger] messages(c).skip(j)) + needed > KRING_CAPACITY,
    decreases c.len(),
{
    lemma_room(c);
    assert(messages(c).skip(0) =~= messages(c));
    if KRING_CAPACITY - c.len() >= needed || c.len() == 0 {
        0
    } else {
        lemma_whole_drop(c);
        let k = lemma_made_room(drop_first(c), needed);
        let d = messages(drop_first(c));
        assert(messages(c).skip(1).skip(k as int) =~= messages(c).skip(k as int + 1));
        assert forall|j: int| 0 <= j < k + 1 implies room_for(#[trigger] messages(c).skip(j)) + needed > KRING_CAPACITY by {
            if j > 0 {
                assert(messages(c).skip(1).skip(j - 1) =~= messages(c).skip(j));
                assert(room_for(d.skip(j - 1)) + needed > KRING_CAPACITY);
            }
        }
        (k + 1) as nat
    }
}

proof fn lemma_ring_room(r: Ring, needed: int)
    ensures
        r.with_room(needed).bytes == made_room(r.bytes, needed),
    decreases r.bytes.len(),
{
    if !(KRING_CAPACITY - r.bytes.len() >= needed || r.bytes.len() == 0) {
        lemma_ring_room(r.oldest_dropped(), needed);
    }
}

proof fn lemma_append(c: Seq<u8>, s: Seq<u8>)
    requires
        whole(c),
        s.len() < 65536,
    ensures
        whole(c + prefix(s.len() as int) + s),
        messages(c + prefix(s.len() as int) + s) == messages(c).push(s),
    decreases c.len(),
{
    let e = c + prefix(s.len() as int) + s;
    if c.len() == 0 {
        let n = s.len() as int;
        assert(e[0] == (n % 256) as u8 && e[1] == (n / 256) as u8);
        assert(elf::le16(e, 0) == n);
        assert(e.subrange(2, 2 + n) =~= s);
        assert(e.skip(2 + n) =~= Seq::empty());
        assert(whole(e.skip(2 + n)));
        assert(messages(Seq::<u8>::empty()) =~= Seq::empty());
        assert(messages(e) =~= messages(c).push(s));
    } else {
        let n = elf::le16(c, 0);
        assert(e[0] == c[0] && e[1] == c[1]);
        let d = c.skip(2 + n);
        lemma_append(d, s);
        assert(e.skip(2 + n) =~= d + prefix(s.len() as int) + s);
        assert(e.subrange(2, 2 + n) =~= c.subrange(2, 2 + n));
        assert(messages(e) =~= messages(c).push(s));
    }
}

/// A message that fits is the newest one in the buffer. What is left of the others are the newest of
/// them, whole and in order, and as many of them as there is room for.
pub proof fn law_newest_kept(r: Ring, s: Seq<u8>)
    requires
        whole(r.bytes),
        2 + s.len() <= KRING_CAPACITY,
    ensures
        ({
            let before = messages(r.bytes);
            let after = r.pushed(s).bytes;
            &&& whole(after)
            &&& exists|k: int| {
                &&& 0 <= k <= before.len()
                &&& messages(after) == #[trigger] before.skip(k).push(s)
                &&& room_for(before.skip(k)) + 2 + s.len() <= KRING_CAPACITY
                &&& forall|j: int| 0 <= j < k ==> room_for(#[trigger] before.skip(j)) + 2 + s.len() > KRING_CAPACITY
            }
        }),
{
    let needed = 2int + s.len();
    let before = messages(r.bytes);
    lemma_ring_room(r, needed);
    let k = lemma_made_room(r.bytes, needed);
    lemma_append(made_room(r.bytes, needed), s);
    assert(messages(r.pushed(s).bytes) == before.skip(k as int).push(s));
}

/// What is read of the messages: each that is UTF-8, in its order, and of a long one the first 1024 bytes.
pub proof fn law_messages_read(c: Seq<u8>, t: Seq<u8>)
    ensures
        all_shown(c).contains(t) <==> exists|i: int| 0 <= i < messages(c).len() && vstd::utf8::valid_utf8(t)
            && t == (if (#[trigger] messages(c)[i]).len() <= 1024 { messages(c)[i] } else { messages(c)[i].take(1024) }),
    decreases c.len(),
{
    if c.len() >= 2 {
        let n = elf::le16(c, 0);
        if n <= c.len() - 2 {
            let d = c.skip(2 + n);
            let m = c.subrange(2, 2 + n);
            law_messages_read(d, t);
            let rest = all_shown(d);
            let all = all_shown(c);
            assert(messages(c)[0] == m);
            assert forall|i: int| 0 <= i < messages(d).len() implies messages(c)[i + 1] == #[trigger] messages(d)[i] by {}
            if let Some(x) = shown(m) {
                assert(all == seq![x] + rest);
                assert(all[0] == x);
                if rest.contains(t) {
                    let k = choose|k: int| 0 <= k < rest.len() && rest[k] == t;
                    assert(all[k + 1] == t);
                }
                if all.contains(t) && !rest.contains(t) {
                    let k = choose|k: int| 0 <= k < all.len() && all[k] == t;
                    if k > 0 {
                        assert(rest[k - 1] == t);
                    }
                    assert(messages(c)[0] == m);
                }
            }
            if rest.contains(t) {
                let i = choose|i: int| 0 <= i < messages(d).len() && vstd::utf8::valid_utf8(t)
                    && t == (if (#[trigger] messages(d)[i]).len() <= 1024 { messages(d)[i] } else { messages(d)[i].take(1024) });
                assert(messages(c)[i + 1] == messages(d)[i]);
            }
            if exists|i: int| 0 <= i < messages(c).len() && vstd::utf8::valid_utf8(t)
                && t == (if (#[trigger] messages(c)[i]).len() <= 1024 { messages(c)[i] } else { messages(c)[i].take(1024) }) {
                let i = choose|i: int| 0 <= i < messages(c).len() && vstd::utf8::valid_utf8(t)
                    && t == (if (#[trigger] messages(c)[i]).len() <= 1024 { messages(c)[i] } else { messages(c)[i].take(1024) });
                if i > 0 {
                    assert(messages(c)[i] == messages(d)[i - 1]);
                }
            }
        }
    }
}

} // verus!
